use bf_tools::ins::BfCode;
use bf_tools::ins_parser::parse_str;
use bf_tools::interpreter::bf2interp::bf_to_interp;
use bf_tools::interpreter::{BytesReader, BytesWriter, InterpCode, InterpIns, Interpreter};
use bf_tools::optimizer::opt_ins::OptBlock;
use bf_tools::optimizer::{OptCode, OptState};

fn lift(s: &str) -> OptCode {
    OptCode::from_bf(&parse_str(s).unwrap())
}

fn optimized(s: &str) -> OptCode {
    let mut state = OptState::builder().add_default_passes().build();
    state.run_passes(lift(s))
}

fn lowered(c: &OptCode) -> String {
    BfCode::from_opt(c).to_chars().into_iter().collect()
}

fn run_collect(code: &InterpCode, input: &[u8]) -> (Interpreter<BytesReader, BytesWriter>, bool) {
    let mut it = Interpreter::builder()
        .set_stdin(BytesReader::new(input.to_vec()))
        .set_stdout(BytesWriter::new())
        .build();
    let finished = it.run_steps(code, 1_000_000).unwrap();
    (it, finished)
}

#[test]
fn full_pipeline_drops_dead_loop_and_zero_runs() {
    let c = optimized("+[>>+<<]++++++[-][>,]-><-");
    assert_eq!(lowered(&c), "+[>>+<<]++++++[-]--");
}

#[test]
fn adds_and_subs_cancel_to_empty() {
    let c = lift("+++---");
    assert_eq!(c.ins_len(), 0);
    assert_eq!(lowered(&c), "");
}

#[test]
fn moves_cancel_to_empty() {
    let c = lift(">><<");
    assert_eq!(c.0.len(), 0);
    assert_eq!(lowered(&c), "");
}

#[test]
fn zero_loop_becomes_store() {
    let ic = bf_to_interp(&lift("[-]"));
    assert_eq!(ic.0, vec![InterpIns::Store { val: 0, offset: 0 }]);
}

#[test]
fn transfer_loop_moves_cell() {
    let ic = bf_to_interp(&lift("[->+<]"));
    assert_eq!(
        ic.0,
        vec![
            InterpIns::PtrAdd { offset: 1 },
            InterpIns::SetInputOffset { new_input_offset: 1 },
            InterpIns::AddMove { mul: 1, to: 0 },
            InterpIns::PtrSub { offset: 1 },
        ]
    );
    let mut it = Interpreter::builder().build();
    it.tape = vec![5, 0];
    let finished = it.run_steps(&ic, 1_000).unwrap();
    assert!(finished);
    assert_eq!(it.tape[0], 0);
    assert_eq!(it.tape[1], 5);
    assert_eq!(it.data_pointer, 0);
}

#[test]
fn prints_letter_a() {
    let ic = bf_to_interp(&optimized("++++++++[>++++++++<-]>+."));
    let (it, finished) = run_collect(&ic, &[]);
    assert!(finished);
    assert_eq!(it.io_out.into_bytes(), vec![65u8]);
    assert_eq!(it.tape[1], 65);
}

#[test]
fn empty_loop_spins_forever() {
    let ic = bf_to_interp(&lift("[]"));
    assert_eq!(ic.0, vec![InterpIns::Jmp { dest: 0 }]);
    let mut it = Interpreter::builder().build();
    it.tape = vec![1];
    let finished = it.run_steps(&ic, 10_000).unwrap();
    // termination comes from the external step bound, not the interpreter
    assert!(!finished);
    assert_eq!(it.tape[0], 1);
}

#[test]
fn lift_lower_round_trip_same_behaviour() {
    for (src, input) in
        [(",[->+<]>.", b"\x2a".as_slice()), ("++++++++[>++++++++<-]>+.", b"".as_slice())] {
        let once = bf_to_interp(&lift(src));
        let twice = bf_to_interp(&lift(&lowered(&lift(src))));
        let (it1, f1) = run_collect(&once, input);
        let (it2, f2) = run_collect(&twice, input);
        assert!(f1 && f2);
        let out1 = it1.io_out.into_bytes();
        let out2 = it2.io_out.into_bytes();
        assert_eq!(out1, out2);
        let n = it1.tape.len().min(it2.tape.len());
        assert_eq!(it1.tape[..n], it2.tape[..n]);
    }
}

#[test]
fn pass_is_idempotent_and_reports_no_change_at_fixed_point() {
    let mut state = OptState::builder().add_default_passes().build();
    let first = state.run_passes(lift("+[>>+<<]++++++[-][>,]-><-"));
    let text1 = lowered(&first);
    let mut changed = false;
    let second = bf_tools::optimizer::group_instructions::GroupInstructions
        .optimize(first, &mut changed);
    assert!(!changed);
    assert_eq!(lowered(&second), text1);
}

#[test]
fn pass_never_grows_instruction_count() {
    for src in ["+[>>+<<]++++++[-][>,]-><-", "+++---", "[[-]][[-]]", ">.<,[->>+<<]"] {
        let before = lift(src);
        let n0 = before.ins_len();
        let mut state = OptState::builder().add_default_passes().build();
        let after = state.run_passes(before);
        assert!(after.ins_len() <= n0);
    }
}

#[test]
fn pipeline_output_has_no_zero_delta_and_no_adjacent_loops() {
    fn check(c: &OptCode) {
        for (i, b) in c.0.iter().enumerate() {
            if let OptBlock::Block(bb) = b {
                for j in 0..bb.ins.len() {
                    assert_ne!(bb.ins.entry_at(j).1, 0);
                }
            }
            if let OptBlock::Loop(inner) = b {
                check(inner);
                if i + 1 < c.0.len() {
                    assert!(!matches!(c.0[i + 1], OptBlock::Loop(_)));
                }
            }
        }
    }
    let c = optimized("+[>>+<<][,.]++--[-][>,]-><-[[+]][[-]]");
    check(&c);
}

#[test]
fn emitted_jumps_stay_in_range() {
    let ic = bf_to_interp(&optimized(",[>,[-<+>]<]>."));
    let n = ic.0.len() as u32;
    for op in &ic.0 {
        match op {
            InterpIns::Jmp { dest } | InterpIns::JmpT { dest } | InterpIns::JmpF { dest } => {
                assert!(*dest <= n);
            },
            _ => {},
        }
    }
}

#[test]
fn offset_and_side_effects() {
    let c = lift(">>+<");
    assert_eq!(c.offset(), Some(1));
    assert!(!c.has_side_effects());
    let c2 = lift("[>]+");
    assert_eq!(c2.offset(), None);
    let c3 = lift("[-]>.");
    assert_eq!(c3.offset(), Some(1));
    assert!(c3.has_side_effects());
}

#[test]
fn getchar_past_end_of_input_reports_io_error() {
    let ic = bf_to_interp(&lift(",,"));
    let mut it = Interpreter::builder()
        .set_stdin(BytesReader::new(vec![7]))
        .set_stdout(BytesWriter::new())
        .build();
    let r = it.run_steps(&ic, 1_000);
    assert!(matches!(r, Err(bf_tools::interpreter::InterpreteError::IOError(_))));
    assert_eq!(it.tape[0], 7);
}

#[test]
fn pointer_underflow_is_reported() {
    let ic = bf_to_interp(&lift("<"));
    let mut it = Interpreter::builder().build();
    let r = it.run_steps(&ic, 1_000);
    assert!(matches!(r, Err(bf_tools::interpreter::InterpreteError::DataPointerUnderflow)));
}

#[test]
fn reset_clears_tape_and_pointer() {
    let ic = bf_to_interp(&lift("+>+"));
    let mut it = Interpreter::builder().build();
    assert!(it.run_steps(&ic, 1_000).unwrap());
    assert_eq!(it.data_pointer, 1);
    it.reset();
    assert_eq!(it.data_pointer, 0);
    assert!(it.tape.is_empty());
}

#[test]
fn bad_offset_is_reported() {
    let code = InterpCode(vec![InterpIns::Store { val: 1, offset: 5 }]);
    let mut it = Interpreter::builder().build();
    let r = it.run_steps(&code, 1_000);
    assert!(matches!(r, Err(bf_tools::interpreter::InterpreteError::InvalidOffset)));
}

#[test]
fn default_builder_reads_empty_input() {
    let ic = bf_to_interp(&lift(","));
    let mut it = Interpreter::builder().build();
    let r = it.run_steps(&ic, 1_000);
    assert!(matches!(r, Err(bf_tools::interpreter::InterpreteError::IOError(_))));
}

#[test]
fn listing_matches_opcodes() {
    let ic = bf_to_interp(&lift("[-]>+."));
    assert_eq!(ic.0.len(), 4);
    assert_eq!(ic.to_text(), "set 0, [0]\nptr_add 1\nadd 1, [0]\nputchar [0]\n");
    let ic2 = bf_to_interp(&lift("++++++++++++"));
    assert_eq!(ic2.to_text(), "add 12, [0]\n");
    let ic3 = bf_to_interp(&lift("[.]"));
    assert_eq!(
        ic3.to_text(),
        "set_input_offset 0\njmp_f [input_offset], '5\nputchar [0]\nset_input_offset 0\njmp_t [input_offset], '2\n"
    );
}
