use vstd::prelude::*;
use crate::ins::{clone_code, BfCode, BfIns, InsV};
use crate::ins::{
    fmt_code_v, fmt_ins_v, ins_len_v, ins_one_len_v, lemma_fmt_concat,
    lemma_fmt_singleton, lemma_ins_len_concat, lemma_ins_len_singleton, lemma_view_index,
    lemma_view_len, lemma_view_push, view_of_ins, view_of_ins_seq,
};

verus! {

/// Surface-level cleanup pass: drops a loop that directly follows a
/// loop, and folds adjacent cell changes and adjacent pointer moves.
#[derive(Debug, Clone, Copy, PartialEq, Eq)]
pub struct PassUseless;

/// True of a wrapping cell change.
pub open spec fn is_cell(i: InsV) -> bool {
    i is Add || i is Sub
}

/// True of a pointer move.
pub open spec fn is_ptr(i: InsV) -> bool {
    i is PtrAdd || i is PtrSub
}

/// The wrapping cell change an instruction makes.
pub open spec fn cell_change(i: InsV) -> u8 {
    match i {
        InsV::Add(v) => v,
        InsV::Sub(v) => (0 as u8).wrapping_sub(v),
        _ => 0,
    }
}

/// The pointer move an instruction makes.
pub open spec fn ptr_change(i: InsV) -> int {
    match i {
        InsV::PtrAdd(n) => n as int,
        InsV::PtrSub(n) => -(n as int),
        _ => 0,
    }
}

/// The single instruction realizing a non-zero wrapping cell change.
pub open spec fn cell_ins(change: u8) -> InsV {
    if change < 127 {
        InsV::Add(change)
    } else {
        InsV::Sub((0 as u8).wrapping_sub(change))
    }
}

/// The single instruction realizing a non-zero pointer move.
pub open spec fn ptr_ins(change: int) -> InsV {
    if change > 0 {
        InsV::PtrAdd(change as nat)
    } else {
        InsV::PtrSub((-change) as nat)
    }
}

/// Sweep state step: the instructions still to process and the cleaned
/// prefix. The first instruction is kept as it stands; afterwards a loop
/// behind a loop is dropped, adjacent cell changes and adjacent pointer
/// moves are folded, cancelling pairs vanish, and loop bodies are swept
/// recursively.
pub open spec fn sweep_go(s: Seq<InsV>, acc: Seq<InsV>) -> Seq<InsV>
    decreases s, 0int,
{
    if s.len() == 0 {
        acc
    } else {
        let rest = s.drop_first();
        let x = s[0];
        if acc.len() == 0 {
            sweep_go(rest, acc.push(x))
        } else if x is Loop && acc.last() is Loop {
            sweep_go(rest, acc)
        } else if x is Loop {
            sweep_go(rest, acc.push(InsV::Loop(sweep_of(x))))
        } else if is_cell(x) && is_cell(acc.last()) {
            let change = cell_change(x).wrapping_add(cell_change(acc.last()));
            if change == 0 {
                sweep_go(rest, acc.drop_last())
            } else {
                sweep_go(rest, acc.drop_last().push(cell_ins(change)))
            }
        } else if is_ptr(x) && is_ptr(acc.last()) {
            let change = ptr_change(x) + ptr_change(acc.last());
            if change == 0 {
                sweep_go(rest, acc.drop_last())
            } else {
                sweep_go(rest, acc.drop_last().push(ptr_ins(change)))
            }
        } else {
            sweep_go(rest, acc.push(x))
        }
    }
}

/// The sweep of a loop's body.
pub open spec fn sweep_of(x: InsV) -> Seq<InsV>
    decreases x, 2int,
{
    match x {
        InsV::Loop(body) => sweep_top(body),
        _ => Seq::empty(),
    }
}

/// Sweep a whole program.
pub open spec fn sweep_top(s: Seq<InsV>) -> Seq<InsV>
    decreases s, 1int,
{
    sweep_go(s, Seq::empty())
}

/// Total count of top-level pointer moves, in cells.
pub open spec fn ptr_w_ins(i: InsV) -> int {
    match i {
        InsV::PtrAdd(n) => n as int,
        InsV::PtrSub(n) => n as int,
        _ => 0,
    }
}

/// Total count of top-level pointer moves of a program, in cells.
pub open spec fn ptr_weight(s: Seq<InsV>) -> int
    decreases s.len(),
{
    if s.len() == 0 {
        0
    } else {
        ptr_weight(s.drop_last()) + ptr_w_ins(s.last())
    }
}

/// Pointer weight is non-negative and adds up over concatenation.
pub proof fn lemma_ptr_weight_concat(a: Seq<InsV>, b: Seq<InsV>)
    ensures
        ptr_weight(a + b) == ptr_weight(a) + ptr_weight(b),
        ptr_weight(b) >= 0,
    decreases b.len(),
{
    if b.len() == 0 {
        assert(a + b =~= a);
        lemma_ptr_weight_nonneg(a);
    } else {
        lemma_ptr_weight_concat(a, b.drop_last());
        assert((a + b).drop_last() =~= a + b.drop_last());
        assert((a + b).last() == b.last());
    }
}

/// Pointer weight is non-negative.
pub proof fn lemma_ptr_weight_nonneg(s: Seq<InsV>)
    ensures
        ptr_weight(s) >= 0,
    decreases s.len(),
{
    if s.len() > 0 {
        lemma_ptr_weight_nonneg(s.drop_last());
    }
}

/// A one-instruction program weighs as that instruction.
pub proof fn lemma_ptr_weight_singleton(i: InsV)
    ensures
        ptr_weight(seq![i]) == ptr_w_ins(i),
{
    assert(seq![i].len() == 1);
    assert(seq![i].last() == i);
    assert(seq![i].drop_last() =~= Seq::<InsV>::empty());
    assert(ptr_weight(Seq::<InsV>::empty()) == 0);
    assert(ptr_weight(seq![i]) == ptr_weight(seq![i].drop_last()) + ptr_w_ins(seq![i].last()));
}

/// No program's pointer weight exceeds its length in characters.
pub proof fn lemma_ptr_weight_le_fmt(s: Seq<InsV>)
    ensures
        ptr_weight(s) <= fmt_code_v(s).len(),
    decreases s.len(),
{
    if s.len() > 0 {
        lemma_ptr_weight_le_fmt(s.drop_last());
        assert(fmt_code_v(s) == fmt_code_v(s.drop_last()) + fmt_ins_v(s.last()));
        match s.last() {
            InsV::PtrAdd(n) => {
                assert(fmt_ins_v(s.last()).len() == n);
            },
            InsV::PtrSub(n) => {
                assert(fmt_ins_v(s.last()).len() == n);
            },
            _ => {
                assert(ptr_w_ins(s.last()) == 0);
            },
        }
    }
}

/// The sweep never adds instructions.
pub proof fn lemma_sweep_len(s: Seq<InsV>, acc: Seq<InsV>)
    ensures
        ins_len_v(sweep_go(s, acc)) <= ins_len_v(acc) + ins_len_v(s),
    decreases s,
{
    if s.len() > 0 {
        let rest = s.drop_first();
        let x = s[0];
        assert(s =~= seq![x] + rest);
        lemma_ins_len_concat(seq![x], rest);
        lemma_ins_len_singleton(x);
        if acc.len() == 0 {
            lemma_ins_push_len(acc, x);
            lemma_sweep_len(rest, acc.push(x));
        } else if x is Loop && acc.last() is Loop {
            lemma_sweep_len(rest, acc);
        } else if x is Loop {
            match x {
                InsV::Loop(body) => {
                    lemma_sweep_len(body, Seq::empty());
                },
                _ => {},
            }
            lemma_ins_push_len(acc, InsV::Loop(sweep_of(x)));
            lemma_sweep_len(rest, acc.push(InsV::Loop(sweep_of(x))));
        } else if is_cell(x) && is_cell(acc.last()) {
            let change = cell_change(x).wrapping_add(cell_change(acc.last()));
            lemma_ins_drop_len(acc);
            if change == 0 {
                lemma_sweep_len(rest, acc.drop_last());
            } else {
                lemma_ins_push_len(acc.drop_last(), cell_ins(change));
                lemma_sweep_len(rest, acc.drop_last().push(cell_ins(change)));
            }
        } else if is_ptr(x) && is_ptr(acc.last()) {
            let change = ptr_change(x) + ptr_change(acc.last());
            lemma_ins_drop_len(acc);
            if change == 0 {
                lemma_sweep_len(rest, acc.drop_last());
            } else {
                lemma_ins_push_len(acc.drop_last(), ptr_ins(change));
                lemma_sweep_len(rest, acc.drop_last().push(ptr_ins(change)));
            }
        } else {
            lemma_ins_push_len(acc, x);
            lemma_sweep_len(rest, acc.push(x));
        }
    }
}

/// Instruction count distributes over appending one instruction.
pub proof fn lemma_ins_push_len(s: Seq<InsV>, x: InsV)
    ensures
        ins_len_v(s.push(x)) == ins_len_v(s) + ins_one_len_v(x),
{
    assert(s.push(x).drop_last() =~= s);
    assert(s.push(x).last() == x);
}

/// Dropping the last instruction drops its count.
pub proof fn lemma_ins_drop_len(s: Seq<InsV>)
    requires
        s.len() > 0,
    ensures
        ins_len_v(s) == ins_len_v(s.drop_last()) + ins_one_len_v(s.last()),
{
}

/// Sweep one code block: the body of the pass.
fn useless_code(code: &BfCode) -> (r: BfCode)
    requires
        fmt_code_v(code@).len() <= isize::MAX,
    ensures
        r@ == sweep_top(code@),
    decreases *code,
{
    let ghost full = code@;
    let ghost wmax = fmt_code_v(full).len() as int;
    let mut acc: Vec<BfIns> = Vec::new();
    let mut i: usize = 0;
    proof {
        lemma_view_len(code.0@);
        lemma_ptr_weight_le_fmt(full);
        assert(full.subrange(0, full.len() as int) =~= full);
        assert(view_of_ins_seq(acc@) =~= Seq::<InsV>::empty());
        lemma_ptr_weight_concat(Seq::empty(), full);
    }
    while i < code.0.len()
        invariant
            i <= code.0@.len(),
            full == view_of_ins_seq(code.0@),
            full.len() == code.0@.len(),
            wmax <= isize::MAX,
            fmt_code_v(full.subrange(i as int, full.len() as int)).len() <= wmax,
            ptr_weight(view_of_ins_seq(acc@)) + ptr_weight(
                full.subrange(i as int, full.len() as int),
            ) <= wmax,
            ptr_weight(view_of_ins_seq(acc@)) >= 0,
            ptr_weight(full.subrange(i as int, full.len() as int)) >= 0,
            sweep_go(
                full.subrange(i as int, full.len() as int),
                view_of_ins_seq(acc@),
            ) == sweep_top(full),
        decreases code.0@.len() - i,
    {
        let ghost rem = full.subrange(i as int, full.len() as int);
        let ghost rest = full.subrange(i + 1, full.len() as int);
        let ghost accv = view_of_ins_seq(acc@);
        proof {
            lemma_view_index(code.0@, i as int);
            assert(rem[0] == full[i as int]);
            assert(rem.drop_first() =~= rest);
            assert(rem =~= seq![rem[0]] + rest);
            lemma_ptr_weight_concat(seq![rem[0]], rest);
            lemma_ptr_weight_singleton(rem[0]);
            lemma_ptr_weight_nonneg(rest);
            lemma_fmt_concat(seq![rem[0]], rest);
            lemma_fmt_singleton(rem[0]);
        }
        let first = acc.len() == 0;
        match &code.0[i] {
            BfIns::Loop(inner) => {
                if first {
                    let ic = clone_code(inner);
                    let ghost a0 = acc@;
                    acc.push(BfIns::Loop(ic));
                    proof {
                        lemma_view_push(a0, acc@.last());
                        assert(a0.push(acc@.last()) =~= acc@);
                        assert(view_of_ins(acc@.last()) == rem[0]);
                        lemma_ptr_weight_singleton(rem[0]);
                        assert(accv.push(rem[0]).drop_last() =~= accv);
                        assert(ptr_weight(accv.push(rem[0])) == ptr_weight(accv));
                    }
                } else {
                    let prev_is_loop = match &acc[acc.len() - 1] {
                        BfIns::Loop(_) => true,
                        _ => false,
                    };
                    proof {
                        lemma_view_index(acc@, acc@.len() - 1);
                        assert(prev_is_loop == (accv.last() is Loop));
                    }
                    if !prev_is_loop {
                        proof {
                            assert(decreases_to!(code.0 => code.0@));
                            assert(decreases_to!(code.0@ => code.0@[i as int]));
                            assert(decreases_to!(code.0@[i as int] => *inner));
                            assert(fmt_ins_v(rem[0]).len() == 2 + fmt_code_v(inner@).len());
                        }
                        let ic = useless_code(inner);
                        let ghost a0 = acc@;
                        let ghost gv = InsV::Loop(ic@);
                        acc.push(BfIns::Loop(ic));
                        proof {
                            lemma_view_push(a0, acc@.last());
                            assert(a0.push(acc@.last()) =~= acc@);
                            assert(view_of_ins(acc@.last()) == gv);
                            assert(gv == InsV::Loop(sweep_of(rem[0])));
                            assert(accv.push(gv).drop_last() =~= accv);
                            assert(ptr_weight(accv.push(gv)) == ptr_weight(accv));
                        }
                    }
                }
            },
            other => {
                let x = crate::ins::copy_flat(other);
                let ghost xv = view_of_ins(x);
                proof {
                    assert(xv == rem[0]);
                }
                if first {
                    let ghost a0 = acc@;
                    acc.push(x);
                    proof {
                        lemma_view_push(a0, acc@.last());
                        assert(a0.push(acc@.last()) =~= acc@);
                        assert(accv.push(xv).drop_last() =~= accv);
                        lemma_ptr_weight_singleton(xv);
                    }
                } else {
                    let x_is_cell = match &x {
                        BfIns::Add(_) => true,
                        BfIns::Sub(_) => true,
                        _ => false,
                    };
                    let x_is_ptr = match &x {
                        BfIns::PtrAdd(_) => true,
                        BfIns::PtrSub(_) => true,
                        _ => false,
                    };
                    let prev_is_cell = match &acc[acc.len() - 1] {
                        BfIns::Add(_) => true,
                        BfIns::Sub(_) => true,
                        _ => false,
                    };
                    let prev_is_ptr = match &acc[acc.len() - 1] {
                        BfIns::PtrAdd(_) => true,
                        BfIns::PtrSub(_) => true,
                        _ => false,
                    };
                    proof {
                        lemma_view_index(acc@, acc@.len() - 1);
                        assert(x_is_cell == is_cell(xv));
                        assert(x_is_ptr == is_ptr(xv));
                        assert(prev_is_cell == is_cell(accv.last()));
                        assert(prev_is_ptr == is_ptr(accv.last()));
                        assert(accv.drop_last() =~= view_of_ins_seq(acc@.drop_last())) by {
                            crate::ins::lemma_view_subrange(acc@, 0, acc@.len() - 1);
                            assert(acc@.subrange(0, acc@.len() - 1) =~= acc@.drop_last());
                            assert(view_of_ins_seq(acc@).subrange(0, acc@.len() - 1)
                                =~= accv.drop_last());
                        }
                        assert(ptr_weight(accv) == ptr_weight(accv.drop_last()) + ptr_w_ins(
                            accv.last(),
                        ));
                        lemma_ptr_weight_nonneg(accv.drop_last());
                    }
                    if x_is_cell && prev_is_cell {
                        let ghost a_pre = acc@;
                        let prev = acc.pop().unwrap();
                        proof {
                            assert(acc@ =~= a_pre.drop_last());
                            assert(view_of_ins_seq(acc@) == accv.drop_last());
                        }
                        let cur_change: u8 = match &x {
                            BfIns::Add(v) => *v,
                            BfIns::Sub(v) => (0 as u8).wrapping_sub(*v),
                            _ => 0,
                        };
                        let prev_change: u8 = match &prev {
                            BfIns::Add(v) => *v,
                            BfIns::Sub(v) => (0 as u8).wrapping_sub(*v),
                            _ => 0,
                        };
                        proof {
                            assert(view_of_ins(prev) == accv.last());
                            assert(cur_change == cell_change(xv));
                            assert(prev_change == cell_change(accv.last()));
                        }
                        let change = cur_change.wrapping_add(prev_change);
                        if change != 0 {
                            let ghost a1 = acc@;
                            if change < 127 {
                                acc.push(BfIns::Add(change));
                            } else {
                                acc.push(BfIns::Sub((0 as u8).wrapping_sub(change)));
                            }
                            proof {
                                lemma_view_push(a1, acc@.last());
                                assert(a1.push(acc@.last()) =~= acc@);
                                assert(view_of_ins(acc@.last()) == cell_ins(change));
                                assert(accv.drop_last().push(cell_ins(change)).drop_last()
                                    =~= accv.drop_last());
                                assert(ptr_w_ins(cell_ins(change)) == 0);
                            }
                        }
                    } else if x_is_ptr && prev_is_ptr {
                        let ghost a_pre = acc@;
                        let prev = acc.pop().unwrap();
                        proof {
                            assert(acc@ =~= a_pre.drop_last());
                            assert(view_of_ins_seq(acc@) == accv.drop_last());
                            assert(view_of_ins(prev) == accv.last());
                            assert(ptr_w_ins(rem[0]) <= ptr_weight(rem));
                            assert(ptr_w_ins(accv.last()) <= ptr_weight(accv));
                        }
                        let cur_ptr: isize = match &x {
                            BfIns::PtrAdd(v) => *v as isize,
                            BfIns::PtrSub(v) => -(*v as isize),
                            _ => 0,
                        };
                        let prev_ptr: isize = match &prev {
                            BfIns::PtrAdd(v) => *v as isize,
                            BfIns::PtrSub(v) => -(*v as isize),
                            _ => 0,
                        };
                        proof {
                            assert(cur_ptr as int == ptr_change(xv));
                            assert(prev_ptr as int == ptr_change(accv.last()));
                        }
                        let change = cur_ptr + prev_ptr;
                        if change != 0 {
                            let ghost a1 = acc@;
                            if change > 0 {
                                acc.push(BfIns::PtrAdd(change as usize));
                            } else {
                                acc.push(BfIns::PtrSub((-change) as usize));
                            }
                            proof {
                                lemma_view_push(a1, acc@.last());
                                assert(a1.push(acc@.last()) =~= acc@);
                                assert(view_of_ins(acc@.last()) == ptr_ins(change as int));
                                assert(accv.drop_last().push(
                                    ptr_ins(change as int),
                                ).drop_last() =~= accv.drop_last());
                                assert(ptr_w_ins(ptr_ins(change as int)) <= ptr_w_ins(xv)
                                    + ptr_w_ins(accv.last()));
                            }
                        }
                    } else {
                        let ghost a0 = acc@;
                        acc.push(x);
                        proof {
                            lemma_view_push(a0, acc@.last());
                            assert(a0.push(acc@.last()) =~= acc@);
                            assert(accv.push(xv).drop_last() =~= accv);
                            lemma_ptr_weight_singleton(xv);
                        }
                    }
                }
            },
        }
        proof {
            assert(sweep_go(rest, view_of_ins_seq(acc@)) == sweep_top(full));
            assert(full.subrange(i + 1, full.len() as int) == rest);
            assert(ptr_weight(view_of_ins_seq(acc@)) + ptr_weight(rest) <= wmax);
            lemma_ptr_weight_nonneg(view_of_ins_seq(acc@));
        }
        i = i + 1;
    }
    proof {
        assert(full.subrange(full.len() as int, full.len() as int) =~= Seq::<InsV>::empty());
    }
    BfCode(acc)
}

impl PassUseless {
    /// Run the cleanup sweep; report a change exactly when the
    /// instruction count went down.
    pub fn optimize(&self, code: BfCode, is_changed: &mut bool) -> (r: BfCode)
        requires
            fmt_code_v(code@).len() <= isize::MAX,
            ins_len_v(code@) <= usize::MAX,
        ensures
            r@ == sweep_top(code@),
            *final(is_changed) == (*old(is_changed) || ins_len_v(r@) < ins_len_v(code@)),
    {
        let ghost cv = code@;
        let n0 = code.ins_len();
        let r = useless_code(&code);
        proof {
            lemma_sweep_len(cv, Seq::empty());
        }
        let n1 = r.ins_len();
        if n1 < n0 {
            *is_changed = true;
        }
        r
    }
}

} // verus!
