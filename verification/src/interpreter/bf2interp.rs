use vstd::prelude::*;
use super::{InterpCode, InterpIns};
use crate::optimizer::opt_ins::{
    abs_i, block_abs, deltas_abs, lemma_block_view_index, lemma_block_view_len,
    lemma_deltas_abs_index, lemma_deltas_abs_nonneg, lemma_opt_abs_index, lemma_opt_abs_nonneg,
    opt_abs_v, sorted_deltas, BlockV, IoV, OptBlock, OptCode,
};

verus! {

/// Strip redundant shells `[[x]]`: the inner loop guards the same cell,
/// so re-entering the outer shell is impossible.
pub open spec fn unwrapped(body: Seq<BlockV>) -> Seq<BlockV>
    decreases body,
{
    if body.len() == 1 {
        match body[0] {
            BlockV::Loop(inner) => unwrapped(inner),
            _ => body,
        }
    } else {
        body
    }
}

/// A loop whose body, after unwrapping, is empty: it spins forever when
/// entered.
pub open spec fn is_dead_loop(body: Seq<BlockV>) -> bool
    decreases body,
{
    if body.len() == 0 {
        true
    } else if body.len() == 1 {
        match body[0] {
            BlockV::Loop(inner) => is_dead_loop(inner),
            _ => false,
        }
    } else {
        false
    }
}

/// The canonical cell-zeroing loop `[-]` or `[+]`.
pub open spec fn is_set_loop(body: Seq<BlockV>) -> bool {
    body.len() == 1 && match body[0] {
        BlockV::Block { ptr_offset, ins } => ptr_offset == 0 && ins.len() == 1 && ins[0].0 == 0
            && (ins[0].1 == 1 || ins[0].1 == 255),
        _ => false,
    }
}

/// One or two wrapping steps of the condition cell, in either
/// direction: the cell is still driven to zero every iteration.
pub open spec fn cond_step(v: u8) -> bool {
    v == 1 || v == 2 || v == 254 || v == 255
}

/// The transfer loop family `[>++<-]`: one block, pointer-neutral, two
/// deltas, the condition cell stepped by one or two per round.
pub open spec fn is_transfer_loop(body: Seq<BlockV>) -> bool {
    body.len() == 1 && match body[0] {
        BlockV::Block { ptr_offset, ins } => ptr_offset == 0 && ins.len() == 2 && ((ins[0].0 == 0
            && cond_step(ins[0].1)) || (ins[1].0 == 0 && cond_step(ins[1].1))),
        _ => false,
    }
}

/// The pointer motion that reaches displacement `d`.
pub open spec fn move_ops(d: int) -> Seq<InterpIns> {
    if d > 0 {
        seq![InterpIns::PtrAdd { offset: d as u32 }]
    } else if d < 0 {
        seq![InterpIns::PtrSub { offset: (-d) as u32 }]
    } else {
        Seq::empty()
    }
}

/// One add per delta, in ascending offset order, addressed backwards
/// from the rightmost touched cell `m`.
pub open spec fn adds_of(ins: Seq<(int, u8)>, m: int) -> Seq<InterpIns>
    decreases ins.len(),
{
    if ins.len() == 0 {
        Seq::empty()
    } else {
        adds_of(ins.drop_last(), m).push(
            InterpIns::Add { val: ins.last().1, offset: (m - ins.last().0) as u32 },
        )
    }
}

/// A basic block: move right to the rightmost touched cell, apply the
/// deltas backwards, then realize the net displacement.
pub open spec fn basic_ops(ptr: int, ins: Seq<(int, u8)>) -> Seq<InterpIns> {
    let m = if ins.len() > 0 {
        ins.last().0
    } else {
        0
    };
    move_ops(m) + adds_of(ins, m) + move_ops(ptr - m)
}

/// An IO block: reach the offset, do the IO; a move behind the pointer
/// collapses into the opcode's own offset.
pub open spec fn io_ops(o: int, put: bool) -> Seq<InterpIns> {
    if o > 0 {
        (if put {
            seq![
                InterpIns::PtrAdd { offset: o as u32 },
                InterpIns::Putchar { offset: 0 },
                InterpIns::PtrSub { offset: o as u32 },
            ]
        } else {
            seq![
                InterpIns::PtrAdd { offset: o as u32 },
                InterpIns::Getchar { offset: 0 },
                InterpIns::PtrSub { offset: o as u32 },
            ]
        })
    } else {
        (if put {
            seq![InterpIns::Putchar { offset: (-o) as u32 }]
        } else {
            seq![InterpIns::Getchar { offset: (-o) as u32 }]
        })
    }
}

/// The fused form of a transfer loop's single block.
pub open spec fn transfer_ops(ins: Seq<(int, u8)>) -> Seq<InterpIns> {
    let off = if ins[0].0 == 0 {
        ins[1].0
    } else {
        ins[0].0
    };
    let mul = if ins[0].0 == 0 {
        ins[1].1
    } else {
        ins[0].1
    };
    let is_add = (ins[0].1 > 127) != (ins[1].1 > 127);
    if mul == 0 {
        seq![InterpIns::Store { val: 0, offset: 0 }]
    } else if off > 0 {
        seq![
            InterpIns::PtrAdd { offset: off as u32 },
            InterpIns::SetInputOffset { new_input_offset: off as u32 },
            (if is_add {
                InterpIns::AddMove { mul, to: 0 }
            } else {
                InterpIns::SubMove { mul, to: 0 }
            }),
            InterpIns::PtrSub { offset: off as u32 },
        ]
    } else {
        seq![
            InterpIns::SetInputOffset { new_input_offset: 0 },
            (if is_add {
                InterpIns::AddMove { mul, to: (-off) as u32 }
            } else {
                InterpIns::SubMove { mul, to: (-off) as u32 }
            }),
        ]
    }
}

/// The jump target carried by an instruction, if any.
pub open spec fn jump_dest(i: InterpIns) -> Option<int> {
    match i {
        InterpIns::Jmp { dest } => Some(dest as int),
        InterpIns::JmpT { dest } => Some(dest as int),
        InterpIns::JmpF { dest } => Some(dest as int),
        _ => None,
    }
}

/// An instruction with its jump target, if any, moved up by `base`.
pub open spec fn shift_one(i: InterpIns, base: int) -> InterpIns {
    match i {
        InterpIns::Jmp { dest } => InterpIns::Jmp { dest: (dest + base) as u32 },
        InterpIns::JmpT { dest } => InterpIns::JmpT { dest: (dest + base) as u32 },
        InterpIns::JmpF { dest } => InterpIns::JmpF { dest: (dest + base) as u32 },
        _ => i,
    }
}

/// A code block with every jump target moved up by `base`.
pub open spec fn shift_jumps(body: Seq<InterpIns>, base: int) -> Seq<InterpIns> {
    Seq::new(body.len(), |j: int| shift_one(body[j], base))
}

/// A general loop: test before, body, test and jump back after.
pub open spec fn general_ops(acc_len: int, body: Seq<InterpIns>) -> Seq<InterpIns> {
    seq![
        InterpIns::SetInputOffset { new_input_offset: 0 },
        InterpIns::JmpF { dest: (acc_len + 4 + body.len()) as u32 },
    ] + shift_jumps(body, acc_len + 2) + seq![
        InterpIns::SetInputOffset { new_input_offset: 0 },
        InterpIns::JmpT { dest: (acc_len + 2) as u32 },
    ]
}

/// The opcodes for one loop, standing at index `acc_len`: shells are
/// unwrapped, then the canonical shapes get their fused forms and
/// anything else becomes a framed general loop.
pub open spec fn lower_loop(body: Seq<BlockV>, acc_len: int) -> Seq<InterpIns>
    decreases body, 2int,
{
    if body.len() == 1 && body[0] is Loop {
        match body[0] {
            BlockV::Loop(inner) => lower_loop(inner, acc_len),
            _ => Seq::empty(),
        }
    } else if is_set_loop(body) {
        seq![InterpIns::Store { val: 0, offset: 0 }]
    } else if is_transfer_loop(body) {
        match body[0] {
            BlockV::Block { ptr_offset, ins } => transfer_ops(ins),
            _ => Seq::empty(),
        }
    } else {
        general_ops(acc_len, b2i_top(body))
    }
}

/// Translation state step: the blocks still to lower and the opcodes
/// emitted so far. A dead loop emits a self-jump and ends the sequence:
/// whatever follows it is unreachable.
pub open spec fn b2i_go(bs: Seq<BlockV>, acc: Seq<InterpIns>) -> Seq<InterpIns>
    decreases bs, 0int,
{
    if bs.len() == 0 {
        acc
    } else {
        let rest = bs.drop_first();
        match bs[0] {
            BlockV::Block { ptr_offset, ins } => b2i_go(rest, acc + basic_ops(ptr_offset, ins)),
            BlockV::IOIns(IoV::Putchar(o)) => b2i_go(rest, acc + io_ops(o, true)),
            BlockV::IOIns(IoV::Getchar(o)) => b2i_go(rest, acc + io_ops(o, false)),
            BlockV::Loop(body) => if is_dead_loop(body) {
                acc.push(InterpIns::Jmp { dest: acc.len() as u32 })
            } else {
                b2i_go(rest, acc + lower_loop(body, acc.len() as int))
            },
        }
    }
}

/// Translate a whole code block.
pub open spec fn b2i_top(bs: Seq<BlockV>) -> Seq<InterpIns>
    decreases bs, 1int,
{
    b2i_go(bs, Seq::empty())
}

/// An upper bound on the opcodes one block can produce.
pub open spec fn b2i_block_weight(b: BlockV) -> int
    decreases b,
{
    match b {
        BlockV::Block { ptr_offset, ins } => ins.len() as int + 2,
        BlockV::IOIns(_) => 3,
        BlockV::Loop(inner) => b2i_weight(inner) + 4,
    }
}

/// An upper bound on the opcodes the code can produce.
pub open spec fn b2i_weight(bs: Seq<BlockV>) -> int
    decreases bs,
{
    if bs.len() == 0 {
        0
    } else {
        b2i_weight(bs.drop_last()) + b2i_block_weight(bs.last())
    }
}

/// Weights are non-negative.
pub proof fn lemma_b2i_weight_nonneg(bs: Seq<BlockV>)
    ensures
        b2i_weight(bs) >= 0,
    decreases bs,
{
    if bs.len() > 0 {
        lemma_b2i_weight_nonneg(bs.drop_last());
        lemma_b2i_block_weight_nonneg(bs.last());
    }
}

/// A block's weight is non-negative.
pub proof fn lemma_b2i_block_weight_nonneg(b: BlockV)
    ensures
        b2i_block_weight(b) >= 0,
    decreases b,
{
    match b {
        BlockV::Loop(inner) => lemma_b2i_weight_nonneg(inner),
        _ => (),
    }
}

/// A block's weight is bounded by the code's weight.
pub proof fn lemma_b2i_weight_index(bs: Seq<BlockV>, i: int)
    requires
        0 <= i < bs.len(),
    ensures
        b2i_block_weight(bs[i]) <= b2i_weight(bs),
    decreases bs,
{
    lemma_b2i_weight_nonneg(bs.drop_last());
    lemma_b2i_block_weight_nonneg(bs.last());
    if i < bs.len() - 1 {
        lemma_b2i_weight_index(bs.drop_last(), i);
    }
}

/// Weight can be read off the front as well.
pub proof fn lemma_b2i_weight_first(bs: Seq<BlockV>)
    requires
        bs.len() > 0,
    ensures
        b2i_weight(bs) == b2i_block_weight(bs[0]) + b2i_weight(bs.drop_first()),
    decreases bs,
{
    if bs.len() == 1 {
        assert(bs.drop_first() =~= Seq::<BlockV>::empty());
        assert(bs[0] == bs.last());
        assert(bs.drop_last().len() == 0);
        assert(b2i_weight(bs.drop_last()) == 0);
        assert(b2i_weight(Seq::<BlockV>::empty()) == 0);
    } else {
        lemma_b2i_weight_first(bs.drop_last());
        assert(bs.drop_last()[0] == bs[0]);
        assert(bs.drop_first().drop_last() =~= bs.drop_last().drop_first());
        assert(bs.drop_first().last() == bs.last());
        assert(b2i_weight(bs.drop_first()) == b2i_weight(bs.drop_first().drop_last())
            + b2i_block_weight(bs.drop_first().last()));
    }
}

/// Unwrapping shells never grows the weight.
pub proof fn lemma_unwrap_weight(body: Seq<BlockV>)
    ensures
        b2i_weight(unwrapped(body)) <= b2i_weight(body),
    decreases body,
{
    if body.len() == 1 {
        match body[0] {
            BlockV::Loop(inner) => {
                lemma_unwrap_weight(inner);
                assert(body[0] == body.last());
                assert(body.drop_last().len() == 0);
                assert(b2i_weight(body.drop_last()) == 0);
                assert(b2i_weight(body) == b2i_weight(body.drop_last()) + b2i_block_weight(
                    body.last(),
                ));
            },
            _ => {},
        }
    }
}

/// The translation grows by at most the weight, and only ever grows.
pub proof fn lemma_b2i_len(bs: Seq<BlockV>, acc: Seq<InterpIns>)
    ensures
        acc.len() <= b2i_go(bs, acc).len() <= acc.len() + b2i_weight(bs),
    decreases bs, 0int,
{
    lemma_b2i_weight_nonneg(bs);
    if bs.len() > 0 {
        let rest = bs.drop_first();
        lemma_b2i_weight_first(bs);
        match bs[0] {
            BlockV::Block { ptr_offset, ins } => {
                lemma_adds_len(ins, if ins.len() > 0 {
                    ins.last().0
                } else {
                    0
                });
                lemma_b2i_len(rest, acc + basic_ops(ptr_offset, ins));
            },
            BlockV::IOIns(IoV::Putchar(o)) => {
                lemma_b2i_len(rest, acc + io_ops(o, true));
            },
            BlockV::IOIns(IoV::Getchar(o)) => {
                lemma_b2i_len(rest, acc + io_ops(o, false));
            },
            BlockV::Loop(body) => {
                lemma_b2i_weight_nonneg(rest);
                lemma_b2i_weight_nonneg(body);
                if is_dead_loop(body) {
                    lemma_b2i_block_weight_nonneg(bs[0]);
                } else {
                    lemma_lower_loop_len(body, acc.len() as int);
                    lemma_b2i_len(rest, acc + lower_loop(body, acc.len() as int));
                }
            },
        }
    }
}

/// The loop form is bounded by the body's weight plus its frame.
pub proof fn lemma_lower_loop_len(body: Seq<BlockV>, acc_len: int)
    ensures
        lower_loop(body, acc_len).len() <= b2i_weight(body) + 4,
        lower_loop(body, acc_len).len() >= 1,
    decreases body, 2int,
{
    lemma_b2i_weight_nonneg(body);
    if body.len() == 1 && body[0] is Loop {
        match body[0] {
            BlockV::Loop(inner) => {
                lemma_lower_loop_len(inner, acc_len);
                assert(body[0] == body.last());
                assert(body.drop_last().len() == 0);
                assert(b2i_weight(body.drop_last()) == 0);
                assert(body.last() == BlockV::Loop(inner));
                assert(b2i_block_weight(BlockV::Loop(inner)) == b2i_weight(inner) + 4);
                assert(b2i_weight(body) == b2i_weight(inner) + 4);
                lemma_b2i_weight_nonneg(inner);
            },
            _ => {},
        }
    } else if is_set_loop(body) {
        assert(lower_loop(body, acc_len).len() == 1);
    } else if is_transfer_loop(body) {
        match body[0] {
            BlockV::Block { ptr_offset, ins } => {
                assert(lower_loop(body, acc_len) == transfer_ops(ins));
                assert(transfer_ops(ins).len() >= 1);
                assert(transfer_ops(ins).len() <= 4);
            },
            _ => {},
        }
    } else {
        lemma_b2i_len(body, Seq::empty());
        let b = b2i_top(body);
        assert(b.len() <= b2i_weight(body));
        assert(shift_jumps(b, acc_len + 2).len() == b.len());
        assert(general_ops(acc_len, b).len() == b.len() + 4);
    }
}

/// Adds emit one opcode per delta.
pub proof fn lemma_adds_len(ins: Seq<(int, u8)>, m: int)
    ensures
        adds_of(ins, m).len() == ins.len(),
    decreases ins.len(),
{
    if ins.len() > 0 {
        lemma_adds_len(ins.drop_last(), m);
    }
}

/// Every jump in the code lands inside it: at an opcode, or at the index
/// one past the end, which ends the run.
pub open spec fn jumps_in(code: Seq<InterpIns>, lo: int, hi: int) -> bool {
    forall|j: int|
        0 <= j < code.len() ==> (match jump_dest(#[trigger] code[j]) {
            Some(d) => lo <= d <= hi,
            None => true,
        })
}

/// The translation keeps every jump inside the translated code.
pub proof fn lemma_b2i_jumps(bs: Seq<BlockV>, acc: Seq<InterpIns>)
    requires
        jumps_in(acc, 0, acc.len() as int),
        acc.len() + b2i_weight(bs) <= u32::MAX,
    ensures
        jumps_in(b2i_go(bs, acc), 0, b2i_go(bs, acc).len() as int),
    decreases bs, 0int,
{
    lemma_b2i_len(bs, acc);
    lemma_b2i_weight_nonneg(bs);
    if bs.len() > 0 {
        let rest = bs.drop_first();
        lemma_b2i_weight_first(bs);
        lemma_b2i_weight_nonneg(rest);
        lemma_b2i_block_weight_nonneg(bs[0]);
        match bs[0] {
            BlockV::Block { ptr_offset, ins } => {
                let seg = basic_ops(ptr_offset, ins);
                lemma_no_jumps_basic(ptr_offset, ins);
                lemma_seg_append(acc, seg);
                lemma_adds_len(ins, if ins.len() > 0 {
                    ins.last().0
                } else {
                    0
                });
                lemma_b2i_jumps(rest, acc + seg);
            },
            BlockV::IOIns(IoV::Putchar(o)) => {
                let seg = io_ops(o, true);
                assert(forall|j: int| 0 <= j < seg.len() ==> jump_dest(#[trigger] seg[j]) is None);
                lemma_seg_append(acc, seg);
                lemma_b2i_jumps(rest, acc + seg);
            },
            BlockV::IOIns(IoV::Getchar(o)) => {
                let seg = io_ops(o, false);
                assert(forall|j: int| 0 <= j < seg.len() ==> jump_dest(#[trigger] seg[j]) is None);
                lemma_seg_append(acc, seg);
                lemma_b2i_jumps(rest, acc + seg);
            },
            BlockV::Loop(body) => {
                if is_dead_loop(body) {
                    let r = acc.push(InterpIns::Jmp { dest: acc.len() as u32 });
                    assert forall|j: int| 0 <= j < r.len() implies (match jump_dest(
                        #[trigger] r[j],
                    ) {
                        Some(d) => 0 <= d <= r.len(),
                        None => true,
                    }) by {
                        if j < acc.len() {
                            assert(r[j] == acc[j]);
                        }
                    }
                } else {
                    let seg = lower_loop(body, acc.len() as int);
                    lemma_lower_loop_len(body, acc.len() as int);
                    lemma_lower_loop_jumps(body, acc.len() as int);
                    lemma_seg_append_bounded(acc, seg);
                    lemma_b2i_jumps(rest, acc + seg);
                }
            },
        }
    }
}

/// A segment without jumps extends jump-safe code.
proof fn lemma_seg_append(acc: Seq<InterpIns>, seg: Seq<InterpIns>)
    requires
        jumps_in(acc, 0, acc.len() as int),
        forall|j: int| 0 <= j < seg.len() ==> jump_dest(#[trigger] seg[j]) is None,
    ensures
        jumps_in(acc + seg, 0, (acc + seg).len() as int),
{
    let r = acc + seg;
    assert forall|j: int| 0 <= j < r.len() implies (match jump_dest(#[trigger] r[j]) {
        Some(d) => 0 <= d <= r.len(),
        None => true,
    }) by {
        if j < acc.len() {
            assert(r[j] == acc[j]);
        } else {
            assert(r[j] == seg[j - acc.len()]);
        }
    }
}

/// A segment whose jumps stay between its base and its end extends
/// jump-safe code.
proof fn lemma_seg_append_bounded(acc: Seq<InterpIns>, seg: Seq<InterpIns>)
    requires
        jumps_in(acc, 0, acc.len() as int),
        jumps_in(seg, acc.len() as int, acc.len() as int + seg.len() as int),
    ensures
        jumps_in(acc + seg, 0, (acc + seg).len() as int),
{
    let r = acc + seg;
    assert forall|j: int| 0 <= j < r.len() implies (match jump_dest(#[trigger] r[j]) {
        Some(d) => 0 <= d <= r.len(),
        None => true,
    }) by {
        if j < acc.len() {
            assert(r[j] == acc[j]);
        } else {
            assert(r[j] == seg[j - acc.len()]);
        }
    }
}

/// Basic blocks emit no jumps.
proof fn lemma_no_jumps_basic(ptr: int, ins: Seq<(int, u8)>)
    ensures
        forall|j: int|
            0 <= j < basic_ops(ptr, ins).len() ==> jump_dest(
                #[trigger] basic_ops(ptr, ins)[j],
            ) is None,
{
    let m = if ins.len() > 0 {
        ins.last().0
    } else {
        0
    };
    lemma_no_jumps_adds(ins, m);
    let r = basic_ops(ptr, ins);
    assert forall|j: int| 0 <= j < r.len() implies jump_dest(#[trigger] r[j]) is None by {
        if j < move_ops(m).len() {
            assert(r[j] == move_ops(m)[j]);
        } else if j < move_ops(m).len() + adds_of(ins, m).len() {
            assert(r[j] == adds_of(ins, m)[j - move_ops(m).len()]);
        } else {
            assert(r[j] == move_ops(ptr - m)[j - move_ops(m).len() - adds_of(ins, m).len()]);
        }
    }
}

/// Delta adds emit no jumps.
proof fn lemma_no_jumps_adds(ins: Seq<(int, u8)>, m: int)
    ensures
        forall|j: int|
            0 <= j < adds_of(ins, m).len() ==> jump_dest(#[trigger] adds_of(ins, m)[j]) is None,
    decreases ins.len(),
{
    if ins.len() > 0 {
        lemma_no_jumps_adds(ins.drop_last(), m);
        let r = adds_of(ins, m);
        assert forall|j: int| 0 <= j < r.len() implies jump_dest(#[trigger] r[j]) is None by {
            if j < r.len() - 1 {
                assert(r[j] == adds_of(ins.drop_last(), m)[j]);
            }
        }
    }
}

/// Jumps in a lowered loop stay between its base and its end.
pub proof fn lemma_lower_loop_jumps(body: Seq<BlockV>, acc_len: int)
    requires
        acc_len >= 0,
        acc_len + b2i_weight(body) + 4 <= u32::MAX,
    ensures
        jumps_in(lower_loop(body, acc_len), acc_len, acc_len + lower_loop(body, acc_len).len()),
    decreases body, 2int,
{
    lemma_b2i_weight_nonneg(body);
    if body.len() == 1 && body[0] is Loop {
        match body[0] {
            BlockV::Loop(inner) => {
                lemma_b2i_weight_nonneg(inner);
                assert(body[0] == body.last());
                assert(body.drop_last().len() == 0);
                assert(b2i_weight(body.drop_last()) == 0);
                assert(body.last() == BlockV::Loop(inner));
                assert(b2i_block_weight(BlockV::Loop(inner)) == b2i_weight(inner) + 4);
                assert(b2i_weight(body) == b2i_weight(inner) + 4);
                lemma_lower_loop_jumps(inner, acc_len);
            },
            _ => {},
        }
    } else if is_set_loop(body) {
    } else if is_transfer_loop(body) {
    } else {
        let b = b2i_top(body);
        lemma_b2i_jumps(body, Seq::empty());
        lemma_b2i_len(body, Seq::empty());
        let r = general_ops(acc_len, b);
        assert forall|j: int| 0 <= j < r.len() implies (match jump_dest(#[trigger] r[j]) {
            Some(d) => acc_len <= d <= acc_len + r.len(),
            None => true,
        }) by {
            if j == 0 {
            } else if j == 1 {
                assert(r[1] == InterpIns::JmpF { dest: (acc_len + 4 + b.len()) as u32 });
            } else if j < 2 + b.len() {
                assert(r[j] == shift_jumps(b, acc_len + 2)[j - 2]);
                assert(shift_jumps(b, acc_len + 2)[j - 2] == shift_one(b[j - 2], acc_len + 2));
                match jump_dest(b[j - 2]) {
                    Some(d) => {
                        assert(0 <= d <= b.len());
                    },
                    None => {},
                }
            } else if j == 2 + b.len() {
                assert(r[j] == InterpIns::SetInputOffset { new_input_offset: 0 });
            } else {
                assert(r[j] == InterpIns::JmpT { dest: (acc_len + 2) as u32 });
            }
        }
    }
}


/// Unwrapping never grows the offsets.
pub proof fn lemma_unwrap_abs(body: Seq<BlockV>)
    ensures
        opt_abs_v(unwrapped(body)) <= opt_abs_v(body),
    decreases body,
{
    lemma_opt_abs_nonneg(body);
    if body.len() == 1 {
        match body[0] {
            BlockV::Loop(inner) => {
                lemma_unwrap_abs(inner);
                assert(body[0] == body.last());
                assert(body.drop_last().len() == 0);
                assert(opt_abs_v(body.drop_last()) == 0);
                assert(block_abs(BlockV::Loop(inner)) == opt_abs_v(inner));
                assert(opt_abs_v(body) == opt_abs_v(inner));
            },
            _ => {},
        }
    }
}

/// Unwrapping keeps well-formedness.
pub proof fn lemma_unwrap_wf(body: Seq<BlockV>)
    requires
        crate::optimizer::opt_ins::wf_blocks(body),
    ensures
        crate::optimizer::opt_ins::wf_blocks(unwrapped(body)),
    decreases body,
{
    if body.len() == 1 {
        match body[0] {
            BlockV::Loop(inner) => {
                assert(body[0] == body.last());
                assert(crate::optimizer::opt_ins::wf_block(body.last()));
                lemma_unwrap_wf(inner);
            },
            _ => {},
        }
    }
}

/// Lowering a loop looks through its shells.
pub proof fn lemma_unwrap_lower(body: Seq<BlockV>, acc_len: int)
    ensures
        lower_loop(body, acc_len) == lower_loop(unwrapped(body), acc_len),
        is_dead_loop(body) == (unwrapped(body).len() == 0),
        !(unwrapped(body).len() == 1 && unwrapped(body)[0] is Loop),
    decreases body,
{
    if body.len() == 1 {
        match body[0] {
            BlockV::Loop(inner) => {
                lemma_unwrap_lower(inner, acc_len);
            },
            _ => {},
        }
    }
}

/// Fully strip redundant loop shells.
fn unwrap_ref<'a>(c: &'a OptCode) -> (r: &'a OptCode)
    requires
        c.wf(),
    ensures
        r@ == unwrapped(c@),
        r.wf(),
        opt_abs_v(r@) <= opt_abs_v(c@),
        b2i_weight(r@) <= b2i_weight(c@),
        *r == *c || decreases_to!(*c => *r),
    decreases *c,
{
    proof {
        lemma_block_view_len(c.0@);
        lemma_unwrap_abs(c@);
        lemma_unwrap_weight(c@);
        lemma_unwrap_wf(c@);
    }
    if c.0.len() == 1 {
        proof {
            lemma_block_view_index(c.0@, 0);
        }
        match &c.0[0] {
            OptBlock::Loop(inner) => {
                proof {
                    assert(decreases_to!(c.0 => c.0@));
                    assert(decreases_to!(c.0@ => c.0@[0]));
                    assert(decreases_to!(c.0@[0] => *inner));
                    assert(c@[0] == BlockV::Loop(inner@));
                    assert(c@[0] == c@.last());
                    assert(crate::optimizer::opt_ins::wf_block(c@.last()));
                    assert(inner.wf());
                    crate::optimizer::opt_ins::lemma_opt_abs_index(c@, 0);
                    lemma_b2i_weight_index(c@, 0);
                    lemma_b2i_weight_nonneg(inner@);
                    lemma_opt_abs_nonneg(inner@);
                }
                unwrap_ref(inner)
            },
            _ => c,
        }
    } else {
        c
    }
}

/// Append the pointer motion that reaches displacement `d`.
fn emit_imove(ret: &mut Vec<InterpIns>, d: isize)
    requires
        -0x7fff_ffff <= d as int <= 0x7fff_ffff,
    ensures
        final(ret)@ == old(ret)@ + move_ops(d as int),
{
    if d > 0 {
        ret.push(InterpIns::PtrAdd { offset: d as u32 });
        proof {
            assert(ret@ =~= old(ret)@ + move_ops(d as int));
        }
    } else if d < 0 {
        ret.push(InterpIns::PtrSub { offset: (-d) as u32 });
        proof {
            assert(ret@ =~= old(ret)@ + move_ops(d as int));
        }
    } else {
        proof {
            assert(ret@ =~= old(ret)@ + move_ops(d as int));
        }
    }
}

/// Lower basic-block code to the flat opcode form.
fn bf_to_interp_translate_impl(code: &OptCode) -> (r: Vec<InterpIns>)
    requires
        code.wf(),
        4 * opt_abs_v(code@) <= 0xffff_ffff,
        b2i_weight(code@) <= 0xffff_ffff,
    ensures
        r@ == b2i_top(code@),
    decreases *code,
{
    let ghost full = code@;
    let mut ret: Vec<InterpIns> = Vec::new();
    let mut i: usize = 0;
    proof {
        lemma_block_view_len(code.0@);
        lemma_b2i_weight_nonneg(full);
        lemma_opt_abs_nonneg(full);
        assert(full.subrange(0, full.len() as int) =~= full);
        assert(ret@ =~= Seq::<InterpIns>::empty());
    }
    while i < code.0.len()
        invariant
            i <= code.0@.len(),
            full == crate::optimizer::opt_ins::view_of_block_seq(code.0@),
            full.len() == code.0@.len(),
            crate::optimizer::opt_ins::wf_blocks(
                full.subrange(i as int, full.len() as int),
            ),
            4 * opt_abs_v(full) <= 0xffff_ffff,
            0 <= opt_abs_v(full.subrange(i as int, full.len() as int)) <= opt_abs_v(full),
            b2i_weight(full) <= 0xffff_ffff,
            ret@.len() + b2i_weight(full.subrange(i as int, full.len() as int)) <= b2i_weight(
                full,
            ),
            0 <= b2i_weight(full.subrange(i as int, full.len() as int)),
            b2i_go(full.subrange(i as int, full.len() as int), ret@) == b2i_top(full),
        decreases code.0@.len() - i,
    {
        let ghost rem = full.subrange(i as int, full.len() as int);
        let ghost rest = full.subrange(i + 1, full.len() as int);
        let ghost acc0 = ret@;
        proof {
            lemma_block_view_index(code.0@, i as int);
            assert(rem[0] == full[i as int]);
            assert(rem.drop_first() =~= rest);
            lemma_b2i_weight_first(rem);
            lemma_b2i_weight_nonneg(rest);
            lemma_b2i_block_weight_nonneg(rem[0]);
            crate::optimizer::opt_ins::lemma_wf_first(rem);
            assert(rem =~= seq![rem[0]] + rest);
            crate::optimizer::opt_ins::lemma_opt_abs_nonneg(rest);
            lemma_opt_abs_first(rem);
            crate::optimizer::opt_ins::lemma_block_abs_nonneg(rem[0]);
        }
        match &code.0[i] {
            OptBlock::Block(bb) => {
                let ghost dsv = bb.ins@;
                proof {
                    assert(crate::optimizer::opt_ins::wf_block(rem[0]));
                    assert(sorted_deltas(dsv));
                    lemma_deltas_abs_nonneg(dsv);
                    assert(block_abs(rem[0]) == abs_i(bb.ptr_offset as int) + deltas_abs(dsv));
                    lemma_opt_abs_index_front(full, i as int);
                }
                let n = bb.ins.len();
                let m: isize = if n > 0 {
                    let e = bb.ins.entry_at(n - 1);
                    proof {
                        lemma_deltas_abs_index(dsv, n - 1);
                    }
                    e.0
                } else {
                    0
                };
                proof {
                    assert(abs_i(m as int) <= opt_abs_v(full));
                }
                emit_imove(&mut ret, m);
                let mut j: usize = 0;
                proof {
                    assert(dsv.subrange(0, 0) =~= Seq::<(int, u8)>::empty());
                    assert(adds_of(dsv.subrange(0, 0), m as int) =~= Seq::<InterpIns>::empty());
                    assert(ret@ =~= (acc0 + move_ops(m as int)) + adds_of(
                        dsv.subrange(0, 0),
                        m as int,
                    ));
                }
                while j < n
                    invariant
                        j <= n,
                        n == dsv.len(),
                        dsv == bb.ins@,
                        sorted_deltas(dsv),
                        n > 0 ==> m as int == dsv[n - 1].0,
                        n == 0 ==> m == 0,
                        deltas_abs(dsv) <= opt_abs_v(full),
                        4 * opt_abs_v(full) <= 0xffff_ffff,
                        abs_i(m as int) <= opt_abs_v(full),
                        0 <= opt_abs_v(full),
                        ret@ == (acc0 + move_ops(m as int)) + adds_of(
                            dsv.subrange(0, j as int),
                            m as int,
                        ),
                    decreases n - j,
                {
                    let e = bb.ins.entry_at(j);
                    proof {
                        lemma_deltas_abs_index(dsv, j as int);
                        if j < n - 1 {
                            assert(dsv[j as int].0 < dsv[n - 1].0);
                        }
                        assert(e.0 <= m);
                        assert(dsv.subrange(0, j + 1).drop_last() =~= dsv.subrange(0, j as int));
                        assert(dsv.subrange(0, j + 1).last() == dsv[j as int]);
                    }
                    ret.push(InterpIns::Add { val: e.1, offset: (m - e.0) as u32 });
                    proof {
                        assert(ret@ =~= (acc0 + move_ops(m as int)) + adds_of(
                            dsv.subrange(0, j + 1),
                            m as int,
                        ));
                    }
                    j = j + 1;
                }
                proof {
                    assert(dsv.subrange(0, n as int) =~= dsv);
                }
                emit_imove(&mut ret, bb.ptr_offset - m);
                proof {
                    assert(ret@ =~= acc0 + basic_ops(bb.ptr_offset as int, dsv));
                    assert(b2i_go(rem, acc0) == b2i_go(rest, acc0 + basic_ops(
                        bb.ptr_offset as int,
                        dsv,
                    )));
                    lemma_adds_len(dsv, m as int);
                }
            },
            OptBlock::IOIns(io) => {
                let o: isize = match io {
                    crate::optimizer::opt_ins::IOOptIns::Putchar(x) => *x,
                    crate::optimizer::opt_ins::IOOptIns::Getchar(x) => *x,
                };
                proof {
                    assert(abs_i(o as int) == block_abs(rem[0]));
                    lemma_opt_abs_index_front(full, i as int);
                }
                let is_put = match io {
                    crate::optimizer::opt_ins::IOOptIns::Putchar(_) => true,
                    crate::optimizer::opt_ins::IOOptIns::Getchar(_) => false,
                };
                if o > 0 {
                    ret.push(InterpIns::PtrAdd { offset: o as u32 });
                    if is_put {
                        ret.push(InterpIns::Putchar { offset: 0 });
                    } else {
                        ret.push(InterpIns::Getchar { offset: 0 });
                    }
                    ret.push(InterpIns::PtrSub { offset: o as u32 });
                } else {
                    if is_put {
                        ret.push(InterpIns::Putchar { offset: (-o) as u32 });
                    } else {
                        ret.push(InterpIns::Getchar { offset: (-o) as u32 });
                    }
                }
                proof {
                    assert(ret@ =~= acc0 + io_ops(o as int, is_put));
                    if is_put {
                        assert(b2i_go(rem, acc0) == b2i_go(rest, acc0 + io_ops(o as int, true)));
                    } else {
                        assert(b2i_go(rem, acc0) == b2i_go(rest, acc0 + io_ops(o as int, false)));
                    }
                }
            },
            OptBlock::Loop(inner0) => {
                proof {
                    assert(decreases_to!(code.0 => code.0@));
                    assert(decreases_to!(code.0@ => code.0@[i as int]));
                    assert(decreases_to!(code.0@[i as int] => *inner0));
                    assert(crate::optimizer::opt_ins::wf_block(rem[0]));
                    assert(block_abs(rem[0]) == opt_abs_v(inner0@));
                    lemma_opt_abs_index_front(full, i as int);
                    assert(b2i_block_weight(rem[0]) == b2i_weight(inner0@) + 4);
                }
                let u = unwrap_ref(inner0);
                let ghost bodyv = inner0@;
                let ghost uv = u@;
                proof {
                    lemma_unwrap_lower(bodyv, acc0.len() as int);
                    assert(decreases_to!(*code => *u)) by {
                        assert(decreases_to!(code.0 => code.0@));
                        assert(decreases_to!(code.0@ => code.0@[i as int]));
                        assert(decreases_to!(code.0@[i as int] => *inner0));
                        if *u == *inner0 {
                        } else {
                            assert(decreases_to!(*inner0 => *u));
                        }
                    }
                }
                if u.0.len() == 0 {
                    let at = ret.len();
                    ret.push(InterpIns::Jmp { dest: at as u32 });
                    proof {
                        assert(uv.len() == 0) by {
                            lemma_block_view_len(u.0@);
                        }
                        assert(is_dead_loop(bodyv));
                        assert(b2i_go(rem, acc0) == acc0.push(
                            InterpIns::Jmp { dest: acc0.len() as u32 },
                        ));
                        assert(ret@ == b2i_top(full));
                    }
                    return ret;
                }
                proof {
                    lemma_block_view_len(u.0@);
                    assert(!is_dead_loop(bodyv));
                }
                let is_single_block: bool = if u.0.len() == 1 {
                    match &u.0[0] {
                        OptBlock::Block(_) => true,
                        _ => false,
                    }
                } else {
                    false
                };
                proof {
                    if u.0.len() >= 1 {
                        lemma_block_view_index(u.0@, 0);
                    }
                }
                let mut handled = false;
                if is_single_block {
                    match &u.0[0] {
                        OptBlock::Block(bb) => {
                            let ghost uds = bb.ins@;
                            proof {
                                crate::optimizer::opt_ins::lemma_wf_first(uv);
                                assert(sorted_deltas(uds));
                            }
                            if bb.ptr_offset == 0 && bb.ins.len() == 1 {
                                let v0 = match bb.ins.get(0) {
                                    Some(v) => v,
                                    None => 0,
                                };
                                proof {
                                    assert(uds.subrange(0, 0) =~= Seq::<(int, u8)>::empty());
                                    assert(uds.drop_last() =~= uds.subrange(0, 0));
                                    assert(uds.last() == uds[0]);
                                    assert(crate::optimizer::opt_ins::delta_at(
                                        Seq::<(int, u8)>::empty(),
                                        0,
                                    ) is None);
                                }
                                if v0 == 1 || v0 == 255 {
                                    proof {
                                        assert(uds[0].0 == 0 && uds[0].1 == v0);
                                        assert(is_set_loop(uv));
                                    }
                                    ret.push(InterpIns::Store { val: 0, offset: 0 });
                                    handled = true;
                                    proof {
                                        assert(lower_loop(uv, acc0.len() as int) =~= seq![
                                            InterpIns::Store { val: 0, offset: 0 },
                                        ]);
                                        assert(ret@ =~= acc0 + lower_loop(uv, acc0.len() as int));
                                    }
                                } else {
                                    proof {
                                        if uds[0].0 == 0 {
                                            assert(uds[0].1 == v0);
                                        }
                                        assert(!is_set_loop(uv));
                                        assert(!is_transfer_loop(uv));
                                    }
                                }
                            } else if bb.ptr_offset == 0 && bb.ins.len() == 2 {
                                let c0 = match bb.ins.get(0) {
                                    Some(v) => v,
                                    None => 0,
                                };
                                let has_cond = match bb.ins.get(0) {
                                    Some(v) => v == 1 || v == 2 || v == 254 || v == 255,
                                    None => false,
                                };
                                let e0 = bb.ins.entry_at(0);
                                let e1 = bb.ins.entry_at(1);
                                proof {
                                    assert(uds.last() == uds[1]);
                                    assert(uds.drop_last().last() == uds[0]);
                                    assert(uds.drop_last().drop_last() =~= Seq::<(int, u8)>::empty());
                                    assert(uds[0].0 < uds[1].0);
                                    assert(crate::optimizer::opt_ins::delta_at(
                                        Seq::<(int, u8)>::empty(),
                                        0,
                                    ) is None);
                                    assert(crate::optimizer::opt_ins::delta_at(uds, 0) == (
                                    if uds[1].0 == 0 {
                                        Some(uds[1].1)
                                    } else {
                                        crate::optimizer::opt_ins::delta_at(uds.drop_last(), 0)
                                    }));
                                    assert(crate::optimizer::opt_ins::delta_at(
                                        uds.drop_last(),
                                        0,
                                    ) == (if uds[0].0 == 0 {
                                        Some(uds[0].1)
                                    } else {
                                        crate::optimizer::opt_ins::delta_at(
                                            uds.drop_last().drop_last(),
                                            0,
                                        )
                                    }));
                                }
                                if has_cond {
                                    proof {
                                        assert(is_transfer_loop(uv));
                                    }
                                    let off: isize = if e0.0 == 0 {
                                        e1.0
                                    } else {
                                        e0.0
                                    };
                                    let mul: u8 = if e0.0 == 0 {
                                        e1.1
                                    } else {
                                        e0.1
                                    };
                                    let is_add = (e0.1 > 127) != (e1.1 > 127);
                                    proof {
                                        lemma_deltas_abs_index(uds, 0);
                                        lemma_deltas_abs_index(uds, 1);
                                        lemma_deltas_abs_nonneg(uds);
                                        crate::optimizer::opt_ins::lemma_wf_first(rem);
                                        assert(deltas_abs(uds) <= block_abs(uv[0]));
                                        lemma_unwrapped_block_abs(uv, full, i as int, inner0@);
                                    }
                                    if mul == 0 {
                                        ret.push(InterpIns::Store { val: 0, offset: 0 });
                                    } else if off > 0 {
                                        ret.push(InterpIns::PtrAdd { offset: off as u32 });
                                        ret.push(
                                            InterpIns::SetInputOffset {
                                                new_input_offset: off as u32,
                                            },
                                        );
                                        if is_add {
                                            ret.push(InterpIns::AddMove { mul, to: 0 });
                                        } else {
                                            ret.push(InterpIns::SubMove { mul, to: 0 });
                                        }
                                        ret.push(InterpIns::PtrSub { offset: off as u32 });
                                    } else {
                                        ret.push(
                                            InterpIns::SetInputOffset { new_input_offset: 0 },
                                        );
                                        if is_add {
                                            ret.push(
                                                InterpIns::AddMove { mul, to: (-off) as u32 },
                                            );
                                        } else {
                                            ret.push(
                                                InterpIns::SubMove { mul, to: (-off) as u32 },
                                            );
                                        }
                                    }
                                    handled = true;
                                    proof {
                                        assert(ret@ =~= acc0 + transfer_ops(uds));
                                        assert(lower_loop(uv, acc0.len() as int) == transfer_ops(
                                            uds,
                                        ));
                                    }
                                } else {
                                    proof {
                                        if uds[0].0 == 0 {
                                            assert(uds[0].1 == c0);
                                        }
                                        if uds[1].0 == 0 {
                                            assert(uds[1].1 == c0);
                                        }
                                        assert(!is_transfer_loop(uv));
                                        assert(!is_set_loop(uv));
                                    }
                                }
                            } else {
                                proof {
                                    assert(!is_set_loop(uv));
                                    assert(!is_transfer_loop(uv));
                                }
                            }
                        },
                        _ => {},
                    }
                } else {
                    proof {
                        assert(!is_set_loop(uv));
                        assert(!is_transfer_loop(uv));
                    }
                }
                if !handled {
                    proof {
                        assert(!is_set_loop(uv));
                        assert(!is_transfer_loop(uv));
                        assert(!(uv.len() == 1 && uv[0] is Loop));
                        lemma_b2i_len(uv, Seq::<InterpIns>::empty());
                        lemma_b2i_jumps(uv, Seq::<InterpIns>::empty());
                    }
                    let mut body_ops = bf_to_interp_translate_impl(u);
                    let base = ret.len();
                    let ghost orig_body = body_ops@;
                    proof {
                        assert(orig_body == b2i_top(uv));
                        assert(orig_body.len() <= b2i_weight(uv));
                        assert(acc0.len() + b2i_weight(rem) <= b2i_weight(full));
                        assert(b2i_weight(rem) == b2i_block_weight(rem[0]) + b2i_weight(rest));
                    }
                    ret.push(InterpIns::SetInputOffset { new_input_offset: 0 });
                    let dest_end = base + 4 + body_ops.len();
                    ret.push(InterpIns::JmpF { dest: dest_end as u32 });
                    let mut j: usize = 0;
                    while j < body_ops.len()
                        invariant
                            j <= body_ops@.len(),
                            body_ops@.len() == orig_body.len(),
                            orig_body == b2i_top(uv),
                            base + 2 + orig_body.len() <= 0xffff_ffff,
                            jumps_in(orig_body, 0, orig_body.len() as int),
                            forall|m: int|
                                0 <= m < j ==> body_ops@[m] == shift_one(
                                    orig_body[m],
                                    base as int + 2,
                                ),
                            forall|m: int| j <= m < orig_body.len() ==> body_ops@[m]
                                == orig_body[m],
                        decreases body_ops@.len() - j,
                    {
                        let cur = body_ops[j];
                        proof {
                            assert(body_ops@[j as int] == orig_body[j as int]);
                            assert((match jump_dest(orig_body[j as int]) {
                                Some(d) => 0 <= d <= orig_body.len(),
                                None => true,
                            }));
                        }
                        match cur {
                            InterpIns::Jmp { dest } => {
                                body_ops.set(
                                    j,
                                    InterpIns::Jmp { dest: dest + (base as u32) + 2 },
                                );
                            },
                            InterpIns::JmpT { dest } => {
                                body_ops.set(
                                    j,
                                    InterpIns::JmpT { dest: dest + (base as u32) + 2 },
                                );
                            },
                            InterpIns::JmpF { dest } => {
                                body_ops.set(
                                    j,
                                    InterpIns::JmpF { dest: dest + (base as u32) + 2 },
                                );
                            },
                            _ => {},
                        }
                        proof {
                            assert(body_ops@[j as int] == shift_one(
                                orig_body[j as int],
                                base as int + 2,
                            ));
                        }
                        j = j + 1;
                    }
                    proof {
                        assert(body_ops@ =~= shift_jumps(orig_body, base as int + 2));
                    }
                    ret.append(&mut body_ops);
                    ret.push(InterpIns::SetInputOffset { new_input_offset: 0 });
                    ret.push(InterpIns::JmpT { dest: (base as u32) + 2 });
                    proof {
                        assert(ret@ =~= acc0 + general_ops(acc0.len() as int, orig_body));
                        assert(lower_loop(uv, acc0.len() as int) == general_ops(
                            acc0.len() as int,
                            b2i_top(uv),
                        ));
                    }
                }
                proof {
                    assert(ret@ == acc0 + lower_loop(uv, acc0.len() as int));
                    assert(lower_loop(bodyv, acc0.len() as int) == lower_loop(
                        uv,
                        acc0.len() as int,
                    ));
                    assert(b2i_go(rem, acc0) == b2i_go(rest, acc0 + lower_loop(
                        bodyv,
                        acc0.len() as int,
                    )));
                    lemma_lower_loop_len(bodyv, acc0.len() as int);
                }
            },
        }
        proof {
            assert(b2i_go(rest, ret@) == b2i_top(full));
            assert(full.subrange(i + 1, full.len() as int) == rest);
            lemma_b2i_weight_nonneg(rest);
        }
        i = i + 1;
    }
    proof {
        assert(full.subrange(full.len() as int, full.len() as int) =~= Seq::<BlockV>::empty());
    }
    ret
}

/// Offset magnitude can be read off the front as well.
proof fn lemma_opt_abs_first(bs: Seq<BlockV>)
    requires
        bs.len() > 0,
    ensures
        opt_abs_v(bs) == block_abs(bs[0]) + opt_abs_v(bs.drop_first()),
    decreases bs,
{
    if bs.len() == 1 {
        assert(bs.drop_first() =~= Seq::<BlockV>::empty());
        assert(bs[0] == bs.last());
        assert(opt_abs_v(bs.drop_last()) == 0);
        assert(opt_abs_v(Seq::<BlockV>::empty()) == 0);
    } else {
        lemma_opt_abs_first(bs.drop_last());
        assert(bs.drop_last()[0] == bs[0]);
        assert(bs.drop_first().drop_last() =~= bs.drop_last().drop_first());
        assert(bs.drop_first().last() == bs.last());
        assert(opt_abs_v(bs.drop_first()) == opt_abs_v(bs.drop_first().drop_last()) + block_abs(
            bs.drop_first().last(),
        ));
    }
}

/// A block's magnitudes are within the whole code's.
proof fn lemma_opt_abs_index_front(full: Seq<BlockV>, i: int)
    requires
        0 <= i < full.len(),
    ensures
        block_abs(full[i]) <= opt_abs_v(full),
        opt_abs_v(full) >= 0,
{
    lemma_opt_abs_index(full, i);
    lemma_opt_abs_nonneg(full);
}

/// The single block of an unwrapped loop body keeps its magnitudes
/// within the whole code's.
proof fn lemma_unwrapped_block_abs(uv: Seq<BlockV>, full: Seq<BlockV>, i: int, inner: Seq<BlockV>)
    requires
        0 <= i < full.len(),
        full[i] == BlockV::Loop(inner),
        opt_abs_v(uv) <= opt_abs_v(inner),
        uv.len() >= 1,
    ensures
        block_abs(uv[0]) <= opt_abs_v(full),
{
    lemma_opt_abs_index(full, i);
    lemma_opt_abs_index(uv, 0);
    lemma_opt_abs_nonneg(full);
}

/// Translate grouped code to the flat interpreter form. Every jump in
/// the result lands inside it: at an opcode or at the index one past
/// the end.
pub fn bf_to_interp(code: &OptCode) -> (r: InterpCode)
    requires
        code.wf(),
        4 * opt_abs_v(code@) <= 0xffff_ffff,
        b2i_weight(code@) <= 0xffff_ffff,
    ensures
        r.0@ == b2i_top(code@),
        jumps_in(r.0@, 0, r.0@.len() as int),
{
    let v = bf_to_interp_translate_impl(code);
    proof {
        lemma_b2i_jumps(code@, Seq::<InterpIns>::empty());
    }
    InterpCode(v)
}

} // verus!
