use vstd::prelude::*;
use super::opt_ins::{BasicBlock, BlockV, OptBlock, OptCode};
use super::opt_ins::{
    in_range, in_range_block, lemma_block_view_index, lemma_block_view_len, lemma_block_view_push,
    lemma_block_view_subrange, lemma_in_range_first, lemma_merge, lemma_opt_len_concat,
    lemma_opt_len_push, lemma_opt_len_singleton, lemma_prune, lemma_view_in_range,
    lemma_wf_blocks_push, lemma_wf_first, merge_go, opt_ins_len_v, prune_v, view_of_block,
    view_of_block_seq, wf_block, wf_blocks, zero_free, block_len_v,
};

verus! {

/// Group instructions like Add(1), Add(1) into single instruction Add(2)
#[derive(Debug, Clone, Copy, PartialEq, Eq, Default)]
pub struct GroupInstructions;

/// What stood last in the summarized prefix, as far as merging cares: a
/// basic block with its accumulated pointer displacement, a loop, or
/// anything else.
pub enum PrevKind {
    /// last block is a basic block with this pointer displacement
    Basic(int),
    /// last block is a loop
    Loop,
    /// no block yet, or an IO block
    Other,
}

/// Every pointer sum that grouping this code would compute fits the
/// machine word.
pub open spec fn group_fits(bs: Seq<BlockV>, prev: PrevKind) -> bool
    decreases bs,
{
    if bs.len() == 0 {
        true
    } else {
        let rest = bs.drop_first();
        match bs[0] {
            BlockV::Loop(inner) => if prev is Loop {
                group_fits(rest, PrevKind::Loop)
            } else {
                group_fits(inner, PrevKind::Other) && group_fits(rest, PrevKind::Loop)
            },
            BlockV::IOIns(_) => group_fits(rest, PrevKind::Other),
            BlockV::Block { ptr_offset, ins } => match prev {
                PrevKind::Basic(p) => isize::MIN <= p + ptr_offset <= isize::MAX && (forall|
                    i: int,
                |
                    0 <= i < prune_v(ins).len() ==> isize::MIN <= p + (#[trigger] prune_v(
                        ins,
                    )[i]).0 <= isize::MAX) && group_fits(rest, PrevKind::Basic(p + ptr_offset)),
                _ => group_fits(rest, PrevKind::Basic(ptr_offset)),
            },
        }
    }
}

/// Two blocks that may stand next to each other in grouped code: no loop
/// right after a loop, no basic block right after a basic block.
pub open spec fn ok_pair(a: BlockV, b: BlockV) -> bool {
    !(a is Loop && b is Loop) && !(a is Block && b is Block)
}

/// One block of grouped code: loops grouped inside, no zero deltas.
pub open spec fn block_norm(b: BlockV) -> bool
    decreases b,
{
    match b {
        BlockV::Loop(inner) => normalized(inner),
        BlockV::Block { ptr_offset, ins } => zero_free(ins),
        BlockV::IOIns(_) => true,
    }
}

/// Grouped code: no basic block carries a zero delta, no loop follows a
/// loop, no basic block follows a basic block, recursively.
pub open spec fn normalized(bs: Seq<BlockV>) -> bool
    decreases bs,
{
    if bs.len() == 0 {
        true
    } else {
        normalized(bs.drop_last()) && block_norm(bs.last()) && (bs.len() >= 2 ==> ok_pair(
            bs[bs.len() - 2],
            bs.last(),
        ))
    }
}

/// The merge of a finished basic block with the one that follows it: the
/// follower's deltas are shifted by the leader's displacement.
pub open spec fn merge_block(prev: BlockV, ptr: int, pd: Seq<(int, u8)>) -> BlockV {
    match prev {
        BlockV::Block { ptr_offset: p0, ins: d0 } => BlockV::Block {
            ptr_offset: p0 + ptr,
            ins: merge_go(d0, pd, p0),
        },
        _ => prev,
    }
}

/// Grouping state step: the blocks still to process and the summarized
/// prefix. A loop right after a loop is dropped; adjacent basic blocks
/// are folded together; zero deltas are pruned.
pub open spec fn group_go(bs: Seq<BlockV>, acc: Seq<BlockV>) -> Seq<BlockV>
    decreases bs, 0int,
{
    if bs.len() == 0 {
        acc
    } else {
        let rest = bs.drop_first();
        match bs[0] {
            BlockV::Loop(inner) => if acc.len() > 0 && acc.last() is Loop {
                group_go(rest, acc)
            } else {
                group_go(rest, acc.push(BlockV::Loop(group_top(inner))))
            },
            BlockV::IOIns(io) => group_go(rest, acc.push(bs[0])),
            BlockV::Block { ptr_offset, ins } => if acc.len() > 0 && acc.last() is Block {
                group_go(
                    rest,
                    acc.drop_last().push(merge_block(acc.last(), ptr_offset, prune_v(ins))),
                )
            } else {
                group_go(rest, acc.push(BlockV::Block { ptr_offset, ins: prune_v(ins) }))
            },
        }
    }
}

/// Group a whole code block.
pub open spec fn group_top(bs: Seq<BlockV>) -> Seq<BlockV>
    decreases bs, 1int,
{
    group_go(bs, Seq::empty())
}

/// Normal form distributes over appending one block.
pub proof fn lemma_norm_push(bs: Seq<BlockV>, b: BlockV)
    ensures
        normalized(bs.push(b)) == (normalized(bs) && block_norm(b) && (bs.len() > 0 ==> ok_pair(
            bs.last(),
            b,
        ))),
{
    assert(bs.push(b).drop_last() =~= bs);
    assert(bs.push(b).last() == b);
}

/// Normal form can be read off the front as well.
pub proof fn lemma_norm_first(bs: Seq<BlockV>)
    requires
        normalized(bs),
        bs.len() > 0,
    ensures
        block_norm(bs[0]),
        normalized(bs.drop_first()),
        bs.len() >= 2 ==> ok_pair(bs[0], bs[1]),
    decreases bs,
{
    if bs.len() == 1 {
        assert(bs[0] == bs.last());
        assert(bs.drop_first() =~= Seq::<BlockV>::empty());
    } else {
        lemma_norm_first(bs.drop_last());
        assert(bs.drop_last()[0] == bs[0]);
        if bs.len() >= 3 {
            assert(bs.drop_last()[1] == bs[1]);
        } else {
            assert(bs.last() == bs[1]);
        }
        lemma_norm_push(bs.drop_last().drop_first(), bs.last());
        assert(bs.drop_last().drop_first().push(bs.last()) =~= bs.drop_first());
        if bs.drop_last().drop_first().len() > 0 {
            assert(bs.drop_last().drop_first().last() == bs[bs.len() - 2]);
        }
    }
}

/// Grouping yields normal, well-formed code and never adds instructions.
proof fn lemma_group_go_props(bs: Seq<BlockV>, acc: Seq<BlockV>)
    requires
        wf_blocks(bs),
        wf_blocks(acc),
        normalized(acc),
    ensures
        normalized(group_go(bs, acc)),
        wf_blocks(group_go(bs, acc)),
        opt_ins_len_v(group_go(bs, acc)) <= opt_ins_len_v(acc) + opt_ins_len_v(bs),
    decreases bs,
{
    if bs.len() == 0 {
    } else {
        let rest = bs.drop_first();
        lemma_wf_first(bs);
        assert(bs =~= seq![bs[0]] + rest);
        lemma_opt_len_concat(seq![bs[0]], rest);
        lemma_opt_len_singleton(bs[0]);
        match bs[0] {
            BlockV::Loop(inner) => {
                if acc.len() > 0 && acc.last() is Loop {
                    lemma_group_go_props(rest, acc);
                } else {
                    lemma_group_go_props(inner, Seq::empty());
                    let g = BlockV::Loop(group_top(inner));
                    lemma_norm_push(acc, g);
                    lemma_wf_blocks_push(acc, g);
                    lemma_opt_len_push(acc, g);
                    lemma_group_go_props(rest, acc.push(g));
                }
            },
            BlockV::IOIns(io) => {
                lemma_norm_push(acc, bs[0]);
                lemma_wf_blocks_push(acc, bs[0]);
                lemma_opt_len_push(acc, bs[0]);
                lemma_group_go_props(rest, acc.push(bs[0]));
            },
            BlockV::Block { ptr_offset, ins } => {
                lemma_prune(ins);
                if acc.len() > 0 && acc.last() is Block {
                    let m = merge_block(acc.last(), ptr_offset, prune_v(ins));
                    assert(wf_block(acc.last()));
                    assert(block_norm(acc.last()));
                    assert(opt_ins_len_v(acc) == opt_ins_len_v(acc.drop_last()) + block_len_v(
                        acc.last(),
                    ));
                    match acc.last() {
                        BlockV::Block { ptr_offset: p0, ins: d0 } => {
                            lemma_merge(d0, prune_v(ins), p0);
                            assert(block_len_v(m) <= d0.len() + prune_v(ins).len());
                        },
                        _ => {},
                    }
                    let acc2 = acc.drop_last().push(m);
                    lemma_norm_push(acc.drop_last(), m);
                    lemma_wf_blocks_push(acc.drop_last(), m);
                    lemma_opt_len_push(acc.drop_last(), m);
                    if acc.len() >= 2 {
                        assert(acc.drop_last().last() == acc[acc.len() - 2]);
                        assert(ok_pair(acc[acc.len() - 2], acc.last()));
                    }
                    lemma_group_go_props(rest, acc2);
                } else {
                    let g = BlockV::Block { ptr_offset, ins: prune_v(ins) };
                    lemma_norm_push(acc, g);
                    lemma_wf_blocks_push(acc, g);
                    lemma_opt_len_push(acc, g);
                    lemma_group_go_props(rest, acc.push(g));
                }
            },
        }
    }
}

/// Grouping already-grouped code changes nothing.
proof fn lemma_group_noop(bs: Seq<BlockV>, acc: Seq<BlockV>)
    requires
        normalized(bs),
        normalized(acc),
        acc.len() > 0 && bs.len() > 0 ==> ok_pair(acc.last(), bs[0]),
    ensures
        group_go(bs, acc) == acc + bs,
    decreases bs,
{
    if bs.len() == 0 {
        assert(acc + bs =~= acc);
    } else {
        let rest = bs.drop_first();
        lemma_norm_first(bs);
        match bs[0] {
            BlockV::Loop(inner) => {
                lemma_group_noop(inner, Seq::empty());
                assert(Seq::<BlockV>::empty() + inner =~= inner);
                assert(BlockV::Loop(group_top(inner)) == bs[0]);
                lemma_norm_push(acc, bs[0]);
                lemma_group_noop(rest, acc.push(bs[0]));
            },
            BlockV::IOIns(io) => {
                lemma_norm_push(acc, bs[0]);
                lemma_group_noop(rest, acc.push(bs[0]));
            },
            BlockV::Block { ptr_offset, ins } => {
                lemma_prune(ins);
                assert(BlockV::Block { ptr_offset, ins: prune_v(ins) } == bs[0]);
                lemma_norm_push(acc, bs[0]);
                lemma_group_noop(rest, acc.push(bs[0]));
            },
        }
        if rest.len() > 0 {
            assert(rest[0] == bs[1]);
        }
        assert((acc.push(bs[0])) + rest =~= acc + bs);
    }
}

/// Applying the grouping pass twice is the same as applying it once: on
/// well-formed code the pass reaches its fixed point in one application,
/// and a second application reports no change in instruction count.
pub proof fn lemma_group_idempotent(bs: Seq<BlockV>)
    requires
        wf_blocks(bs),
    ensures
        group_top(group_top(bs)) == group_top(bs),
        opt_ins_len_v(group_top(group_top(bs))) == opt_ins_len_v(group_top(bs)),
{
    lemma_group_go_props(bs, Seq::empty());
    lemma_group_noop(group_top(bs), Seq::empty());
    assert(Seq::<BlockV>::empty() + group_top(bs) =~= group_top(bs));
}

/// The grouping pass never increases the instruction count.
pub proof fn lemma_group_len(bs: Seq<BlockV>)
    requires
        wf_blocks(bs),
    ensures
        opt_ins_len_v(group_top(bs)) <= opt_ins_len_v(bs),
        normalized(group_top(bs)),
        wf_blocks(group_top(bs)),
{
    lemma_group_go_props(bs, Seq::empty());
}

/// Grouped code in machine range grows no pointer sum out of range.
proof fn lemma_norm_fits(bs: Seq<BlockV>, prev: PrevKind)
    requires
        normalized(bs),
        in_range(bs),
        !(prev is Basic) || bs.len() == 0 || !(bs[0] is Block),
    ensures
        group_fits(bs, prev),
    decreases bs,
{
    if bs.len() > 0 {
        let rest = bs.drop_first();
        lemma_norm_first(bs);
        lemma_in_range_first(bs);
        if rest.len() > 0 {
            assert(rest[0] == bs[1]);
        }
        match bs[0] {
            BlockV::Loop(inner) => {
                if !(prev is Loop) {
                    lemma_norm_fits(inner, PrevKind::Other);
                }
                lemma_norm_fits(rest, PrevKind::Loop);
            },
            BlockV::IOIns(io) => {
                lemma_norm_fits(rest, PrevKind::Other);
            },
            BlockV::Block { ptr_offset, ins } => {
                lemma_norm_fits(rest, PrevKind::Basic(ptr_offset));
            },
        }
    }
}


/// What the summarized prefix ends with, as far as merging cares.
pub open spec fn prev_of(accv: Seq<BlockV>) -> PrevKind {
    if accv.len() == 0 {
        PrevKind::Other
    } else {
        match accv.last() {
            BlockV::Block { ptr_offset, ins } => PrevKind::Basic(ptr_offset),
            BlockV::Loop(_) => PrevKind::Loop,
            BlockV::IOIns(_) => PrevKind::Other,
        }
    }
}

/// Group one code block: dead loops dropped, adjacent basic blocks
/// folded, zero deltas pruned, loops grouped recursively.
fn group_code(code: &OptCode) -> (r: OptCode)
    requires
        code.wf(),
        group_fits(code@, PrevKind::Other),
    ensures
        r@ == group_top(code@),
        r.wf(),
        normalized(r@),
    decreases *code,
{
    let ghost full = code@;
    let mut res: Vec<OptBlock> = Vec::new();
    let mut i: usize = 0;
    proof {
        lemma_block_view_len(code.0@);
        assert(full.subrange(0, full.len() as int) =~= full);
        assert(view_of_block_seq(res@) =~= Seq::<BlockV>::empty());
    }
    while i < code.0.len()
        invariant
            i <= code.0@.len(),
            full == view_of_block_seq(code.0@),
            full.len() == code.0@.len(),
            wf_blocks(view_of_block_seq(res@)),
            normalized(view_of_block_seq(res@)),
            wf_blocks(full.subrange(i as int, full.len() as int)),
            group_fits(
                full.subrange(i as int, full.len() as int),
                prev_of(view_of_block_seq(res@)),
            ),
            group_go(
                full.subrange(i as int, full.len() as int),
                view_of_block_seq(res@),
            ) == group_top(full),
        decreases code.0@.len() - i,
    {
        let ghost rem = full.subrange(i as int, full.len() as int);
        let ghost rest = full.subrange(i + 1, full.len() as int);
        let ghost accv = view_of_block_seq(res@);
        proof {
            lemma_block_view_index(code.0@, i as int);
            assert(rem[0] == full[i as int]);
            assert(rem.drop_first() =~= rest);
            lemma_wf_first(rem);
        }
        match &code.0[i] {
            OptBlock::Loop(inner) => {
                let skip: bool = if res.len() > 0 {
                    proof {
                        lemma_block_view_index(res@, res@.len() - 1);
                    }
                    match &res[res.len() - 1] {
                        OptBlock::Loop(_) => true,
                        _ => false,
                    }
                } else {
                    false
                };
                proof {
                    assert(skip == (accv.len() > 0 && accv.last() is Loop));
                }
                if !skip {
                    proof {
                        assert(decreases_to!(code.0 => code.0@));
                        assert(decreases_to!(code.0@ => code.0@[i as int]));
                        assert(decreases_to!(code.0@[i as int] => *inner));
                        assert(wf_blocks(inner@));
                    }
                    let gi = group_code(inner);
                    let ghost r0 = res@;
                    let ghost gv = BlockV::Loop(gi@);
                    res.push(OptBlock::Loop(gi));
                    proof {
                        lemma_block_view_push(r0, res@.last());
                        assert(r0.push(res@.last()) =~= res@);
                        assert(view_of_block(res@.last()) == gv);
                        lemma_wf_blocks_push(accv, gv);
                        lemma_norm_push(accv, gv);
                        lemma_group_len(inner@);
                    }
                }
            },
            OptBlock::IOIns(io) => {
                let ghost r0 = res@;
                res.push(OptBlock::IOIns(*io));
                proof {
                    lemma_block_view_push(r0, res@.last());
                    assert(r0.push(res@.last()) =~= res@);
                    assert(view_of_block(res@.last()) == rem[0]);
                    lemma_wf_blocks_push(accv, rem[0]);
                    lemma_norm_push(accv, rem[0]);
                }
            },
            OptBlock::Block(bb) => {
                let pd = bb.ins.pruned();
                proof {
                    lemma_prune(bb.ins@);
                }
                let is_block: bool = if res.len() > 0 {
                    proof {
                        lemma_block_view_index(res@, res@.len() - 1);
                    }
                    match &res[res.len() - 1] {
                        OptBlock::Block(_) => true,
                        _ => false,
                    }
                } else {
                    false
                };
                proof {
                    assert(is_block == (accv.len() > 0 && accv.last() is Block));
                }
                if is_block {
                    let ghost r_pre = res@;
                    let lastb = res.pop().unwrap();
                    proof {
                        assert(r_pre =~= res@.push(lastb));
                        lemma_block_view_subrange(r_pre, 0, r_pre.len() - 1);
                        assert(res@ =~= r_pre.subrange(0, r_pre.len() - 1));
                        assert(accv.subrange(0, accv.len() - 1) =~= accv.drop_last());
                        lemma_block_view_len(r_pre);
                        assert(view_of_block_seq(res@) =~= accv.drop_last());
                        lemma_block_view_index(r_pre, r_pre.len() - 1);
                        assert(view_of_block(lastb) == accv.last());
                    }
                    match lastb {
                        OptBlock::Block(mut prev) => {
                            let ghost p0v = prev.ptr_offset as int;
                            let ghost d0v = prev.ins@;
                            proof {
                                assert(accv.last() == BlockV::Block {
                                    ptr_offset: p0v,
                                    ins: d0v,
                                });
                                assert(wf_block(accv.last()));
                                assert(block_norm(accv.last()));
                                assert(pd@ == prune_v(bb.ins@));
                            }
                            let p0 = prev.ptr_offset;
                            prev.ins.merge_from(&pd, p0);
                            prev.ptr_offset = p0 + bb.ptr_offset;
                            let ghost mv = BlockV::Block {
                                ptr_offset: p0v + bb.ptr_offset as int,
                                ins: merge_go(d0v, prune_v(bb.ins@), p0v),
                            };
                            let ghost r1 = res@;
                            res.push(OptBlock::Block(prev));
                            proof {
                                lemma_block_view_push(r1, res@.last());
                                assert(r1.push(res@.last()) =~= res@);
                                assert(view_of_block(res@.last()) == mv);
                                assert(mv == merge_block(accv.last(), bb.ptr_offset as int,
                                    prune_v(bb.ins@)));
                                lemma_merge(d0v, prune_v(bb.ins@), p0v);
                                lemma_wf_blocks_push(accv.drop_last(), mv);
                                lemma_norm_push(accv.drop_last(), mv);
                                if accv.len() >= 2 {
                                    assert(accv.drop_last().last() == accv[accv.len() - 2]);
                                    assert(ok_pair(accv[accv.len() - 2], accv.last()));
                                }
                            }
                        },
                        _ => {
                            proof {
                                assert(false);
                            }
                        },
                    }
                } else {
                    let ghost r0 = res@;
                    let ghost gv = BlockV::Block {
                        ptr_offset: bb.ptr_offset as int,
                        ins: prune_v(bb.ins@),
                    };
                    res.push(OptBlock::Block(BasicBlock { ptr_offset: bb.ptr_offset, ins: pd }));
                    proof {
                        lemma_block_view_push(r0, res@.last());
                        assert(r0.push(res@.last()) =~= res@);
                        assert(view_of_block(res@.last()) == gv);
                        lemma_wf_blocks_push(accv, gv);
                        lemma_norm_push(accv, gv);
                    }
                }
            },
        }
        proof {
            assert(group_go(rest, view_of_block_seq(res@)) == group_top(full));
            assert(full.subrange(i + 1, full.len() as int) == rest);
            lemma_wf_first(rem);
        }
        i = i + 1;
    }
    proof {
        assert(full.subrange(full.len() as int, full.len() as int) =~= Seq::<BlockV>::empty());
    }
    OptCode(res)
}

impl GroupInstructions {
    /// Run the grouping pass: fold adjacent basic blocks, drop dead
    /// loops, prune zero deltas; report a change exactly when the
    /// instruction count went down.
    pub fn optimize(&self, code: OptCode, is_changed: &mut bool) -> (r: OptCode)
        requires
            code.wf(),
            group_fits(code@, PrevKind::Other),
            opt_ins_len_v(code@) <= usize::MAX,
        ensures
            r@ == group_top(code@),
            r.wf(),
            normalized(r@),
            group_fits(r@, PrevKind::Other),
            opt_ins_len_v(r@) <= opt_ins_len_v(code@),
            *final(is_changed) == (*old(is_changed) || opt_ins_len_v(r@) < opt_ins_len_v(
                code@,
            )),
    {
        let ghost cv = code@;
        let ins_count = code.ins_len();
        let r = group_code(&code);
        proof {
            lemma_group_len(cv);
            lemma_view_in_range(r.0@);
            lemma_norm_fits(r@, PrevKind::Other);
        }
        let new_count = r.ins_len();
        if new_count < ins_count {
            *is_changed = true;
        }
        r
    }
}

impl super::OptPass for GroupInstructions {
    fn optimize(&self, code: OptCode, is_changed: &mut bool) -> (r: OptCode) {
        GroupInstructions::optimize(self, code, is_changed)
    }
}

} // verus!
