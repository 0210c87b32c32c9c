use vstd::prelude::*;
use crate::ins::{BfCode, BfIns, InsV};
use crate::ins::{fmt_code_v, fmt_ins_v, view_of_ins_seq};

verus! {

/// Mathematical model of an IO instruction: the signed cell offset at
/// which the IO happens, relative to the block boundary before it.
pub enum IoV {
    /// print the cell at the offset
    Putchar(int),
    /// read a byte into the cell at the offset
    Getchar(int),
}

/// Mathematical model of one optimizer block.
#[verifier::ext_equal]
pub enum BlockV {
    /// loop over inner code
    Loop(Seq<BlockV>),
    /// straight-line block: ordered cell deltas, then a pointer move
    Block {
        /// net data pointer displacement, applied after the deltas
        ptr_offset: int,
        /// wrapping cell deltas in strictly ascending offset order
        ins: Seq<(int, u8)>,
    },
    /// a single IO instruction
    IOIns(IoV),
}

/// IO instruction
///
/// Can't be reordered with other io instructions / simplified in other way
#[derive(Debug, Clone, Copy, PartialEq, Eq, Structural)]
pub enum IOOptIns {
    /// Print current cell value (as u8) to output stream
    Putchar(isize),
    /// Replace current cell value with value from input stream
    Getchar(isize),
}

/// Sorted flat map from signed cell offset to wrapping 8-bit delta.
///
/// The entries are kept in strictly ascending key order, so that a walk
/// over them is deterministic; this is what the lowering relies on.
#[derive(Debug, Clone, PartialEq, Eq)]
pub struct DeltaMap {
    entries: Vec<(isize, u8)>,
}

/// Block of cell changes with precalculated offset
#[derive(Debug, Clone, PartialEq, Eq)]
pub struct BasicBlock {
    /// Data pointer offset per block
    ///
    /// this offset is applied after executing all block instructions
    pub ptr_offset: isize,
    /// Cell change for each offset
    pub ins: DeltaMap,
}

/// Block type (loop, basic block or IO)
#[derive(Debug, PartialEq, Eq)]
pub enum OptBlock {
    /// Loop over inner code
    Loop(OptCode),
    /// Block without loops inside
    Block(BasicBlock),
    /// IO instruction
    IOIns(IOOptIns),
}

/// Block of optimizer instructions
#[derive(Debug, PartialEq, Eq)]
pub struct OptCode(pub Vec<OptBlock>);

impl View for DeltaMap {
    type V = Seq<(int, u8)>;

    closed spec fn view(&self) -> Seq<(int, u8)> {
        Seq::new(self.entries@.len(), |j: int| (self.entries@[j].0 as int, self.entries@[j].1))
    }
}

impl DeltaMap {
    /// The raw entries, for proofs inside this module.
    pub(crate) closed spec fn spec_entries(&self) -> Seq<(isize, u8)> {
        self.entries@
    }
}

/// Model of an IO instruction.
pub open spec fn view_of_io(io: IOOptIns) -> IoV {
    match io {
        IOOptIns::Putchar(o) => IoV::Putchar(o as int),
        IOOptIns::Getchar(o) => IoV::Getchar(o as int),
    }
}

/// Model of one optimizer block.
pub open spec fn view_of_block(b: OptBlock) -> BlockV
    decreases b,
{
    match b {
        OptBlock::Loop(c) => BlockV::Loop(view_of_block_seq(c.0@)),
        OptBlock::Block(bb) => BlockV::Block { ptr_offset: bb.ptr_offset as int, ins: bb.ins@ },
        OptBlock::IOIns(io) => BlockV::IOIns(view_of_io(io)),
    }
}

/// Model of a sequence of optimizer blocks.
pub open spec fn view_of_block_seq(s: Seq<OptBlock>) -> Seq<BlockV>
    decreases s,
{
    if s.len() == 0 {
        Seq::empty()
    } else {
        view_of_block_seq(s.drop_last()).push(view_of_block(s.last()))
    }
}

impl View for OptBlock {
    type V = BlockV;

    open spec fn view(&self) -> BlockV {
        view_of_block(*self)
    }
}

impl View for OptCode {
    type V = Seq<BlockV>;

    open spec fn view(&self) -> Seq<BlockV> {
        view_of_block_seq(self.0@)
    }
}

/// The model of a block sequence is taken element by element.
pub proof fn lemma_block_view_index(s: Seq<OptBlock>, i: int)
    requires
        0 <= i < s.len(),
    ensures
        view_of_block_seq(s).len() == s.len(),
        view_of_block_seq(s)[i] == view_of_block(s[i]),
    decreases s.len(),
{
    if s.len() > 0 {
        if i < s.len() - 1 {
            lemma_block_view_index(s.drop_last(), i);
        } else {
            lemma_block_view_len(s.drop_last());
        }
    }
}

/// The model keeps the length of a block sequence.
pub proof fn lemma_block_view_len(s: Seq<OptBlock>)
    ensures
        view_of_block_seq(s).len() == s.len(),
    decreases s.len(),
{
    if s.len() > 0 {
        lemma_block_view_len(s.drop_last());
    }
}

/// The model of a pushed block is pushed onto the model.
pub proof fn lemma_block_view_push(s: Seq<OptBlock>, x: OptBlock)
    ensures
        view_of_block_seq(s.push(x)) == view_of_block_seq(s).push(view_of_block(x)),
{
    assert(s.push(x).drop_last() =~= s);
    assert(s.push(x).last() == x);
}

/// Keys are in strictly ascending order.
pub open spec fn sorted_deltas(s: Seq<(int, u8)>) -> bool {
    forall|i: int, j: int| 0 <= i < j < s.len() ==> #[trigger] s[i].0 < #[trigger] s[j].0
}

/// No entry carries a zero delta.
pub open spec fn zero_free(s: Seq<(int, u8)>) -> bool {
    forall|i: int| 0 <= i < s.len() ==> (#[trigger] s[i]).1 != 0
}

/// The delta recorded for a cell offset, if any.
pub open spec fn delta_at(s: Seq<(int, u8)>, k: int) -> Option<u8>
    decreases s.len(),
{
    if s.len() == 0 {
        None
    } else if s.last().0 == k {
        Some(s.last().1)
    } else {
        delta_at(s.drop_last(), k)
    }
}

/// Merge a wrapping delta into an ordered delta sequence: the entry is
/// inserted in key order, merged with an existing entry for the same key,
/// and dropped when the merged value reaches zero.
pub open spec fn seq_insert_delta(s: Seq<(int, u8)>, k: int, v: u8) -> Seq<(int, u8)>
    decreases s.len(),
{
    if s.len() == 0 {
        if v == 0 {
            s
        } else {
            seq![(k, v)]
        }
    } else if s.last().0 < k {
        if v == 0 {
            s
        } else {
            s.push((k, v))
        }
    } else if s.last().0 == k {
        if s.last().1.wrapping_add(v) == 0 {
            s.drop_last()
        } else {
            s.drop_last().push((k, s.last().1.wrapping_add(v)))
        }
    } else {
        seq_insert_delta(s.drop_last(), k, v).push(s.last())
    }
}

/// Inserting leaves entries with larger keys in place.
proof fn lemma_insert_skip(s: Seq<(int, u8)>, k: int, v: u8, j: int)
    requires
        0 <= j <= s.len(),
        forall|m: int| j <= m < s.len() ==> #[trigger] s[m].0 > k,
    ensures
        seq_insert_delta(s, k, v) == seq_insert_delta(s.subrange(0, j), k, v) + s.subrange(
            j,
            s.len() as int,
        ),
    decreases s.len(),
{
    if j == s.len() {
        assert(s.subrange(0, j) =~= s);
        assert(seq_insert_delta(s, k, v) + s.subrange(j, s.len() as int) =~= seq_insert_delta(
            s,
            k,
            v,
        ));
    } else {
        assert(s[s.len() - 1].0 > k);
        lemma_insert_skip(s.drop_last(), k, v, j);
        assert(s.drop_last().subrange(0, j) =~= s.subrange(0, j));
        assert(seq_insert_delta(s, k, v) == seq_insert_delta(s.drop_last(), k, v).push(s.last()));
        assert((seq_insert_delta(s.subrange(0, j), k, v) + s.drop_last().subrange(
            j,
            s.len() - 1,
        )).push(s.last()) =~= seq_insert_delta(s.subrange(0, j), k, v) + s.subrange(
            j,
            s.len() as int,
        ));
    }
}

/// Inserting keeps the keys in ascending order; the touched key is `k`.
pub proof fn lemma_insert_sorted(s: Seq<(int, u8)>, k: int, v: u8)
    requires
        sorted_deltas(s),
    ensures
        sorted_deltas(seq_insert_delta(s, k, v)),
        forall|i: int|
            0 <= i < seq_insert_delta(s, k, v).len() ==> (exists|m: int|
                0 <= m < s.len() && (#[trigger] seq_insert_delta(s, k, v)[i].0 == s[m].0))
                || seq_insert_delta(s, k, v)[i].0 == k,
    decreases s.len(),
{
    let r = seq_insert_delta(s, k, v);
    if s.len() == 0 {
    } else if s.last().0 < k {
    } else if s.last().0 == k {
        assert(s.drop_last() =~= s.subrange(0, s.len() - 1));
    } else {
        lemma_insert_sorted(s.drop_last(), k, v);
        let r0 = seq_insert_delta(s.drop_last(), k, v);
        assert forall|i: int, j: int| 0 <= i < j < r.len() implies #[trigger] r[i].0
            < #[trigger] r[j].0 by {
            if j < r.len() - 1 {
                assert(r[i] == r0[i] && r[j] == r0[j]);
            } else {
                if i < r.len() - 1 {
                    assert(r[i] == r0[i]);
                    if r0[i].0 == k {
                        assert(r[j].0 == s.last().0 > k);
                    } else {
                        let m = choose|m: int|
                            0 <= m < s.drop_last().len() && r0[i].0 == s.drop_last()[m].0;
                        assert(s[m].0 < s[s.len() - 1].0);
                    }
                }
            }
        }
    }
}

/// Inserting keeps entries free of zero deltas.
pub proof fn lemma_insert_zero_free(s: Seq<(int, u8)>, k: int, v: u8)
    requires
        zero_free(s),
    ensures
        zero_free(seq_insert_delta(s, k, v)),
    decreases s.len(),
{
    if s.len() == 0 {
    } else if s.last().0 < k {
    } else if s.last().0 == k {
        assert(s.drop_last() =~= s.subrange(0, s.len() - 1));
    } else {
        lemma_insert_zero_free(s.drop_last(), k, v);
    }
}

/// Inserting grows the entry count by at most one.
pub proof fn lemma_insert_len(s: Seq<(int, u8)>, k: int, v: u8)
    ensures
        seq_insert_delta(s, k, v).len() <= s.len() + 1,
    decreases s.len(),
{
    if s.len() == 0 {
    } else if s.last().0 < k {
    } else if s.last().0 == k {
    } else {
        lemma_insert_len(s.drop_last(), k, v);
    }
}

impl DeltaMap {
    /// Keys are held in strictly ascending order.
    pub open spec fn well_formed(&self) -> bool {
        sorted_deltas(self@)
    }

    /// An empty delta map.
    pub fn new() -> (r: Self)
        ensures
            r@ == Seq::<(int, u8)>::empty(),
            r.well_formed(),
    {
        let r = DeltaMap { entries: Vec::new() };
        proof {
            assert(r@ =~= Seq::<(int, u8)>::empty());
        }
        r
    }

    /// Number of recorded offsets.
    pub fn len(&self) -> (r: usize)
        ensures
            r == self@.len(),
    {
        self.entries.len()
    }

    /// True when no offset is recorded.
    pub fn is_empty(&self) -> (r: bool)
        ensures
            r == (self@.len() == 0),
    {
        self.entries.len() == 0
    }

    /// The entry at a position, in ascending key order.
    pub fn entry_at(&self, i: usize) -> (r: (isize, u8))
        requires
            i < self@.len(),
        ensures
            (r.0 as int, r.1) == self@[i as int],
    {
        self.entries[i]
    }

    /// The delta recorded for an offset, if any.
    pub fn get(&self, k: isize) -> (r: Option<u8>)
        ensures
            r == delta_at(self@, k as int),
    {
        let mut j: usize = self.entries.len();
        proof {
            assert(self@.subrange(0, self@.len() as int) =~= self@);
        }
        while j > 0
            invariant
                j <= self@.len(),
                delta_at(self@, k as int) == delta_at(self@.subrange(0, j as int), k as int),
            decreases j,
        {
            if self.entries[j - 1].0 == k {
                proof {
                    assert(self@.subrange(0, j as int).last() == self@[j - 1]);
                }
                return Some(self.entries[j - 1].1);
            }
            proof {
                assert(self@.subrange(0, j as int).drop_last() =~= self@.subrange(0, j - 1));
                assert(self@.subrange(0, j as int).last() == self@[j - 1]);
            }
            j = j - 1;
        }
        proof {
            assert(self@.subrange(0, 0) =~= Seq::<(int, u8)>::empty());
        }
        None
    }

    /// Merge a wrapping delta into the map, dropping the entry when the
    /// merged value reaches zero.
    #[verifier::rlimit(40)]
    pub fn add_delta(&mut self, k: isize, v: u8)
        requires
            old(self).well_formed(),
        ensures
            final(self).well_formed(),
            final(self)@ == seq_insert_delta(old(self)@, k as int, v),
    {
        let ghost s = self@;
        let mut j: usize = self.entries.len();
        while j > 0 && self.entries[j - 1].0 > k
            invariant
                j <= s.len(),
                self@ == s,
                sorted_deltas(s),
                forall|m: int| j <= m < s.len() ==> #[trigger] s[m].0 > k as int,
            decreases j,
        {
            proof {
                assert(s[j - 1].0 > k as int);
            }
            j = j - 1;
        }
        proof {
            if j > 0 {
                assert(s[j - 1].0 <= k as int);
            }
        }
        proof {
            lemma_insert_skip(s, k as int, v, j as int);
        }
        if j > 0 && self.entries[j - 1].0 == k {
            let w = self.entries[j - 1].1.wrapping_add(v);
            let ghost pre = s.subrange(0, j as int);
            proof {
                assert(pre.last() == s[j - 1]);
                assert(pre.drop_last() =~= s.subrange(0, j - 1));
            }
            if w == 0 {
                self.entries.remove(j - 1);
                proof {
                    assert(self@ =~= s.subrange(0, j - 1) + s.subrange(j as int, s.len() as int));
                    assert(self@ =~= seq_insert_delta(s, k as int, v));
                }
            } else {
                let e = self.entries[j - 1];
                self.entries.set(j - 1, (e.0, w));
                proof {
                    assert(self@ =~= (s.subrange(0, j - 1).push((k as int, w))) + s.subrange(
                        j as int,
                        s.len() as int,
                    ));
                    assert(self@ =~= seq_insert_delta(s, k as int, v));
                }
            }
        } else {
            proof {
                let pre = s.subrange(0, j as int);
                if j > 0 {
                    assert(pre.last() == s[j - 1]);
                    assert(s[j - 1].0 < k as int);
                }
            }
            if v != 0 {
                self.entries.insert(j, (k, v));
                proof {
                    assert(self@ =~= (s.subrange(0, j as int).push((k as int, v))) + s.subrange(
                        j as int,
                        s.len() as int,
                    ));
                    let pre = s.subrange(0, j as int);
                    if pre.len() == 0 {
                        assert(seq_insert_delta(pre, k as int, v) =~= seq![(k as int, v)]);
                        assert(pre.push((k as int, v)) =~= seq![(k as int, v)]);
                    }
                    assert(self@ =~= seq_insert_delta(s, k as int, v));
                }
            } else {
                proof {
                    let pre = s.subrange(0, j as int);
                    assert(seq_insert_delta(pre, k as int, v) == pre);
                    assert(self@ =~= seq_insert_delta(s, k as int, v));
                }
            }
        }
        proof {
            lemma_insert_sorted(s, k as int, v);
        }
    }
}


/// All delta sequences in a block are sorted by key.
pub open spec fn wf_block(b: BlockV) -> bool
    decreases b,
{
    match b {
        BlockV::Loop(inner) => wf_blocks(inner),
        BlockV::Block { ptr_offset, ins } => sorted_deltas(ins),
        BlockV::IOIns(_) => true,
    }
}

/// All delta sequences in a block sequence are sorted by key.
pub open spec fn wf_blocks(bs: Seq<BlockV>) -> bool
    decreases bs,
{
    if bs.len() == 0 {
        true
    } else {
        wf_blocks(bs.drop_last()) && wf_block(bs.last())
    }
}

/// Well-formedness distributes over appending one block.
pub proof fn lemma_wf_blocks_push(bs: Seq<BlockV>, b: BlockV)
    ensures
        wf_blocks(bs.push(b)) == (wf_blocks(bs) && wf_block(b)),
{
    assert(bs.push(b).drop_last() =~= bs);
    assert(bs.push(b).last() == b);
}

/// Lifting state step: the whole program, summarized so far as `res`,
/// with the pending deltas `cells` and pointer displacement `off`.
pub open spec fn lift_go(s: Seq<InsV>, off: int, cells: Seq<(int, u8)>, res: Seq<BlockV>) -> Seq<
    BlockV,
>
    decreases s, 0int,
{
    if s.len() == 0 {
        if cells.len() > 0 || off != 0 {
            res.push(BlockV::Block { ptr_offset: off, ins: cells })
        } else {
            res
        }
    } else {
        let rest = s.drop_first();
        match s[0] {
            InsV::Add(v) => lift_go(rest, off, seq_insert_delta(cells, off, v), res),
            InsV::Sub(v) => lift_go(
                rest,
                off,
                seq_insert_delta(cells, off, (0 as u8).wrapping_sub(v)),
                res,
            ),
            InsV::PtrAdd(n) => lift_go(rest, off + n, cells, res),
            InsV::PtrSub(n) => lift_go(rest, off - n, cells, res),
            InsV::Putchar => if cells.len() > 0 {
                lift_go(
                    rest,
                    0,
                    Seq::empty(),
                    res.push(BlockV::Block { ptr_offset: off, ins: cells }).push(
                        BlockV::IOIns(IoV::Putchar(0)),
                    ),
                )
            } else {
                lift_go(rest, off, cells, res.push(BlockV::IOIns(IoV::Putchar(off))))
            },
            InsV::Getchar => if cells.len() > 0 {
                lift_go(
                    rest,
                    0,
                    Seq::empty(),
                    res.push(BlockV::Block { ptr_offset: off, ins: cells }).push(
                        BlockV::IOIns(IoV::Getchar(0)),
                    ),
                )
            } else {
                lift_go(rest, off, cells, res.push(BlockV::IOIns(IoV::Getchar(off))))
            },
            InsV::Loop(body) => {
                let res2 = if cells.len() > 0 || off != 0 {
                    res.push(BlockV::Block { ptr_offset: off, ins: cells })
                } else {
                    res
                };
                lift_go(rest, 0, Seq::empty(), res2.push(BlockV::Loop(lift_top(body))))
            },
        }
    }
}

/// Summarize a surface program into basic-block form.
pub open spec fn lift_top(s: Seq<InsV>) -> Seq<BlockV>
    decreases s, 1int,
{
    lift_go(s, 0, Seq::empty(), Seq::empty())
}

/// Append a finished basic block to the summarized prefix.
fn push_basic(res: &mut Vec<OptBlock>, offset: isize, cells: DeltaMap)
    requires
        wf_blocks(view_of_block_seq(old(res)@)),
        cells.well_formed(),
    ensures
        view_of_block_seq(final(res)@) == view_of_block_seq(old(res)@).push(
            BlockV::Block { ptr_offset: offset as int, ins: cells@ },
        ),
        wf_blocks(view_of_block_seq(final(res)@)),
{
    let ghost bv = BlockV::Block { ptr_offset: offset as int, ins: cells@ };
    let ghost r0 = res@;
    res.push(OptBlock::Block(BasicBlock { ptr_offset: offset, ins: cells }));
    proof {
        lemma_block_view_push(r0, res@.last());
        assert(r0.push(res@.last()) =~= res@);
        assert(view_of_block(res@.last()) == bv);
        lemma_wf_blocks_push(view_of_block_seq(r0), bv);
    }
}

/// Append an IO block to the summarized prefix.
fn push_io(res: &mut Vec<OptBlock>, io: IOOptIns)
    requires
        wf_blocks(view_of_block_seq(old(res)@)),
    ensures
        view_of_block_seq(final(res)@) == view_of_block_seq(old(res)@).push(
            BlockV::IOIns(view_of_io(io)),
        ),
        wf_blocks(view_of_block_seq(final(res)@)),
{
    let ghost r0 = res@;
    res.push(OptBlock::IOIns(io));
    proof {
        lemma_block_view_push(r0, res@.last());
        assert(r0.push(res@.last()) =~= res@);
        lemma_wf_blocks_push(view_of_block_seq(r0), BlockV::IOIns(view_of_io(io)));
    }
}

/// Append a finished loop block to the summarized prefix.
fn push_loop(res: &mut Vec<OptBlock>, inner: OptCode)
    requires
        wf_blocks(view_of_block_seq(old(res)@)),
        inner.wf(),
    ensures
        view_of_block_seq(final(res)@) == view_of_block_seq(old(res)@).push(BlockV::Loop(inner@)),
        wf_blocks(view_of_block_seq(final(res)@)),
{
    let ghost bv = BlockV::Loop(inner@);
    let ghost r0 = res@;
    res.push(OptBlock::Loop(inner));
    proof {
        lemma_block_view_push(r0, res@.last());
        assert(r0.push(res@.last()) =~= res@);
        assert(view_of_block(res@.last()) == bv);
        lemma_wf_blocks_push(view_of_block_seq(r0), bv);
    }
}

impl OptCode {
    /// All delta maps held anywhere in this code are sorted by key.
    pub open spec fn wf(&self) -> bool {
        wf_blocks(self@)
    }

    /// Lift surface code into basic-block form: runs of cell changes are
    /// summarized as position-indexed deltas with a net pointer move, IO
    /// and loops become blocks of their own.
    pub fn from_bf(value: &BfCode) -> (r: OptCode)
        requires
            fmt_code_v(value@).len() <= isize::MAX,
        ensures
            r@ == lift_top(value@),
            r.wf(),
        decreases *value,
    {
        let ghost full = value@;
        let ghost flen = fmt_code_v(value@).len() as int;
        let mut offset: isize = 0;
        let mut cells = DeltaMap::new();
        let mut res: Vec<OptBlock> = Vec::new();
        let mut i: usize = 0;
        proof {
            crate::ins::lemma_view_len(value.0@);
            assert(full.subrange(0, full.len() as int) =~= full);
            assert(view_of_block_seq(res@) =~= Seq::<BlockV>::empty());
        }
        while i < value.0.len()
            invariant
                i <= value.0@.len(),
                full == view_of_ins_seq(value.0@),
                full.len() == value.0@.len(),
                fmt_code_v(full).len() == flen,
                flen <= isize::MAX,
                cells.well_formed(),
                wf_blocks(view_of_block_seq(res@)),
                (if offset >= 0 {
                    offset as int
                } else {
                    -(offset as int)
                }) + fmt_code_v(full.subrange(i as int, full.len() as int)).len() <= flen,
                lift_go(
                    full.subrange(i as int, full.len() as int),
                    offset as int,
                    cells@,
                    view_of_block_seq(res@),
                ) == lift_top(full),
            decreases value.0@.len() - i,
        {
            let ghost rem = full.subrange(i as int, full.len() as int);
            let ghost rest = full.subrange(i + 1, full.len() as int);
            let ghost cells0 = cells@;
            let ghost resv0 = view_of_block_seq(res@);
            let ghost off0 = offset as int;
            proof {
                crate::ins::lemma_view_index(value.0@, i as int);
                assert(rem[0] == full[i as int]);
                assert(rem.drop_first() =~= rest);
                assert(rem =~= seq![rem[0]] + rest);
                crate::ins::lemma_fmt_concat(seq![rem[0]], rest);
                crate::ins::lemma_fmt_singleton(rem[0]);
            }
            match &value.0[i] {
                BfIns::Add(v) => {
                    cells.add_delta(offset, *v);
                    proof {
                        assert(rem[0] == InsV::Add(*v));
                        assert(lift_go(rem, off0, cells0, resv0) == lift_go(
                            rem.drop_first(),
                            off0,
                            seq_insert_delta(cells0, off0, *v),
                            resv0,
                        ));
                    }
                },
                BfIns::Sub(v) => {
                    cells.add_delta(offset, (0 as u8).wrapping_sub(*v));
                    proof {
                        assert(rem[0] == InsV::Sub(*v));
                        assert(lift_go(rem, off0, cells0, resv0) == lift_go(
                            rem.drop_first(),
                            off0,
                            seq_insert_delta(cells0, off0, (0 as u8).wrapping_sub(*v)),
                            resv0,
                        ));
                    }
                },
                BfIns::PtrAdd(d) => {
                    proof {
                        assert(fmt_ins_v(rem[0]).len() == *d as int);
                    }
                    offset = offset + (*d as isize);
                    proof {
                        assert(lift_go(rem, off0, cells0, resv0) == lift_go(
                            rem.drop_first(),
                            off0 + (*d as int),
                            cells0,
                            resv0,
                        ));
                    }
                },
                BfIns::PtrSub(d) => {
                    proof {
                        assert(fmt_ins_v(rem[0]).len() == *d as int);
                    }
                    offset = offset - (*d as isize);
                    proof {
                        assert(lift_go(rem, off0, cells0, resv0) == lift_go(
                            rem.drop_first(),
                            off0 - (*d as int),
                            cells0,
                            resv0,
                        ));
                    }
                },
                BfIns::Putchar => {
                    if !cells.is_empty() {
                        let done = cells;
                        cells = DeltaMap::new();
                        push_basic(&mut res, offset, done);
                        offset = 0;
                    }
                    push_io(&mut res, IOOptIns::Putchar(offset));
                    proof {
                        assert(rem[0] == InsV::Putchar);
                        if cells0.len() > 0 {
                            assert(lift_go(rem, off0, cells0, resv0) == lift_go(
                                rem.drop_first(),
                                0,
                                Seq::<(int, u8)>::empty(),
                                resv0.push(
                                    BlockV::Block { ptr_offset: off0, ins: cells0 },
                                ).push(BlockV::IOIns(IoV::Putchar(0))),
                            ));
                        } else {
                            assert(lift_go(rem, off0, cells0, resv0) == lift_go(
                                rem.drop_first(),
                                off0,
                                cells0,
                                resv0.push(BlockV::IOIns(IoV::Putchar(off0))),
                            ));
                        }
                    }
                },
                BfIns::Getchar => {
                    if !cells.is_empty() {
                        let done = cells;
                        cells = DeltaMap::new();
                        push_basic(&mut res, offset, done);
                        offset = 0;
                    }
                    push_io(&mut res, IOOptIns::Getchar(offset));
                    proof {
                        assert(rem[0] == InsV::Getchar);
                        if cells0.len() > 0 {
                            assert(lift_go(rem, off0, cells0, resv0) == lift_go(
                                rem.drop_first(),
                                0,
                                Seq::<(int, u8)>::empty(),
                                resv0.push(
                                    BlockV::Block { ptr_offset: off0, ins: cells0 },
                                ).push(BlockV::IOIns(IoV::Getchar(0))),
                            ));
                        } else {
                            assert(lift_go(rem, off0, cells0, resv0) == lift_go(
                                rem.drop_first(),
                                off0,
                                cells0,
                                resv0.push(BlockV::IOIns(IoV::Getchar(off0))),
                            ));
                        }
                    }
                },
                BfIns::Loop(inner) => {
                    if !cells.is_empty() || offset != 0 {
                        let done = cells;
                        cells = DeltaMap::new();
                        push_basic(&mut res, offset, done);
                        offset = 0;
                    }
                    proof {
                        assert(decreases_to!(value.0 => value.0@));
                        assert(decreases_to!(value.0@ => value.0@[i as int]));
                        assert(decreases_to!(value.0@[i as int] => *inner));
                        assert(fmt_ins_v(rem[0]).len() == 2 + fmt_code_v(inner@).len());
                    }
                    let oc = OptCode::from_bf(inner);
                    push_loop(&mut res, oc);
                    proof {
                        assert(rem[0] == InsV::Loop(inner@));
                        if cells0.len() == 0 {
                            assert(cells0 =~= Seq::<(int, u8)>::empty());
                        }
                        let resv2 = if cells0.len() > 0 || off0 != 0 {
                            resv0.push(BlockV::Block { ptr_offset: off0, ins: cells0 })
                        } else {
                            resv0
                        };
                        assert(lift_go(rem, off0, cells0, resv0) == lift_go(
                            rem.drop_first(),
                            0,
                            Seq::<(int, u8)>::empty(),
                            resv2.push(BlockV::Loop(lift_top(inner@))),
                        ));
                    }
                },
            }
            proof {
                assert(lift_go(rest, offset as int, cells@, view_of_block_seq(res@))
                    == lift_top(full));
                assert(full.subrange(i + 1, full.len() as int) == rest);
            }
            i = i + 1;
        }
        if !cells.is_empty() || offset != 0 {
            let done = cells;
            push_basic(&mut res, offset, done);
        }
        proof {
            assert(full.subrange(full.len() as int, full.len() as int) =~= Seq::<InsV>::empty());
        }
        OptCode(res)
    }
}



/// Absolute value.
pub open spec fn abs_i(x: int) -> int {
    if x >= 0 {
        x
    } else {
        -x
    }
}

/// Sum of the magnitudes of the recorded offsets.
pub open spec fn deltas_abs(ds: Seq<(int, u8)>) -> int
    decreases ds.len(),
{
    if ds.len() == 0 {
        0
    } else {
        deltas_abs(ds.drop_last()) + abs_i(ds.last().0)
    }
}

/// Sum of the magnitudes of every offset a block mentions.
pub open spec fn block_abs(b: BlockV) -> int
    decreases b,
{
    match b {
        BlockV::Loop(inner) => opt_abs_v(inner),
        BlockV::Block { ptr_offset, ins } => abs_i(ptr_offset) + deltas_abs(ins),
        BlockV::IOIns(IoV::Putchar(o)) => abs_i(o),
        BlockV::IOIns(IoV::Getchar(o)) => abs_i(o),
    }
}

/// Sum of the magnitudes of every offset the code mentions; every pointer
/// move the lowering emits is bounded by twice this number.
pub open spec fn opt_abs_v(bs: Seq<BlockV>) -> int
    decreases bs,
{
    if bs.len() == 0 {
        0
    } else {
        opt_abs_v(bs.drop_last()) + block_abs(bs.last())
    }
}

/// Every offset magnitude is non-negative.
pub proof fn lemma_deltas_abs_nonneg(ds: Seq<(int, u8)>)
    ensures
        deltas_abs(ds) >= 0,
    decreases ds.len(),
{
    if ds.len() > 0 {
        lemma_deltas_abs_nonneg(ds.drop_last());
    }
}

/// The magnitude sum of a block is non-negative.
pub proof fn lemma_block_abs_nonneg(b: BlockV)
    ensures
        block_abs(b) >= 0,
    decreases b,
{
    match b {
        BlockV::Loop(inner) => lemma_opt_abs_nonneg(inner),
        BlockV::Block { ptr_offset, ins } => lemma_deltas_abs_nonneg(ins),
        BlockV::IOIns(_) => (),
    }
}

/// The magnitude sum of a code block is non-negative.
pub proof fn lemma_opt_abs_nonneg(bs: Seq<BlockV>)
    ensures
        opt_abs_v(bs) >= 0,
    decreases bs,
{
    if bs.len() > 0 {
        lemma_opt_abs_nonneg(bs.drop_last());
        lemma_block_abs_nonneg(bs.last());
    }
}

/// Each recorded offset is bounded by the magnitude sum.
pub proof fn lemma_deltas_abs_index(ds: Seq<(int, u8)>, i: int)
    requires
        0 <= i < ds.len(),
    ensures
        abs_i(ds[i].0) <= deltas_abs(ds),
    decreases ds.len(),
{
    lemma_deltas_abs_nonneg(ds.drop_last());
    if i < ds.len() - 1 {
        lemma_deltas_abs_index(ds.drop_last(), i);
    }
}

/// Each block magnitude is bounded by the code magnitude sum.
pub proof fn lemma_opt_abs_index(bs: Seq<BlockV>, i: int)
    requires
        0 <= i < bs.len(),
    ensures
        block_abs(bs[i]) <= opt_abs_v(bs),
    decreases bs,
{
    lemma_opt_abs_nonneg(bs.drop_last());
    lemma_block_abs_nonneg(bs.last());
    if i < bs.len() - 1 {
        lemma_opt_abs_index(bs.drop_last(), i);
    }
}

/// The pointer motion that reaches displacement `d`.
pub open spec fn move_ins(d: int) -> Seq<InsV> {
    if d > 0 {
        seq![InsV::PtrAdd(d as nat)]
    } else if d < 0 {
        seq![InsV::PtrSub((-d) as nat)]
    } else {
        Seq::empty()
    }
}

/// The surface instruction for one wrapping delta: the nearer of an add
/// and a subtract.
pub open spec fn delta_ins(v: u8) -> InsV {
    if v < 128 {
        InsV::Add(v)
    } else {
        InsV::Sub((0 as u8).wrapping_sub(v))
    }
}

/// Lower the deltas of one basic block, walking the offsets in order.
pub open spec fn lower_deltas_go(ds: Seq<(int, u8)>, off: int, acc: Seq<InsV>) -> (Seq<InsV>, int)
    decreases ds.len(),
{
    if ds.len() == 0 {
        (acc, off)
    } else {
        lower_deltas_go(
            ds.drop_first(),
            ds[0].0,
            acc + move_ins(ds[0].0 - off) + seq![delta_ins(ds[0].1)],
        )
    }
}

/// Lowering state step: flatten blocks back to surface code, tracking the
/// pointer position `off` relative to the last block boundary.
pub open spec fn lower_go(bs: Seq<BlockV>, off: int, acc: Seq<InsV>) -> Seq<InsV>
    decreases bs, 0int,
{
    if bs.len() == 0 {
        acc
    } else {
        let rest = bs.drop_first();
        match bs[0] {
            BlockV::Loop(inner) => lower_go(rest, off, acc.push(InsV::Loop(lower_top(inner)))),
            BlockV::IOIns(IoV::Putchar(o)) => lower_go(
                rest,
                o,
                acc + move_ins(o - off) + seq![InsV::Putchar],
            ),
            BlockV::IOIns(IoV::Getchar(o)) => lower_go(
                rest,
                o,
                acc + move_ins(o - off) + seq![InsV::Getchar],
            ),
            BlockV::Block { ptr_offset, ins } => {
                let p = lower_deltas_go(ins, off, acc);
                lower_go(rest, 0, p.0 + move_ins(ptr_offset - p.1))
            },
        }
    }
}

/// Flatten basic-block form back to surface code.
pub open spec fn lower_top(bs: Seq<BlockV>) -> Seq<InsV>
    decreases bs, 1int,
{
    lower_go(bs, 0, Seq::empty())
}

/// Append the pointer motion that reaches displacement `d`.
fn emit_move(code: &mut Vec<BfIns>, d: isize)
    requires
        d != isize::MIN,
    ensures
        view_of_ins_seq(final(code)@) == view_of_ins_seq(old(code)@) + move_ins(d as int),
{
    let ghost c0 = code@;
    if d > 0 {
        code.push(BfIns::PtrAdd(d as usize));
        proof {
            crate::ins::lemma_view_push(c0, BfIns::PtrAdd(d as usize));
            assert(view_of_ins_seq(c0).push(InsV::PtrAdd(d as nat)) =~= view_of_ins_seq(c0)
                + move_ins(d as int));
        }
    } else if d < 0 {
        code.push(BfIns::PtrSub((-d) as usize));
        proof {
            crate::ins::lemma_view_push(c0, BfIns::PtrSub((-d) as usize));
            assert(view_of_ins_seq(c0).push(InsV::PtrSub((-d) as nat)) =~= view_of_ins_seq(c0)
                + move_ins(d as int));
        }
    } else {
        proof {
            assert(view_of_ins_seq(code@) + move_ins(d as int) =~= view_of_ins_seq(code@));
        }
    }
}

impl BfCode {
    /// Flatten basic-block form back to surface code: each delta becomes
    /// pointer motion and the nearer of an add and a subtract, each block
    /// ends with the motion that realizes its net displacement.
    pub fn from_opt(value: &OptCode) -> (r: BfCode)
        requires
            2 * opt_abs_v(value@) <= isize::MAX,
        ensures
            r@ == lower_top(value@),
        decreases *value,
    {
        let ghost full = value@;
        let ghost amax = opt_abs_v(full);
        let mut code: Vec<BfIns> = Vec::new();
        let mut offset: isize = 0;
        let mut i: usize = 0;
        proof {
            lemma_block_view_len(value.0@);
            lemma_opt_abs_nonneg(full);
            assert(full.subrange(0, full.len() as int) =~= full);
            assert(view_of_ins_seq(code@) =~= Seq::<InsV>::empty());
        }
        while i < value.0.len()
            invariant
                i <= value.0@.len(),
                full == view_of_block_seq(value.0@),
                full.len() == value.0@.len(),
                amax == opt_abs_v(full),
                0 <= 2 * amax <= isize::MAX,
                abs_i(offset as int) <= amax,
                lower_go(
                    full.subrange(i as int, full.len() as int),
                    offset as int,
                    view_of_ins_seq(code@),
                ) == lower_top(full),
            decreases value.0@.len() - i,
        {
            let ghost rem = full.subrange(i as int, full.len() as int);
            let ghost rest = full.subrange(i + 1, full.len() as int);
            let ghost acc0 = view_of_ins_seq(code@);
            let ghost off0 = offset as int;
            proof {
                lemma_block_view_index(value.0@, i as int);
                assert(rem[0] == full[i as int]);
                assert(rem.drop_first() =~= rest);
                lemma_opt_abs_index(full, i as int);
            }
            match &value.0[i] {
                OptBlock::Loop(inner) => {
                    proof {
                        assert(decreases_to!(value.0 => value.0@));
                        assert(decreases_to!(value.0@ => value.0@[i as int]));
                        assert(decreases_to!(value.0@[i as int] => *inner));
                        assert(block_abs(rem[0]) == opt_abs_v(inner@));
                    }
                    let b = BfCode::from_opt(inner);
                    let ghost c0 = code@;
                    let ghost bv = BfIns::Loop(b);
                    code.push(BfIns::Loop(b));
                    proof {
                        crate::ins::lemma_view_push(c0, bv);
                        assert(lower_go(rem, off0, acc0) == lower_go(
                            rem.drop_first(),
                            off0,
                            acc0.push(InsV::Loop(lower_top(inner@))),
                        ));
                    }
                },
                OptBlock::IOIns(io) => {
                    let o: isize = match io {
                        IOOptIns::Putchar(x) => *x,
                        IOOptIns::Getchar(x) => *x,
                    };
                    proof {
                        assert(abs_i(o as int) == block_abs(rem[0]));
                    }
                    if offset != o {
                        emit_move(&mut code, o - offset);
                    } else {
                        proof {
                            assert(acc0 + move_ins(o - off0) =~= acc0);
                        }
                    }
                    let ghost c1 = view_of_ins_seq(code@);
                    match io {
                        IOOptIns::Putchar(_) => {
                            let ghost c0 = code@;
                            code.push(BfIns::Putchar);
                            proof {
                                crate::ins::lemma_view_push(c0, BfIns::Putchar);
                                assert(c1.push(InsV::Putchar) =~= (acc0 + move_ins(o - off0))
                                    + seq![InsV::Putchar]);
                                assert(lower_go(rem, off0, acc0) == lower_go(
                                    rem.drop_first(),
                                    o as int,
                                    (acc0 + move_ins(o - off0)) + seq![InsV::Putchar],
                                ));
                            }
                        },
                        IOOptIns::Getchar(_) => {
                            let ghost c0 = code@;
                            code.push(BfIns::Getchar);
                            proof {
                                crate::ins::lemma_view_push(c0, BfIns::Getchar);
                                assert(c1.push(InsV::Getchar) =~= (acc0 + move_ins(o - off0))
                                    + seq![InsV::Getchar]);
                                assert(lower_go(rem, off0, acc0) == lower_go(
                                    rem.drop_first(),
                                    o as int,
                                    (acc0 + move_ins(o - off0)) + seq![InsV::Getchar],
                                ));
                            }
                        },
                    }
                    offset = o;
                },
                OptBlock::Block(bb) => {
                    let ghost dsv = bb.ins@;
                    let ghost p = lower_deltas_go(dsv, off0, acc0);
                    proof {
                        assert(block_abs(rem[0]) == abs_i(bb.ptr_offset as int) + deltas_abs(dsv));
                        lemma_deltas_abs_nonneg(dsv);
                        assert(dsv.subrange(0, dsv.len() as int) =~= dsv);
                    }
                    let m = bb.ins.len();
                    let mut j: usize = 0;
                    while j < m
                        invariant
                            j <= m,
                            m == dsv.len(),
                            dsv == bb.ins@,
                            0 <= 2 * amax <= isize::MAX,
                            deltas_abs(dsv) + abs_i(bb.ptr_offset as int) <= amax,
                            abs_i(offset as int) <= amax,
                            lower_deltas_go(
                                dsv.subrange(j as int, m as int),
                                offset as int,
                                view_of_ins_seq(code@),
                            ) == p,
                        decreases m - j,
                    {
                        let ghost drem = dsv.subrange(j as int, m as int);
                        let ghost acc1 = view_of_ins_seq(code@);
                        let ghost offj = offset as int;
                        let e = bb.ins.entry_at(j);
                        proof {
                            assert(drem[0] == dsv[j as int]);
                            assert(drem.drop_first() =~= dsv.subrange(j + 1, m as int));
                            lemma_deltas_abs_index(dsv, j as int);
                            assert(abs_i(e.0 as int) <= amax);
                        }
                        if offset != e.0 {
                            emit_move(&mut code, e.0 - offset);
                        } else {
                            proof {
                                assert(acc1 + move_ins(e.0 as int - offj) =~= acc1);
                            }
                        }
                        let ghost c1 = view_of_ins_seq(code@);
                        let ghost c0pre = code@;
                        if e.1 < 128 {
                            code.push(BfIns::Add(e.1));
                            proof {
                                crate::ins::lemma_view_push(c0pre, BfIns::Add(e.1));
                            }
                        } else {
                            code.push(BfIns::Sub((0 as u8).wrapping_sub(e.1)));
                            proof {
                                crate::ins::lemma_view_push(
                                    c0pre,
                                    BfIns::Sub((0 as u8).wrapping_sub(e.1)),
                                );
                            }
                        }
                        offset = e.0;
                        proof {
                            assert(c1.push(delta_ins(drem[0].1)) =~= (acc1 + move_ins(
                                drem[0].0 - offj,
                            )) + seq![delta_ins(drem[0].1)]);
                            assert(lower_deltas_go(drem, offj, acc1) == lower_deltas_go(
                                drem.drop_first(),
                                drem[0].0,
                                (acc1 + move_ins(drem[0].0 - offj)) + seq![delta_ins(drem[0].1)],
                            ));
                            assert(dsv.subrange(j + 1, m as int) == drem.drop_first());
                        }
                        j = j + 1;
                    }
                    proof {
                        assert(dsv.subrange(m as int, m as int) =~= Seq::<(int, u8)>::empty());
                        assert(view_of_ins_seq(code@) == p.0 && offset as int == p.1);
                    }
                    if offset != bb.ptr_offset {
                        emit_move(&mut code, bb.ptr_offset - offset);
                    } else {
                        proof {
                            assert(p.0 + move_ins(bb.ptr_offset as int - p.1) =~= p.0);
                        }
                    }
                    offset = 0;
                    proof {
                        assert(lower_go(rem, off0, acc0) == lower_go(
                            rem.drop_first(),
                            0,
                            p.0 + move_ins(bb.ptr_offset as int - p.1),
                        ));
                    }
                },
            }
            proof {
                assert(lower_go(rest, offset as int, view_of_ins_seq(code@), ) == lower_top(full));
                assert(full.subrange(i + 1, full.len() as int) == rest);
            }
            i = i + 1;
        }
        proof {
            assert(full.subrange(full.len() as int, full.len() as int) =~= Seq::<BlockV>::empty());
        }
        BfCode(code)
    }
}


/// Length of one block in instructions: each delta counts one, a loop
/// counts itself plus its body, an IO instruction counts one.
pub open spec fn block_len_v(b: BlockV) -> nat
    decreases b,
{
    match b {
        BlockV::Loop(inner) => 1 + opt_ins_len_v(inner),
        BlockV::Block { ptr_offset, ins } => ins.len(),
        BlockV::IOIns(_) => 1,
    }
}

/// Length of optimizer code in instructions (pointer moves not counted).
pub open spec fn opt_ins_len_v(bs: Seq<BlockV>) -> nat
    decreases bs,
{
    if bs.len() == 0 {
        0
    } else {
        opt_ins_len_v(bs.drop_last()) + block_len_v(bs.last())
    }
}

/// Instruction counts add up over concatenation of block sequences.
pub proof fn lemma_opt_len_concat(a: Seq<BlockV>, b: Seq<BlockV>)
    ensures
        opt_ins_len_v(a + b) == opt_ins_len_v(a) + opt_ins_len_v(b),
    decreases b.len(),
{
    if b.len() == 0 {
        assert(a + b =~= a);
    } else {
        lemma_opt_len_concat(a, b.drop_last());
        assert((a + b).drop_last() =~= a + b.drop_last());
        assert((a + b).last() == b.last());
    }
}

/// A one-block sequence has that block's length.
pub proof fn lemma_opt_len_singleton(b: BlockV)
    ensures
        opt_ins_len_v(seq![b]) == block_len_v(b),
{
    assert(seq![b].len() == 1);
    assert(seq![b].last() == b);
    assert(seq![b].drop_last() =~= Seq::<BlockV>::empty());
    assert(opt_ins_len_v(Seq::<BlockV>::empty()) == 0);
    assert(opt_ins_len_v(seq![b]) == opt_ins_len_v(seq![b].drop_last()) + block_len_v(
        seq![b].last(),
    ));
}

/// Net pointer displacement of the code, summed over top-level basic
/// blocks, provided every nested loop is pointer-neutral; `None` where a
/// nested loop is not.
pub open spec fn offset_v(bs: Seq<BlockV>) -> Option<int>
    decreases bs, 1int,
{
    if bs.len() == 0 {
        Some(0)
    } else {
        match offset_v(bs.drop_last()) {
            None => None,
            Some(x) => match bs.last() {
                BlockV::Block { ptr_offset, ins } => Some(x + ptr_offset),
                BlockV::IOIns(_) => Some(x),
                BlockV::Loop(inner) => if loop_neutral(bs.last()) {
                    Some(x)
                } else {
                    None
                },
            },
        }
    }
}

/// A loop block whose body has net displacement zero.
pub open spec fn loop_neutral(b: BlockV) -> bool
    decreases b, 0int,
{
    match b {
        BlockV::Loop(inner) => offset_v(inner) == Some(0int),
        _ => true,
    }
}

/// A loop with a skewed body poisons the whole displacement.
proof fn lemma_offset_none(bs: Seq<BlockV>, i: int)
    requires
        0 <= i < bs.len(),
        bs[i] is Loop,
        !loop_neutral(bs[i]),
    ensures
        offset_v(bs) is None,
    decreases bs.len(),
{
    if i < bs.len() - 1 {
        lemma_offset_none(bs.drop_last(), i);
    }
}

/// True when the block can read or write a byte stream.
pub open spec fn block_se_v(b: BlockV) -> bool
    decreases b,
{
    match b {
        BlockV::Loop(inner) => se_v(inner),
        BlockV::Block { ptr_offset, ins } => false,
        BlockV::IOIns(_) => true,
    }
}

/// True when the code can read or write a byte stream.
pub open spec fn se_v(bs: Seq<BlockV>) -> bool
    decreases bs,
{
    if bs.len() == 0 {
        false
    } else {
        se_v(bs.drop_last()) || block_se_v(bs.last())
    }
}

/// One block with a side effect makes the whole code side-effecting.
proof fn lemma_se_index(bs: Seq<BlockV>, i: int)
    requires
        0 <= i < bs.len(),
        block_se_v(bs[i]),
    ensures
        se_v(bs),
    decreases bs.len(),
{
    if i < bs.len() - 1 {
        lemma_se_index(bs.drop_last(), i);
    }
}

impl OptCode {
    /// OptCode length in instructions (pointer moves not counted)
    pub fn ins_len(&self) -> (r: usize)
        requires
            opt_ins_len_v(self@) <= usize::MAX,
        ensures
            r == opt_ins_len_v(self@),
        decreases *self,
    {
        let ghost full = self@;
        let mut total: usize = 0;
        let mut i: usize = 0;
        proof {
            lemma_block_view_len(self.0@);
            assert(full.subrange(0, full.len() as int) =~= full);
        }
        while i < self.0.len()
            invariant
                i <= self.0@.len(),
                full == view_of_block_seq(self.0@),
                full.len() == self.0@.len(),
                opt_ins_len_v(full) <= usize::MAX,
                total == opt_ins_len_v(full.subrange(0, i as int)),
                total + opt_ins_len_v(full.subrange(i as int, full.len() as int))
                    == opt_ins_len_v(full),
            decreases self.0@.len() - i,
        {
            proof {
                lemma_block_view_index(self.0@, i as int);
                assert(full.subrange(i as int, full.len() as int) =~= seq![full[i as int]]
                    + full.subrange(i + 1, full.len() as int));
                lemma_opt_len_concat(
                    seq![full[i as int]],
                    full.subrange(i + 1, full.len() as int),
                );
                lemma_opt_len_singleton(full[i as int]);
                assert(full.subrange(0, i + 1) =~= full.subrange(0, i as int)
                    + seq![full[i as int]]);
                lemma_opt_len_concat(full.subrange(0, i as int), seq![full[i as int]]);
            }
            let step: usize = match &self.0[i] {
                OptBlock::Loop(inner) => {
                    proof {
                        assert(decreases_to!(self.0 => self.0@));
                        assert(decreases_to!(self.0@ => self.0@[i as int]));
                        assert(decreases_to!(self.0@[i as int] => *inner));
                        assert(block_len_v(full[i as int]) == 1 + opt_ins_len_v(inner@));
                    }
                    1 + inner.ins_len()
                },
                OptBlock::Block(bb) => bb.ins.len(),
                OptBlock::IOIns(_) => 1,
            };
            total = total + step;
            i = i + 1;
        }
        proof {
            assert(full.subrange(0, full.len() as int) =~= full);
        }
        total
    }

    /// Get the net data pointer displacement, where it is defined and
    /// fits the machine word; `None` where a nested loop is not
    /// pointer-neutral or the sum leaves the machine range.
    pub fn offset(&self) -> (r: Option<isize>)
        ensures
            r == (match offset_v(self@) {
                Some(x) => if isize::MIN <= x <= isize::MAX {
                    Some(x as isize)
                } else {
                    None
                },
                None => None,
            }),
        decreases *self,
    {
        let ghost full = self@;
        let mut acc: i128 = 0;
        let mut i: usize = 0;
        proof {
            lemma_block_view_len(self.0@);
            assert(full.subrange(0, 0) =~= Seq::<BlockV>::empty());
        }
        while i < self.0.len()
            invariant
                i <= self.0@.len(),
                full == view_of_block_seq(self.0@),
                full.len() == self.0@.len(),
                offset_v(full.subrange(0, i as int)) == Some(acc as int),
                -(i as int) * 0x8000_0000_0000_0000 <= acc as int <= (i as int)
                    * 0x8000_0000_0000_0000,
            decreases self.0@.len() - i,
        {
            proof {
                lemma_block_view_index(self.0@, i as int);
                assert(full.subrange(0, i + 1).drop_last() =~= full.subrange(0, i as int));
                assert(full.subrange(0, i + 1).last() == full[i as int]);
                assert((i as int + 1) * 0x8000_0000_0000_0000 == (i as int)
                    * 0x8000_0000_0000_0000 + 0x8000_0000_0000_0000) by (nonlinear_arith);
            }
            match &self.0[i] {
                OptBlock::Block(bb) => {
                    proof {
                        assert(-0x8000_0000_0000_0000 <= bb.ptr_offset as int
                            <= 0x8000_0000_0000_0000);
                    }
                    acc = acc + (bb.ptr_offset as i128);
                },
                OptBlock::IOIns(_) => {},
                OptBlock::Loop(inner) => {
                    proof {
                        assert(decreases_to!(self.0 => self.0@));
                        assert(decreases_to!(self.0@ => self.0@[i as int]));
                        assert(decreases_to!(self.0@[i as int] => *inner));
                    }
                    let io = inner.offset();
                    let neutral = match io {
                        Some(x) => x == 0,
                        None => false,
                    };
                    if !neutral {
                        proof {
                            assert(!loop_neutral(full[i as int]));
                            lemma_offset_none(full, i as int);
                        }
                        return None;
                    }
                    proof {
                        assert(loop_neutral(full[i as int]));
                    }
                },
            }
            i = i + 1;
        }
        proof {
            assert(full.subrange(0, full.len() as int) =~= full);
        }
        if acc >= isize::MIN as i128 && acc <= isize::MAX as i128 {
            Some(acc as isize)
        } else {
            None
        }
    }

    /// Check for Putchar|Getchar instructions in the code block
    pub fn has_side_effects(&self) -> (r: bool)
        ensures
            r == se_v(self@),
        decreases *self,
    {
        let ghost full = self@;
        let mut i: usize = 0;
        proof {
            lemma_block_view_len(self.0@);
            assert(full.subrange(0, 0) =~= Seq::<BlockV>::empty());
        }
        while i < self.0.len()
            invariant
                i <= self.0@.len(),
                full == view_of_block_seq(self.0@),
                full.len() == self.0@.len(),
                !se_v(full.subrange(0, i as int)),
            decreases self.0@.len() - i,
        {
            proof {
                lemma_block_view_index(self.0@, i as int);
                assert(full.subrange(0, i + 1).drop_last() =~= full.subrange(0, i as int));
                assert(full.subrange(0, i + 1).last() == full[i as int]);
            }
            match &self.0[i] {
                OptBlock::Block(_) => {},
                OptBlock::IOIns(_) => {
                    proof {
                        lemma_se_index(full, i as int);
                    }
                    return true;
                },
                OptBlock::Loop(inner) => {
                    proof {
                        assert(decreases_to!(self.0 => self.0@));
                        assert(decreases_to!(self.0@ => self.0@[i as int]));
                        assert(decreases_to!(self.0@[i as int] => *inner));
                    }
                    if inner.has_side_effects() {
                        proof {
                            lemma_se_index(full, i as int);
                        }
                        return true;
                    }
                },
            }
            proof {
                assert(!block_se_v(full[i as int]));
                assert(!se_v(full.subrange(0, i + 1)));
            }
            i = i + 1;
        }
        proof {
            assert(full.subrange(0, full.len() as int) =~= full);
        }
        false
    }
}


/// The entries that carry a non-zero delta, in order.
pub open spec fn prune_v(ds: Seq<(int, u8)>) -> Seq<(int, u8)>
    decreases ds.len(),
{
    if ds.len() == 0 {
        ds
    } else {
        prune_v(ds.drop_last()) + (if ds.last().1 == 0 {
            Seq::empty()
        } else {
            seq![ds.last()]
        })
    }
}

/// Merge a delta sequence into another, each key shifted by `p`.
pub open spec fn merge_go(a: Seq<(int, u8)>, b: Seq<(int, u8)>, p: int) -> Seq<(int, u8)>
    decreases b.len(),
{
    if b.len() == 0 {
        a
    } else {
        merge_go(seq_insert_delta(a, p + b[0].0, b[0].1), b.drop_first(), p)
    }
}

/// Pruning keeps order, drops only zero entries, and never grows.
pub proof fn lemma_prune(ds: Seq<(int, u8)>)
    ensures
        prune_v(ds).len() <= ds.len(),
        zero_free(prune_v(ds)),
        sorted_deltas(ds) ==> sorted_deltas(prune_v(ds)),
        sorted_deltas(ds) && ds.len() > 0 ==> forall|i: int|
            0 <= i < prune_v(ds).len() ==> (#[trigger] prune_v(ds)[i]).0 <= ds.last().0,
        zero_free(ds) ==> prune_v(ds) == ds,
    decreases ds.len(),
{
    if ds.len() == 0 {
    } else {
        lemma_prune(ds.drop_last());
        let dl = ds.drop_last();
        if sorted_deltas(ds) {
            assert forall|i: int, j: int| 0 <= i < j < dl.len() implies #[trigger] dl[i].0
                < #[trigger] dl[j].0 by {
                assert(ds[i].0 < ds[j].0);
            }
            if dl.len() > 0 {
                assert(dl.last().0 == ds[ds.len() - 2].0 < ds.last().0);
            }
        }
        if ds.last().1 == 0 {
            assert(prune_v(ds) =~= prune_v(dl));
        }
        if zero_free(ds) {
            assert forall|i: int| 0 <= i < dl.len() implies (#[trigger] dl[i]).1 != 0 by {
                assert(ds[i].1 != 0);
            }
            assert(ds.last().1 != 0);
            assert(prune_v(ds) =~= dl.push(ds.last()));
            assert(dl.push(ds.last()) =~= ds);
        }
    }
}

/// Merging keeps order and freedom from zeros, and never grows past the
/// two entry counts together.
pub proof fn lemma_merge(a: Seq<(int, u8)>, b: Seq<(int, u8)>, p: int)
    requires
        sorted_deltas(a),
        zero_free(a),
    ensures
        sorted_deltas(merge_go(a, b, p)),
        zero_free(merge_go(a, b, p)),
        merge_go(a, b, p).len() <= a.len() + b.len(),
    decreases b.len(),
{
    if b.len() > 0 {
        lemma_insert_sorted(a, p + b[0].0, b[0].1);
        lemma_insert_zero_free(a, p + b[0].0, b[0].1);
        lemma_insert_len(a, p + b[0].0, b[0].1);
        lemma_merge(seq_insert_delta(a, p + b[0].0, b[0].1), b.drop_first(), p);
    }
}

impl DeltaMap {
    /// Drop every entry whose delta is zero.
    pub fn prune(&mut self)
        requires
            old(self).well_formed(),
        ensures
            final(self).well_formed(),
            final(self)@ == prune_v(old(self)@),
    {
        let r = self.pruned();
        *self = r;
    }

    /// A copy of this map without its zero-delta entries.
    pub fn pruned(&self) -> (r: DeltaMap)
        requires
            self.well_formed(),
        ensures
            r.well_formed(),
            r@ == prune_v(self@),
            zero_free(r@),
    {
        let ghost s = self@;
        let mut kept: Vec<(isize, u8)> = Vec::new();
        let mut i: usize = 0;
        let n = self.entries.len();
        proof {
            assert(prune_v(s.subrange(0, 0)) =~= Seq::<(int, u8)>::empty());
            assert(view_of_entries(kept@) =~= Seq::<(int, u8)>::empty());
        }
        while i < n
            invariant
                i <= n,
                n == s.len(),
                self@ == s,
                view_of_entries(kept@) == prune_v(s.subrange(0, i as int)),
            decreases n - i,
        {
            proof {
                assert(s.subrange(0, i + 1).drop_last() =~= s.subrange(0, i as int));
                assert(s.subrange(0, i + 1).last() == s[i as int]);
            }
            let e = self.entries[i];
            if e.1 != 0 {
                kept.push(e);
                proof {
                    assert(view_of_entries(kept@) =~= prune_v(s.subrange(0, i as int)).push(
                        s[i as int],
                    ));
                    assert(prune_v(s.subrange(0, i as int)).push(s[i as int]) =~= prune_v(
                        s.subrange(0, i as int),
                    ) + seq![s[i as int]]);
                }
            } else {
                proof {
                    assert(prune_v(s.subrange(0, i + 1)) =~= prune_v(s.subrange(0, i as int)));
                }
            }
            i = i + 1;
        }
        let r = DeltaMap { entries: kept };
        proof {
            assert(s.subrange(0, s.len() as int) =~= s);
            lemma_prune(s);
            assert(r@ =~= view_of_entries(r.entries@));
        }
        r
    }

    /// Merge every entry of `other` into this map, keys shifted by `p`.
    pub fn merge_from(&mut self, other: &DeltaMap, p: isize)
        requires
            old(self).well_formed(),
            zero_free(old(self)@),
            forall|i: int|
                0 <= i < other@.len() ==> isize::MIN <= p as int + (#[trigger] other@[i]).0
                    <= isize::MAX,
        ensures
            final(self).well_formed(),
            zero_free(final(self)@),
            final(self)@ == merge_go(old(self)@, other@, p as int),
    {
        let ghost a0 = self@;
        let ghost b = other@;
        let n = other.len();
        let mut i: usize = 0;
        proof {
            assert(b.subrange(0, b.len() as int) =~= b);
        }
        while i < n
            invariant
                i <= n,
                n == b.len(),
                b == other@,
                self.well_formed(),
                zero_free(self@),
                forall|m: int|
                    0 <= m < b.len() ==> isize::MIN <= p as int + (#[trigger] b[m]).0
                        <= isize::MAX,
                merge_go(self@, b.subrange(i as int, n as int), p as int) == merge_go(
                    a0,
                    b,
                    p as int,
                ),
            decreases n - i,
        {
            let ghost brem = b.subrange(i as int, n as int);
            let ghost s0 = self@;
            let e = other.entry_at(i);
            proof {
                assert(brem[0] == b[i as int]);
                assert(brem.drop_first() =~= b.subrange(i + 1, n as int));
                lemma_insert_zero_free(s0, p as int + e.0 as int, e.1);
                assert(merge_go(s0, brem, p as int) == merge_go(
                    seq_insert_delta(s0, p as int + brem[0].0, brem[0].1),
                    brem.drop_first(),
                    p as int,
                ));
            }
            self.add_delta(p + e.0, e.1);
            i = i + 1;
        }
        proof {
            assert(b.subrange(n as int, n as int) =~= Seq::<(int, u8)>::empty());
        }
    }
}

/// The model of a raw entry vector.
pub open spec fn view_of_entries(es: Seq<(isize, u8)>) -> Seq<(int, u8)> {
    Seq::new(es.len(), |j: int| (es[j].0 as int, es[j].1))
}


/// Every offset in a block fits the machine word.
pub open spec fn in_range_block(b: BlockV) -> bool
    decreases b,
{
    match b {
        BlockV::Loop(inner) => in_range(inner),
        BlockV::Block { ptr_offset, ins } => isize::MIN <= ptr_offset <= isize::MAX && forall|
            i: int,
        |
            0 <= i < ins.len() ==> isize::MIN <= (#[trigger] ins[i]).0 <= isize::MAX,
        BlockV::IOIns(IoV::Putchar(o)) => isize::MIN <= o <= isize::MAX,
        BlockV::IOIns(IoV::Getchar(o)) => isize::MIN <= o <= isize::MAX,
    }
}

/// Every offset in the code fits the machine word.
pub open spec fn in_range(bs: Seq<BlockV>) -> bool
    decreases bs,
{
    if bs.len() == 0 {
        true
    } else {
        in_range(bs.drop_last()) && in_range_block(bs.last())
    }
}

/// The model of machine-held code always fits the machine word.
pub proof fn lemma_view_in_range(s: Seq<OptBlock>)
    ensures
        in_range(view_of_block_seq(s)),
    decreases s,
{
    if s.len() > 0 {
        lemma_view_in_range(s.drop_last());
        assert(view_of_block_seq(s).drop_last() =~= view_of_block_seq(s.drop_last()));
        assert(view_of_block_seq(s).last() == view_of_block(s.last()));
        let b = s.last();
        match b {
            OptBlock::Loop(inner) => {
                lemma_view_in_range(inner.0@);
                assert(in_range_block(view_of_block(b)));
            },
            OptBlock::Block(bb) => {
                assert forall|i: int| 0 <= i < bb.ins@.len() implies isize::MIN <= (
                #[trigger] bb.ins@[i]).0 <= isize::MAX by {
                    assert(bb.ins@[i].0 == bb.ins.spec_entries()[i].0 as int);
                }
                assert(in_range_block(view_of_block(b)));
            },
            OptBlock::IOIns(_) => {},
        }
        assert(in_range(view_of_block_seq(s)));
    }
}

/// The model commutes with taking a subrange.
pub proof fn lemma_block_view_subrange(s: Seq<OptBlock>, a: int, b: int)
    requires
        0 <= a <= b <= s.len(),
    ensures
        view_of_block_seq(s.subrange(a, b)) == view_of_block_seq(s).subrange(a, b),
{
    lemma_block_view_len(s);
    lemma_block_view_len(s.subrange(a, b));
    assert forall|i: int| 0 <= i < b - a implies view_of_block_seq(s.subrange(a, b))[i]
        == view_of_block_seq(s).subrange(a, b)[i] by {
        lemma_block_view_index(s.subrange(a, b), i);
        lemma_block_view_index(s, a + i);
    }
    assert(view_of_block_seq(s.subrange(a, b)) =~= view_of_block_seq(s).subrange(a, b));
}

/// Well-formedness can be read off the front as well.
pub proof fn lemma_wf_first(bs: Seq<BlockV>)
    requires
        wf_blocks(bs),
        bs.len() > 0,
    ensures
        wf_block(bs[0]),
        wf_blocks(bs.drop_first()),
    decreases bs,
{
    if bs.len() == 1 {
        assert(bs[0] == bs.last());
        assert(bs.drop_first() =~= Seq::<BlockV>::empty());
    } else {
        lemma_wf_first(bs.drop_last());
        assert(bs.drop_last()[0] == bs[0]);
        lemma_wf_blocks_push(bs.drop_last().drop_first(), bs.last());
        assert(bs.drop_last().drop_first().push(bs.last()) =~= bs.drop_first());
    }
}

/// Fitting the machine word can be read off the front as well.
pub proof fn lemma_in_range_first(bs: Seq<BlockV>)
    requires
        in_range(bs),
        bs.len() > 0,
    ensures
        in_range_block(bs[0]),
        in_range(bs.drop_first()),
    decreases bs,
{
    if bs.len() == 1 {
        assert(bs[0] == bs.last());
        assert(bs.drop_first() =~= Seq::<BlockV>::empty());
    } else {
        lemma_in_range_first(bs.drop_last());
        assert(bs.drop_last()[0] == bs[0]);
        assert(bs.drop_last().drop_first().push(bs.last()) =~= bs.drop_first());
        assert(bs.drop_first().drop_last() =~= bs.drop_last().drop_first());
    }
}

/// Block count distributes over appending one block.
pub proof fn lemma_opt_len_push(bs: Seq<BlockV>, b: BlockV)
    ensures
        opt_ins_len_v(bs.push(b)) == opt_ins_len_v(bs) + block_len_v(b),
{
    assert(bs.push(b).drop_last() =~= bs);
    assert(bs.push(b).last() == b);
}

} // verus!
