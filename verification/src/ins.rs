use vstd::prelude::*;

verus! {

/// Mathematical model of a single surface instruction.
///
/// Counts are unbounded naturals and a loop body is a sequence, so that
/// contracts can speak about programs independently of machine widths.
#[verifier::ext_equal]
pub enum InsV {
    /// wrapping add to the current cell
    Add(u8),
    /// wrapping subtract from the current cell
    Sub(u8),
    /// move the data pointer right
    PtrAdd(nat),
    /// move the data pointer left
    PtrSub(nat),
    /// write the current cell to the output stream
    Putchar,
    /// read one byte from the input stream into the current cell
    Getchar,
    /// repeat the body while the current cell is non-zero
    Loop(Seq<InsV>),
}

/// Single BF instruction
#[derive(Debug, PartialEq, Eq)]
pub enum BfIns {
    /// wrapping add value to current cell
    /// `+` (val=1) or `++++` (val=4) in bf
    Add(u8),
    /// wrapping sub value from current cell
    /// `-` in bf
    Sub(u8),
    /// move pointer "right" (in positive direction) by N cells
    /// `>` (N=1) or `>>>>>>` (N=6) in bf
    PtrAdd(usize),
    /// move pointer "left" (in negative direction) by N cells
    /// `<` in bf
    PtrSub(usize),
    /// print current cell value (as u8) to output stream
    /// `.` in bf
    Putchar,
    /// replace current cell value with value from input stream
    /// `,` in bf
    Getchar,
    /// repeat inner instructions while value of current cell != 0
    /// `[` inner `]` in bf
    Loop(BfCode),
}

/// Collection of [`BfIns`] instructions
#[derive(Debug, PartialEq, Eq)]
pub struct BfCode(pub Vec<BfIns>);

/// Model of one instruction.
pub open spec fn view_of_ins(i: BfIns) -> InsV
    decreases i,
{
    match i {
        BfIns::Add(v) => InsV::Add(v),
        BfIns::Sub(v) => InsV::Sub(v),
        BfIns::PtrAdd(n) => InsV::PtrAdd(n as nat),
        BfIns::PtrSub(n) => InsV::PtrSub(n as nat),
        BfIns::Putchar => InsV::Putchar,
        BfIns::Getchar => InsV::Getchar,
        BfIns::Loop(c) => InsV::Loop(view_of_ins_seq(c.0@)),
    }
}

/// Model of a sequence of instructions.
pub open spec fn view_of_ins_seq(s: Seq<BfIns>) -> Seq<InsV>
    decreases s,
{
    if s.len() == 0 {
        Seq::empty()
    } else {
        view_of_ins_seq(s.drop_last()).push(view_of_ins(s.last()))
    }
}

impl View for BfIns {
    type V = InsV;

    open spec fn view(&self) -> InsV {
        view_of_ins(*self)
    }
}

impl View for BfCode {
    type V = Seq<InsV>;

    open spec fn view(&self) -> Seq<InsV> {
        view_of_ins_seq(self.0@)
    }
}

/// Length of one instruction, counting a loop as one instruction plus its body.
pub open spec fn ins_one_len_v(i: InsV) -> nat
    decreases i,
{
    match i {
        InsV::Loop(b) => 1 + ins_len_v(b),
        _ => 1,
    }
}

/// Length of a program in instructions.
pub open spec fn ins_len_v(s: Seq<InsV>) -> nat
    decreases s,
{
    if s.len() == 0 {
        0
    } else {
        ins_len_v(s.drop_last()) + ins_one_len_v(s.last())
    }
}

/// `n` copies of the character `c`.
pub open spec fn char_run(c: char, n: nat) -> Seq<char> {
    Seq::new(n, |_i: int| c)
}

/// Source text of one instruction: the run-length-decoded characters.
pub open spec fn fmt_ins_v(i: InsV) -> Seq<char>
    decreases i,
{
    match i {
        InsV::Add(v) => char_run('+', v as nat),
        InsV::Sub(v) => char_run('-', v as nat),
        InsV::PtrAdd(n) => char_run('>', n),
        InsV::PtrSub(n) => char_run('<', n),
        InsV::Putchar => seq!['.'],
        InsV::Getchar => seq![','],
        InsV::Loop(b) => seq!['['] + fmt_code_v(b) + seq![']'],
    }
}

/// Source text of a program.
pub open spec fn fmt_code_v(s: Seq<InsV>) -> Seq<char>
    decreases s,
{
    if s.len() == 0 {
        Seq::empty()
    } else {
        fmt_code_v(s.drop_last()) + fmt_ins_v(s.last())
    }
}

/// Instruction counts add up over concatenation.
pub proof fn lemma_ins_len_concat(a: Seq<InsV>, b: Seq<InsV>)
    ensures
        ins_len_v(a + b) == ins_len_v(a) + ins_len_v(b),
    decreases b.len(),
{
    if b.len() == 0 {
        assert(a + b =~= a);
    } else {
        lemma_ins_len_concat(a, b.drop_last());
        assert((a + b).drop_last() =~= a + b.drop_last());
        assert((a + b).last() == b.last());
    }
}

/// Source text adds up over concatenation.
pub proof fn lemma_fmt_concat(a: Seq<InsV>, b: Seq<InsV>)
    ensures
        fmt_code_v(a + b) == fmt_code_v(a) + fmt_code_v(b),
    decreases b.len(),
{
    if b.len() == 0 {
        assert(a + b =~= a);
        assert(fmt_code_v(a) + fmt_code_v(b) =~= fmt_code_v(a));
    } else {
        lemma_fmt_concat(a, b.drop_last());
        assert((a + b).drop_last() =~= a + b.drop_last());
        assert((a + b).last() == b.last());
        assert(fmt_code_v(a + b.drop_last()) + fmt_ins_v(b.last()) =~= (fmt_code_v(a)
            + fmt_code_v(b.drop_last())) + fmt_ins_v(b.last()));
    }
}

/// A one-instruction program has that instruction's length.
pub proof fn lemma_ins_len_singleton(i: InsV)
    ensures
        ins_len_v(seq![i]) == ins_one_len_v(i),
{
    assert(seq![i].len() == 1);
    assert(seq![i].last() == i);
    assert(seq![i].drop_last() =~= Seq::<InsV>::empty());
    assert(ins_len_v(Seq::<InsV>::empty()) == 0);
    assert(ins_len_v(seq![i]) == ins_len_v(seq![i].drop_last()) + ins_one_len_v(seq![i].last()));
}

/// A one-instruction program formats as that instruction alone.
pub proof fn lemma_fmt_singleton(i: InsV)
    ensures
        fmt_code_v(seq![i]) == fmt_ins_v(i),
{
    assert(seq![i].len() == 1);
    assert(seq![i].last() == i);
    assert(seq![i].drop_last() =~= Seq::<InsV>::empty());
    assert(fmt_code_v(Seq::<InsV>::empty()) == Seq::<char>::empty());
    assert(fmt_code_v(seq![i]) == fmt_code_v(seq![i].drop_last()) + fmt_ins_v(seq![i].last()));
    assert(Seq::<char>::empty() + fmt_ins_v(i) =~= fmt_ins_v(i));
}

impl BfCode {
    /// bf code length in [`BfIns`] instructions
    pub fn ins_len(&self) -> (r: usize)
        requires
            ins_len_v(self@) <= usize::MAX,
        ensures
            r == ins_len_v(self@),
        decreases *self,
    {
        let mut total: usize = 0;
        let mut i: usize = 0;
        proof {
            lemma_view_len(self.0@);
            assert(self@.subrange(0, self@.len() as int) =~= self@);
        }
        while i < self.0.len()
            invariant
                i <= self.0.len(),
                ins_len_v(self@) <= usize::MAX,
                                total == ins_len_v(self@.subrange(0, i as int)),
                total + ins_len_v(self@.subrange(i as int, self.0@.len() as int)) == ins_len_v(self@),
                self@.len() == self.0@.len(),
            decreases self.0@.len() - i,
        {
            proof {
                lemma_view_index(self.0@, i as int);
                assert(self@.subrange(i as int, self.0@.len() as int) =~= seq![self@[i as int]]
                    + self@.subrange(i + 1, self.0@.len() as int));
                lemma_ins_len_concat(
                    seq![self@[i as int]],
                    self@.subrange(i + 1, self.0@.len() as int),
                );
                lemma_ins_len_singleton(self@[i as int]);
                assert(self@.subrange(0, i + 1) =~= self@.subrange(0, i as int)
                    + seq![self@[i as int]]);
                lemma_ins_len_concat(self@.subrange(0, i as int), seq![self@[i as int]]);
            }
            let step: usize = match &self.0[i] {
                BfIns::Loop(inner) => {
                    proof {
                        assert(ins_one_len_v(self@[i as int]) == 1 + ins_len_v(inner@));
                        assert(decreases_to!(self.0 => self.0@));
                        assert(decreases_to!(self.0@ => self.0@[i as int]));
                        assert(decreases_to!(self.0@[i as int] => *inner));
                    }
                    1 + inner.ins_len()
                },
                _ => 1,
            };
            total = total + step;
            i = i + 1;
        }
        proof {
            assert(self@.subrange(0, self@.len() as int) =~= self@);
        }
        total
    }

    /// bf code length in characters of source text
    pub fn chars_len(&self) -> (r: usize)
        requires
            fmt_code_v(self@).len() <= usize::MAX,
        ensures
            r == fmt_code_v(self@).len(),
        decreases *self,
    {
        let mut total: usize = 0;
        let mut i: usize = 0;
        proof {
            lemma_view_len(self.0@);
            assert(self@.subrange(0, self@.len() as int) =~= self@);
        }
        while i < self.0.len()
            invariant
                i <= self.0.len(),
                fmt_code_v(self@).len() <= usize::MAX,
                                total == fmt_code_v(self@.subrange(0, i as int)).len(),
                total + fmt_code_v(self@.subrange(i as int, self.0@.len() as int)).len()
                    == fmt_code_v(self@).len(),
                self@.len() == self.0@.len(),
            decreases self.0@.len() - i,
        {
            proof {
                lemma_view_index(self.0@, i as int);
                assert(self@.subrange(i as int, self.0@.len() as int) =~= seq![self@[i as int]]
                    + self@.subrange(i + 1, self.0@.len() as int));
                lemma_fmt_concat(seq![self@[i as int]], self@.subrange(i + 1, self.0@.len() as int));
                lemma_fmt_singleton(self@[i as int]);
                assert(self@.subrange(0, i + 1) =~= self@.subrange(0, i as int)
                    + seq![self@[i as int]]);
                lemma_fmt_concat(self@.subrange(0, i as int), seq![self@[i as int]]);
            }
            let step: usize = match &self.0[i] {
                BfIns::Loop(inner) => {
                    proof {
                        assert(fmt_ins_v(self@[i as int]) == seq!['['] + fmt_code_v(inner@)
                            + seq![']']);
                        assert(decreases_to!(self.0 => self.0@));
                        assert(decreases_to!(self.0@ => self.0@[i as int]));
                        assert(decreases_to!(self.0@[i as int] => *inner));
                    }
                    2 + inner.chars_len()
                },
                BfIns::Add(v) => *v as usize,
                BfIns::Sub(v) => *v as usize,
                BfIns::PtrAdd(v) => *v,
                BfIns::PtrSub(v) => *v,
                BfIns::Getchar => 1,
                BfIns::Putchar => 1,
            };
            total = total + step;
            i = i + 1;
        }
        proof {
            assert(self@.subrange(0, self@.len() as int) =~= self@);
        }
        total
    }

    /// Render the program back to source characters.
    pub fn to_chars(&self) -> (r: Vec<char>)
        ensures
            r@ == fmt_code_v(self@),
        decreases *self,
    {
        let mut r: Vec<char> = Vec::new();
        let mut i: usize = 0;
        proof {
            lemma_view_len(self.0@);
        }
        while i < self.0.len()
            invariant
                i <= self.0.len(),
                                r@ == fmt_code_v(self@.subrange(0, i as int)),
                self@.len() == self.0@.len(),
            decreases self.0@.len() - i,
        {
            proof {
                lemma_view_index(self.0@, i as int);
                assert(self@.subrange(0, i + 1) =~= self@.subrange(0, i as int)
                    + seq![self@[i as int]]);
                lemma_fmt_concat(self@.subrange(0, i as int), seq![self@[i as int]]);
                lemma_fmt_singleton(self@[i as int]);
            }
            match &self.0[i] {
                BfIns::Loop(inner) => {
                    proof {
                        assert(decreases_to!(self.0 => self.0@));
                        assert(decreases_to!(self.0@ => self.0@[i as int]));
                        assert(decreases_to!(self.0@[i as int] => *inner));
                    }
                    r.push('[');
                    let mut body = inner.to_chars();
                    r.append(&mut body);
                    r.push(']');
                    proof {
                        assert(r@ =~= fmt_code_v(self@.subrange(0, i as int))
                            + fmt_ins_v(self@[i as int]));
                    }
                },
                BfIns::Add(v) => push_run(&mut r, '+', *v as usize),
                BfIns::Sub(v) => push_run(&mut r, '-', *v as usize),
                BfIns::PtrAdd(v) => push_run(&mut r, '>', *v),
                BfIns::PtrSub(v) => push_run(&mut r, '<', *v),
                BfIns::Putchar => {
                    r.push('.');
                    proof {
                        assert(fmt_ins_v(self@[i as int]) =~= seq!['.']);
                    }
                },
                BfIns::Getchar => {
                    r.push(',');
                    proof {
                        assert(fmt_ins_v(self@[i as int]) =~= seq![',']);
                    }
                },
            }
            i = i + 1;
        }
        proof {
            assert(self@.subrange(0, self@.len() as int) =~= self@);
        }
        r
    }
}

/// Append `n` copies of `c` to `r`.
fn push_run(r: &mut Vec<char>, c: char, n: usize)
    ensures
        final(r)@ == old(r)@ + char_run(c, n as nat),
{
    let mut k: usize = 0;
    proof {
        assert(old(r)@ + char_run(c, 0) =~= old(r)@);
    }
    while k < n
        invariant
            k <= n,
            r@ == old(r)@ + char_run(c, k as nat),
        decreases n - k,
    {
        r.push(c);
        proof {
            assert(r@ =~= old(r)@ + char_run(c, (k + 1) as nat));
        }
        k = k + 1;
    }
    proof {
        assert(old(r)@ + char_run(c, 0) =~= old(r)@);
    }
}

/// The model of a pushed instruction is pushed onto the model.
pub proof fn lemma_view_push(s: Seq<BfIns>, x: BfIns)
    ensures
        view_of_ins_seq(s.push(x)) == view_of_ins_seq(s).push(view_of_ins(x)),
{
    assert(s.push(x).drop_last() =~= s);
    assert(s.push(x).last() == x);
}

/// The model of a sequence is taken element by element.
pub proof fn lemma_view_index(s: Seq<BfIns>, i: int)
    requires
        0 <= i < s.len(),
    ensures
        view_of_ins_seq(s).len() == s.len(),
        view_of_ins_seq(s)[i] == view_of_ins(s[i]),
    decreases s.len(),
{
    if s.len() > 0 {
        if i < s.len() - 1 {
            lemma_view_index(s.drop_last(), i);
        } else {
            lemma_view_len(s.drop_last());
        }
    }
}

/// The model keeps the length of a sequence.
pub proof fn lemma_view_len(s: Seq<BfIns>)
    ensures
        view_of_ins_seq(s).len() == s.len(),
    decreases s.len(),
{
    if s.len() > 0 {
        lemma_view_len(s.drop_last());
    }
}


/// A copy of one instruction that is not a loop.
pub fn copy_flat(i: &BfIns) -> (r: BfIns)
    requires
        !(i is Loop),
    ensures
        r == *i,
{
    match i {
        BfIns::Add(v) => BfIns::Add(*v),
        BfIns::Sub(v) => BfIns::Sub(*v),
        BfIns::PtrAdd(v) => BfIns::PtrAdd(*v),
        BfIns::PtrSub(v) => BfIns::PtrSub(*v),
        BfIns::Putchar => BfIns::Putchar,
        BfIns::Getchar => BfIns::Getchar,
        BfIns::Loop(_) => {
            proof {
                assert(false);
            }
            BfIns::Putchar
        },
    }
}

/// The model commutes with taking a subrange.
pub proof fn lemma_view_subrange(s: Seq<BfIns>, a: int, b: int)
    requires
        0 <= a <= b <= s.len(),
    ensures
        view_of_ins_seq(s.subrange(a, b)) == view_of_ins_seq(s).subrange(a, b),
{
    lemma_view_len(s);
    lemma_view_len(s.subrange(a, b));
    assert forall|i: int| 0 <= i < b - a implies view_of_ins_seq(s.subrange(a, b))[i]
        == view_of_ins_seq(s).subrange(a, b)[i] by {
        lemma_view_index(s.subrange(a, b), i);
        lemma_view_index(s, a + i);
    }
    assert(view_of_ins_seq(s.subrange(a, b)) =~= view_of_ins_seq(s).subrange(a, b));
}

/// A deep copy of a program.
pub fn clone_code(c: &BfCode) -> (r: BfCode)
    ensures
        r@ == c@,
    decreases *c,
{
    let mut out: Vec<BfIns> = Vec::new();
    let mut i: usize = 0;
    proof {
        lemma_view_len(c.0@);
        assert(view_of_ins_seq(out@) =~= c@.subrange(0, 0));
    }
    while i < c.0.len()
        invariant
            i <= c.0@.len(),
            c@ == view_of_ins_seq(c.0@),
            c@.len() == c.0@.len(),
            view_of_ins_seq(out@) == c@.subrange(0, i as int),
        decreases c.0@.len() - i,
    {
        let ghost o0 = out@;
        proof {
            lemma_view_index(c.0@, i as int);
        }
        match &c.0[i] {
            BfIns::Loop(inner) => {
                proof {
                    assert(decreases_to!(c.0 => c.0@));
                    assert(decreases_to!(c.0@ => c.0@[i as int]));
                    assert(decreases_to!(c.0@[i as int] => *inner));
                }
                let ic = clone_code(inner);
                out.push(BfIns::Loop(ic));
                proof {
                    lemma_view_push(o0, out@.last());
                    assert(o0.push(out@.last()) =~= out@);
                    assert(view_of_ins(out@.last()) == c@[i as int]);
                    assert(view_of_ins_seq(out@) =~= c@.subrange(0, i + 1));
                }
            },
            other => {
                let x = copy_flat(other);
                out.push(x);
                proof {
                    lemma_view_push(o0, out@.last());
                    assert(o0.push(out@.last()) =~= out@);
                    assert(view_of_ins(out@.last()) == c@[i as int]);
                    assert(view_of_ins_seq(out@) =~= c@.subrange(0, i + 1));
                }
            },
        }
        i = i + 1;
    }
    proof {
        assert(c@.subrange(0, c@.len() as int) =~= c@);
    }
    BfCode(out)
}

} // verus!
