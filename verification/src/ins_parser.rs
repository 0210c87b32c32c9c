use vstd::prelude::*;
use crate::ins::{BfCode, BfIns, InsV};
use crate::ins::{char_run, fmt_code_v, fmt_ins_v, lemma_view_push, view_of_ins_seq};

verus! {

/// Error type
#[derive(Debug, Clone, Copy, PartialEq, Eq, Structural)]
pub enum BfParseError {
    /// Can occur in cases like: ``[+]]``
    UnmatchedClosingBracket {
        /// unmatched bracket position
        char_pos: usize,
    },
    /// Can occur in cases like:  ``[[+]``
    UnclosedBracket,
}

/// The characters that carry meaning; all others are comments.
pub open spec fn is_significant(c: char) -> bool {
    c == '+' || c == '-' || c == '>' || c == '<' || c == '.' || c == ',' || c == '[' || c == ']'
}

/// A text restricted to its significant characters.
pub open spec fn filter_sig(s: Seq<char>) -> Seq<char>
    decreases s.len(),
{
    if s.len() == 0 {
        Seq::empty()
    } else {
        filter_sig(s.drop_last()) + (if is_significant(s.last()) {
            seq![s.last()]
        } else {
            Seq::empty()
        })
    }
}

/// Contribution of one character to the bracket depth.
pub open spec fn char_depth(c: char) -> int {
    if c == '[' {
        1
    } else if c == ']' {
        -1
    } else {
        0
    }
}

/// Number of brackets opened and not yet closed in a text.
pub open spec fn depth_v(s: Seq<char>) -> int
    decreases s.len(),
{
    if s.len() == 0 {
        0
    } else {
        depth_v(s.drop_last()) + char_depth(s.last())
    }
}

/// Every closing bracket has an open bracket before it.
pub open spec fn balanced_prefixes(s: Seq<char>) -> bool {
    forall|j: int| 0 <= j < s.len() && #[trigger] s[j] == ']' ==> depth_v(s.subrange(0, j)) >= 1
}

/// Brackets close only what was opened, and everything opened is closed.
pub open spec fn balanced_v(s: Seq<char>) -> bool {
    balanced_prefixes(s) && depth_v(s) == 0
}

/// A text made only of significant characters.
pub open spec fn only_significant(s: Seq<char>) -> bool {
    forall|j: int| 0 <= j < s.len() ==> is_significant(#[trigger] s[j])
}

/// One instruction as the parser emits it: unit counts everywhere.
pub open spec fn unit_ins_v(i: InsV) -> bool
    decreases i,
{
    match i {
        InsV::Add(v) => v == 1,
        InsV::Sub(v) => v == 1,
        InsV::PtrAdd(n) => n == 1,
        InsV::PtrSub(n) => n == 1,
        InsV::Putchar => true,
        InsV::Getchar => true,
        InsV::Loop(b) => unit_form(b),
    }
}

/// A program as the parser emits it: unit counts everywhere.
pub open spec fn unit_form(s: Seq<InsV>) -> bool
    decreases s,
{
    if s.len() == 0 {
        true
    } else {
        unit_form(s.drop_last()) && unit_ins_v(s.last())
    }
}

/// Filtering a text keeps only its significant characters.
pub proof fn lemma_filter_sig_identity(s: Seq<char>)
    requires
        only_significant(s),
    ensures
        filter_sig(s) == s,
    decreases s.len(),
{
    if s.len() == 0 {
        assert(filter_sig(s) =~= s);
    } else {
        lemma_filter_sig_identity(s.drop_last());
        assert(filter_sig(s.drop_last()) + seq![s.last()] =~= s);
    }
}

/// The in-progress loop bodies, innermost last.
pub open spec fn stack_view(s: Seq<BfCode>) -> Seq<Seq<InsV>> {
    Seq::new(s.len(), |j: int| view_of_ins_seq(s[j].0@))
}

/// The source text that a parser stack stands for: each level after the
/// first reopens a bracket that is not yet closed.
pub open spec fn unparse(sv: Seq<Seq<InsV>>) -> Seq<char>
    decreases sv.len(),
{
    if sv.len() == 0 {
        Seq::empty()
    } else if sv.len() == 1 {
        fmt_code_v(sv[0])
    } else {
        unparse(sv.drop_last()) + seq!['['] + fmt_code_v(sv.last())
    }
}

/// Every level of the stack is in unit form.
pub open spec fn stack_unit(sv: Seq<Seq<InsV>>) -> bool {
    forall|j: int| 0 <= j < sv.len() ==> unit_form(#[trigger] sv[j])
}

/// Formatting distributes over appending one instruction.
pub proof fn lemma_fmt_push(t: Seq<InsV>, x: InsV)
    ensures
        fmt_code_v(t.push(x)) == fmt_code_v(t) + fmt_ins_v(x),
{
    assert(t.push(x).drop_last() =~= t);
    assert(t.push(x).last() == x);
}

/// Unit form is kept by appending a unit instruction.
pub proof fn lemma_unit_push(t: Seq<InsV>, x: InsV)
    requires
        unit_form(t),
        unit_ins_v(x),
    ensures
        unit_form(t.push(x)),
{
    assert(t.push(x).drop_last() =~= t);
    assert(t.push(x).last() == x);
}

/// Appending an instruction to the innermost loop body appends its text.
pub proof fn lemma_unparse_push(sv: Seq<Seq<InsV>>, x: InsV)
    requires
        sv.len() >= 1,
    ensures
        unparse(sv.update(sv.len() - 1, sv.last().push(x))) == unparse(sv) + fmt_ins_v(x),
{
    let sv2 = sv.update(sv.len() - 1, sv.last().push(x));
    lemma_fmt_push(sv.last(), x);
    if sv.len() == 1 {
        assert(sv2[0] == sv.last().push(x));
    } else {
        assert(sv2.drop_last() =~= sv.drop_last());
        assert(sv2.last() == sv.last().push(x));
        assert((unparse(sv.drop_last()) + seq!['[']) + (fmt_code_v(sv.last()) + fmt_ins_v(x))
            =~= ((unparse(sv.drop_last()) + seq!['[']) + fmt_code_v(sv.last())) + fmt_ins_v(x));
    }
}

/// One step of text changes the derived quantities by one character.
pub proof fn lemma_step_facts(s: Seq<char>, i: int)
    requires
        0 <= i < s.len(),
    ensures
        s.subrange(0, i + 1).drop_last() == s.subrange(0, i),
        s.subrange(0, i + 1).last() == s[i],
        depth_v(s.subrange(0, i + 1)) == depth_v(s.subrange(0, i)) + char_depth(s[i]),
        filter_sig(s.subrange(0, i + 1)) == filter_sig(s.subrange(0, i)) + (if is_significant(
            s[i],
        ) {
            seq![s[i]]
        } else {
            Seq::<char>::empty()
        }),
        balanced_prefixes(s.subrange(0, i)) && (s[i] == ']' ==> depth_v(s.subrange(0, i)) >= 1)
            ==> balanced_prefixes(s.subrange(0, i + 1)),
{
    let pre = s.subrange(0, i);
    let post = s.subrange(0, i + 1);
    assert(post.drop_last() =~= pre);
    assert(post.last() == s[i]);
    if balanced_prefixes(pre) && (s[i] == ']' ==> depth_v(pre) >= 1) {
        assert forall|j: int| 0 <= j < post.len() && #[trigger] post[j] == ']' implies depth_v(
            post.subrange(0, j),
        ) >= 1 by {
            assert(post.subrange(0, j) =~= s.subrange(0, j));
            if j < i {
                assert(pre[j] == ']');
                assert(pre.subrange(0, j) =~= s.subrange(0, j));
            } else {
                assert(post.subrange(0, j) =~= pre);
            }
        }
    }
}

/// Append one unit instruction to the innermost loop body on the stack.
fn push_unit(stack: &mut Vec<BfCode>, ins: BfIns)
    requires
        old(stack)@.len() >= 1,
    ensures
        final(stack)@.len() == old(stack)@.len(),
        stack_view(final(stack)@) == stack_view(old(stack)@).update(
            old(stack)@.len() - 1,
            stack_view(old(stack)@).last().push(ins@),
        ),
{
    let mut top: BfCode = stack.pop().unwrap();
    top.0.push(ins);
    stack.push(top);
    proof {
        lemma_view_push(old(stack)@.last().0@, ins);
        assert(stack_view(stack@) =~= stack_view(old(stack)@).update(
            old(stack)@.len() - 1,
            stack_view(old(stack)@).last().push(ins@),
        ));
    }
}

/// # Parse a sequence of characters into a [`BfCode`] object
///
/// Only the eight operator characters are significant; every other
/// character is ignored. Each significant character parses to the
/// unit-valued instruction; grouping of runs is the optimizer's job.
///
/// # Errors
/// Returns `Err` if the brackets do not match: an unmatched `]` reports
/// its character position, while an unclosed `[` is reported at end of
/// input.
pub fn parse_chars(chars: &Vec<char>) -> (r: Result<BfCode, BfParseError>)
    ensures
        (match r {
            Ok(code) => balanced_v(chars@) && unit_form(code@) && fmt_code_v(code@) == filter_sig(
                chars@,
            ),
            Err(BfParseError::UnmatchedClosingBracket { char_pos }) => char_pos < chars@.len()
                && chars@[char_pos as int] == ']' && depth_v(chars@.subrange(0, char_pos as int))
                == 0 && balanced_prefixes(chars@.subrange(0, char_pos as int)),
            Err(BfParseError::UnclosedBracket) => balanced_prefixes(chars@) && depth_v(chars@) > 0,
        }),
        balanced_v(chars@) <==> r is Ok,
        only_significant(chars@) && balanced_v(chars@) ==> (r matches Ok(code) && fmt_code_v(code@)
            == chars@),
{
    let mut loops_stack: Vec<BfCode> = Vec::new();
    loops_stack.push(BfCode(Vec::new()));
    let mut i: usize = 0;
    proof {
        assert(chars@.subrange(0, 0) =~= Seq::<char>::empty());
        assert(stack_view(loops_stack@) =~= seq![Seq::<InsV>::empty()]);
    }
    while i < chars.len()
        invariant
            i <= chars@.len(),
            loops_stack@.len() >= 1,
            stack_unit(stack_view(loops_stack@)),
            unparse(stack_view(loops_stack@)) == filter_sig(chars@.subrange(0, i as int)),
            loops_stack@.len() == 1 + depth_v(chars@.subrange(0, i as int)),
            balanced_prefixes(chars@.subrange(0, i as int)),
        decreases chars@.len() - i,
    {
        let ghost pre = chars@.subrange(0, i as int);
        let ghost post = chars@.subrange(0, i + 1);
        let ghost sv = stack_view(loops_stack@);
        proof {
            lemma_step_facts(chars@, i as int);
        }
        let ch = chars[i];
        match ch {
            '+' => {
                push_unit(&mut loops_stack, BfIns::Add(1));
                proof {
                    lemma_unparse_push(sv, InsV::Add(1));
                    lemma_unit_push(sv.last(), InsV::Add(1));
                    assert(char_run('+', 1) =~= seq!['+']);
                    assert(unparse(stack_view(loops_stack@)) == filter_sig(post));
                }
            },
            '-' => {
                push_unit(&mut loops_stack, BfIns::Sub(1));
                proof {
                    lemma_unparse_push(sv, InsV::Sub(1));
                    lemma_unit_push(sv.last(), InsV::Sub(1));
                    assert(char_run('-', 1) =~= seq!['-']);
                    assert(unparse(stack_view(loops_stack@)) == filter_sig(post));
                }
            },
            '>' => {
                push_unit(&mut loops_stack, BfIns::PtrAdd(1));
                proof {
                    lemma_unparse_push(sv, InsV::PtrAdd(1));
                    lemma_unit_push(sv.last(), InsV::PtrAdd(1));
                    assert(char_run('>', 1) =~= seq!['>']);
                    assert(unparse(stack_view(loops_stack@)) == filter_sig(post));
                }
            },
            '<' => {
                push_unit(&mut loops_stack, BfIns::PtrSub(1));
                proof {
                    lemma_unparse_push(sv, InsV::PtrSub(1));
                    lemma_unit_push(sv.last(), InsV::PtrSub(1));
                    assert(char_run('<', 1) =~= seq!['<']);
                    assert(unparse(stack_view(loops_stack@)) == filter_sig(post));
                }
            },
            '.' => {
                push_unit(&mut loops_stack, BfIns::Putchar);
                proof {
                    lemma_unparse_push(sv, InsV::Putchar);
                    lemma_unit_push(sv.last(), InsV::Putchar);
                    assert(unparse(stack_view(loops_stack@)) == filter_sig(post));
                }
            },
            ',' => {
                push_unit(&mut loops_stack, BfIns::Getchar);
                proof {
                    lemma_unparse_push(sv, InsV::Getchar);
                    lemma_unit_push(sv.last(), InsV::Getchar);
                    assert(unparse(stack_view(loops_stack@)) == filter_sig(post));
                }
            },
            '[' => {
                loops_stack.push(BfCode(Vec::new()));
                proof {
                    assert(stack_view(loops_stack@) =~= sv.push(Seq::<InsV>::empty()));
                    assert(stack_view(loops_stack@).drop_last() =~= sv);
                    assert(filter_sig(post) =~= unparse(sv) + seq!['[']
                        + fmt_code_v(Seq::<InsV>::empty()));
                }
            },
            ']' => {
                if loops_stack.len() == 1 {
                    proof {
                        assert(!balanced_v(chars@)) by {
                            if balanced_prefixes(chars@) {
                                assert(chars@[i as int] == ']');
                                assert(depth_v(chars@.subrange(0, i as int)) >= 1);
                            }
                        }
                    }
                    return Err(BfParseError::UnmatchedClosingBracket { char_pos: i });
                }
                let inner: BfCode = loops_stack.pop().unwrap();
                let mut top: BfCode = loops_stack.pop().unwrap();
                let ghost top0 = top.0@;
                let ghost li = BfIns::Loop(inner);
                top.0.push(BfIns::Loop(inner));
                loops_stack.push(top);
                proof {
                    let svd = sv.drop_last();
                    lemma_view_push(top0, li);
                    assert(view_of_ins_seq(top0) == svd.last());
                    assert(stack_view(loops_stack@) =~= svd.update(
                        svd.len() - 1,
                        svd.last().push(InsV::Loop(sv.last())),
                    ));
                    lemma_unparse_push(svd, InsV::Loop(sv.last()));
                    assert(unparse(stack_view(loops_stack@)) == unparse(svd)
                        + fmt_ins_v(InsV::Loop(sv.last())));
                    assert(unparse(sv) == unparse(svd) + seq!['['] + fmt_code_v(sv.last()));
                    assert(unparse(stack_view(loops_stack@)) =~= unparse(sv) + seq![']']);
                    assert(unit_ins_v(InsV::Loop(sv.last())));
                    lemma_unit_push(svd.last(), InsV::Loop(sv.last()));
                    assert forall|j: int| 0 <= j < stack_view(loops_stack@).len() implies unit_form(
                        #[trigger] stack_view(loops_stack@)[j],
                    ) by {
                        if j < svd.len() - 1 {
                            assert(stack_view(loops_stack@)[j] == sv[j]);
                        }
                    }
                    assert(unparse(stack_view(loops_stack@)) == filter_sig(post));
                }
            },
            _ => {
                proof {
                    assert(filter_sig(post) =~= filter_sig(pre));
                }
            },
        }
        i = i + 1;
    }
    proof {
        assert(chars@.subrange(0, chars@.len() as int) =~= chars@);
    }
    if loops_stack.len() == 1 {
        let ghost svf = stack_view(loops_stack@);
        let code: BfCode = loops_stack.pop().unwrap();
        proof {
            assert(code@ == svf[0]);
            assert(unparse(svf) == fmt_code_v(svf[0]));
            if only_significant(chars@) {
                lemma_filter_sig_identity(chars@);
            }
        }
        Ok(code)
    } else {
        Err(BfParseError::UnclosedBracket)
    }
}

/// parse bf instructions from a string slice without grouping
///
/// # Errors
/// Returns `Err` if the string contains an invalid bracket sequence like
/// `]]` (all other strings are valid bf code).
pub fn parse_str(s: &str) -> (r: Result<BfCode, BfParseError>)
    ensures
        (match r {
            Ok(code) => balanced_v(s@) && unit_form(code@) && fmt_code_v(code@) == filter_sig(s@),
            Err(BfParseError::UnmatchedClosingBracket { char_pos }) => char_pos < s@.len()
                && s@[char_pos as int] == ']' && depth_v(s@.subrange(0, char_pos as int)) == 0
                && balanced_prefixes(s@.subrange(0, char_pos as int)),
            Err(BfParseError::UnclosedBracket) => balanced_prefixes(s@) && depth_v(s@) > 0,
        }),
        balanced_v(s@) <==> r is Ok,
{
    let mut chars: Vec<char> = Vec::new();
    let n = s.unicode_len();
    let mut i: usize = 0;
    while i < n
        invariant
            i <= n,
            n == s@.len(),
            chars@ == s@.subrange(0, i as int),
        decreases n - i,
    {
        chars.push(s.get_char(i));
        proof {
            assert(chars@ =~= s@.subrange(0, i + 1));
        }
        i = i + 1;
    }
    proof {
        assert(chars@ =~= s@);
    }
    parse_chars(&chars)
}

} // verus!
