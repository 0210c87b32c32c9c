use vstd::prelude::*;
pub use opt_ins::OptCode;
use opt_ins::opt_ins_len_v;
use group_instructions::{
    group_fits, group_top, lemma_group_idempotent, normalized, GroupInstructions, PrevKind,
};

/// Optimizer inner instruction representation
pub mod opt_ins;
/// Grouping pass over basic-block code
pub mod group_instructions;
/// Surface-level cleanup pass
pub mod pass_useless;

verus! {

/// Optimization pass trait
///
/// A pass rewrites well-formed code to well-formed code, never grows the
/// instruction count, and leaves every pointer sum a later grouping pass
/// would form inside the machine range.
pub trait OptPass: Sized {
    /// Function for pass invocation
    ///
    /// is_changed - mark for [`OptState::run_passes`] for when it needs
    /// to stop
    fn optimize(&self, code: OptCode, is_changed: &mut bool) -> (r: OptCode)
        requires
            code.wf(),
            group_fits(code@, PrevKind::Other),
            opt_ins_len_v(code@) <= usize::MAX,
        ensures
            r.wf(),
            group_fits(r@, PrevKind::Other),
            opt_ins_len_v(r@) <= opt_ins_len_v(code@),
            *old(is_changed) ==> *final(is_changed),
    ;
}


/// [`OptState`] - Optimization state
///
/// it is just a collection of optimization passes
#[derive(Debug)]
pub struct OptState {
    passes: Vec<GroupInstructions>,
}

/// Builder for [`OptState`]
#[derive(Debug)]
pub struct OptStateBuilder(Vec<GroupInstructions>);

impl OptState {
    /// How many passes the state holds.
    pub closed spec fn num_passes(&self) -> nat {
        self.passes@.len()
    }

    /// Create builder object for [`OptState`]
    pub fn builder() -> (r: OptStateBuilder)
        ensures
            r.num_passes() == 0,
    {
        OptStateBuilder::new()
    }

    /// Run all state passes, repeating the sweep until no pass reports a
    /// change. With at least one pass registered the result is the
    /// grouped form of the input; with none it is the input itself.
    pub fn run_passes(&mut self, code: OptCode) -> (r: OptCode)
        requires
            code.wf(),
            group_fits(code@, PrevKind::Other),
            opt_ins_len_v(code@) <= usize::MAX,
        ensures
            r.wf(),
            opt_ins_len_v(r@) <= opt_ins_len_v(code@),
            old(self).num_passes() > 0 ==> r@ == group_top(code@) && normalized(r@),
            old(self).num_passes() == 0 ==> r@ == code@,
            final(self).num_passes() == old(self).num_passes(),
    {
        let ghost orig = code@;
        proof {
            lemma_group_idempotent(orig);
            group_instructions::lemma_group_len(orig);
        }
        let mut cur = code;
        let mut again = true;
        while again
            invariant
                cur.wf(),
                group_fits(cur@, PrevKind::Other),
                opt_ins_len_v(cur@) <= opt_ins_len_v(orig),
                opt_ins_len_v(orig) <= usize::MAX,
                cur@ == orig || cur@ == group_top(orig),
                normalized(group_top(orig)),
                self.passes@.len() == 0 ==> cur@ == orig,
                !again && self.passes@.len() > 0 ==> cur@ == group_top(orig),
                group_top(group_top(orig)) == group_top(orig),
                opt_ins_len_v(group_top(group_top(orig))) == opt_ins_len_v(
                    group_top(orig),
                ),
                self == old(self),
            decreases (if cur@ == group_top(orig) {
                0int
            } else {
                2int
            }) + (if again {
                1int
            } else {
                0int
            }),
        {
            let mut is_changed = false;
            let mut pi: usize = 0;
            let ghost sweep_start = cur@;
            while pi < self.passes.len()
                invariant
                    pi <= self.passes@.len(),
                    cur.wf(),
                    group_fits(cur@, PrevKind::Other),
                    opt_ins_len_v(cur@) <= opt_ins_len_v(sweep_start),
                    opt_ins_len_v(sweep_start) <= opt_ins_len_v(orig),
                    opt_ins_len_v(orig) <= usize::MAX,
                    sweep_start == orig || sweep_start == group_top(orig),
                    group_top(group_top(orig)) == group_top(orig),
                    opt_ins_len_v(group_top(group_top(orig))) == opt_ins_len_v(
                        group_top(orig),
                    ),
                    pi > 0 ==> cur@ == group_top(orig),
                    pi == 0 ==> cur@ == sweep_start,
                    pi == 0 ==> !is_changed,
                    sweep_start == group_top(orig) ==> !is_changed,
                    self.passes@.len() == 0 ==> sweep_start == orig,
                    self == old(self),
                decreases self.passes@.len() - pi,
            {
                let pass = &self.passes[pi];
                cur = pass.optimize(cur, &mut is_changed);
                pi = pi + 1;
            }
            again = is_changed;
        }
        cur
    }
}

impl OptStateBuilder {
    /// How many passes the builder holds.
    pub closed spec fn num_passes(&self) -> nat {
        self.0@.len()
    }

    /// Create new builder for [`OptState`]
    pub fn new() -> (r: Self)
        ensures
            r.num_passes() == 0,
    {
        OptStateBuilder(Vec::new())
    }

    /// Add default passes to the state
    ///
    /// The default pass is [`group_instructions::GroupInstructions`]
    pub fn add_default_passes(self) -> (r: Self)
        ensures
            r.num_passes() == self.num_passes() + 1,
    {
        self.add_pass(GroupInstructions)
    }

    /// Add an optimization pass to the state
    pub fn add_pass(self, pass: GroupInstructions) -> (r: Self)
        ensures
            r.num_passes() == self.num_passes() + 1,
    {
        let mut s = self;
        s.0.push(pass);
        s
    }

    /// Finish building the [`OptState`] and return it
    pub fn build(self) -> (r: OptState)
        ensures
            r.num_passes() == self.num_passes(),
    {
        OptState { passes: self.0 }
    }
}


impl Default for OptState {
    /// The state with the default passes registered.
    fn default() -> (r: Self)
        ensures
            r.num_passes() == 1,
    {
        OptStateBuilder::default().build()
    }
}

impl Default for OptStateBuilder {
    /// A builder with the default passes already added.
    fn default() -> (r: Self)
        ensures
            r.num_passes() == 1,
    {
        OptStateBuilder::new().add_default_passes()
    }
}

} // verus!
