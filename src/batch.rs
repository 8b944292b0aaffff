//! The continuation contract shared by every operation whose cost grows with
//! the size of a collection.
use vstd::prelude::*;

verus! {

/// Outcome of one invocation of a budget-bounded operation.
pub enum MultiTxsOperationProcessingResult {
    /// The budget ran out before the work was done; invoke again to resume.
    NeedMoreGas,
    /// All work is done.
    Completed,
    /// An internal invariant was found broken; nothing further was changed.
    Error(String),
}

impl MultiTxsOperationProcessingResult {
    pub fn is_ok(&self) -> (r: bool)
        ensures
            r == (*self is Completed),
    {
        match self {
            MultiTxsOperationProcessingResult::Completed => true,
            _ => false,
        }
    }

    pub fn is_need_more_gas(&self) -> (r: bool)
        ensures
            r == (*self is NeedMoreGas),
    {
        match self {
            MultiTxsOperationProcessingResult::NeedMoreGas => true,
            _ => false,
        }
    }

    pub fn is_error(&self) -> (r: bool)
        ensures
            r == (*self is Error),
    {
        match self {
            MultiTxsOperationProcessingResult::Error(_) => true,
            _ => false,
        }
    }
}

/// A consumed-budget counter checked against a fixed ceiling, one unit per
/// unit of work.
pub struct Budget {
    used: u64,
    ceiling: u64,
}

impl Budget {
    pub closed spec fn spec_used(&self) -> nat {
        self.used as nat
    }

    pub closed spec fn spec_ceiling(&self) -> nat {
        self.ceiling as nat
    }

    /// Units that may still be consumed.
    pub open spec fn remaining(&self) -> nat {
        (self.spec_ceiling() - self.spec_used()) as nat
    }

    pub open spec fn wf(&self) -> bool {
        self.spec_used() <= self.spec_ceiling()
    }

    pub fn new(ceiling: u64) -> (r: Budget)
        ensures
            r.wf(),
            r.spec_used() == 0,
            r.spec_ceiling() == ceiling,
            r.remaining() == ceiling,
    {
        Budget { used: 0, ceiling }
    }

    pub fn used(&self) -> (r: u64)
        ensures
            r == self.spec_used(),
    {
        self.used
    }

    pub fn ceiling(&self) -> (r: u64)
        ensures
            r == self.spec_ceiling(),
    {
        self.ceiling
    }

    pub fn is_exhausted(&self) -> (r: bool)
        requires
            self.wf(),
        ensures
            r == (self.remaining() == 0),
    {
        self.used >= self.ceiling
    }

    /// Takes one unit if the ceiling allows it, before a unit of work.
    pub fn try_consume(&mut self) -> (r: bool)
        requires
            old(self).wf(),
        ensures
            final(self).wf(),
            final(self).spec_ceiling() == old(self).spec_ceiling(),
            r == (old(self).remaining() > 0),
            r ==> final(self).spec_used() == old(self).spec_used() + 1,
            !r ==> final(self).spec_used() == old(self).spec_used(),
            final(self).remaining() == if r { old(self).remaining() - 1 } else { 0int },
    {
        if self.used < self.ceiling {
            self.used = self.used + 1;
            true
        } else {
            false
        }
    }
}

} // verus!
