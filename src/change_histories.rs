//! The append-only ledger of council changes; only a record's state ever
//! changes after it is written.
use vstd::prelude::*;
use crate::types::{CouncilChangeAction, CouncilChangeHistory, CouncilChangeHistoryState, IndexRange};

verus! {

/// What a change action says, with member ids as character sequences.
pub enum ChangeActionView {
    MaxNumberOfMembersChanged(u32),
    MemberAdded(Seq<char>),
    MemberRemoved(Seq<char>),
}

pub open spec fn action_view(a: CouncilChangeAction) -> ChangeActionView {
    match a {
        CouncilChangeAction::MaxNumberOfMembersChanged(n) => ChangeActionView::MaxNumberOfMembersChanged(n),
        CouncilChangeAction::MemberAdded(id) => ChangeActionView::MemberAdded(id@),
        CouncilChangeAction::MemberRemoved(id) => ChangeActionView::MemberRemoved(id@),
    }
}

impl CouncilChangeAction {
    pub fn duplicate(&self) -> (r: Self)
        ensures
            r == *self,
    {
        match self {
            CouncilChangeAction::MaxNumberOfMembersChanged(n) => CouncilChangeAction::MaxNumberOfMembersChanged(*n),
            CouncilChangeAction::MemberAdded(id) => CouncilChangeAction::MemberAdded(id.clone()),
            CouncilChangeAction::MemberRemoved(id) => CouncilChangeAction::MemberRemoved(id.clone()),
        }
    }
}

impl CouncilChangeHistory {
    pub fn duplicate(&self) -> (r: Self)
        ensures
            r == *self,
    {
        CouncilChangeHistory {
            action: self.action.duplicate(),
            index: self.index,
            state: self.state,
            timestamp: self.timestamp,
        }
    }
}

/// The records with indices `start_index .. start_index + records.len()`;
/// records below `start_index` were pruned.
pub struct ChangeHistories {
    start_index: u64,
    records: Vec<CouncilChangeHistory>,
}

impl ChangeHistories {
    pub closed spec fn start(&self) -> nat {
        self.start_index as nat
    }

    /// The records still held, oldest first.
    pub closed spec fn records(&self) -> Seq<CouncilChangeHistory> {
        self.records@
    }

    /// One past the index of the newest record.
    pub open spec fn end(&self) -> nat {
        self.start() + self.records().len()
    }

    pub open spec fn record_at(&self, index: int) -> CouncilChangeHistory {
        self.records()[index - self.start()]
    }

    /// Indices are consecutive, each record carrying its own.
    pub open spec fn wf(&self) -> bool {
        &&& self.end() <= u64::MAX
        &&& forall|k: int|
            0 <= k < self.records().len() ==> #[trigger] self.records()[k].index == self.start()
                + k
    }

    pub fn new() -> (r: Self)
        ensures
            r.wf(),
            r.start() == 0,
            r.records() == Seq::<CouncilChangeHistory>::empty(),
    {
        ChangeHistories { start_index: 0, records: Vec::new() }
    }

    /// A ledger holding `records` from index `start_index` on, where each
    /// record carries its own index.
    pub fn from_records(start_index: u64, records: Vec<CouncilChangeHistory>) -> (r: Option<Self>)
        ensures
            r is Some <==> (start_index + records@.len() <= u64::MAX && forall|k: int|
                0 <= k < records@.len() ==> #[trigger] records@[k].index == start_index + k),
            r matches Some(l) ==> l.wf() && l.start() == start_index && l.records() == records@,
    {
        if records.len() as u128 > (u64::MAX - start_index) as u128 {
            return None;
        }
        let mut k: usize = 0;
        while k < records.len()
            invariant
                k <= records@.len(),
                start_index + records@.len() <= u64::MAX,
                forall|j: int| 0 <= j < k ==> #[trigger] records@[j].index == start_index + j,
            decreases records@.len() - k,
        {
            if records[k].index != start_index + k as u64 {
                return None;
            }
            k = k + 1;
        }
        Some(ChangeHistories { start_index, records })
    }

    pub fn start_index(&self) -> (r: u64)
        ensures
            r == self.start(),
    {
        self.start_index
    }

    pub fn end_index(&self) -> (r: u64)
        requires
            self.wf(),
        ensures
            r == self.end(),
    {
        self.start_index + self.records.len() as u64
    }

    pub fn index_range(&self) -> (r: IndexRange)
        requires
            self.wf(),
        ensures
            r.start_index == self.start(),
            r.end_index == self.end(),
    {
        IndexRange { start_index: self.start_index, end_index: self.end_index() }
    }

    pub fn get(&self, index: u64) -> (r: Option<&CouncilChangeHistory>)
        requires
            self.wf(),
        ensures
            self.start() <= index < self.end() ==> r == Some(&self.record_at(index as int)),
            !(self.start() <= index < self.end()) ==> r is None,
    {
        if self.start_index <= index && index - self.start_index < self.records.len() as u64 {
            Some(&self.records[(index - self.start_index) as usize])
        } else {
            None
        }
    }

    /// Appends a record of `action`, waiting to be applied; returns its index.
    pub fn append(&mut self, action: CouncilChangeAction, timestamp: u64) -> (r: u64)
        requires
            old(self).wf(),
            old(self).end() < u64::MAX,
        ensures
            final(self).wf(),
            r == old(self).end(),
            final(self).start() == old(self).start(),
            final(self).records() == old(self).records().push(
                CouncilChangeHistory {
                    action,
                    index: r,
                    state: CouncilChangeHistoryState::WaitingForApplying,
                    timestamp,
                },
            ),
    {
        let index = self.start_index + self.records.len() as u64;
        self.records.push(
            CouncilChangeHistory {
                action,
                index,
                state: CouncilChangeHistoryState::WaitingForApplying,
                timestamp,
            },
        );
        index
    }

    /// Sets the state of the record at `index`.
    pub fn set_state(&mut self, index: u64, state: CouncilChangeHistoryState)
        requires
            old(self).wf(),
            old(self).start() <= index < old(self).end(),
        ensures
            final(self).wf(),
            final(self).start() == old(self).start(),
            final(self).records() == old(self).records().update(
                index - old(self).start(),
                CouncilChangeHistory { state, ..old(self).record_at(index as int) },
            ),
    {
        let k = (index - self.start_index) as usize;
        let record = CouncilChangeHistory {
            action: self.records[k].action.duplicate(),
            index: self.records[k].index,
            state,
            timestamp: self.records[k].timestamp,
        };
        let ghost before = self.records@;
        self.records.set(k, record);
        assert(self.records@ =~= before.update(k as int, record));
    }

    /// Drops every record; indices go on from where they were.
    pub fn prune_all(&mut self)
        requires
            old(self).wf(),
        ensures
            final(self).wf(),
            final(self).start() == old(self).end(),
            final(self).records() == Seq::<CouncilChangeHistory>::empty(),
    {
        self.start_index = self.start_index + self.records.len() as u64;
        self.records = Vec::new();
    }

    /// Copies of the records with indices from `start_index` (or the first
    /// one held, if that is later) up to `quantity` of them, or all the rest.
    pub fn get_slice_of(&self, start_index: u64, quantity: Option<u64>) -> (r: Vec<
        CouncilChangeHistory,
    >)
        requires
            self.wf(),
        ensures
            r@ == self.records().subrange(
                history_slice_from(self.start(), self.end(), start_index) - self.start(),
                history_slice_to(self.start(), self.end(), start_index, quantity) - self.start(),
            ),
    {
        let n = self.records.len();
        let end = self.start_index + n as u64;
        let from: u64 = if start_index < self.start_index {
            self.start_index
        } else if start_index > end {
            end
        } else {
            start_index
        };
        let to: u64 = match quantity {
            Some(q) => if q < end - from {
                from + q
            } else {
                end
            },
            None => end,
        };
        let mut results: Vec<CouncilChangeHistory> = Vec::new();
        let mut index: u64 = from;
        while index < to
            invariant
                self.wf(),
                end == self.end(),
                n == self.records@.len(),
                self.start() <= from <= index <= to <= end,
                results@ == self.records().subrange(from - self.start(), index - self.start()),
            decreases to - index,
        {
            let record = self.records[(index - self.start_index) as usize].duplicate();
            results.push(record);
            assert(results@ =~= self.records().subrange(
                from - self.start(),
                index + 1 - self.start(),
            ));
            index = index + 1;
        }
        results
    }
}

/// First index of a page of the ledger.
pub open spec fn history_slice_from(start: nat, end: nat, start_index: u64) -> int {
    if start_index < start {
        start as int
    } else if start_index > end {
        end as int
    } else {
        start_index as int
    }
}

/// One past the last index of a page of the ledger.
pub open spec fn history_slice_to(start: nat, end: nat, start_index: u64, quantity: Option<u64>) -> int {
    let from = history_slice_from(start, end, start_index);
    match quantity {
        Some(q) => if from + q < end {
            from + q
        } else {
            end as int
        },
        None => end as int,
    }
}

/// `after` keeps every record of `before` that it still holds unchanged but
/// for its state, and indices only grow.
pub open spec fn ledger_extends(before: ChangeHistories, after: ChangeHistories) -> bool {
    &&& before.start() <= after.start()
    &&& before.end() <= after.end()
    &&& forall|i: int|
        after.start() <= i < before.end() ==> {
            &&& #[trigger] after.record_at(i).action == before.record_at(i).action
            &&& after.record_at(i).timestamp == before.record_at(i).timestamp
            &&& after.record_at(i).index == before.record_at(i).index
        }
}

/// Once written, a record's action, timestamp and index never change, over
/// any sequence of operations that each extend the ledger.
pub proof fn lemma_ledger_extends_transitive(a: ChangeHistories, b: ChangeHistories, c: ChangeHistories)
    requires
        ledger_extends(a, b),
        ledger_extends(b, c),
    ensures
        ledger_extends(a, c),
{
    assert forall|i: int| c.start() <= i < a.end() implies {
        &&& #[trigger] c.record_at(i).action == a.record_at(i).action
        &&& c.record_at(i).timestamp == a.record_at(i).timestamp
        &&& c.record_at(i).index == a.record_at(i).index
    } by {
        assert(b.record_at(i).action == a.record_at(i).action);
        assert(c.record_at(i).action == b.record_at(i).action);
    }
}

} // verus!
