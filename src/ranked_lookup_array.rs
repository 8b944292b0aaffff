//! An index-addressable array kept in descending order of a rank value that
//! a pluggable holder supplies, with single-member repositioning.
use vstd::prelude::*;
use vstd::math::min;
use crate::batch::{Budget, MultiTxsOperationProcessingResult};

verus! {

/// Relies on `<[T]>::swap`: the two elements trade places; both indices
/// must be in bounds, else it panics.
pub assume_specification<Elem>[ <[Elem]>::swap ](s: &mut [Elem], a: usize, b: usize)
    requires
        a < old(s)@.len(),
        b < old(s)@.len(),
    ensures
        final(s)@ == old(s)@.update(a as int, old(s)@[b as int]).update(b as int, old(s)@[a as int]),
;

/// Supplies the rank value of each member and keeps each member's
/// back-reference to its index in the array.
pub trait RankValueHolder<T> {
    /// The holder's state apart from the back-references.
    type Unranked;

    spec fn unranked(&self) -> Self::Unranked;

    /// Whether the holder has an entry for `member`.
    spec fn holds(&self, member: T) -> bool;

    /// The value by which `member` is ranked.
    spec fn rank_value(&self, member: T) -> u128;

    /// The index that the holder records for `member`.
    spec fn rank(&self, member: T) -> u32;

    fn get_rank_value_of(&self, member: &T) -> (r: u128)
        requires
            self.holds(*member),
        ensures
            r == self.rank_value(*member),
    ;

    fn update_rank_of(&mut self, member: &T, new_rank: u32)
        requires
            old(self).holds(*member),
        ensures
            final(self).rank(*member) == new_rank,
            final(self).unranked() == old(self).unranked(),
            forall|m: T| #[trigger] final(self).holds(m) == old(self).holds(m),
            forall|m: T| #[trigger] final(self).rank_value(m) == old(self).rank_value(m),
            forall|m: T| m != *member ==> #[trigger] final(self).rank(m) == old(self).rank(m),
    ;
}

/// Descending order by rank value.
pub open spec fn sorted_by<T, S: RankValueHolder<T>>(s: Seq<T>, h: S) -> bool {
    forall|i: int, j: int|
        0 <= i < j < s.len() ==> #[trigger] h.rank_value(s[i]) >= #[trigger] h.rank_value(s[j])
}

/// Descending order among all positions but `k`.
pub open spec fn sorted_except<T, S: RankValueHolder<T>>(s: Seq<T>, h: S, k: int) -> bool {
    forall|i: int, j: int|
        0 <= i < j < s.len() && i != k && j != k ==> #[trigger] h.rank_value(s[i])
            >= #[trigger] h.rank_value(s[j])
}

/// Every member is held, and its recorded index is where it stands.
pub open spec fn linked<T, S: RankValueHolder<T>>(s: Seq<T>, h: S) -> bool {
    forall|i: int| #![trigger s[i]] 0 <= i < s.len() ==> h.holds(s[i]) && h.rank(s[i]) == i
}

/// The holder changed only the back-references of the members in `s`.
pub open spec fn holder_kept<T, S: RankValueHolder<T>>(before: S, after: S, s: Seq<T>) -> bool {
    &&& after.unranked() == before.unranked()
    &&& forall|m: T| #[trigger] after.holds(m) == before.holds(m)
    &&& forall|m: T| #[trigger] after.rank_value(m) == before.rank_value(m)
    &&& forall|m: T| !s.contains(m) ==> #[trigger] after.rank(m) == before.rank(m)
}

/// `s` with the element at `from` taken out and put back at `to`, the
/// elements in between shifting by one.
pub open spec fn moved<T>(s: Seq<T>, from: int, to: int) -> Seq<T> {
    Seq::new(
        s.len(),
        |i: int|
            if i == to {
                s[from]
            } else if to <= from && to < i <= from {
                s[i - 1]
            } else if from < to && from <= i < to {
                s[i + 1]
            } else {
                s[i]
            },
    )
}

/// `to` is where the member at `from` comes to rest when it is repositioned
/// once: it climbs past every strictly lower predecessor, and only if it
/// cannot climb at all it sinks past every strictly higher successor.
pub open spec fn rest_position<T, S: RankValueHolder<T>>(
    s: Seq<T>,
    h: S,
    from: int,
    to: int,
) -> bool {
    let v = h.rank_value(s[from]);
    &&& 0 <= to < s.len()
    &&& to <= from ==> (forall|j: int| to <= j < from ==> #[trigger] h.rank_value(s[j]) < v)
    &&& to <= from ==> (to == 0 || h.rank_value(s[to - 1]) >= v)
    &&& to == from ==> (from + 1 == s.len() || h.rank_value(s[from + 1]) <= v)
    &&& from < to ==> (forall|j: int| from < j <= to ==> #[trigger] h.rank_value(s[j]) > v)
    &&& from < to ==> (to + 1 == s.len() || h.rank_value(s[to + 1]) <= v)
    &&& from < to ==> (from == 0 || h.rank_value(s[from - 1]) >= v)
}

/// Moving one element keeps every member of the sequence in it.
pub proof fn lemma_moved_keeps_members<T>(s: Seq<T>, from: int, to: int)
    requires
        0 <= from < s.len(),
        0 <= to < s.len(),
    ensures
        forall|m: T| s.contains(m) ==> #[trigger] moved(s, from, to).contains(m),
        forall|m: T| moved(s, from, to).contains(m) ==> #[trigger] s.contains(m),
{
    let t = moved(s, from, to);
    assert forall|m: T| s.contains(m) implies #[trigger] t.contains(m) by {
        let k = choose|k: int| 0 <= k < s.len() && s[k] == m;
        let p = if k == from {
            to
        } else if to <= from && to <= k < from {
            k + 1
        } else if from < to && from < k <= to {
            k - 1
        } else {
            k
        };
        assert(t[p] == m);
    }
    assert forall|m: T| t.contains(m) implies #[trigger] s.contains(m) by {
        let k = choose|k: int| 0 <= k < t.len() && t[k] == m;
        let p = if k == to {
            from
        } else if to <= from && to < k <= from {
            k - 1
        } else if from < to && from <= k < to {
            k + 1
        } else {
            k
        };
        assert(s[p] == m);
    }
}

/// A repositioned member has exactly one place to come to rest.
pub proof fn lemma_rest_position_unique<T, S: RankValueHolder<T>>(
    s: Seq<T>,
    h: S,
    from: int,
    t1: int,
    t2: int,
)
    requires
        0 <= from < s.len(),
        rest_position(s, h, from, t1),
        rest_position(s, h, from, t2),
    ensures
        t1 == t2,
{
    let v = h.rank_value(s[from]);
    if t1 < t2 {
        lemma_rest_position_ordered(s, h, from, t1, t2);
    } else if t2 < t1 {
        lemma_rest_position_ordered(s, h, from, t2, t1);
    }
}

proof fn lemma_rest_position_ordered<T, S: RankValueHolder<T>>(
    s: Seq<T>,
    h: S,
    from: int,
    t1: int,
    t2: int,
)
    requires
        0 <= from < s.len(),
        t1 < t2,
    ensures
        !(rest_position(s, h, from, t1) && rest_position(s, h, from, t2)),
{
    let v = h.rank_value(s[from]);
    if rest_position(s, h, from, t1) && rest_position(s, h, from, t2) {
        if t2 <= from {
            assert(h.rank_value(s[t2 - 1]) < v);
        } else if t1 <= from {
            if t1 < from {
                assert(h.rank_value(s[from - 1]) < v);
            } else {
                assert(h.rank_value(s[from + 1]) > v);
            }
        } else {
            assert(h.rank_value(s[t1 + 1]) > v);
        }
    }
}

/// Where a member comes to rest depends on the rank values alone.
pub proof fn lemma_rest_position_values<T, S: RankValueHolder<T>>(
    s: Seq<T>,
    h1: S,
    h2: S,
    from: int,
    to: int,
)
    requires
        forall|m: T| #[trigger] h1.rank_value(m) == h2.rank_value(m),
    ensures
        rest_position(s, h1, from, to) == rest_position(s, h2, from, to),
{
    lemma_rest_position_transfer(s, h1, h2, from, to);
    lemma_rest_position_transfer(s, h2, h1, from, to);
}

proof fn lemma_rest_position_transfer<T, S: RankValueHolder<T>>(s: Seq<T>, h1: S, h2: S, from: int, to: int)
    requires
        forall|m: T| #[trigger] h1.rank_value(m) == h2.rank_value(m),
    ensures
        rest_position(s, h1, from, to) ==> rest_position(s, h2, from, to),
{
    if rest_position(s, h1, from, to) {
        let v = h1.rank_value(s[from]);
        assert(h2.rank_value(s[from]) == v);
        if to <= from {
            assert forall|j: int| to <= j < from implies #[trigger] h2.rank_value(s[j]) < v by {
                assert(h1.rank_value(s[j]) < v);
            }
            if to > 0 {
                assert(h1.rank_value(s[to - 1]) == h2.rank_value(s[to - 1]));
            }
            if to == from && from + 1 < s.len() {
                assert(h1.rank_value(s[from + 1]) == h2.rank_value(s[from + 1]));
            }
        } else {
            assert forall|j: int| from < j <= to implies #[trigger] h2.rank_value(s[j]) > v by {
                assert(h1.rank_value(s[j]) > v);
            }
            if to + 1 < s.len() {
                assert(h1.rank_value(s[to + 1]) == h2.rank_value(s[to + 1]));
            }
            if from > 0 {
                assert(h1.rank_value(s[from - 1]) == h2.rank_value(s[from - 1]));
            }
        }
    }
}

/// Repositioning the one member that may be out of place restores the
/// descending order.
pub proof fn lemma_reposition_sorts<T, S: RankValueHolder<T>>(
    s: Seq<T>,
    h: S,
    from: int,
    to: int,
)
    requires
        0 <= from < s.len(),
        sorted_except(s, h, from),
        rest_position(s, h, from, to),
    ensures
        sorted_by(moved(s, from, to), h),
{
    let m = moved(s, from, to);
    let v = h.rank_value(s[from]);
    // Every other member lands on the side of `to` that its value allows.
    assert forall|i: int| 0 <= i < s.len() && i != to implies (i < to ==> h.rank_value(m[i]) >= v)
        && (i > to ==> h.rank_value(m[i]) <= v) by {
        if to <= from {
            if i < to {
                if i < to - 1 {
                    assert(h.rank_value(s[i]) >= h.rank_value(s[to - 1]));
                }
            } else if i <= from {
            } else if to < from {
                assert(h.rank_value(s[from - 1]) >= h.rank_value(s[i]));
            } else {
                if i > from + 1 {
                    assert(h.rank_value(s[from + 1]) >= h.rank_value(s[i]));
                }
            }
        } else {
            if i < from {
                if from > 0 && i < from - 1 {
                    assert(h.rank_value(s[i]) >= h.rank_value(s[from - 1]));
                }
            } else if i < to {
            } else {
                if i > to + 1 {
                    assert(h.rank_value(s[to + 1]) >= h.rank_value(s[i]));
                }
            }
        }
    }
    assert forall|i: int, j: int| 0 <= i < j < m.len() implies #[trigger] h.rank_value(m[i])
        >= #[trigger] h.rank_value(m[j]) by {
        if i != to && j != to {
            // Both come from positions other than `from`, in the same order.
            let pi = if to <= from && to < i <= from {
                i - 1
            } else if from < to && from <= i < to {
                i + 1
            } else {
                i
            };
            let pj = if to <= from && to < j <= from {
                j - 1
            } else if from < to && from <= j < to {
                j + 1
            } else {
                j
            };
            assert(m[i] == s[pi] && m[j] == s[pj]);
            assert(pi < pj && pi != from && pj != from);
        }
    }
}

/// A dense array of members in descending order of rank value.
pub struct RankedLookupArray<T> {
    slots: Vec<T>,
}

impl<T: Copy> RankedLookupArray<T> {
    /// The members by index.
    pub closed spec fn view(&self) -> Seq<T> {
        self.slots@
    }

    pub open spec fn wf(&self) -> bool {
        self.view().len() <= u32::MAX
    }

    pub fn new() -> (r: Self)
        ensures
            r.wf(),
            r.view() == Seq::<T>::empty(),
    {
        RankedLookupArray { slots: Vec::new() }
    }

    /// An array holding `slots` as they are.
    pub fn from_slots(slots: Vec<T>) -> (r: Self)
        requires
            slots@.len() <= u32::MAX,
        ensures
            r.wf(),
            r.view() == slots@,
    {
        RankedLookupArray { slots }
    }

    pub fn get(&self, index: u32) -> (r: Option<T>)
        ensures
            index < self.view().len() ==> r == Some(self.view()[index as int]),
            index >= self.view().len() ==> r is None,
    {
        if (index as usize) < self.slots.len() {
            Some(self.slots[index as usize])
        } else {
            None
        }
    }

    /// Up to `quantity` members from `start_index` on; all the rest where
    /// `quantity` is absent or exceeds them.
    pub fn get_slice_of(&self, start_index: u32, quantity: Option<u32>) -> (r: Vec<T>)
        requires
            self.wf(),
            start_index < self.view().len(),
        ensures
            r@ == self.view().subrange(
                start_index as int,
                slice_end(self.view().len(), start_index as int, quantity),
            ),
    {
        let len = self.slots.len();
        let end: usize = match quantity {
            Some(q) => {
                if (q as u64) < (len as u64) - (start_index as u64) {
                    start_index as usize + q as usize
                } else {
                    len
                }
            },
            None => len,
        };
        let mut results: Vec<T> = Vec::new();
        let mut index: usize = start_index as usize;
        while index < end
            invariant
                start_index <= index <= end <= len,
                len == self.slots@.len(),
                results@ == self.slots@.subrange(start_index as int, index as int),
            decreases end - index,
        {
            results.push(self.slots[index]);
            index = index + 1;
        }
        results
    }

    /// All members, by index.
    pub fn get_all(&self) -> (r: Vec<T>)
        ensures
            r@ == self.view(),
    {
        let mut results: Vec<T> = Vec::new();
        let mut index: usize = 0;
        while index < self.slots.len()
            invariant
                index <= self.slots@.len(),
                results@ == self.slots@.take(index as int),
            decreases self.slots@.len() - index,
        {
            results.push(self.slots[index]);
            assert(results@ =~= self.slots@.take(index + 1));
            index = index + 1;
        }
        assert(results@ =~= self.slots@);
        results
    }

    pub fn len(&self) -> (r: u32)
        requires
            self.wf(),
        ensures
            r == self.view().len(),
    {
        self.slots.len() as u32
    }

    /// Adds `record` at the end, records its index with the holder, then
    /// lets it climb to its place; returns where it came to rest.
    pub fn append<S: RankValueHolder<T>>(&mut self, record: &T, rank_value_holder: &mut S) -> (r:
        u32)
        requires
            old(self).wf(),
            old(self).view().len() < u32::MAX,
            old(rank_value_holder).holds(*record),
            !old(self).view().contains(*record),
            linked(old(self).view(), *old(rank_value_holder)),
        ensures
            final(self).wf(),
            final(self).view() == moved(
                old(self).view().push(*record),
                old(self).view().len() as int,
                r as int,
            ),
            rest_position(
                old(self).view().push(*record),
                *old(rank_value_holder),
                old(self).view().len() as int,
                r as int,
            ),
            linked(final(self).view(), *final(rank_value_holder)),
            holder_kept(
                *old(rank_value_holder),
                *final(rank_value_holder),
                final(self).view(),
            ),
            sorted_by(old(self).view(), *old(rank_value_holder)) ==> sorted_by(
                final(self).view(),
                *final(rank_value_holder),
            ),
    {
        let ghost s0 = self.slots@;
        let ghost h0 = *rank_value_holder;
        let length = self.slots.len();
        self.slots.push(*record);
        rank_value_holder.update_rank_of(record, length as u32);
        proof {
            assert forall|i: int| 0 <= i < self.slots@.len() implies #[trigger] rank_value_holder.holds(
                self.slots@[i],
            ) && rank_value_holder.rank(self.slots@[i]) == i by {
                if i < s0.len() {
                    assert(s0.contains(s0[i]));
                }
            }
            assert(moved(self.slots@, length as int, length as int) =~= self.slots@);
        }
        let ghost s1 = self.slots@;
        let ghost h1 = *rank_value_holder;
        assert(s1 == s0.push(*record));
        let r = self.move_up_by_rank_value(record, length as u32, rank_value_holder);
        proof {
            lemma_moved_keeps_members(s1, length as int, r as int);
            assert(s1[length as int] == *record);
            assert(s1.contains(*record));
            assert forall|m: T| !self.slots@.contains(m) implies #[trigger] rank_value_holder.rank(m)
                == h0.rank(m) by {
                assert(!s1.contains(m));
                assert(h1.rank(m) == h0.rank(m));
            }
            let v = h0.rank_value(*record);
            assert(h1.rank_value(*record) == v);
            assert forall|j: int| r <= j < length implies #[trigger] h0.rank_value(s1[j]) < v by {
                assert(h1.rank_value(s1[j]) == h0.rank_value(s1[j]));
            }
            if r > 0 {
                assert(h1.rank_value(s1[r - 1]) == h0.rank_value(s1[r - 1]));
            }
            assert(rest_position(s1, h0, length as int, r as int));
            if sorted_by(s0, h0) {
                assert(sorted_except(s1, h0, length as int));
                lemma_reposition_sorts(s1, h0, length as int, r as int);
            }
        }
        r
    }

    /// Climbs the member at `index` past strictly lower predecessors.
    fn move_up_by_rank_value<S: RankValueHolder<T>>(
        &mut self,
        record: &T,
        index: u32,
        rank_value_holder: &mut S,
    ) -> (r: u32)
        requires
            old(self).wf(),
            index < old(self).view().len(),
            old(self).view()[index as int] == *record,
            linked(old(self).view(), *old(rank_value_holder)),
        ensures
            final(self).wf(),
            r <= index,
            final(self).view() == moved(old(self).view(), index as int, r as int),
            forall|j: int|
                r <= j < index ==> #[trigger] old(rank_value_holder).rank_value(old(self).view()[j])
                    < old(rank_value_holder).rank_value(*record),
            r == 0 || old(rank_value_holder).rank_value(old(self).view()[r - 1])
                >= old(rank_value_holder).rank_value(*record),
            linked(final(self).view(), *final(rank_value_holder)),
            holder_kept(*old(rank_value_holder), *final(rank_value_holder), old(self).view()),
    {
        let ghost s0 = self.slots@;
        let ghost h0 = *rank_value_holder;
        let current_rank_value = rank_value_holder.get_rank_value_of(record);
        let mut current_index = index;
        proof {
            assert(moved(s0, index as int, index as int) =~= s0);
        }
        while current_index > 0
            invariant_except_break
                current_index > 0 ==> self.slots@[current_index - 1] == s0[current_index - 1],
            invariant
                current_index <= index < s0.len() <= u32::MAX,
                self.slots@ == moved(s0, index as int, current_index as int),
                s0[index as int] == *record,
                current_rank_value == h0.rank_value(*record),
                forall|j: int|
                    current_index <= j < index ==> #[trigger] h0.rank_value(s0[j])
                        < current_rank_value,
                linked(self.slots@, *rank_value_holder),
                holder_kept(h0, *rank_value_holder, s0),
            ensures
                current_index == 0 || h0.rank_value(s0[current_index - 1]) >= current_rank_value,
            decreases current_index,
        {
            let previous_index = current_index - 1;
            let previous = self.slots[previous_index as usize];
            assert(previous == s0[previous_index as int]);
            let previous_rank_value = rank_value_holder.get_rank_value_of(&previous);
            if current_rank_value <= previous_rank_value {
                break;
            } else {
                self.swap((previous_index, current_index), rank_value_holder);
                proof {
                    assert(self.slots@ =~= moved(s0, index as int, previous_index as int));
                    assert forall|m: T| !s0.contains(m) implies #[trigger] rank_value_holder.rank(m)
                        == h0.rank(m) by {
                        assert(s0[previous_index as int] != m);
                        assert(s0[index as int] != m);
                    }
                }
                current_index = previous_index;
            }
        }
        current_index
    }

    /// Writes `record` at `index`, lets it climb, and only if it did not
    /// climb lets it sink; returns where it came to rest.
    pub fn insert<S: RankValueHolder<T>>(
        &mut self,
        index: u32,
        record: &T,
        rank_value_holder: &mut S,
    ) -> (r: u32)
        requires
            old(self).wf(),
            index < old(self).view().len(),
            old(rank_value_holder).holds(*record),
            old(rank_value_holder).rank(*record) == index,
            linked(old(self).view().update(index as int, *record), *old(rank_value_holder)),
        ensures
            final(self).wf(),
            final(self).view() == moved(
                old(self).view().update(index as int, *record),
                index as int,
                r as int,
            ),
            rest_position(
                old(self).view().update(index as int, *record),
                *old(rank_value_holder),
                index as int,
                r as int,
            ),
            linked(final(self).view(), *final(rank_value_holder)),
            holder_kept(
                *old(rank_value_holder),
                *final(rank_value_holder),
                final(self).view(),
            ),
            sorted_except(old(self).view(), *old(rank_value_holder), index as int) ==> sorted_by(
                final(self).view(),
                *final(rank_value_holder),
            ),
    {
        let ghost s_old = self.slots@;
        let ghost s1 = self.slots@.update(index as int, *record);
        let ghost h0 = *rank_value_holder;
        self.slots.set(index as usize, *record);
        assert(self.slots@ == s1);
        let ghost v = h0.rank_value(*record);
        let mut new_index = self.move_up_by_rank_value(record, index, rank_value_holder);
        let ghost h1 = *rank_value_holder;
        proof {
            assert(h1.rank_value(*record) == v);
            assert forall|j: int| new_index <= j < index implies #[trigger] h0.rank_value(s1[j])
                < v by {
                assert(h0.rank_value(s1[j]) == h0.rank_value(s1[j]));
            }
            if new_index > 0 {
                assert(h0.rank_value(s1[new_index - 1]) >= v);
            }
        }
        if new_index == index {
            proof {
                assert(self.slots@ =~= s1);
            }
            new_index = self.move_down_by_rank_value(record, index, rank_value_holder);
            proof {
                assert(rank_value_holder.rank_value(*record) == v);
                assert forall|j: int| index < j <= new_index implies #[trigger] h0.rank_value(s1[j])
                    > v by {
                    assert(h1.rank_value(s1[j]) == h0.rank_value(s1[j]));
                }
                if new_index + 1 < s1.len() {
                    assert(h1.rank_value(s1[new_index + 1]) == h0.rank_value(s1[new_index + 1]));
                }
                assert forall|m: T| !s1.contains(m) implies #[trigger] rank_value_holder.rank(m)
                    == h0.rank(m) by {
                    assert(h1.rank(m) == h0.rank(m));
                }
            }
        }
        proof {
            assert(rest_position(s1, h0, index as int, new_index as int));
            lemma_moved_keeps_members(s1, index as int, new_index as int);
            assert forall|m: T| !self.slots@.contains(m) implies #[trigger] rank_value_holder.rank(m)
                == h0.rank(m) by {
                assert(!s1.contains(m));
            }
            if sorted_except(s_old, h0, index as int) {
                assert(sorted_except(s1, h0, index as int));
                lemma_reposition_sorts(s1, h0, index as int, new_index as int);
            }
        }
        new_index
    }

    /// Sinks the member at `index` past strictly higher successors.
    fn move_down_by_rank_value<S: RankValueHolder<T>>(
        &mut self,
        record: &T,
        index: u32,
        rank_value_holder: &mut S,
    ) -> (r: u32)
        requires
            old(self).wf(),
            index < old(self).view().len(),
            old(self).view()[index as int] == *record,
            linked(old(self).view(), *old(rank_value_holder)),
        ensures
            final(self).wf(),
            index <= r < old(self).view().len(),
            final(self).view() == moved(old(self).view(), index as int, r as int),
            forall|j: int|
                index < j <= r ==> #[trigger] old(rank_value_holder).rank_value(old(self).view()[j])
                    > old(rank_value_holder).rank_value(*record),
            r + 1 == old(self).view().len() || old(rank_value_holder).rank_value(
                old(self).view()[r + 1],
            ) <= old(rank_value_holder).rank_value(*record),
            linked(final(self).view(), *final(rank_value_holder)),
            holder_kept(*old(rank_value_holder), *final(rank_value_holder), old(self).view()),
    {
        let ghost s0 = self.slots@;
        let ghost h0 = *rank_value_holder;
        let current_rank_value = rank_value_holder.get_rank_value_of(record);
        let mut current_index = index;
        let length = self.slots.len() as u32;
        proof {
            assert(moved(s0, index as int, index as int) =~= s0);
        }
        if length > 1 {
            while current_index < length - 1
                invariant_except_break
                    current_index + 1 < length ==> self.slots@[current_index + 1]
                        == s0[current_index + 1],
                invariant
                    index <= current_index < length,
                    length == s0.len() <= u32::MAX,
                    self.slots@ == moved(s0, index as int, current_index as int),
                    s0[index as int] == *record,
                    current_rank_value == h0.rank_value(*record),
                    forall|j: int|
                        index < j <= current_index ==> #[trigger] h0.rank_value(s0[j])
                            > current_rank_value,
                    linked(self.slots@, *rank_value_holder),
                    holder_kept(h0, *rank_value_holder, s0),
                ensures
                    current_index + 1 == length || h0.rank_value(s0[current_index + 1])
                        <= current_rank_value,
                decreases length - current_index,
            {
                let next_index = current_index + 1;
                let next = self.slots[next_index as usize];
                assert(next == s0[next_index as int]);
                let next_rank_value = rank_value_holder.get_rank_value_of(&next);
                if current_rank_value >= next_rank_value {
                    break;
                } else {
                    self.swap((next_index, current_index), rank_value_holder);
                    proof {
                        assert(self.slots@ =~= moved(s0, index as int, next_index as int));
                        assert forall|m: T| !s0.contains(m) implies #[trigger] rank_value_holder.rank(
                            m,
                        ) == h0.rank(m) by {
                            assert(s0[next_index as int] != m);
                            assert(s0[index as int] != m);
                        }
                    }
                    current_index = next_index;
                }
            }
        }
        current_index
    }

    /// Removes members from the tail, one unit of budget each, until the
    /// array is empty or the budget runs out.
    pub fn clear(&mut self, budget: &mut Budget) -> (r: MultiTxsOperationProcessingResult)
        requires
            old(self).wf(),
            old(budget).wf(),
        ensures
            final(self).wf(),
            final(budget).wf(),
            final(budget).spec_ceiling() == old(budget).spec_ceiling(),
            final(self).view() == cleared(old(self).view(), old(budget).remaining()),
            final(budget).spec_used() == old(budget).spec_used() + (old(self).view().len()
                - final(self).view().len()),
            r is Completed <==> final(self).view().len() == 0,
            r is NeedMoreGas <==> final(self).view().len() > 0,
    {
        let ghost s0 = self.slots@;
        let ghost b0 = *budget;
        while self.slots.len() > 0
            invariant
                budget.wf(),
                budget.spec_ceiling() == b0.spec_ceiling(),
                self.slots@.len() <= s0.len(),
                self.slots@ == s0.take(self.slots@.len() as int),
                budget.spec_used() == b0.spec_used() + (s0.len() - self.slots@.len()),
            ensures
                self.slots@.len() == 0 || budget.remaining() == 0,
            decreases self.slots@.len(),
        {
            if !budget.try_consume() {
                break;
            }
            self.slots.pop();
            assert(self.slots@ =~= s0.take(self.slots@.len() as int));
        }
        assert(self.slots@.len() == s0.len() - min(s0.len() as int, b0.remaining() as int));
        assert(self.slots@ == cleared(s0, b0.remaining()));
        if self.slots.len() > 0 {
            MultiTxsOperationProcessingResult::NeedMoreGas
        } else {
            MultiTxsOperationProcessingResult::Completed
        }
    }

    /// Exchanges the members at the two indices and records both new indices
    /// with the holder.
    fn swap<S: RankValueHolder<T>>(&mut self, index_pair: (u32, u32), rank_value_holder: &mut S)
        requires
            index_pair.0 < old(self).view().len(),
            index_pair.1 < old(self).view().len(),
            index_pair.0 != index_pair.1,
            old(rank_value_holder).holds(old(self).view()[index_pair.0 as int]),
            old(rank_value_holder).holds(old(self).view()[index_pair.1 as int]),
            old(self).view()[index_pair.0 as int] != old(self).view()[index_pair.1 as int],
        ensures
            final(self).view() == old(self).view().update(
                index_pair.0 as int,
                old(self).view()[index_pair.1 as int],
            ).update(index_pair.1 as int, old(self).view()[index_pair.0 as int]),
            final(rank_value_holder).rank(old(self).view()[index_pair.1 as int]) == index_pair.0,
            final(rank_value_holder).rank(old(self).view()[index_pair.0 as int]) == index_pair.1,
            final(rank_value_holder).unranked() == old(rank_value_holder).unranked(),
            forall|m: T| #[trigger] final(rank_value_holder).holds(m) == old(rank_value_holder).holds(m),
            forall|m: T| #[trigger] final(rank_value_holder).rank_value(m) == old(
                rank_value_holder,
            ).rank_value(m),
            forall|m: T|
                m != old(self).view()[index_pair.0 as int] && m != old(self).view()[index_pair.1 as int]
                    ==> #[trigger] final(rank_value_holder).rank(m) == old(rank_value_holder).rank(m),
    {
        let t0 = self.slots[index_pair.0 as usize];
        let t1 = self.slots[index_pair.1 as usize];
        self.slots.as_mut_slice().swap(index_pair.0 as usize, index_pair.1 as usize);
        rank_value_holder.update_rank_of(&t1, index_pair.0);
        rank_value_holder.update_rank_of(&t0, index_pair.1);
    }
}

/// What is left of `s` once a clear with `budget` units removed members
/// from the tail.
pub open spec fn cleared<T>(s: Seq<T>, budget: nat) -> Seq<T> {
    s.take(s.len() - min(s.len() as int, budget as int))
}

/// A clear that runs out of budget and is invoked again ends where one
/// invocation with both budgets together ends; enough budget in all leaves
/// the array empty.
pub proof fn lemma_clear_resumable<T>(s: Seq<T>, a: nat, b: nat)
    ensures
        cleared(cleared(s, a), b) == cleared(s, a + b),
        a + b >= s.len() ==> cleared(s, a + b).len() == 0,
{
    assert(cleared(cleared(s, a), b) =~= cleared(s, a + b));
}

/// Exclusive end of the slice that starts at `start` and holds at most
/// `quantity` members, or all the rest.
pub open spec fn slice_end(len: nat, start: int, quantity: Option<u32>) -> int {
    match quantity {
        Some(q) => if start + q < len {
            start + q
        } else {
            len as int
        },
        None => len as int,
    }
}

} // verus!
