//! Per-validator stake, summed over the appchains that report it, and the
//! registry of all validators, which supplies rank values to the ranked array.
use vstd::prelude::*;
use crate::ranked_lookup_array::RankValueHolder;
use crate::types::{ValidatorStake, ValidatorStakeRecord};

verus! {

/// Sum of the stakes in a list of (appchain id, stake) entries.
pub open spec fn sum_of_stakes(s: Seq<(String, u128)>) -> nat
    decreases s.len(),
{
    if s.len() == 0 {
        0
    } else {
        sum_of_stakes(s.drop_last()) + s.last().1 as nat
    }
}

/// No appchain id occurs twice.
pub open spec fn keys_distinct(s: Seq<(String, u128)>) -> bool {
    forall|i: int, j: int| 0 <= i < j < s.len() ==> s[i].0@ != s[j].0@
}

/// The stake listed for `key`, or zero where it is not listed.
pub open spec fn stake_for(s: Seq<(String, u128)>, key: Seq<char>) -> u128 {
    if exists|k: int| 0 <= k < s.len() && s[k].0@ == key {
        s[choose|k: int| 0 <= k < s.len() && s[k].0@ == key].1
    } else {
        0
    }
}

/// The entries once `appchain` reports `amount`: an existing entry of that
/// appchain takes the new amount, a new appchain with a non-zero amount is
/// appended, anything else is left as it is.
pub open spec fn with_stake(s: Seq<(String, u128)>, appchain: String, amount: u128) -> Seq<(String, u128)> {
    if exists|k: int| 0 <= k < s.len() && s[k].0@ == appchain@ {
        let k = choose|k: int| 0 <= k < s.len() && s[k].0@ == appchain@;
        if s[k].1 == amount {
            s
        } else {
            s.update(k, (appchain, amount))
        }
    } else if amount == 0 {
        s
    } else {
        s.push((appchain, amount))
    }
}

proof fn lemma_stake_for_at(s: Seq<(String, u128)>, k: int)
    requires
        keys_distinct(s),
        0 <= k < s.len(),
    ensures
        stake_for(s, s[k].0@) == s[k].1,
{
    let key = s[k].0@;
    let c = choose|c: int| 0 <= c < s.len() && s[c].0@ == key;
    assert(c == k) by {
        if c < k {
        } else if c > k {
        }
    }
}

proof fn lemma_sum_update(s: Seq<(String, u128)>, k: int, e: (String, u128))
    requires
        0 <= k < s.len(),
    ensures
        sum_of_stakes(s.update(k, e)) == sum_of_stakes(s) - s[k].1 + e.1,
    decreases s.len(),
{
    let t = s.update(k, e);
    if k == s.len() - 1 {
        assert(t.drop_last() =~= s.drop_last());
    } else {
        lemma_sum_update(s.drop_last(), k, e);
        assert(t.drop_last() =~= s.drop_last().update(k, e));
    }
}

/// A listed stake never exceeds the sum of all of them.
pub proof fn lemma_stake_bounded_by_total(e: InternalValidatorStake, appchain: Seq<char>)
    requires
        e.wf(),
    ensures
        e.stake_in(appchain) <= e.total(),
{
    let s = e.stakes();
    if exists|k: int| 0 <= k < s.len() && s[k].0@ == appchain {
        let k = choose|k: int| 0 <= k < s.len() && s[k].0@ == appchain;
        lemma_sum_update(s, k, (s[k].0, 0u128));
    }
}

/// A validator's stake in each appchain, their sum, and its index in the
/// ranked array (`u32::MAX` until it is first ranked).
pub struct InternalValidatorStake {
    validator_id: String,
    stake_in_appchains: Vec<(String, u128)>,
    total_stake: u128,
    overall_rank: u32,
}

impl InternalValidatorStake {
    pub open spec fn id(&self) -> Seq<char> {
        self.id_string()@
    }

    pub closed spec fn id_string(&self) -> String {
        self.validator_id
    }

    /// The (appchain id, stake) entries, in the order the appchains first
    /// reported.
    pub closed spec fn stakes(&self) -> Seq<(String, u128)> {
        self.stake_in_appchains@
    }

    pub closed spec fn total(&self) -> u128 {
        self.total_stake
    }

    pub closed spec fn rank(&self) -> u32 {
        self.overall_rank
    }

    pub open spec fn stake_in(&self, appchain: Seq<char>) -> u128 {
        stake_for(self.stakes(), appchain)
    }

    pub open spec fn wf(&self) -> bool {
        &&& keys_distinct(self.stakes())
        &&& self.total() == sum_of_stakes(self.stakes())
    }

    pub fn new(validator_id: &String) -> (r: Self)
        ensures
            r.wf(),
            r.id() == validator_id@,
            r.id_string() == *validator_id,
            r.stakes() == Seq::<(String, u128)>::empty(),
            r.total() == 0,
            r.rank() == u32::MAX,
    {
        InternalValidatorStake {
            validator_id: validator_id.clone(),
            stake_in_appchains: Vec::new(),
            total_stake: 0,
            overall_rank: u32::MAX,
        }
    }

    pub fn validator_id(&self) -> (r: &String)
        ensures
            *r == self.id_string(),
            r@ == self.id(),
    {
        &self.validator_id
    }

    pub fn total_stake(&self) -> (r: u128)
        ensures
            r == self.total(),
    {
        self.total_stake
    }

    pub fn overall_rank(&self) -> (r: u32)
        ensures
            r == self.rank(),
    {
        self.overall_rank
    }

    fn find_appchain(&self, appchain_id: &String) -> (r: Option<usize>)
        ensures
            r matches Some(k) ==> k < self.stakes().len() && self.stakes()[k as int].0@
                == appchain_id@,
            r is None ==> forall|k: int|
                0 <= k < self.stakes().len() ==> self.stakes()[k].0@ != appchain_id@,
    {
        let mut k: usize = 0;
        while k < self.stake_in_appchains.len()
            invariant
                k <= self.stake_in_appchains@.len(),
                forall|j: int| 0 <= j < k ==> self.stake_in_appchains@[j].0@ != appchain_id@,
            decreases self.stake_in_appchains@.len() - k,
        {
            if self.stake_in_appchains[k].0 == *appchain_id {
                return Some(k);
            }
            k = k + 1;
        }
        None
    }

    /// The stake reported from `appchain_id`, zero if it never reported.
    pub fn stake_in_appchain(&self, appchain_id: &String) -> (r: u128)
        requires
            self.wf(),
        ensures
            r == self.stake_in(appchain_id@),
    {
        match self.find_appchain(appchain_id) {
            Some(k) => {
                proof {
                    lemma_stake_for_at(self.stakes(), k as int);
                }
                self.stake_in_appchains[k].1
            },
            None => 0,
        }
    }

    /// Records the stake that `appchain_id` reports; returns whether it
    /// differs from the one recorded before (only then is anything changed).
    pub fn update_stake_record(&mut self, appchain_id: &String, stake_record: &ValidatorStakeRecord) -> (r:
        bool)
        requires
            old(self).wf(),
            stake_record.validator_id@ == old(self).id(),
            old(self).total() - old(self).stake_in(appchain_id@) + stake_record.total_stake
                <= u128::MAX,
        ensures
            final(self).wf(),
            r == (stake_record.total_stake != old(self).stake_in(appchain_id@)),
            !r ==> *final(self) == *old(self),
            final(self).id() == old(self).id(),
            final(self).id_string() == old(self).id_string(),
            final(self).rank() == old(self).rank(),
            forall|a: Seq<char>|
                #[trigger] final(self).stake_in(a) == if a == appchain_id@ {
                    stake_record.total_stake
                } else {
                    old(self).stake_in(a)
                },
            final(self).total() == old(self).total() - old(self).stake_in(appchain_id@)
                + stake_record.total_stake,
            final(self).stakes() == with_stake(old(self).stakes(), *appchain_id, stake_record.total_stake),
    {
        let ghost s0 = self.stakes();
        let amount = stake_record.total_stake;
        match self.find_appchain(appchain_id) {
            Some(k) => {
                proof {
                    lemma_stake_for_at(s0, k as int);
                    let c = choose|c: int| 0 <= c < s0.len() && s0[c].0@ == appchain_id@;
                    assert(c == k as int) by {
                        if c < k {
                        } else if c > k {
                        }
                    }
                }
                let old_value = self.stake_in_appchains[k].1;
                if amount == old_value {
                    return false;
                }
                let entry = (appchain_id.clone(), amount);
                self.stake_in_appchains.set(k, entry);
                proof {
                    lemma_sum_update(s0, k as int, entry);
                    lemma_sum_update(s0, k as int, (s0[k as int].0, 0u128));
                }
                self.total_stake = self.total_stake - old_value + amount;
                proof {
                    let s1 = self.stakes();
                    assert(keys_distinct(s1));
                    assert forall|a: Seq<char>|
                        #[trigger] stake_for(s1, a) == if a == appchain_id@ {
                            amount
                        } else {
                            stake_for(s0, a)
                        } by {
                        if a == appchain_id@ {
                            lemma_stake_for_at(s1, k as int);
                        } else if exists|j: int| 0 <= j < s0.len() && s0[j].0@ == a {
                            let j = choose|j: int| 0 <= j < s0.len() && s0[j].0@ == a;
                            lemma_stake_for_at(s0, j);
                            lemma_stake_for_at(s1, j);
                        } else {
                            assert forall|j: int| 0 <= j < s1.len() implies s1[j].0@ != a by {
                                if j != k {
                                    assert(s1[j] == s0[j]);
                                }
                            }
                        }
                    }
                }
                true
            },
            None => {
                if amount == 0 {
                    return false;
                }
                let entry = (appchain_id.clone(), amount);
                self.stake_in_appchains.push(entry);
                self.total_stake = self.total_stake + amount;
                proof {
                    let s1 = self.stakes();
                    assert(s1.drop_last() =~= s0);
                    assert(keys_distinct(s1));
                    let n = s0.len() as int;
                    assert forall|a: Seq<char>|
                        #[trigger] stake_for(s1, a) == if a == appchain_id@ {
                            amount
                        } else {
                            stake_for(s0, a)
                        } by {
                        if a == appchain_id@ {
                            lemma_stake_for_at(s1, n);
                        } else if exists|j: int| 0 <= j < s0.len() && s0[j].0@ == a {
                            let j = choose|j: int| 0 <= j < s0.len() && s0[j].0@ == a;
                            lemma_stake_for_at(s0, j);
                            lemma_stake_for_at(s1, j);
                        } else {
                            assert forall|j: int| 0 <= j < s1.len() implies s1[j].0@ != a by {
                                if j < n {
                                    assert(s1[j] == s0[j]);
                                }
                            }
                        }
                    }
                }
                true
            },
        }
    }

    /// The validator's stake as a plain record.
    pub fn to_json_type(&self) -> (r: ValidatorStake)
        ensures
            r.validator_id == self.id_string(),
            r.stake_in_appchains@ == self.stakes(),
            r.total_stake == self.total(),
            r.overall_rank == self.rank(),
    {
        let mut stake_in_appchains: Vec<(String, u128)> = Vec::new();
        let mut k: usize = 0;
        while k < self.stake_in_appchains.len()
            invariant
                k <= self.stake_in_appchains@.len(),
                stake_in_appchains@ == self.stake_in_appchains@.take(k as int),
            decreases self.stake_in_appchains@.len() - k,
        {
            let entry = &self.stake_in_appchains[k];
            stake_in_appchains.push((entry.0.clone(), entry.1));
            assert(stake_in_appchains@ =~= self.stake_in_appchains@.take(k + 1));
            k = k + 1;
        }
        assert(stake_in_appchains@ =~= self.stake_in_appchains@);
        ValidatorStake {
            validator_id: self.validator_id.clone(),
            stake_in_appchains,
            total_stake: self.total_stake,
            overall_rank: self.overall_rank,
        }
    }
}

/// A plain stake record is consistent: no appchain twice, and the total is
/// the sum.
pub open spec fn stake_record_valid(entries: Seq<(String, u128)>, total: u128) -> bool {
    keys_distinct(entries) && total == sum_of_stakes(entries)
}

impl InternalValidatorStake {
    /// Rebuilds an entry from its plain record, where that is consistent.
    pub fn from_json_type(stake: ValidatorStake) -> (r: Option<Self>)
        ensures
            r is Some <==> stake_record_valid(stake.stake_in_appchains@, stake.total_stake),
            r matches Some(e) ==> {
                &&& e.wf()
                &&& e.id_string() == stake.validator_id
                &&& e.stakes() == stake.stake_in_appchains@
                &&& e.total() == stake.total_stake
                &&& e.rank() == stake.overall_rank
            },
    {
        let entries = &stake.stake_in_appchains;
        let mut i: usize = 0;
        while i < entries.len()
            invariant
                entries@ == stake.stake_in_appchains@,
                i <= entries@.len(),
                forall|a: int, b: int| 0 <= a < b < i ==> entries@[a].0@ != entries@[b].0@,
            decreases entries@.len() - i,
        {
            let mut j: usize = 0;
            while j < i
                invariant
                    entries@ == stake.stake_in_appchains@,
                    j <= i < entries@.len(),
                    forall|a: int| 0 <= a < j ==> entries@[a].0@ != entries@[i as int].0@,
                decreases i - j,
            {
                if entries[j].0 == entries[i].0 {
                    assert(entries@[j as int].0@ == entries@[i as int].0@);
                    assert(!keys_distinct(stake.stake_in_appchains@));
                    return None;
                }
                j = j + 1;
            }
            i = i + 1;
        }
        let mut sum: u128 = 0;
        let mut k: usize = 0;
        while k < entries.len()
            invariant
                entries@ == stake.stake_in_appchains@,
                k <= entries@.len(),
                sum == sum_of_stakes(entries@.take(k as int)),
            decreases entries@.len() - k,
        {
            assert(entries@.take(k + 1).drop_last() =~= entries@.take(k as int));
            if entries[k].1 > u128::MAX - sum {
                proof {
                    assert(entries@.take(k + 1).last() == entries@[k as int]);
                    assert(sum_of_stakes(entries@.take(k + 1)) == sum + entries@[k as int].1);
                    lemma_sum_prefix_bounded(entries@, k + 1);
                }
                return None;
            }
            sum = sum + entries[k].1;
            k = k + 1;
        }
        assert(entries@.take(entries@.len() as int) =~= entries@);
        if sum != stake.total_stake {
            return None;
        }
        Some(InternalValidatorStake {
            validator_id: stake.validator_id,
            stake_in_appchains: stake.stake_in_appchains,
            total_stake: stake.total_stake,
            overall_rank: stake.overall_rank,
        })
    }
}

proof fn lemma_sum_prefix_bounded(s: Seq<(String, u128)>, k: int)
    requires
        0 <= k <= s.len(),
    ensures
        sum_of_stakes(s.take(k)) <= sum_of_stakes(s),
    decreases s.len(),
{
    if k < s.len() {
        assert(s.drop_last().take(k) =~= s.take(k));
        lemma_sum_prefix_bounded(s.drop_last(), k);
    } else {
        assert(s.take(k) =~= s);
    }
}

/// What a validator's entry holds besides its rank.
pub open spec fn unranked_part(e: InternalValidatorStake) -> (String, Seq<(String, u128)>, u128) {
    (e.id_string(), e.stakes(), e.total())
}

/// All validators, each addressed by the index at which it was registered.
pub struct ValidatorStakes {
    entries: Vec<InternalValidatorStake>,
}

impl ValidatorStakes {
    pub closed spec fn view(&self) -> Seq<InternalValidatorStake> {
        self.entries@
    }

    /// Every entry is consistent and no validator id occurs twice.
    pub open spec fn wf(&self) -> bool {
        &&& self.view().len() < u32::MAX
        &&& forall|h: int| 0 <= h < self.view().len() ==> #[trigger] self.view()[h].wf()
        &&& forall|h: int, g: int|
            0 <= h < g < self.view().len() ==> #[trigger] self.view()[h].id()
                != #[trigger] self.view()[g].id()
    }

    pub fn new() -> (r: Self)
        ensures
            r.wf(),
            r.view() == Seq::<InternalValidatorStake>::empty(),
    {
        ValidatorStakes { entries: Vec::new() }
    }

    pub fn from_entries(entries: Vec<InternalValidatorStake>) -> (r: Self)
        requires
            entries@.len() < u32::MAX,
            forall|h: int| 0 <= h < entries@.len() ==> #[trigger] entries@[h].wf(),
            forall|h: int, g: int| 0 <= h < g < entries@.len() ==> #[trigger] entries@[h].id() != #[trigger] entries@[g].id(),
        ensures
            r.wf(),
            r.view() == entries@,
    {
        ValidatorStakes { entries }
    }

    pub fn len(&self) -> (r: u32)
        requires
            self.wf(),
        ensures
            r == self.view().len(),
    {
        self.entries.len() as u32
    }

    pub fn entry(&self, handle: u32) -> (r: &InternalValidatorStake)
        requires
            handle < self.view().len(),
        ensures
            *r == self.view()[handle as int],
    {
        &self.entries[handle as usize]
    }

    /// The index under which `validator_id` is registered.
    pub fn find(&self, validator_id: &String) -> (r: Option<u32>)
        requires
            self.wf(),
        ensures
            r matches Some(h) ==> h < self.view().len() && self.view()[h as int].id()
                == validator_id@,
            r is None ==> forall|h: int|
                0 <= h < self.view().len() ==> #[trigger] self.view()[h].id() != validator_id@,
    {
        let mut h: usize = 0;
        while h < self.entries.len()
            invariant
                h <= self.entries@.len() < u32::MAX,
                forall|g: int| 0 <= g < h ==> #[trigger] self.entries@[g].id() != validator_id@,
            decreases self.entries@.len() - h,
        {
            if *self.entries[h].validator_id() == *validator_id {
                return Some(h as u32);
            }
            h = h + 1;
        }
        None
    }

    /// Registers a validator that is not registered yet.
    pub fn push(&mut self, entry: InternalValidatorStake) -> (r: u32)
        requires
            old(self).wf(),
            old(self).view().len() + 1 < u32::MAX,
            entry.wf(),
            forall|h: int| 0 <= h < old(self).view().len() ==> #[trigger] old(self).view()[h].id() != entry.id(),
        ensures
            final(self).wf(),
            r == old(self).view().len(),
            final(self).view() == old(self).view().push(entry),
    {
        let r = self.entries.len() as u32;
        self.entries.push(entry);
        r
    }

    /// Records the stake that `appchain_id` reports for the validator at
    /// `handle`; returns whether it changed.
    pub fn update_stake_record(
        &mut self,
        handle: u32,
        appchain_id: &String,
        stake_record: &ValidatorStakeRecord,
    ) -> (r: bool)
        requires
            old(self).wf(),
            handle < old(self).view().len(),
            stake_record.validator_id@ == old(self).view()[handle as int].id(),
            old(self).view()[handle as int].total() - old(self).view()[handle as int].stake_in(
                appchain_id@,
            ) + stake_record.total_stake <= u128::MAX,
        ensures
            final(self).wf(),
            final(self).view().len() == old(self).view().len(),
            forall|g: int|
                0 <= g < old(self).view().len() && g != handle ==> #[trigger] final(self).view()[g]
                    == old(self).view()[g],
            r == (stake_record.total_stake != old(self).view()[handle as int].stake_in(
                appchain_id@,
            )),
            !r ==> final(self).view() == old(self).view(),
            final(self).view()[handle as int].id() == old(self).view()[handle as int].id(),
            final(self).view()[handle as int].id_string() == old(self).view()[handle as int].id_string(),
            final(self).view()[handle as int].rank() == old(self).view()[handle as int].rank(),
            forall|a: Seq<char>|
                #[trigger] final(self).view()[handle as int].stake_in(a) == if a == appchain_id@ {
                    stake_record.total_stake
                } else {
                    old(self).view()[handle as int].stake_in(a)
                },
            final(self).view()[handle as int].total() == old(self).view()[handle as int].total()
                - old(self).view()[handle as int].stake_in(appchain_id@) + stake_record.total_stake,
    {
        let ghost v0 = self.entries@;
        let r = self.entries[handle as usize].update_stake_record(appchain_id, stake_record);
        proof {
            if !r {
                assert(self.entries@ =~= v0);
            }
            assert forall|h: int, g: int|
                0 <= h < g < self.entries@.len() implies #[trigger] self.entries@[h].id()
                    != #[trigger] self.entries@[g].id() by {
                assert(v0[h].id() != v0[g].id());
            }
        }
        r
    }
}

impl RankValueHolder<u32> for ValidatorStakes {
    type Unranked = Seq<(String, Seq<(String, u128)>, u128)>;

    open spec fn unranked(&self) -> Seq<(String, Seq<(String, u128)>, u128)> {
        self.view().map_values(|e: InternalValidatorStake| unranked_part(e))
    }

    open spec fn holds(&self, member: u32) -> bool {
        member < self.view().len()
    }

    open spec fn rank_value(&self, member: u32) -> u128 {
        if member < self.view().len() {
            self.view()[member as int].total()
        } else {
            0
        }
    }

    open spec fn rank(&self, member: u32) -> u32 {
        if member < self.view().len() {
            self.view()[member as int].rank()
        } else {
            u32::MAX
        }
    }

    fn get_rank_value_of(&self, member: &u32) -> (r: u128) {
        self.entries[*member as usize].total_stake()
    }

    fn update_rank_of(&mut self, member: &u32, new_rank: u32) {
        let ghost v0 = self.entries@;
        self.entries[*member as usize].overall_rank = new_rank;
        proof {
            assert(self.unranked() =~= v0.map_values(|e: InternalValidatorStake| unranked_part(e)));
        }
    }
}

} // verus!
