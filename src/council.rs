//! The council keeper: the stake registry, the ranked array of validators,
//! the current council, and the change ledger, in one explicitly owned state.
use vstd::prelude::*;
use vstd::string::*;
use crate::account_ids::{count_dots, dot_count, split_once_at_dot, split_once_spec};
use crate::change_histories::{action_view, ledger_extends, ChangeActionView, ChangeHistories};
use crate::batch::{Budget, MultiTxsOperationProcessingResult};
use crate::ranked_lookup_array::{
    lemma_moved_keeps_members, lemma_rest_position_unique, lemma_rest_position_values, linked, moved,
    rest_position, RankValueHolder, RankedLookupArray,
};
use vstd::math::min;
use vstd::set_lib::{lemma_int_range, lemma_len_subset, set_int_range};
use crate::json::{json_u64_of, parse_u64_json};
use crate::types::{
    ApplyOutcome, DaoRequest, PromiseOutcome, ProposalKind, CouncilChangeAction, CouncilChangeHistory, CouncilChangeHistoryState, CouncilError, ValidatorStake,
    ValidatorStakeRecord,
};
use crate::validator_stakes::{stake_record_valid, InternalValidatorStake, ValidatorStakes};

verus! {

pub const VERSION: &'static str = "v0.4.0";

/// The character sequences of a list of strings.
pub open spec fn ids_view(v: Seq<String>) -> Seq<Seq<char>> {
    v.map_values(|s: String| s@)
}

/// Whether `id` is among `v`, compared by characters.
fn contains_id(v: &Vec<String>, id: &String) -> (r: bool)
    ensures
        r == ids_view(v@).contains(id@),
{
    match position_of(v, id) {
        Some(k) => {
            assert(ids_view(v@)[k as int] == id@);
            true
        },
        None => false,
    }
}

/// Where `id` first occurs among `v`, compared by characters.
fn position_of(v: &Vec<String>, id: &String) -> (r: Option<usize>)
    ensures
        r matches Some(k) ==> k < v@.len() && v@[k as int]@ == id@ && forall|j: int|
            0 <= j < k ==> v@[j]@ != id@,
        r is None ==> !ids_view(v@).contains(id@),
{
    let mut k: usize = 0;
    while k < v.len()
        invariant
            k <= v@.len(),
            forall|j: int| 0 <= j < k ==> v@[j]@ != id@,
        decreases v@.len() - k,
    {
        if v[k] == *id {
            return Some(k);
        }
        k = k + 1;
    }
    proof {
        if ids_view(v@).contains(id@) {
            let j = choose|j: int| 0 <= j < ids_view(v@).len() && ids_view(v@)[j] == id@;
            assert(v@[j]@ == id@);
        }
    }
    None
}

/// A copy of a list of strings.
fn copy_strings(v: &Vec<String>) -> (r: Vec<String>)
    ensures
        r@ == v@,
{
    let mut r: Vec<String> = Vec::new();
    let mut k: usize = 0;
    while k < v.len()
        invariant
            k <= v@.len(),
            r@ == v@.take(k as int),
        decreases v@.len() - k,
    {
        r.push(v[k].clone());
        assert(r@ =~= v@.take(k + 1));
        k = k + 1;
    }
    assert(r@ =~= v@);
    r
}

pub struct CouncilKeeper {
    owner: String,
    appchain_registry_account: String,
    dao_contract_account: String,
    living_appchain_ids: Vec<String>,
    validator_stakes: ValidatorStakes,
    ranked_validators: RankedLookupArray<u32>,
    max_number_of_council_members: u32,
    latest_members: Vec<String>,
    excluding_validator_accounts: Vec<String>,
    change_histories: ChangeHistories,
    validators_waiting_to_update_rank: Vec<u32>,
}

impl CouncilKeeper {
    pub closed spec fn owner_id(&self) -> Seq<char> {
        self.owner@
    }

    pub closed spec fn registry_account(&self) -> Seq<char> {
        self.appchain_registry_account@
    }

    pub closed spec fn dao_account(&self) -> Seq<char> {
        self.dao_contract_account@
    }

    /// Appchains whose anchors have reported stakes, in order of first report.
    pub closed spec fn living_ids(&self) -> Seq<Seq<char>> {
        ids_view(self.living_appchain_ids@)
    }

    /// The registry; a validator's handle is its index there.
    pub closed spec fn stakes(&self) -> ValidatorStakes {
        self.validator_stakes
    }

    /// Handles of the ranked validators, by rank.
    pub closed spec fn ranked(&self) -> Seq<u32> {
        self.ranked_validators.view()
    }

    pub closed spec fn max_members(&self) -> u32 {
        self.max_number_of_council_members
    }

    /// The current council.
    pub closed spec fn members(&self) -> Seq<Seq<char>> {
        ids_view(self.latest_members@)
    }

    pub closed spec fn excluded(&self) -> Seq<Seq<char>> {
        ids_view(self.excluding_validator_accounts@)
    }

    pub closed spec fn ledger(&self) -> ChangeHistories {
        self.change_histories
    }

    /// Handles of validators whose stake changed since they were last ranked.
    pub closed spec fn pending(&self) -> Seq<u32> {
        self.validators_waiting_to_update_rank@
    }

    /// Validator ids by rank.
    pub open spec fn ranked_ids(&self) -> Seq<Seq<char>> {
        self.ranked().map_values(|h: u32| self.stakes().view()[h as int].id())
    }

    pub open spec fn wf(&self) -> bool {
        &&& self.stakes().wf()
        &&& self.ranked().len() <= u32::MAX
        &&& linked(self.ranked(), self.stakes())
        &&& forall|h: u32|
            #![trigger self.stakes().view()[h as int].rank()]
            #![trigger self.ranked().contains(h)]
            h < self.stakes().view().len() && !self.ranked().contains(h) ==> {
                &&& self.stakes().view()[h as int].rank() == u32::MAX
                &&& self.pending().contains(h)
            }
        &&& self.pending().no_duplicates()
        &&& forall|k: int|
            0 <= k < self.pending().len() ==> #[trigger] self.pending()[k] < self.stakes().view().len()
        &&& self.living_ids().no_duplicates()
        &&& self.members().no_duplicates()
        &&& self.excluded().no_duplicates()
        &&& self.ledger().wf()
    }

    /// A keeper deployed as `<name>.<registry>` with at least two
    /// separators; the registry account is everything after the first one.
    pub fn new(current_account_id: &String, max_number_of_council_members: u32, dao_contract_account: String) -> (r: Result<Self, CouncilError>)
        ensures
            dot_count(current_account_id@) < 2 <==> r is Err,
            r matches Err(e) ==> e == CouncilError::NotUnderRegistry,
            r matches Ok(k) ==> {
                &&& k.wf()
                &&& k.owner_id() == current_account_id@
                &&& split_once_spec(current_account_id@) matches Some((_, registry))
                    && k.registry_account() == registry
                &&& k.dao_account() == dao_contract_account@
                &&& k.max_members() == max_number_of_council_members
                &&& k.living_ids().len() == 0
                &&& k.stakes().view().len() == 0
                &&& k.ranked().len() == 0
                &&& k.members().len() == 0
                &&& k.excluded().len() == 0
                &&& k.pending().len() == 0
                &&& k.ledger().start() == 0
                &&& k.ledger().records().len() == 0
            },
    {
        if count_dots(current_account_id) < 2 {
            return Err(CouncilError::NotUnderRegistry);
        }
        let registry = match split_once_at_dot(current_account_id) {
            Some((_, second)) => second,
            None => {
                proof {
                    lemma_no_dot_count(current_account_id@);
                }
                return Err(CouncilError::NotUnderRegistry);
            },
        };
        let keeper = CouncilKeeper {
            owner: current_account_id.clone(),
            appchain_registry_account: registry,
            dao_contract_account,
            living_appchain_ids: Vec::new(),
            validator_stakes: ValidatorStakes::new(),
            ranked_validators: RankedLookupArray::new(),
            max_number_of_council_members,
            latest_members: Vec::new(),
            excluding_validator_accounts: Vec::new(),
            change_histories: ChangeHistories::new(),
            validators_waiting_to_update_rank: Vec::new(),
        };
        proof {
            assert(keeper.living_ids() =~= Seq::<Seq<char>>::empty());
            assert(keeper.members() =~= Seq::<Seq<char>>::empty());
            assert(keeper.excluded() =~= Seq::<Seq<char>>::empty());
        }
        Ok(keeper)
    }

    pub fn version(&self) -> (r: String)
        ensures
            r@ == VERSION@,
    {
        String::from_str(VERSION)
    }

    pub fn get_living_appchain_ids(&self) -> (r: Vec<String>)
        ensures
            ids_view(r@) == self.living_ids(),
    {
        copy_strings(&self.living_appchain_ids)
    }

    pub fn get_max_number_of_council_members(&self) -> (r: u32)
        ensures
            r == self.max_members(),
    {
        self.max_number_of_council_members
    }

    pub fn get_excluding_validator_accounts(&self) -> (r: Vec<String>)
        ensures
            ids_view(r@) == self.excluded(),
    {
        copy_strings(&self.excluding_validator_accounts)
    }

    pub fn get_council_members(&self) -> (r: Vec<String>)
        ensures
            ids_view(r@) == self.members(),
    {
        copy_strings(&self.latest_members)
    }

    /// The stake of the validator with id `account_id`, if it is registered.
    pub fn get_validator_stake_of(&self, account_id: &String) -> (r: Option<ValidatorStake>)
        requires
            self.wf(),
        ensures
            r is None <==> forall|h: int|
                0 <= h < self.stakes().view().len() ==> #[trigger] self.stakes().view()[h].id()
                    != account_id@,
            r matches Some(s) ==> exists|h: int|
                0 <= h < self.stakes().view().len() && #[trigger] self.stakes().view()[h].id()
                    == account_id@ && s.validator_id == self.stakes().view()[h].id_string()
                    && s.stake_in_appchains@ == self.stakes().view()[h].stakes() && s.total_stake
                    == self.stakes().view()[h].total() && s.overall_rank
                    == self.stakes().view()[h].rank(),
    {
        match self.validator_stakes.find(account_id) {
            Some(h) => Some(self.validator_stakes.entry(h).to_json_type()),
            None => None,
        }
    }

    /// Stakes of the ranked validators from rank `start_index` on, at most
    /// `quantity` of them.
    pub fn get_ranked_validator_stakes(&self, start_index: u32, quantity: Option<u32>) -> (r: Vec<ValidatorStake>)
        requires
            self.wf(),
            self.ranked().len() == 0 || start_index < self.ranked().len(),
        ensures
            self.ranked().len() == 0 ==> r@.len() == 0,
            self.ranked().len() > 0 ==> r@.len() == crate::ranked_lookup_array::slice_end(
                self.ranked().len(),
                start_index as int,
                quantity,
            ) - start_index,
            forall|k: int|
                0 <= k < r@.len() ==> {
                    let e = #[trigger] self.stakes().view()[self.ranked()[start_index + k] as int];
                    &&& r@[k].validator_id == e.id_string()
                    &&& r@[k].stake_in_appchains@ == e.stakes()
                    &&& r@[k].total_stake == e.total()
                    &&& r@[k].overall_rank == e.rank()
                },
    {
        let mut results: Vec<ValidatorStake> = Vec::new();
        if self.ranked_validators.len() == 0 {
            return results;
        }
        let handles = self.ranked_validators.get_slice_of(start_index, quantity);
        let mut k: usize = 0;
        while k < handles.len()
            invariant
                self.wf(),
                start_index < self.ranked().len(),
                handles@ == self.ranked().subrange(
                    start_index as int,
                    crate::ranked_lookup_array::slice_end(self.ranked().len(), start_index as int, quantity),
                ),
                k <= handles@.len(),
                results@.len() == k,
                forall|j: int|
                    0 <= j < k ==> {
                        let e = #[trigger] self.stakes().view()[self.ranked()[start_index + j] as int];
                        &&& results@[j].validator_id == e.id_string()
                        &&& results@[j].stake_in_appchains@ == e.stakes()
                        &&& results@[j].total_stake == e.total()
                        &&& results@[j].overall_rank == e.rank()
                    },
            decreases handles@.len() - k,
        {
            let h = handles[k];
            assert(self.stakes().holds(self.ranked()[start_index + k]));
            results.push(self.validator_stakes.entry(h).to_json_type());
            k = k + 1;
        }
        results
    }

    /// Copies of the ledger's records from index `start_index` on, at most
    /// `quantity` of them.
    pub fn get_council_change_histories(&self, start_index: u64, quantity: Option<u64>) -> (r: Vec<CouncilChangeHistory>)
        requires
            self.wf(),
        ensures
            r@ == self.ledger().records().subrange(
                crate::change_histories::history_slice_from(self.ledger().start(), self.ledger().end(), start_index) - self.ledger().start(),
                crate::change_histories::history_slice_to(self.ledger().start(), self.ledger().end(), start_index, quantity) - self.ledger().start(),
            ),
    {
        self.change_histories.get_slice_of(start_index, quantity)
    }
}


impl CouncilKeeper {
    /// Everything but the ranking (ranked array, back-references and pending
    /// list) is the same in both.
    pub open spec fn same_but_ranking(&self, other: &Self) -> bool {
        &&& self.owner_id() == other.owner_id()
        &&& self.registry_account() == other.registry_account()
        &&& self.dao_account() == other.dao_account()
        &&& self.living_ids() == other.living_ids()
        &&& self.stakes().unranked() == other.stakes().unranked()
        &&& self.max_members() == other.max_members()
        &&& self.members() == other.members()
        &&& self.excluded() == other.excluded()
        &&& self.ledger() == other.ledger()
    }

    /// Everything but the council and the ledger is the same in both.
    pub open spec fn same_but_council(&self, other: &Self) -> bool {
        &&& self.owner_id() == other.owner_id()
        &&& self.registry_account() == other.registry_account()
        &&& self.dao_account() == other.dao_account()
        &&& self.living_ids() == other.living_ids()
        &&& self.stakes() == other.stakes()
        &&& self.ranked() == other.ranked()
        &&& self.pending() == other.pending()
        &&& self.max_members() == other.max_members()
        &&& self.excluded() == other.excluded()
    }

    /// Everything but the living appchains is the same in both.
    pub open spec fn same_but_living(&self, other: &Self) -> bool {
        &&& self.owner_id() == other.owner_id()
        &&& self.registry_account() == other.registry_account()
        &&& self.dao_account() == other.dao_account()
        &&& self.stakes() == other.stakes()
        &&& self.ranked() == other.ranked()
        &&& self.pending() == other.pending()
        &&& self.max_members() == other.max_members()
        &&& self.members() == other.members()
        &&& self.excluded() == other.excluded()
        &&& self.ledger() == other.ledger()
    }

    /// Repositions the validator at `handle` from the index it records,
    /// appending it first if it was never ranked; returns where it came to
    /// rest. A recorded index that holds another validator is reported as an
    /// internal inconsistency, which the invariant rules out.
    fn update_validator_rank_of(&mut self, handle: u32) -> (r: Result<u32, CouncilError>)
        requires
            old(self).wf(),
            handle < old(self).stakes().view().len(),
        ensures
            r is Ok,
            final(self).wf(),
            final(self).same_but_ranking(old(self)),
            final(self).pending() == old(self).pending(),
            final(self).ranked().contains(handle),
            reconciled(old(self).ranked(), old(self).stakes(), handle, final(self).ranked()),
    {
        let ghost r0 = self.ranked();
        let ghost st0 = self.stakes();
        proof {
            lemma_linked_distinct(r0, st0);
            lemma_distinct_handles_bounded(r0, st0.view().len() as int);
        }
        let current_index = self.validator_stakes.entry(handle).overall_rank();
        let new_index = match self.ranked_validators.get(current_index) {
            Some(account_id) => {
                if account_id != handle {
                    proof {
                        assert(st0.rank(r0[current_index as int]) == current_index);
                    }
                    return Err(CouncilError::InternalConsistency);
                }
                assert(r0.update(current_index as int, handle) =~= r0);
                self.ranked_validators.insert(current_index, &handle, &mut self.validator_stakes)
            },
            None => {
                proof {
                    if r0.contains(handle) {
                        let i = choose|i: int| 0 <= i < r0.len() && r0[i] == handle;
                        assert(st0.rank(r0[i]) == i);
                    }
                }
                self.ranked_validators.append(&handle, &mut self.validator_stakes)
            },
        };
        proof {
            let r1 = self.ranked();
            let st1 = self.stakes();
            let s_before = if r0.contains(handle) { r0 } else { r0.push(handle) };
            let from = if r0.contains(handle) { current_index as int } else { r0.len() as int };
            if r0.contains(handle) {
                let i = index_in(r0, handle);
                assert(st0.rank(r0[i]) == i);
                assert(r0.update(current_index as int, handle) =~= r0);
            }
            assert(s_before[from] == handle);
            lemma_moved_keeps_members(s_before, from, new_index as int);
            assert(r1.contains(handle)) by {
                assert(r1[new_index as int] == handle);
            }
            assert(forall|m: u32| r0.contains(m) ==> s_before.contains(m)) by {
                assert forall|m: u32| r0.contains(m) implies s_before.contains(m) by {
                    let i = choose|i: int| 0 <= i < r0.len() && r0[i] == m;
                    assert(s_before[i] == m);
                }
            }
            assert(st1.unranked().len() == st1.view().len());
            assert(st0.unranked().len() == st0.view().len());
            assert(st1.view().len() == st0.view().len());
            assert forall|h: int| 0 <= h < st1.view().len() implies #[trigger] st1.view()[h].wf() by {
                assert(st1.unranked()[h] == st0.unranked()[h]);
                assert(st0.view()[h].wf());
            }
            assert forall|h: int, g: int|
                0 <= h < g < st1.view().len() implies #[trigger] st1.view()[h].id()
                    != #[trigger] st1.view()[g].id() by {
                assert(st1.unranked()[h] == st0.unranked()[h]);
                assert(st1.unranked()[g] == st0.unranked()[g]);
                assert(st1.view()[h].id_string() == st0.view()[h].id_string());
                assert(st1.view()[g].id_string() == st0.view()[g].id_string());
                assert(st0.view()[h].id() != st0.view()[g].id());
            }
            assert forall|h: u32|
                #![trigger st1.view()[h as int].rank()]
                #![trigger r1.contains(h)]
                h < st1.view().len() && !r1.contains(h) implies {
                    &&& st1.view()[h as int].rank() == u32::MAX
                    &&& self.pending().contains(h)
                } by {
                assert(!s_before.contains(h));
                assert(!r0.contains(h));
                assert(st1.rank(h) == st0.rank(h));
            }
        }
        Ok(new_index)
    }

    /// Repositions pending validators, newest first, one unit of budget each,
    /// until none is pending or the budget runs out.
    pub fn update_validator_ranks(&mut self, budget: &mut Budget) -> (r: MultiTxsOperationProcessingResult)
        requires
            old(self).wf(),
            old(budget).wf(),
        ensures
            ledger_extends(old(self).ledger(), final(self).ledger()),
            final(self).wf(),
            final(self).same_but_ranking(old(self)),
            final(budget).wf(),
            final(budget).spec_ceiling() == old(budget).spec_ceiling(),
            final(self).pending().len() == old(self).pending().len() - min(
                old(self).pending().len() as int,
                old(budget).remaining() as int,
            ),
            final(self).pending() == old(self).pending().take(final(self).pending().len() as int),
            final(budget).spec_used() == old(budget).spec_used() + (old(self).pending().len()
                - final(self).pending().len()),
            forall|k: int|
                final(self).pending().len() <= k < old(self).pending().len()
                    ==> final(self).ranked().contains(#[trigger] old(self).pending()[k]),
            final(self).ranked() == drain(
                old(self).ranked(),
                old(self).stakes(),
                old(self).pending(),
                (old(self).pending().len() - final(self).pending().len()) as nat,
            ),
            r is Completed <==> final(self).pending().len() == 0,
            r is NeedMoreGas <==> final(self).pending().len() > 0,
    {
        let ghost waiting0 = self.pending();
        let ghost b0 = *budget;
        let ghost k0 = *self;
        let ghost r0 = self.ranked();
        let ghost st0 = self.stakes();
        while self.validators_waiting_to_update_rank.len() > 0
            invariant
                self.wf(),
                self.same_but_ranking(&k0),
                budget.wf(),
                budget.spec_ceiling() == b0.spec_ceiling(),
                self.pending().len() <= waiting0.len(),
                self.pending() == waiting0.take(self.pending().len() as int),
                budget.spec_used() == b0.spec_used() + (waiting0.len() - self.pending().len()),
                forall|k: int|
                    self.pending().len() <= k < waiting0.len() ==> self.ranked().contains(#[trigger] waiting0[k]),
                self.ranked() == drain(r0, st0, waiting0, (waiting0.len() - self.pending().len()) as nat),
                r0 == k0.ranked(),
                st0 == k0.stakes(),
            ensures
                self.pending().len() == 0 || budget.remaining() == 0,
            decreases self.pending().len(),
        {
            if !budget.try_consume() {
                break;
            }
            let last = self.validators_waiting_to_update_rank.len() - 1;
            let handle = self.validators_waiting_to_update_rank[last];
            let ghost before = *self;
            let _ = self.update_validator_rank_of(handle);
            self.validators_waiting_to_update_rank.pop();
            proof {
                let n = (waiting0.len() - before.pending().len()) as nat;
                assert(handle == waiting0[waiting0.len() - (n + 1)]);
                lemma_same_rank_values(before.stakes(), st0);
                lemma_reconciled_values(before.ranked(), before.stakes(), st0, handle, self.ranked());
                assert(self.ranked() == drain(r0, st0, waiting0, n + 1));
                assert(self.pending() =~= waiting0.take(self.pending().len() as int));
                assert(self.pending() =~= before.pending().drop_last());
                assert forall|k: int| self.pending().len() <= k < waiting0.len() implies self.ranked().contains(
                    #[trigger] waiting0[k],
                ) by {
                    if k > self.pending().len() {
                        let m = waiting0[k];
                        let i = choose|i: int| 0 <= i < before.ranked().len() && before.ranked()[i] == m;
                        assert(before.stakes().rank(m) == i);
                        assert(self.ranked().contains(m)) by {
                            lemma_reconciled_keeps(before.ranked(), before.stakes(), handle, self.ranked(), m);
                        }
                    }
                }
                assert(self.pending().no_duplicates());
                assert forall|h: u32|
                    h < self.stakes().view().len() && !self.ranked().contains(h) implies
                        self.pending().contains(h) by {
                    assert(before.pending().contains(h));
                    assert(h != handle);
                    let i = choose|i: int| 0 <= i < before.pending().len() && before.pending()[i] == h;
                    assert(i != last);
                    assert(self.pending()[i] == h);
                }
            }
        }
        if self.validators_waiting_to_update_rank.len() > 0 {
            MultiTxsOperationProcessingResult::NeedMoreGas
        } else {
            MultiTxsOperationProcessingResult::Completed
        }
    }
}

impl CouncilKeeper {
    pub open spec fn is_registered(&self, id: Seq<char>) -> bool {
        exists|h: int| 0 <= h < self.stakes().view().len() && #[trigger] self.stakes().view()[h].id() == id
    }

    pub open spec fn handle_of(&self, id: Seq<char>) -> int {
        choose|h: int| 0 <= h < self.stakes().view().len() && #[trigger] self.stakes().view()[h].id() == id
    }

    /// The stake that `appchain` reported for validator `id`, zero if none.
    pub open spec fn stake_of(&self, id: Seq<char>, appchain: Seq<char>) -> u128 {
        if self.is_registered(id) {
            self.stakes().view()[self.handle_of(id)].stake_in(appchain)
        } else {
            0
        }
    }

    /// The total stake of validator `id`, zero if it is not registered.
    pub open spec fn total_of(&self, id: Seq<char>) -> u128 {
        if self.is_registered(id) {
            self.stakes().view()[self.handle_of(id)].total()
        } else {
            0
        }
    }

    /// Validator `id` waits to be repositioned.
    pub open spec fn is_pending(&self, id: Seq<char>) -> bool {
        exists|k: int|
            0 <= k < self.pending().len() && #[trigger] self.stakes().view()[self.pending()[k] as int].id() == id
    }

    /// The appchain id of an anchor account `<appchain id>.<registry>`.
    pub open spec fn anchor_appchain(&self, caller: Seq<char>) -> Option<Seq<char>> {
        match split_once_spec(caller) {
            Some((first, second)) => if second == self.registry_account() {
                Some(first)
            } else {
                None
            },
            None => None,
        }
    }

    pub fn number_of_validators(&self) -> (r: u32)
        requires
            self.wf(),
        ensures
            r == self.stakes().view().len(),
    {
        self.validator_stakes.len()
    }

    /// The appchain whose anchor `caller` is.
    pub fn appchain_id_of_anchor(&self, caller: &String) -> (r: Option<String>)
        ensures
            r is None <==> self.anchor_appchain(caller@) is None,
            r matches Some(id) ==> self.anchor_appchain(caller@) == Some(id@),
    {
        match split_once_at_dot(caller) {
            Some((first, second)) => if second == self.appchain_registry_account {
                Some(first)
            } else {
                None
            },
            None => None,
        }
    }

    /// Checks that `caller` is an appchain anchor and records its appchain
    /// as living; returns the appchain id.
    pub fn assert_and_update_living_appchain_ids(&mut self, caller: &String) -> (r: Result<String, CouncilError>)
        requires
            old(self).wf(),
        ensures
            ledger_extends(old(self).ledger(), final(self).ledger()),
            final(self).wf(),
            r is Err <==> old(self).anchor_appchain(caller@) is None,
            r matches Err(e) ==> e == CouncilError::NotAnAnchor && *final(self) == *old(self),
            r matches Ok(id) ==> {
                &&& old(self).anchor_appchain(caller@) == Some(id@)
                &&& final(self).living_ids() == if old(self).living_ids().contains(id@) {
                    old(self).living_ids()
                } else {
                    old(self).living_ids().push(id@)
                }
                &&& final(self).same_but_living(old(self))
            },
    {
        match self.appchain_id_of_anchor(caller) {
            None => Err(CouncilError::NotAnAnchor),
            Some(appchain_id) => {
                if !contains_id(&self.living_appchain_ids, &appchain_id) {
                    let ghost l0 = self.living_appchain_ids@;
                    self.living_appchain_ids.push(appchain_id.clone());
                    proof {
                        assert(ids_view(self.living_appchain_ids@) =~= ids_view(l0).push(appchain_id@));
                    }
                }
                Ok(appchain_id)
            },
        }
    }

    proof fn lemma_handle_of(&self, h: int)
        requires
            self.stakes().wf(),
            0 <= h < self.stakes().view().len(),
        ensures
            self.is_registered(self.stakes().view()[h].id()),
            self.handle_of(self.stakes().view()[h].id()) == h,
    {
        let id = self.stakes().view()[h].id();
        assert(self.stakes().view()[h].id() == id);
        let g = self.handle_of(id);
        if g != h {
            if g < h {
                assert(self.stakes().view()[g].id() != self.stakes().view()[h].id());
            } else {
                assert(self.stakes().view()[h].id() != self.stakes().view()[g].id());
            }
        }
    }

    /// Applies one stake record from `appchain_id`.
    fn apply_stake_record(&mut self, appchain_id: &String, stake_record: &ValidatorStakeRecord)
        requires
            old(self).wf(),
            old(self).stakes().view().len() + 1 < u32::MAX,
            old(self).total_of(stake_record.validator_id@) - old(self).stake_of(
                stake_record.validator_id@,
                appchain_id@,
            ) + stake_record.total_stake <= u128::MAX,
        ensures
            final(self).wf(),
            final(self).stakes().view().len() <= old(self).stakes().view().len() + 1,
            stake_update(*old(self), *final(self), appchain_id@, stake_record.validator_id@, stake_record.total_stake),
    {
        let ghost k0 = *self;
        let id = &stake_record.validator_id;
        let handle = match self.validator_stakes.find(id) {
            Some(h) => {
                proof { k0.lemma_handle_of(h as int); }
                h
            },
            None => {
                if stake_record.total_stake == 0 {
                    proof {
                        assert(!k0.is_registered(id@));
                    }
                    return;
                }
                let h = self.validator_stakes.push(InternalValidatorStake::new(id));
                proof {
                    assert(!k0.is_registered(id@));
                }
                h
            },
        };
        let ghost k1 = *self;
        let changed = self.validator_stakes.update_stake_record(handle, appchain_id, stake_record);
        let ghost k2 = *self;
        if changed && !contains_handle(&self.validators_waiting_to_update_rank, handle) {
            self.validators_waiting_to_update_rank.push(handle);
        }
        proof {
            let n0 = k0.stakes().view().len();
            let v0 = k0.stakes().view();
            let v1 = self.stakes().view();
            assert(v1 == k2.stakes().view());
            assert(v1[handle as int].id() == id@);
            // Entries other than `handle` are untouched; `handle` keeps its id and rank.
            assert forall|g: int| 0 <= g < n0 implies #[trigger] v1[g].id() == v0[g].id() && v1[g].rank()
                == v0[g].rank() && (g != handle ==> v1[g] == v0[g]) by {
                assert(k1.stakes().view()[g] == v0[g]);
            }
            self.lemma_handle_of(handle as int);
            // wf
            assert forall|i: int| #![trigger self.ranked()[i]] 0 <= i < self.ranked().len() implies self.stakes().holds(self.ranked()[i])
                && self.stakes().rank(self.ranked()[i]) == i by {
                assert(k0.stakes().holds(k0.ranked()[i]));
            }
            assert forall|h: u32|
                #![trigger self.stakes().view()[h as int].rank()]
                #![trigger self.ranked().contains(h)]
                h < v1.len() && !self.ranked().contains(h) implies {
                    &&& self.stakes().view()[h as int].rank() == u32::MAX
                    &&& self.pending().contains(h)
                } by {
                if h < n0 {
                    assert(!k0.ranked().contains(h));
                    assert(k0.pending().contains(h));
                    let k = choose|k: int| 0 <= k < k0.pending().len() && k0.pending()[k] == h;
                    assert(self.pending()[k] == h);
                } else {
                    assert(h == handle);
                    assert(self.pending().contains(handle)) by {
                        if !k2.pending().contains(handle) {
                            assert(self.pending()[self.pending().len() - 1] == handle);
                        }
                    }
                }
            }
            assert(self.pending().no_duplicates());
            assert forall|k: int| 0 <= k < self.pending().len() implies #[trigger] self.pending()[k] < v1.len() by {
                if k < k0.pending().len() {
                    assert(k0.pending()[k] < n0);
                }
            }
            // The abstract registry changed only at (id, appchain).
            assert forall|i: Seq<char>| #[trigger] self.is_registered(i) == (k0.is_registered(i) || (i == id@
                && stake_record.total_stake != k0.stake_of(id@, appchain_id@))) && (self.is_registered(i) ==> {
                    &&& (k0.is_registered(i) ==> self.handle_of(i) == k0.handle_of(i))
                    &&& (!k0.is_registered(i) ==> self.handle_of(i) == handle && i == id@ && v0.len() == handle)
                }) by {
                if k0.is_registered(i) {
                    let g = k0.handle_of(i);
                    k0.lemma_handle_of(g);
                    self.lemma_handle_of(g);
                } else if self.is_registered(i) {
                    let g = self.handle_of(i);
                    if g < n0 {
                        assert(v0[g].id() == i);
                    }
                    self.lemma_handle_of(g);
                }
            }
            assert forall|i: Seq<char>, a: Seq<char>| #[trigger] self.stake_of(i, a) == if i == id@ && a == appchain_id@ {
                stake_record.total_stake
            } else {
                k0.stake_of(i, a)
            } by {
                assert(self.is_registered(i) == (k0.is_registered(i) || (i == id@ && stake_record.total_stake != k0.stake_of(id@, appchain_id@))));
                if k0.is_registered(i) {
                    k0.lemma_handle_of(k0.handle_of(i));
                }
            }
            assert forall|i: Seq<char>| #[trigger] self.total_of(i) == if i == id@ {
                k0.total_of(i) - k0.stake_of(i, appchain_id@) + stake_record.total_stake
            } else {
                k0.total_of(i) as int
            } by {
                assert(self.is_registered(i) == (k0.is_registered(i) || (i == id@ && stake_record.total_stake != k0.stake_of(id@, appchain_id@))));
                if k0.is_registered(i) {
                    k0.lemma_handle_of(k0.handle_of(i));
                }
            }
            assert forall|i: Seq<char>| #[trigger] self.is_pending(i) == (k0.is_pending(i) || (i == id@
                && stake_record.total_stake != k0.stake_of(id@, appchain_id@))) by {
                if k0.is_pending(i) {
                    let k = choose|k: int| 0 <= k < k0.pending().len() && #[trigger] k0.stakes().view()[k0.pending()[k] as int].id() == i;
                    assert(self.pending()[k] == k0.pending()[k]);
                    assert(v1[self.pending()[k] as int].id() == i);
                }
                if self.is_pending(i) {
                    let k = choose|k: int| 0 <= k < self.pending().len() && #[trigger] v1[self.pending()[k] as int].id() == i;
                    if k < k0.pending().len() {
                        assert(k0.pending()[k] == self.pending()[k]);
                        assert(v0[k0.pending()[k] as int].id() == i);
                    }
                }
                if i == id@ && stake_record.total_stake != k0.stake_of(id@, appchain_id@) {
                    assert(changed);
                    if !k2.pending().contains(handle) {
                        assert(self.pending()[self.pending().len() - 1] == handle);
                    }
                    assert(self.pending().contains(handle));
                    let k = choose|k: int| 0 <= k < self.pending().len() && self.pending()[k] == handle;
                    assert(v1[self.pending()[k] as int].id() == i);
                }
            }
        }
    }
}

impl CouncilKeeper {
    /// Whether some record in `records` would take its validator's total stake
    /// beyond `u128::MAX`.
    pub open spec fn overflows(&self, appchain: Seq<char>, records: Seq<ValidatorStakeRecord>) -> bool {
        exists|j: int|
            0 <= j < records.len() && self.total_of(#[trigger] records[j].validator_id@) - self.stake_of(
                records[j].validator_id@,
                appchain,
            ) + records[j].total_stake > u128::MAX
    }

    /// Records the stakes that an appchain anchor reports, in order; each
    /// validator whose stake changes is registered if it was not, and waits
    /// to be repositioned.
    pub fn sync_validator_stakes_of_anchor(&mut self, caller: &String, stake_records: Vec<ValidatorStakeRecord>) -> (r: Result<(), CouncilError>)
        requires
            old(self).wf(),
            old(self).stakes().view().len() + stake_records@.len() + 1 < u32::MAX,
        ensures
            ledger_extends(old(self).ledger(), final(self).ledger()),
            final(self).wf(),
            old(self).anchor_appchain(caller@) is None ==> r == Err::<(), CouncilError>(CouncilError::NotAnAnchor)
                && *final(self) == *old(self),
            old(self).anchor_appchain(caller@) matches Some(a) ==> (old(self).overflows(a, stake_records@)
                ==> r == Err::<(), CouncilError>(CouncilError::StakeOverflow) && *final(self) == *old(self)),
            old(self).anchor_appchain(caller@) matches Some(a) ==> (!old(self).overflows(a, stake_records@)
                ==> {
                &&& r is Ok
                &&& final(self).living_ids() == if old(self).living_ids().contains(a) {
                    old(self).living_ids()
                } else {
                    old(self).living_ids().push(a)
                }
                &&& forall|i: Seq<char>| #[trigger] final(self).stake_of(i, a) == last_stake(stake_records@, i, old(self).stake_of(i, a))
                &&& forall|i: Seq<char>, b: Seq<char>| b != a ==> #[trigger] final(self).stake_of(i, b) == old(self).stake_of(i, b)
                &&& forall|i: Seq<char>| #[trigger] final(self).total_of(i) == old(self).total_of(i) - old(self).stake_of(i, a)
                    + final(self).stake_of(i, a)
                &&& forall|i: Seq<char>| #[trigger] final(self).is_registered(i) == (old(self).is_registered(i)
                    || stake_changes(stake_records@, i, old(self).stake_of(i, a)))
                &&& forall|i: Seq<char>| #[trigger] final(self).is_pending(i) == (old(self).is_pending(i)
                    || stake_changes(stake_records@, i, old(self).stake_of(i, a)))
                &&& final(self).ranked() == old(self).ranked()
                &&& final(self).max_members() == old(self).max_members()
                &&& final(self).members() == old(self).members()
                &&& final(self).excluded() == old(self).excluded()
                &&& final(self).ledger() == old(self).ledger()
            }),
    {
        let appchain_id = match self.appchain_id_of_anchor(caller) {
            Some(id) => id,
            None => return Err(CouncilError::NotAnAnchor),
        };
        let ghost a = appchain_id@;
        // Every record must fit before any is applied.
        let mut j: usize = 0;
        while j < stake_records.len()
            invariant
                self.wf(),
                j <= stake_records@.len(),
                self.anchor_appchain(caller@) == Some(a),
                appchain_id@ == a,
                forall|i: int| 0 <= i < j ==> !(self.total_of(#[trigger] stake_records@[i].validator_id@)
                    - self.stake_of(stake_records@[i].validator_id@, a) + stake_records@[i].total_stake > u128::MAX),
            decreases stake_records@.len() - j,
        {
            let record = &stake_records[j];
            let (total, stake) = match self.validator_stakes.find(&record.validator_id) {
                Some(h) => {
                    proof {
                        self.lemma_handle_of(h as int);
                        assert(self.stakes().view()[h as int].wf());
                        crate::validator_stakes::lemma_stake_bounded_by_total(self.stakes().view()[h as int], a);
                    }
                    let entry = self.validator_stakes.entry(h);
                    (entry.total_stake(), entry.stake_in_appchain(&appchain_id))
                },
                None => (0u128, 0u128),
            };
            assert(stake_records@[j as int] == *record);
            assert(total == self.total_of(record.validator_id@));
            assert(stake == self.stake_of(record.validator_id@, a));
            if record.total_stake > u128::MAX - (total - stake) {
                assert(self.total_of(stake_records@[j as int].validator_id@) - self.stake_of(
                    stake_records@[j as int].validator_id@, a) + stake_records@[j as int].total_stake > u128::MAX);
                return Err(CouncilError::StakeOverflow);
            }
            j = j + 1;
        }
        let ghost k_start = *self;
        let _ = self.assert_and_update_living_appchain_ids(caller);
        let ghost k0 = *self;
        let mut k: usize = 0;
        while k < stake_records.len()
            invariant
                self.wf(),
                k <= stake_records@.len(),
                self.stakes().view().len() <= k0.stakes().view().len() + k,
                k0.stakes().view().len() + stake_records@.len() + 1 < u32::MAX,
                !k0.overflows(a, stake_records@),
                forall|i: Seq<char>| #[trigger] self.stake_of(i, a) == last_stake(stake_records@.take(k as int), i, k0.stake_of(i, a)),
                forall|i: Seq<char>, b: Seq<char>| b != a ==> #[trigger] self.stake_of(i, b) == k0.stake_of(i, b),
                forall|i: Seq<char>| #[trigger] self.total_of(i) - self.stake_of(i, a) == k0.total_of(i) - k0.stake_of(i, a),
                forall|i: Seq<char>| #[trigger] self.is_registered(i) == (k0.is_registered(i)
                    || stake_changes(stake_records@.take(k as int), i, k0.stake_of(i, a))),
                forall|i: Seq<char>| #[trigger] self.is_pending(i) == (k0.is_pending(i)
                    || stake_changes(stake_records@.take(k as int), i, k0.stake_of(i, a))),
                self.ranked() == k0.ranked(),
                self.owner_id() == k0.owner_id(),
                self.registry_account() == k0.registry_account(),
                self.dao_account() == k0.dao_account(),
                self.living_ids() == k0.living_ids(),
                self.max_members() == k0.max_members(),
                self.members() == k0.members(),
                self.excluded() == k0.excluded(),
                self.ledger() == k0.ledger(),
                appchain_id@ == a,
            decreases stake_records@.len() - k,
        {
            let record = &stake_records[k];
            let ghost before = *self;
            proof {
                let id = record.validator_id@;
                assert(stake_records@[k as int].validator_id@ == id);
                assert(!(k0.total_of(stake_records@[k as int].validator_id@) - k0.stake_of(id, a) + record.total_stake > u128::MAX));
                assert(self.total_of(id) - self.stake_of(id, a) == k0.total_of(id) - k0.stake_of(id, a));
            }
            self.apply_stake_record(&appchain_id, record);
            proof {
                let t = stake_records@.take(k + 1);
                assert(t.drop_last() =~= stake_records@.take(k as int));
                assert(t.last() == *record);
                assert forall|i: Seq<char>| #[trigger] self.stake_of(i, a) == last_stake(t, i, k0.stake_of(i, a)) by {
                    assert(before.stake_of(i, a) == last_stake(stake_records@.take(k as int), i, k0.stake_of(i, a)));
                }
                assert forall|i: Seq<char>| #[trigger] self.total_of(i) - self.stake_of(i, a) == k0.total_of(i) - k0.stake_of(i, a) by {
                    assert(before.total_of(i) - before.stake_of(i, a) == k0.total_of(i) - k0.stake_of(i, a));
                    assert(self.stake_of(i, a) == if i == record.validator_id@ { record.total_stake } else { before.stake_of(i, a) });
                }
                assert forall|i: Seq<char>, b: Seq<char>| b != a implies #[trigger] self.stake_of(i, b) == k0.stake_of(i, b) by {
                    assert(before.stake_of(i, b) == k0.stake_of(i, b));
                }
                assert forall|i: Seq<char>| #[trigger] self.is_registered(i) == (k0.is_registered(i)
                    || stake_changes(t, i, k0.stake_of(i, a))) by {
                    assert(before.is_registered(i) == (k0.is_registered(i) || stake_changes(stake_records@.take(k as int), i, k0.stake_of(i, a))));
                    assert(before.stake_of(i, a) == last_stake(stake_records@.take(k as int), i, k0.stake_of(i, a)));
                }
                assert forall|i: Seq<char>| #[trigger] self.is_pending(i) == (k0.is_pending(i)
                    || stake_changes(t, i, k0.stake_of(i, a))) by {
                    assert(before.is_pending(i) == (k0.is_pending(i) || stake_changes(stake_records@.take(k as int), i, k0.stake_of(i, a))));
                    assert(before.stake_of(i, a) == last_stake(stake_records@.take(k as int), i, k0.stake_of(i, a)));
                }
            }
            k = k + 1;
        }
        proof {
            assert(stake_records@.take(stake_records@.len() as int) =~= stake_records@);
            assert forall|i: Seq<char>| #[trigger] k0.stake_of(i, a) == k_start.stake_of(i, a) by {}
            assert forall|i: Seq<char>| #[trigger] k0.total_of(i) == k_start.total_of(i) by {}
        }
        Ok(())
    }
}

/// The stake of validator `id` after `records`: the last one that names
/// it, or `default` where none does.
pub open spec fn last_stake(records: Seq<ValidatorStakeRecord>, id: Seq<char>, default: u128) -> u128
    decreases records.len(),
{
    if records.len() == 0 {
        default
    } else if records.last().validator_id@ == id {
        records.last().total_stake
    } else {
        last_stake(records.drop_last(), id, default)
    }
}

/// Whether some record of `records` changes the stake of validator `id`,
/// which starts at `default`.
pub open spec fn stake_changes(records: Seq<ValidatorStakeRecord>, id: Seq<char>, default: u128) -> bool
    decreases records.len(),
{
    if records.len() == 0 {
        false
    } else {
        stake_changes(records.drop_last(), id, default) || (records.last().validator_id@ == id
            && records.last().total_stake != last_stake(records.drop_last(), id, default))
    }
}

impl CouncilKeeper {
    /// The council that the ranking calls for now.
    pub open spec fn target_members(&self) -> Seq<Seq<char>> {
        council_target(self.ranked_ids(), self.excluded(), self.max_members() as nat)
    }

    proof fn lemma_ranked_ids_distinct(&self)
        requires
            self.wf(),
        ensures
            self.ranked_ids().no_duplicates(),
            forall|k: int| 0 <= k < self.ranked().len() ==> #[trigger] self.ranked()[k] < self.stakes().view().len(),
    {
        let r = self.ranked();
        let v = self.stakes().view();
        assert forall|k: int| 0 <= k < r.len() implies #[trigger] r[k] < v.len() by {
            assert(self.stakes().holds(r[k]));
        }
        assert forall|i: int, j: int| 0 <= i < r.len() && 0 <= j < r.len() && i != j implies self.ranked_ids()[i]
            != self.ranked_ids()[j] by {
            assert(self.stakes().rank(r[i]) == i);
            assert(self.stakes().rank(r[j]) == j);
            if r[i] < r[j] {
                assert(v[r[i] as int].id() != v[r[j] as int].id());
            } else {
                assert(v[r[j] as int].id() != v[r[i] as int].id());
            }
        }
    }

    /// Seats the validators that the ranking calls for and unseats the
    /// others, appending one record per change, additions first.
    pub fn check_and_generate_change_histories(&mut self, timestamp: u64)
        requires
            old(self).wf(),
            old(self).ledger().end() + 2 * old(self).ranked().len() + old(self).members().len() < u64::MAX,
        ensures
            ledger_extends(old(self).ledger(), final(self).ledger()),
            final(self).wf(),
            diff_applied(*old(self), *final(self), timestamp),
    {
        let ghost k0 = *self;
        let ghost target = k0.target_members();
        let ghost ids = k0.ranked_ids();
        proof {
            k0.lemma_ranked_ids_distinct();
            lemma_target_distinct(ids, k0.excluded(), k0.max_members() as nat);
        }
        // The council that the ranking calls for.
        let mut council_members: Vec<String> = Vec::new();
        let len = self.ranked_validators.len();
        let max = self.max_number_of_council_members as usize;
        let mut k: u32 = 0;
        while k < len && council_members.len() < max
            invariant
                *self == k0,
                self.wf(),
                len == self.ranked().len(),
                max == self.max_members(),
                k <= len,
                ids == self.ranked_ids(),
                ids_view(council_members@) == council_target(ids.take(k as int), self.excluded(), max as nat),
                forall|j: int| 0 <= j < len ==> #[trigger] self.ranked()[j] < self.stakes().view().len(),
            decreases len - k,
        {
            let handle = self.ranked_validators.get(k).unwrap();
            let account_id = self.validator_stakes.entry(handle).validator_id();
            proof {
                assert(ids.take(k + 1).drop_last() =~= ids.take(k as int));
                assert(ids.take(k + 1).last() == account_id@);
            }
            if !contains_id(&self.excluding_validator_accounts, account_id) {
                let ghost before = council_members@;
                council_members.push(account_id.clone());
                proof {
                    assert(ids_view(council_members@) =~= ids_view(before).push(account_id@));
                }
            }
            k = k + 1;
        }
        proof {
            if k < len {
                lemma_target_full(ids, self.excluded(), max as nat, k as int);
            } else {
                assert(ids.take(k as int) =~= ids);
            }
        }
        let ghost c0 = k0.members();
        proof {
            assert(k0.ledger().records().take(k0.ledger().records().len() as int) =~= k0.ledger().records());
            assert(appended_contents(k0.ledger(), k0.ledger()) =~= Seq::empty());
            assert(change_records(missing_from(target.take(0), c0), true, timestamp) =~= Seq::empty());
            assert(ids.len() == k0.ranked().len());
        }
        // Seat the missing ones.
        let mut i: usize = 0;
        while i < council_members.len()
            invariant
                self.wf(),
                ids_view(council_members@) == target,
                target.no_duplicates(),
                i <= council_members@.len(),
                self.members() == c0 + missing_from(target.take(i as int), c0),
                appended_only(k0.ledger(), self.ledger()),
                appended_contents(k0.ledger(), self.ledger()) == change_records(missing_from(target.take(i as int), c0), true, timestamp),
                self.ledger().end() + (target.len() - i) + target.len() + c0.len() < u64::MAX,
                missing_from(target.take(i as int), c0).len() <= i,
                self.same_but_council(&k0),
            decreases council_members@.len() - i,
        {
            let account_id = &council_members[i];
            proof {
                assert(target.take(i + 1).drop_last() =~= target.take(i as int));
                assert(target.take(i + 1).last() == account_id@);
                lemma_missing_from_len(target.take(i as int), c0);
            }
            if !contains_id(&self.latest_members, account_id) {
                let ghost m0 = self.members();
                let ghost l0 = self.ledger();
                proof {
                    if c0.contains(account_id@) {
                        let q = choose|q: int| 0 <= q < c0.len() && c0[q] == account_id@;
                        assert(m0[q] == account_id@);
                    }
                }
                self.latest_members.push(account_id.clone());
                self.change_histories.append(CouncilChangeAction::MemberAdded(account_id.clone()), timestamp);
                proof {
                    assert(self.members() =~= m0.push(account_id@));
                    assert(!c0.contains(account_id@));
                    assert(self.members() =~= c0 + missing_from(target.take(i + 1), c0));
                    lemma_appended_push(k0.ledger(), l0, self.ledger());
                    assert(change_records(missing_from(target.take(i + 1), c0), true, timestamp) =~= change_records(missing_from(target.take(i as int), c0), true, timestamp).push((ChangeActionView::MemberAdded(account_id@), CouncilChangeHistoryState::WaitingForApplying, timestamp)));
                    lemma_push_distinct(m0, account_id@);
                }
            } else {
                proof {
                    // Members not in `c0` come from `target.take(i)`, which excludes `account_id`.
                    if !c0.contains(account_id@) {
                        let m = missing_from(target.take(i as int), c0);
                        lemma_missing_from_subset(target.take(i as int), c0);
                        let j = choose|j: int| 0 <= j < self.members().len() && self.members()[j] == account_id@;
                        assert((c0 + m)[j] == account_id@);
                        assert(j >= c0.len());
                        assert(m.contains(account_id@));
                        assert(target.take(i as int).contains(account_id@));
                        let t0 = target.take(i as int);
                        let q = choose|q: int| 0 <= q < t0.len() && t0[q] == account_id@;
                        assert(target[q] == target[i as int]);
                    }
                    assert(missing_from(target.take(i + 1), c0) == missing_from(target.take(i as int), c0));
                }
            }
            i = i + 1;
        }
        proof {
            assert(target.take(council_members@.len() as int) =~= target);
        }
        let ghost adds = missing_from(target, c0);
        let ghost snapshot = self.members();
        proof {
            lemma_missing_from_len(target, c0);
        }
        // Unseat the ones the ranking no longer calls for.
        let members_snapshot = copy_strings(&self.latest_members);
        let mut i: usize = 0;
        while i < members_snapshot.len()
            invariant
                self.wf(),
                ids_view(council_members@) == target,
                ids_view(members_snapshot@) == snapshot,
                snapshot == c0 + adds,
                i <= snapshot.len(),
                forall|x: Seq<char>| #[trigger] self.members().contains(x) <==> (snapshot.contains(x) && !(
                    snapshot.take(i as int).contains(x) && !target.contains(x))),
                appended_only(k0.ledger(), self.ledger()),
                appended_contents(k0.ledger(), self.ledger()) == change_records(adds, true, timestamp)
                    + change_records(missing_from(snapshot.take(i as int), target), false, timestamp),
                self.ledger().end() + snapshot.len() - i < u64::MAX,
                missing_from(snapshot.take(i as int), target).len() <= i,
                self.same_but_council(&k0),
            decreases snapshot.len() - i,
        {
            let account_id = &members_snapshot[i];
            proof {
                assert(snapshot.take(i + 1).drop_last() =~= snapshot.take(i as int));
                assert(snapshot.take(i + 1).last() == account_id@);
                lemma_missing_from_len(snapshot.take(i as int), target);
            }
            if !contains_id(&council_members, account_id) {
                let ghost l0 = self.ledger();
                match position_of(&self.latest_members, account_id) {
                    Some(pos) => {
                        let ghost raw0 = self.latest_members@;
                        self.latest_members.swap_remove(pos);
                        proof {
                            lemma_swap_remove_members(raw0, pos as int);
                        }
                    },
                    None => {},
                }
                self.change_histories.append(CouncilChangeAction::MemberRemoved(account_id.clone()), timestamp);
                proof {
                    lemma_appended_push(k0.ledger(), l0, self.ledger());
                    assert(change_records(adds, true, timestamp) + change_records(missing_from(snapshot.take(i + 1), target), false, timestamp)
                        =~= (change_records(adds, true, timestamp) + change_records(missing_from(snapshot.take(i as int), target), false, timestamp)).push(
                        (ChangeActionView::MemberRemoved(account_id@), CouncilChangeHistoryState::WaitingForApplying, timestamp)));
                    assert forall|x: Seq<char>| #[trigger] self.members().contains(x) <==> (snapshot.contains(x) && !(
                        snapshot.take(i + 1).contains(x) && !target.contains(x))) by {
                        if x == account_id@ {
                        } else {
                            if snapshot.take(i + 1).contains(x) {
                                let t1 = snapshot.take(i + 1);
                                let q = choose|q: int| 0 <= q < t1.len() && t1[q] == x;
                                assert(snapshot.take(i as int)[q] == x);
                            }
                            if snapshot.take(i as int).contains(x) {
                                let t0 = snapshot.take(i as int);
                                let q = choose|q: int| 0 <= q < t0.len() && t0[q] == x;
                                assert(snapshot.take(i + 1)[q] == x);
                            }
                        }
                    }
                }
            } else {
                proof {
                    assert forall|x: Seq<char>| #[trigger] self.members().contains(x) <==> (snapshot.contains(x) && !(
                        snapshot.take(i + 1).contains(x) && !target.contains(x))) by {
                        if snapshot.take(i + 1).contains(x) {
                            let t1 = snapshot.take(i + 1);
                                let q = choose|q: int| 0 <= q < t1.len() && t1[q] == x;
                            if q < i {
                                assert(snapshot.take(i as int)[q] == x);
                            }
                        }
                        if snapshot.take(i as int).contains(x) {
                            let t0 = snapshot.take(i as int);
                                let q = choose|q: int| 0 <= q < t0.len() && t0[q] == x;
                            assert(snapshot.take(i + 1)[q] == x);
                        }
                    }
                }
            }
            i = i + 1;
        }
        proof {
            assert(snapshot.take(snapshot.len() as int) =~= snapshot);
            lemma_missing_from_subset(target, c0);
            lemma_missing_from_concat_covered(c0, adds, target);
            assert forall|x: Seq<char>| #[trigger] self.members().contains(x) <==> target.contains(x) by {
                if target.contains(x) && !c0.contains(x) {
                    lemma_missing_from_has(target, c0, x);
                    let q = choose|q: int| 0 <= q < adds.len() && adds[q] == x;
                    assert(snapshot[c0.len() + q] == x);
                }
                if target.contains(x) && c0.contains(x) {
                    let q = choose|q: int| 0 <= q < c0.len() && c0[q] == x;
                    assert(snapshot[q] == x);
                }
                if snapshot.contains(x) && !c0.contains(x) {
                    let q = choose|q: int| 0 <= q < snapshot.len() && snapshot[q] == x;
                    assert(q >= c0.len());
                    assert(adds.contains(x));
                }
            }
        }
    }
}

/// The first `max` ids of `ranked`, in rank order, that are not in
/// `excluded`.
pub open spec fn council_target(ranked: Seq<Seq<char>>, excluded: Seq<Seq<char>>, max: nat) -> Seq<Seq<char>>
    decreases ranked.len(),
{
    if ranked.len() == 0 {
        Seq::empty()
    } else {
        let t = council_target(ranked.drop_last(), excluded, max);
        if !excluded.contains(ranked.last()) && t.len() < max {
            t.push(ranked.last())
        } else {
            t
        }
    }
}

/// The ids of `a` that are not in `b`, in the order of `a`.
pub open spec fn missing_from(a: Seq<Seq<char>>, b: Seq<Seq<char>>) -> Seq<Seq<char>>
    decreases a.len(),
{
    if a.len() == 0 {
        Seq::empty()
    } else {
        let m = missing_from(a.drop_last(), b);
        if b.contains(a.last()) {
            m
        } else {
            m.push(a.last())
        }
    }
}

/// A record's content apart from its index: its action, state and timestamp.
pub open spec fn record_content(r: CouncilChangeHistory) -> (ChangeActionView, CouncilChangeHistoryState, u64) {
    (action_view(r.action), r.state, r.timestamp)
}

/// Records, waiting to be applied, that add (or remove) each of `ids` in turn.
pub open spec fn change_records(ids: Seq<Seq<char>>, added: bool, timestamp: u64) -> Seq<(ChangeActionView, CouncilChangeHistoryState, u64)> {
    ids.map_values(|id: Seq<char>| (
        if added { ChangeActionView::MemberAdded(id) } else { ChangeActionView::MemberRemoved(id) },
        CouncilChangeHistoryState::WaitingForApplying,
        timestamp,
    ))
}

/// `after` holds the records of `before` unchanged, then possibly more.
pub open spec fn appended_only(before: ChangeHistories, after: ChangeHistories) -> bool {
    &&& after.start() == before.start()
    &&& before.records().len() <= after.records().len()
    &&& after.records().take(before.records().len() as int) == before.records()
}

/// What `after` holds beyond the records of `before`.
pub open spec fn appended_contents(before: ChangeHistories, after: ChangeHistories) -> Seq<(ChangeActionView, CouncilChangeHistoryState, u64)> {
    after.records().skip(before.records().len() as int).map_values(|r: CouncilChangeHistory| record_content(r))
}

/// The council changes as the ranking calls for: afterwards the council is
/// the target, and the ledger gains one addition per target member that was
/// not seated, then one removal per seated member not in the target.
pub open spec fn diff_applied(before: CouncilKeeper, after: CouncilKeeper, timestamp: u64) -> bool {
    &&& council_diff(before.target_members(), before.members(), before.ledger(), after, timestamp)
    &&& after.same_but_council(&before)
}

/// `after` seats exactly `target`, and its ledger is `ledger` followed by
/// one addition per member of `target` not in `current`, then one removal
/// per member of `current` not in `target`.
pub open spec fn council_diff(
    target: Seq<Seq<char>>,
    current: Seq<Seq<char>>,
    ledger: ChangeHistories,
    after: CouncilKeeper,
    timestamp: u64,
) -> bool {
    &&& after.members().no_duplicates()
    &&& forall|x: Seq<char>| #[trigger] after.members().contains(x) <==> target.contains(x)
    &&& appended_only(ledger, after.ledger())
    &&& appended_contents(ledger, after.ledger()) == change_records(missing_from(target, current), true, timestamp)
        + change_records(missing_from(current, target), false, timestamp)
}

proof fn lemma_appended_push(base: ChangeHistories, l0: ChangeHistories, l1: ChangeHistories)
    requires
        appended_only(base, l0),
        l1.start() == l0.start(),
        l1.records() == l0.records().push(l1.records().last()),
        l1.records().len() > 0,
    ensures
        appended_only(base, l1),
        appended_contents(base, l1) == appended_contents(base, l0).push(record_content(l1.records().last())),
{
    let n = base.records().len() as int;
    assert(l1.records().take(n) =~= l0.records().take(n));
    assert(l1.records().skip(n) =~= l0.records().skip(n).push(l1.records().last()));
    assert(appended_contents(base, l1) =~= appended_contents(base, l0).push(record_content(l1.records().last())));
}

proof fn lemma_missing_from_distinct(a: Seq<Seq<char>>, b: Seq<Seq<char>>)
    requires
        a.no_duplicates(),
    ensures
        missing_from(a, b).no_duplicates(),
    decreases a.len(),
{
    if a.len() > 0 {
        let d = a.drop_last();
        assert(d.no_duplicates());
        lemma_missing_from_distinct(d, b);
        lemma_missing_from_subset(d, b);
        if !b.contains(a.last()) {
            if missing_from(d, b).contains(a.last()) {
                let q = choose|q: int| 0 <= q < d.len() && d[q] == a.last();
                assert(a[q] == a[a.len() - 1]);
            }
            lemma_push_distinct(missing_from(d, b), a.last());
        }
    }
}

/// Counted as sets, `missing_from(a, b)` is `a` less `b`.
pub proof fn lemma_missing_from_counts(a: Seq<Seq<char>>, b: Seq<Seq<char>>)
    requires
        a.no_duplicates(),
    ensures
        missing_from(a, b).to_set() == a.to_set().difference(b.to_set()),
        missing_from(a, b).len() == a.to_set().difference(b.to_set()).len(),
{
    let m = missing_from(a, b);
    lemma_missing_from_subset(a, b);
    lemma_missing_from_distinct(a, b);
    assert forall|x: Seq<char>| m.to_set().contains(x) == a.to_set().difference(b.to_set()).contains(x) by {
        if a.contains(x) && !b.contains(x) {
            lemma_missing_from_has(a, b, x);
        }
    }
    assert(m.to_set() =~= a.to_set().difference(b.to_set()));
    m.unique_seq_to_set();
}

/// A diff appends exactly one addition per target member not seated before
/// and one removal per seated member outside the target, and afterwards the
/// council is the target.
pub proof fn lemma_diff_is_minimal(before: CouncilKeeper, after: CouncilKeeper, timestamp: u64)
    requires
        before.wf(),
        diff_applied(before, after, timestamp),
    ensures
        after.members().to_set() == before.target_members().to_set(),
        appended_contents(before.ledger(), after.ledger()).len() == before.target_members().to_set().difference(
            before.members().to_set(),
        ).len() + before.members().to_set().difference(before.target_members().to_set()).len(),
        forall|k: int| 0 <= k < appended_contents(before.ledger(), after.ledger()).len() ==> {
            let c = #[trigger] appended_contents(before.ledger(), after.ledger())[k];
            &&& c.1 == CouncilChangeHistoryState::WaitingForApplying
            &&& c.2 == timestamp
            &&& (c.0 matches ChangeActionView::MemberAdded(id) ==> before.target_members().contains(id)
                && !before.members().contains(id))
            &&& (c.0 matches ChangeActionView::MemberRemoved(id) ==> before.members().contains(id)
                && !before.target_members().contains(id))
            &&& !(c.0 is MaxNumberOfMembersChanged)
        },
{
    let t = before.target_members();
    let c = before.members();
    before.lemma_ranked_ids_distinct();
    lemma_target_distinct(before.ranked_ids(), before.excluded(), before.max_members() as nat);
    lemma_missing_from_counts(t, c);
    lemma_missing_from_counts(c, t);
    lemma_missing_from_subset(t, c);
    lemma_missing_from_subset(c, t);
    assert(after.members().to_set() =~= t.to_set());
    let adds = missing_from(t, c);
    let removes = missing_from(c, t);
    let all = appended_contents(before.ledger(), after.ledger());
    assert forall|k: int| 0 <= k < all.len() implies {
        let e = #[trigger] all[k];
        &&& e.1 == CouncilChangeHistoryState::WaitingForApplying
        &&& e.2 == timestamp
        &&& (e.0 matches ChangeActionView::MemberAdded(id) ==> t.contains(id) && !c.contains(id))
        &&& (e.0 matches ChangeActionView::MemberRemoved(id) ==> c.contains(id) && !t.contains(id))
        &&& !(e.0 is MaxNumberOfMembersChanged)
    } by {
        if k < adds.len() {
            assert(adds.contains(adds[k]));
        } else {
            assert(removes.contains(removes[k - adds.len()]));
        }
    }
}

proof fn lemma_target_distinct(ids: Seq<Seq<char>>, excluded: Seq<Seq<char>>, max: nat)
    requires
        ids.no_duplicates(),
    ensures
        council_target(ids, excluded, max).len() <= ids.len(),
        council_target(ids, excluded, max).no_duplicates(),
        forall|x: Seq<char>| #[trigger] council_target(ids, excluded, max).contains(x) ==> ids.contains(x),
    decreases ids.len(),
{
    if ids.len() > 0 {
        let d = ids.drop_last();
        assert(d.no_duplicates());
        lemma_target_distinct(d, excluded, max);
        let t = council_target(d, excluded, max);
        assert forall|x: Seq<char>| t.contains(x) implies ids.contains(x) by {
            let q = choose|q: int| 0 <= q < d.len() && d[q] == x;
            assert(ids[q] == x);
        }
        if !d.contains(ids.last()) {
        } else {
            let q = choose|q: int| 0 <= q < d.len() && d[q] == ids.last();
            assert(ids[q] == ids[ids.len() - 1]);
        }
        if !excluded.contains(ids.last()) && t.len() < max {
            lemma_push_distinct(t, ids.last());
            assert forall|x: Seq<char>| #[trigger] t.push(ids.last()).contains(x) implies ids.contains(x) by {
                if x != ids.last() {
                    let q = choose|q: int| 0 <= q < t.len() + 1 && t.push(ids.last())[q] == x;
                    assert(t[q] == x);
                }
            }
        }
    }
}

proof fn lemma_target_full(ids: Seq<Seq<char>>, excluded: Seq<Seq<char>>, max: nat, k: int)
    requires
        0 <= k <= ids.len(),
        council_target(ids.take(k), excluded, max).len() >= max,
    ensures
        council_target(ids, excluded, max) == council_target(ids.take(k), excluded, max),
    decreases ids.len() - k,
{
    if k < ids.len() {
        let t1 = ids.take(k + 1);
        assert(t1.drop_last() =~= ids.take(k));
        lemma_target_full(ids, excluded, max, k + 1);
    } else {
        assert(ids.take(k) =~= ids);
    }
}

proof fn lemma_missing_from_len(a: Seq<Seq<char>>, b: Seq<Seq<char>>)
    ensures
        missing_from(a, b).len() <= a.len(),
    decreases a.len(),
{
    if a.len() > 0 {
        lemma_missing_from_len(a.drop_last(), b);
    }
}

proof fn lemma_missing_from_subset(a: Seq<Seq<char>>, b: Seq<Seq<char>>)
    ensures
        forall|x: Seq<char>| #[trigger] missing_from(a, b).contains(x) ==> a.contains(x) && !b.contains(x),
    decreases a.len(),
{
    if a.len() > 0 {
        let d = a.drop_last();
        lemma_missing_from_subset(d, b);
        let m = missing_from(d, b);
        assert forall|x: Seq<char>| #[trigger] missing_from(a, b).contains(x) implies a.contains(x) && !b.contains(x) by {
            let q = choose|q: int| 0 <= q < missing_from(a, b).len() && missing_from(a, b)[q] == x;
            if q < m.len() {
                assert(m[q] == x);
                assert(m.contains(x));
                let p = choose|p: int| 0 <= p < d.len() && d[p] == x;
                assert(a[p] == x);
            } else {
                assert(!b.contains(a.last()));
                assert(a[a.len() - 1] == x);
            }
        }
    }
}

proof fn lemma_missing_from_has(a: Seq<Seq<char>>, b: Seq<Seq<char>>, x: Seq<char>)
    requires
        a.contains(x),
        !b.contains(x),
    ensures
        missing_from(a, b).contains(x),
    decreases a.len(),
{
    let d = a.drop_last();
    let m = missing_from(d, b);
    if a.last() == x {
        assert(missing_from(a, b)[m.len() as int] == x);
    } else {
        let q = choose|q: int| 0 <= q < a.len() && a[q] == x;
        assert(d[q] == x);
        lemma_missing_from_has(d, b, x);
        let p = choose|p: int| 0 <= p < m.len() && m[p] == x;
        assert(missing_from(a, b)[p] == x);
    }
}

proof fn lemma_missing_from_concat_covered(a: Seq<Seq<char>>, c: Seq<Seq<char>>, t: Seq<Seq<char>>)
    requires
        forall|x: Seq<char>| #[trigger] c.contains(x) ==> t.contains(x),
    ensures
        missing_from(a + c, t) == missing_from(a, t),
    decreases c.len(),
{
    if c.len() == 0 {
        assert(a + c =~= a);
    } else {
        let d = c.drop_last();
        assert((a + c).drop_last() =~= a + d);
        assert(c.contains(c.last())) by {
            assert(c[c.len() - 1] == c.last());
        }
        assert forall|x: Seq<char>| #[trigger] d.contains(x) implies t.contains(x) by {
            let q = choose|q: int| 0 <= q < d.len() && d[q] == x;
            assert(c[q] == x);
            assert(c.contains(x));
        }
        lemma_missing_from_concat_covered(a, d, t);
    }
}

proof fn lemma_push_distinct(m: Seq<Seq<char>>, x: Seq<char>)
    requires
        m.no_duplicates(),
        !m.contains(x),
    ensures
        m.push(x).no_duplicates(),
{
    assert forall|i: int, j: int| 0 <= i < m.len() + 1 && 0 <= j < m.len() + 1 && i != j implies m.push(x)[i] != m.push(x)[j] by {
        if i == m.len() {
            assert(m[j] != x);
        } else if j == m.len() {
            assert(m[i] != x);
        }
    }
}

proof fn lemma_swap_remove_members(v: Seq<String>, pos: int)
    requires
        0 <= pos < v.len(),
        ids_view(v).no_duplicates(),
    ensures
        ids_view(v.update(pos, v.last()).drop_last()).no_duplicates(),
        forall|x: Seq<char>| #[trigger] ids_view(v.update(pos, v.last()).drop_last()).contains(x) <==> (ids_view(v).contains(x)
            && x != v[pos]@),
{
    let w = v.update(pos, v.last()).drop_last();
    let n = v.len() - 1;
    assert forall|i: int, j: int| 0 <= i < w.len() && 0 <= j < w.len() && i != j implies ids_view(w)[i] != ids_view(w)[j] by {
        let pi = if i == pos { n } else { i };
        let pj = if j == pos { n } else { j };
        assert(ids_view(w)[i] == ids_view(v)[pi]);
        assert(ids_view(w)[j] == ids_view(v)[pj]);
    }
    assert forall|x: Seq<char>| #[trigger] ids_view(w).contains(x) <==> (ids_view(v).contains(x) && x != v[pos]@) by {
        if ids_view(w).contains(x) {
            let q = choose|q: int| 0 <= q < w.len() && ids_view(w)[q] == x;
            let pq = if q == pos { n } else { q };
            assert(ids_view(v)[pq] == x);
            assert(pq != pos);
            assert(ids_view(v)[pos] == v[pos]@);
        }
        if ids_view(v).contains(x) && x != v[pos]@ {
            let q = choose|q: int| 0 <= q < v.len() && ids_view(v)[q] == x;
            assert(q != pos);
            let wq = if q == n { pos } else { q };
            assert(ids_view(w)[wq] == x);
        }
    }
}

/// A DAO call with member ids as character sequences.
pub enum DaoRequestView {
    AddProposal(u64, Seq<char>, ProposalKind),
    ActProposal(u64, u64),
}

pub open spec fn request_view(r: DaoRequest) -> DaoRequestView {
    match r {
        DaoRequest::AddProposal { history_index, member_id, kind } => DaoRequestView::AddProposal(history_index, member_id@, kind),
        DaoRequest::ActProposal { history_index, proposal_id } => DaoRequestView::ActProposal(history_index, proposal_id),
    }
}

/// The call that a record's state asks for: a proposal for a member change
/// waiting to be applied, a vote for a proposal already added, else none.
pub open spec fn request_for(r: CouncilChangeHistory) -> Seq<DaoRequestView> {
    match r.state {
        CouncilChangeHistoryState::WaitingForApplying => match r.action {
            CouncilChangeAction::MemberAdded(id) => seq![DaoRequestView::AddProposal(r.index, id@, ProposalKind::AddMemberToRole)],
            CouncilChangeAction::MemberRemoved(id) => seq![DaoRequestView::AddProposal(r.index, id@, ProposalKind::RemoveMemberFromRole)],
            CouncilChangeAction::MaxNumberOfMembersChanged(_) => Seq::empty(),
        },
        CouncilChangeHistoryState::ProposalAdded(proposal_id) => seq![DaoRequestView::ActProposal(r.index, proposal_id)],
        _ => Seq::empty(),
    }
}

/// The calls that the records with indices `from .. to` ask for, in order.
pub open spec fn requests_in(l: ChangeHistories, from: int, to: int) -> Seq<DaoRequestView>
    decreases to - from,
{
    if to <= from {
        Seq::empty()
    } else {
        requests_in(l, from, to - 1) + request_for(l.record_at(to - 1))
    }
}

/// Passes that split a range ask for the same calls, in the same order, as
/// one pass over the whole range.
pub proof fn lemma_requests_split(l: ChangeHistories, a: int, b: int, c: int)
    requires
        a <= b <= c,
    ensures
        requests_in(l, a, b) + requests_in(l, b, c) == requests_in(l, a, c),
    decreases c - b,
{
    if b < c {
        lemma_requests_split(l, a, b, c - 1);
        assert(requests_in(l, a, b) + requests_in(l, b, c) =~= requests_in(l, a, b) + requests_in(l, b, c - 1)
            + request_for(l.record_at(c - 1)));
    } else {
        assert(requests_in(l, b, c) =~= Seq::<DaoRequestView>::empty());
        assert(requests_in(l, a, b) + requests_in(l, b, c) =~= requests_in(l, a, b));
    }
}

/// A pass never proposes a record twice nor proposes one that already has a
/// proposal: each call names a distinct record, in increasing order, and a
/// proposal is asked only for a record still waiting to be applied.
pub proof fn lemma_requests_never_resubmit(l: ChangeHistories, a: int, b: int)
    requires
        l.wf(),
        l.start() <= a,
        b <= l.end(),
    ensures
        forall|k: int| 0 <= k < requests_in(l, a, b).len() ==> {
            let q = #[trigger] requests_in(l, a, b)[k];
            &&& a <= request_index(q) < b
            &&& (q is AddProposal ==> l.record_at(request_index(q)).state == CouncilChangeHistoryState::WaitingForApplying)
            &&& (q matches DaoRequestView::ActProposal(i, p) ==> l.record_at(i as int).state == CouncilChangeHistoryState::ProposalAdded(p))
        },
        forall|k: int, j: int| 0 <= k < j < requests_in(l, a, b).len() ==> request_index(#[trigger] requests_in(l, a, b)[k])
            < request_index(#[trigger] requests_in(l, a, b)[j]),
    decreases b - a,
{
    if a < b {
        lemma_requests_never_resubmit(l, a, b - 1);
        let prev = requests_in(l, a, b - 1);
        let r = l.record_at(b - 1);
        assert(r.index == b - 1) by {
            assert(l.records()[b - 1 - l.start()].index == l.start() + (b - 1 - l.start()));
        }
        let all = requests_in(l, a, b);
        assert(all == prev + request_for(r));
        assert forall|k: int| 0 <= k < all.len() implies {
            let q = #[trigger] all[k];
            &&& a <= request_index(q) < b
            &&& (q is AddProposal ==> l.record_at(request_index(q)).state == CouncilChangeHistoryState::WaitingForApplying)
            &&& (q matches DaoRequestView::ActProposal(i, p) ==> l.record_at(i as int).state == CouncilChangeHistoryState::ProposalAdded(p))
        } by {
            if k < prev.len() {
                assert(all[k] == prev[k]);
            }
        }
        assert forall|k: int, j: int| 0 <= k < j < all.len() implies request_index(#[trigger] all[k])
            < request_index(#[trigger] all[j]) by {
            if j < prev.len() {
                assert(all[k] == prev[k] && all[j] == prev[j]);
            } else if k < prev.len() {
                assert(all[k] == prev[k]);
            }
        }
    }
}

/// The ledger index that a call is about.
pub open spec fn request_index(q: DaoRequestView) -> int {
    match q {
        DaoRequestView::AddProposal(i, _, _) => i as int,
        DaoRequestView::ActProposal(i, _) => i as int,
    }
}

pub open spec fn requests_view(v: Seq<DaoRequest>) -> Seq<DaoRequestView> {
    v.map_values(|r: DaoRequest| request_view(r))
}

/// Where a pass that is asked to start at `start_index` starts.
pub open spec fn pass_start(l: ChangeHistories, start_index: u64) -> int {
    if start_index < l.start() {
        l.start() as int
    } else {
        start_index as int
    }
}

/// `after` is `before` with the record at `index` moved to `state`.
pub open spec fn state_set(before: CouncilKeeper, after: CouncilKeeper, index: u64, state: CouncilChangeHistoryState) -> bool {
    &&& after.same_but_ledger(&before)
    &&& after.ledger().start() == before.ledger().start()
    &&& after.ledger().records() == before.ledger().records().update(
        index - before.ledger().start(),
        CouncilChangeHistory { state, ..before.ledger().record_at(index as int) },
    )
}

/// What answering a successful proposal for record `index` with
/// `proposal_id` does: a waiting record gets the proposal and a vote is
/// asked for; one already past that is left alone; any other state, or an
/// index outside the ledger, is an error and changes nothing.
pub open spec fn proposal_added(before: CouncilKeeper, after: CouncilKeeper, index: u64, proposal_id: u64, r: Result<Option<DaoRequest>, CouncilError>) -> bool {
    let l = before.ledger();
    if !(l.start() <= index < l.end()) {
        r == Err::<Option<DaoRequest>, CouncilError>(CouncilError::OutOfRange) && after == before
    } else {
        match l.record_at(index as int).state {
            CouncilChangeHistoryState::WaitingForApplying => {
                &&& r == Ok::<Option<DaoRequest>, CouncilError>(Some(DaoRequest::ActProposal { history_index: index, proposal_id }))
                &&& state_set(before, after, index, CouncilChangeHistoryState::ProposalAdded(proposal_id))
            },
            CouncilChangeHistoryState::NoNeedToApply => {
                r == Err::<Option<DaoRequest>, CouncilError>(CouncilError::InternalConsistency) && after == before
            },
            _ => r == Ok::<Option<DaoRequest>, CouncilError>(None) && after == before,
        }
    }
}

impl CouncilKeeper {
    /// Everything but the ledger is the same in both.
    pub open spec fn same_but_ledger(&self, other: &Self) -> bool {
        &&& self.same_but_council(other)
        &&& self.members() == other.members()
    }

    /// Walks the ledger from `start_index` (or its first record, if later),
    /// one unit of budget per record, and collects the DAO calls that the
    /// records' states ask for. Nothing changes until the calls are answered.
    pub fn apply_change_histories_to_dao_contract(&self, start_index: u64, budget: &mut Budget) -> (r: ApplyOutcome)
        requires
            self.wf(),
            old(budget).wf(),
        ensures
            final(budget).wf(),
            final(budget).spec_ceiling() == old(budget).spec_ceiling(),
            pass_start(self.ledger(), start_index) >= self.ledger().end() ==> r.next_index == pass_start(self.ledger(), start_index),
            pass_start(self.ledger(), start_index) < self.ledger().end() ==> r.next_index == pass_start(self.ledger(), start_index)
                + min(self.ledger().end() - pass_start(self.ledger(), start_index), old(budget).remaining() as int),
            final(budget).spec_used() == old(budget).spec_used() + (r.next_index - pass_start(self.ledger(), start_index)),
            requests_view(r.requests@) == requests_in(self.ledger(), pass_start(self.ledger(), start_index), r.next_index as int),
            r.result is Completed <==> r.next_index >= self.ledger().end(),
            r.result is NeedMoreGas <==> r.next_index < self.ledger().end(),
    {
        let l = &self.change_histories;
        let end = l.end_index();
        let from: u64 = if start_index < l.start_index() {
            l.start_index()
        } else {
            start_index
        };
        let ghost b0 = *budget;
        let mut index = from;
        let mut requests: Vec<DaoRequest> = Vec::new();
        while index < end
            invariant
                l == &self.change_histories,
                l.wf(),
                end == l.end(),
                from == pass_start(*l, start_index),
                from <= index,
                from < end ==> index <= end,
                from >= end ==> index == from,
                budget.wf(),
                budget.spec_ceiling() == b0.spec_ceiling(),
                budget.spec_used() == b0.spec_used() + (index - from),
                requests_view(requests@) == requests_in(*l, from as int, index as int),
            ensures
                index >= end || budget.remaining() == 0,
            decreases end - index,
        {
            if !budget.try_consume() {
                break;
            }
            let record = l.get(index).unwrap();
            let ghost before = requests@;
            match record.state {
                CouncilChangeHistoryState::WaitingForApplying => match &record.action {
                    CouncilChangeAction::MemberAdded(account_id) => {
                        requests.push(DaoRequest::AddProposal { history_index: index, member_id: account_id.clone(), kind: ProposalKind::AddMemberToRole });
                    },
                    CouncilChangeAction::MemberRemoved(account_id) => {
                        requests.push(DaoRequest::AddProposal { history_index: index, member_id: account_id.clone(), kind: ProposalKind::RemoveMemberFromRole });
                    },
                    CouncilChangeAction::MaxNumberOfMembersChanged(_) => {},
                },
                CouncilChangeHistoryState::ProposalAdded(proposal_id) => {
                    requests.push(DaoRequest::ActProposal { history_index: index, proposal_id });
                },
                _ => {},
            }
            proof {
                assert(record.index == index) by {
                    assert(l.records()[index - l.start()].index == l.start() + (index - l.start()));
                }
                assert(requests_view(requests@) =~= requests_view(before) + request_for(*record));
            }
            index = index + 1;
        }
        let result = if index >= end {
            MultiTxsOperationProcessingResult::Completed
        } else {
            MultiTxsOperationProcessingResult::NeedMoreGas
        };
        ApplyOutcome { result, next_index: index, requests }
    }

    /// Answers the DAO's reply to a proposal for record `history_index`: on
    /// success the returned proposal id is recorded and the vote is asked for;
    /// on failure nothing changes and the record is proposed again by a later
    /// pass.
    pub fn resolve_add_proposal(&mut self, history_index: u64, outcome: &PromiseOutcome) -> (r: Result<Option<DaoRequest>, CouncilError>)
        requires
            old(self).wf(),
        ensures
            ledger_extends(old(self).ledger(), final(self).ledger()),
            final(self).wf(),
            *outcome is Failed ==> r == Ok::<Option<DaoRequest>, CouncilError>(None) && *final(self) == *old(self),
            outcome matches PromiseOutcome::Successful(bytes) ==> match json_u64_of(bytes@) {
                None => r == Err::<Option<DaoRequest>, CouncilError>(CouncilError::MalformedResponse) && *final(self) == *old(self),
                Some(proposal_id) => proposal_added(*old(self), *final(self), history_index, proposal_id, r),
            },
    {
        match outcome {
            PromiseOutcome::Failed => Ok(None),
            PromiseOutcome::Successful(bytes) => match parse_u64_json(bytes) {
                None => Err(CouncilError::MalformedResponse),
                Some(proposal_id) => self.record_proposal_added(history_index, proposal_id),
            },
        }
    }

    /// Records that the DAO added proposal `proposal_id` for record
    /// `history_index`, and asks for the vote that approves it.
    pub fn record_proposal_added(&mut self, history_index: u64, proposal_id: u64) -> (r: Result<Option<DaoRequest>, CouncilError>)
        requires
            old(self).wf(),
        ensures
            ledger_extends(old(self).ledger(), final(self).ledger()),
            final(self).wf(),
            proposal_added(*old(self), *final(self), history_index, proposal_id, r),
    {
        let state = match self.change_histories.get(history_index) {
            Some(record) => record.state,
            None => return Err(CouncilError::OutOfRange),
        };
        match state {
            CouncilChangeHistoryState::WaitingForApplying => {
                self.change_histories.set_state(history_index, CouncilChangeHistoryState::ProposalAdded(proposal_id));
                Ok(Some(DaoRequest::ActProposal { history_index, proposal_id }))
            },
            CouncilChangeHistoryState::NoNeedToApply => Err(CouncilError::InternalConsistency),
            _ => Ok(None),
        }
    }

    /// Answers the DAO's reply to the vote on record `history_index`: on
    /// success the record's proposal is approved; on failure nothing changes
    /// and a later pass votes again.
    pub fn resolve_act_proposal(&mut self, history_index: u64, outcome: &PromiseOutcome) -> (r: Result<(), CouncilError>)
        requires
            old(self).wf(),
        ensures
            ledger_extends(old(self).ledger(), final(self).ledger()),
            final(self).wf(),
            *outcome is Failed ==> r is Ok && *final(self) == *old(self),
            *outcome is Successful ==> {
                let l = old(self).ledger();
                if !(l.start() <= history_index < l.end()) {
                    r == Err::<(), CouncilError>(CouncilError::OutOfRange) && *final(self) == *old(self)
                } else {
                    match l.record_at(history_index as int).state {
                        CouncilChangeHistoryState::ProposalAdded(proposal_id) => r is Ok && state_set(
                            *old(self),
                            *final(self),
                            history_index,
                            CouncilChangeHistoryState::ProposalApproved(proposal_id),
                        ),
                        CouncilChangeHistoryState::ProposalApproved(_) => r is Ok && *final(self) == *old(self),
                        _ => r == Err::<(), CouncilError>(CouncilError::InternalConsistency) && *final(self) == *old(self),
                    }
                }
            },
    {
        if let PromiseOutcome::Failed = outcome {
            return Ok(());
        }
        let state = match self.change_histories.get(history_index) {
            Some(record) => record.state,
            None => return Err(CouncilError::OutOfRange),
        };
        match state {
            CouncilChangeHistoryState::ProposalAdded(proposal_id) => {
                self.change_histories.set_state(history_index, CouncilChangeHistoryState::ProposalApproved(proposal_id));
                Ok(())
            },
            CouncilChangeHistoryState::ProposalApproved(_) => Ok(()),
            _ => Err(CouncilError::InternalConsistency),
        }
    }

    /// Marks record `history_index` as needing no proposal.
    pub fn mark_no_need_to_apply(&mut self, history_index: u64) -> (r: Result<(), CouncilError>)
        requires
            old(self).wf(),
        ensures
            ledger_extends(old(self).ledger(), final(self).ledger()),
            final(self).wf(),
            !(old(self).ledger().start() <= history_index < old(self).ledger().end()) ==> r == Err::<(), CouncilError>(
                CouncilError::OutOfRange) && *final(self) == *old(self),
            old(self).ledger().start() <= history_index < old(self).ledger().end() ==> r is Ok && state_set(
                *old(self),
                *final(self),
                history_index,
                CouncilChangeHistoryState::NoNeedToApply,
            ),
    {
        if self.change_histories.get(history_index).is_none() {
            return Err(CouncilError::OutOfRange);
        }
        self.change_histories.set_state(history_index, CouncilChangeHistoryState::NoNeedToApply);
        Ok(())
    }
}

/// The ids of `s`, each kept at its first occurrence only.
pub open spec fn dedup(s: Seq<Seq<char>>) -> Seq<Seq<char>>
    decreases s.len(),
{
    if s.len() == 0 {
        Seq::empty()
    } else {
        let d = dedup(s.drop_last());
        if d.contains(s.last()) {
            d
        } else {
            d.push(s.last())
        }
    }
}

impl CouncilKeeper {
    /// The stake registry, the ranking and the accounts are the same in both.
    pub open spec fn same_setup(&self, other: &Self) -> bool {
        &&& self.owner_id() == other.owner_id()
        &&& self.registry_account() == other.registry_account()
        &&& self.dao_account() == other.dao_account()
        &&& self.living_ids() == other.living_ids()
        &&& self.stakes() == other.stakes()
        &&& self.ranked() == other.ranked()
        &&& self.pending() == other.pending()
    }

    /// The ledger has room for the records one diff can append.
    pub open spec fn ledger_room(&self) -> bool {
        self.ledger().end() + 2 * self.ranked().len() + self.members().len() < u64::MAX
    }

    pub fn has_ledger_room(&self) -> (r: bool)
        requires
            self.wf(),
        ensures
            r == self.ledger_room(),
    {
        let end = self.change_histories.end_index() as u128;
        end + 2 * (self.ranked_validators.len() as u128) + (self.latest_members.len() as u128) < u64::MAX as u128
    }

    /// Repositions pending validators if there are any (and reports that
    /// more work follows); otherwise brings the council and the ledger in
    /// line with the ranking.
    pub fn update_council_change_histories(&mut self, budget: &mut Budget, timestamp: u64) -> (r: MultiTxsOperationProcessingResult)
        requires
            old(self).wf(),
            old(budget).wf(),
        ensures
            ledger_extends(old(self).ledger(), final(self).ledger()),
            final(self).wf(),
            final(budget).wf(),
            old(self).pending().len() > 0 ==> r is NeedMoreGas && ranks_updated(*old(self), *final(self), *old(budget), *final(budget)),
            old(self).pending().len() == 0 && old(self).ledger_room() ==> r is Completed && *final(budget) == *old(budget)
                && diff_applied(*old(self), *final(self), timestamp),
            old(self).pending().len() == 0 && !old(self).ledger_room() ==> r is Error && *final(budget) == *old(budget)
                && *final(self) == *old(self),
    {
        if self.validators_waiting_to_update_rank.len() > 0 {
            let _ = self.update_validator_ranks(budget);
            return MultiTxsOperationProcessingResult::NeedMoreGas;
        }
        if !self.has_ledger_room() {
            return MultiTxsOperationProcessingResult::Error(String::from_str("The change ledger is full."));
        }
        self.check_and_generate_change_histories(timestamp);
        MultiTxsOperationProcessingResult::Completed
    }

    pub fn set_dao_contract_account(&mut self, account_id: String)
        requires
            old(self).wf(),
        ensures
            ledger_extends(old(self).ledger(), final(self).ledger()),
            final(self).wf(),
            final(self).dao_account() == account_id@,
            final(self).owner_id() == old(self).owner_id(),
            final(self).registry_account() == old(self).registry_account(),
            final(self).living_ids() == old(self).living_ids(),
            final(self).stakes() == old(self).stakes(),
            final(self).ranked() == old(self).ranked(),
            final(self).pending() == old(self).pending(),
            final(self).max_members() == old(self).max_members(),
            final(self).members() == old(self).members(),
            final(self).excluded() == old(self).excluded(),
            final(self).ledger() == old(self).ledger(),
    {
        self.dao_contract_account = account_id;
    }

    /// Sets the council size and brings the council in line with it.
    pub fn set_max_number_of_council_members(&mut self, max_number_of_council_members: u32, timestamp: u64) -> (r: Result<(), CouncilError>)
        requires
            old(self).wf(),
        ensures
            ledger_extends(old(self).ledger(), final(self).ledger()),
            final(self).wf(),
            max_number_of_council_members == old(self).max_members() ==> r == Err::<(), CouncilError>(CouncilError::ValueUnchanged)
                && *final(self) == *old(self),
            max_number_of_council_members != old(self).max_members() && !old(self).ledger_room() ==> r == Err::<(), CouncilError>(
                CouncilError::LedgerFull) && *final(self) == *old(self),
            max_number_of_council_members != old(self).max_members() && old(self).ledger_room() ==> {
                &&& r is Ok
                &&& final(self).max_members() == max_number_of_council_members
                &&& final(self).excluded() == old(self).excluded()
                &&& final(self).same_setup(old(self))
                &&& council_diff(
                    council_target(old(self).ranked_ids(), old(self).excluded(), max_number_of_council_members as nat),
                    old(self).members(),
                    old(self).ledger(),
                    *final(self),
                    timestamp,
                )
            },
    {
        if self.max_number_of_council_members == max_number_of_council_members {
            return Err(CouncilError::ValueUnchanged);
        }
        if !self.has_ledger_room() {
            return Err(CouncilError::LedgerFull);
        }
        self.max_number_of_council_members = max_number_of_council_members;
        self.check_and_generate_change_histories(timestamp);
        Ok(())
    }

    /// Replaces the accounts kept off the council (repeats dropped) and
    /// brings the council in line.
    pub fn set_excluding_validator_accounts(&mut self, accounts: Vec<String>, timestamp: u64) -> (r: Result<(), CouncilError>)
        requires
            old(self).wf(),
        ensures
            ledger_extends(old(self).ledger(), final(self).ledger()),
            final(self).wf(),
            !old(self).ledger_room() ==> r == Err::<(), CouncilError>(CouncilError::LedgerFull) && *final(self) == *old(self),
            old(self).ledger_room() ==> {
                &&& r is Ok
                &&& final(self).excluded() == dedup(ids_view(accounts@))
                &&& final(self).max_members() == old(self).max_members()
                &&& final(self).same_setup(old(self))
                &&& council_diff(
                    council_target(old(self).ranked_ids(), dedup(ids_view(accounts@)), old(self).max_members() as nat),
                    old(self).members(),
                    old(self).ledger(),
                    *final(self),
                    timestamp,
                )
            },
    {
        if !self.has_ledger_room() {
            return Err(CouncilError::LedgerFull);
        }
        let excluded = dedup_strings(&accounts);
        self.excluding_validator_accounts = excluded;
        self.check_and_generate_change_histories(timestamp);
        Ok(())
    }

    /// A registered validator `caller` keeps itself off the council.
    pub fn exclude_validator_from_council(&mut self, caller: &String, timestamp: u64) -> (r: Result<(), CouncilError>)
        requires
            old(self).wf(),
        ensures
            ledger_extends(old(self).ledger(), final(self).ledger()),
            final(self).wf(),
            !old(self).is_registered(caller@) ==> r == Err::<(), CouncilError>(CouncilError::UnknownValidator) && *final(self) == *old(self),
            old(self).is_registered(caller@) && old(self).excluded().contains(caller@) ==> r == Err::<(), CouncilError>(
                CouncilError::AlreadyExcluded) && *final(self) == *old(self),
            old(self).is_registered(caller@) && !old(self).excluded().contains(caller@) && !old(self).ledger_room() ==> r
                == Err::<(), CouncilError>(CouncilError::LedgerFull) && *final(self) == *old(self),
            old(self).is_registered(caller@) && !old(self).excluded().contains(caller@) && old(self).ledger_room() ==> {
                &&& r is Ok
                &&& final(self).excluded() == old(self).excluded().push(caller@)
                &&& final(self).max_members() == old(self).max_members()
                &&& final(self).same_setup(old(self))
                &&& council_diff(
                    council_target(old(self).ranked_ids(), old(self).excluded().push(caller@), old(self).max_members() as nat),
                    old(self).members(),
                    old(self).ledger(),
                    *final(self),
                    timestamp,
                )
            },
    {
        match self.validator_stakes.find(caller) {
            Some(h) => {
                proof { self.lemma_handle_of(h as int); }
            },
            None => return Err(CouncilError::UnknownValidator),
        }
        if contains_id(&self.excluding_validator_accounts, caller) {
            return Err(CouncilError::AlreadyExcluded);
        }
        if !self.has_ledger_room() {
            return Err(CouncilError::LedgerFull);
        }
        let ghost e0 = self.excluded();
        self.excluding_validator_accounts.push(caller.clone());
        proof {
            assert(self.excluded() =~= e0.push(caller@));
            lemma_push_distinct(e0, caller@);
        }
        self.check_and_generate_change_histories(timestamp);
        Ok(())
    }

    /// An excluded validator `caller` becomes eligible for the council again.
    pub fn recover_excluding_validator(&mut self, caller: &String, timestamp: u64) -> (r: Result<(), CouncilError>)
        requires
            old(self).wf(),
        ensures
            ledger_extends(old(self).ledger(), final(self).ledger()),
            final(self).wf(),
            !old(self).excluded().contains(caller@) ==> r == Err::<(), CouncilError>(CouncilError::NotExcluded) && *final(self) == *old(self),
            old(self).excluded().contains(caller@) && !old(self).ledger_room() ==> r == Err::<(), CouncilError>(
                CouncilError::LedgerFull) && *final(self) == *old(self),
            old(self).excluded().contains(caller@) && old(self).ledger_room() ==> {
                &&& r is Ok
                &&& exists|i: int| 0 <= i < old(self).excluded().len() && old(self).excluded()[i] == caller@
                    && #[trigger] final(self).excluded() == old(self).excluded().remove(i)
                &&& !final(self).excluded().contains(caller@)
                &&& final(self).max_members() == old(self).max_members()
                &&& final(self).same_setup(old(self))
                &&& council_diff(
                    council_target(old(self).ranked_ids(), final(self).excluded(), old(self).max_members() as nat),
                    old(self).members(),
                    old(self).ledger(),
                    *final(self),
                    timestamp,
                )
            },
    {
        let pos = match position_of(&self.excluding_validator_accounts, caller) {
            Some(pos) => pos,
            None => return Err(CouncilError::NotExcluded),
        };
        assert(self.excluded()[pos as int] == caller@);
        if !self.has_ledger_room() {
            return Err(CouncilError::LedgerFull);
        }
        let ghost e0 = self.excluded();
        self.excluding_validator_accounts.remove(pos);
        proof {
            assert(self.excluded() =~= e0.remove(pos as int));
            assert(self.excluded().no_duplicates()) by {
                assert forall|i: int, j: int| 0 <= i < self.excluded().len() && 0 <= j < self.excluded().len() && i != j
                    implies self.excluded()[i] != self.excluded()[j] by {
                    let pi = if i < pos { i } else { i + 1 };
                    let pj = if j < pos { j } else { j + 1 };
                    assert(self.excluded()[i] == e0[pi]);
                    assert(self.excluded()[j] == e0[pj]);
                }
            }
            assert(!self.excluded().contains(caller@)) by {
                if self.excluded().contains(caller@) {
                    let q = choose|q: int| 0 <= q < self.excluded().len() && self.excluded()[q] == caller@;
                    let pq = if q < pos { q } else { q + 1 };
                    assert(e0[pq] == caller@);
                    assert(e0[pos as int] == caller@);
                }
            }
        }
        self.check_and_generate_change_histories(timestamp);
        Ok(())
    }

    /// Unseats everyone without records, prunes the whole ledger, and seats
    /// the council that the ranking calls for from scratch.
    pub fn clear_council_members_and_regenerate_change_histories(&mut self, timestamp: u64) -> (r: Result<(), CouncilError>)
        requires
            old(self).wf(),
        ensures
            ledger_extends(old(self).ledger(), final(self).ledger()),
            final(self).wf(),
            old(self).ledger().end() + 2 * old(self).ranked().len() >= u64::MAX ==> r == Err::<(), CouncilError>(
                CouncilError::LedgerFull) && *final(self) == *old(self),
            old(self).ledger().end() + 2 * old(self).ranked().len() < u64::MAX ==> {
                &&& r is Ok
                &&& final(self).ledger().start() == old(self).ledger().end()
                &&& final(self).max_members() == old(self).max_members()
                &&& final(self).excluded() == old(self).excluded()
                &&& final(self).same_setup(old(self))
                &&& final(self).ledger().records().map_values(|h: CouncilChangeHistory| record_content(h))
                    == change_records(old(self).target_members(), true, timestamp)
                &&& forall|x: Seq<char>| #[trigger] final(self).members().contains(x) <==> old(self).target_members().contains(x)
            },
    {
        let end = self.change_histories.end_index() as u128;
        if end + 2 * (self.ranked_validators.len() as u128) >= u64::MAX as u128 {
            return Err(CouncilError::LedgerFull);
        }
        let ghost k0 = *self;
        self.latest_members = Vec::new();
        self.change_histories.prune_all();
        proof {
            assert(self.members() =~= Seq::<Seq<char>>::empty());
        }
        let ghost k1 = *self;
        self.check_and_generate_change_histories(timestamp);
        proof {
            let t = k0.target_members();
            assert(k1.target_members() == t);
            assert(missing_from(Seq::<Seq<char>>::empty(), t) == Seq::<Seq<char>>::empty());
            lemma_missing_from_none(t);
            assert(change_records(Seq::<Seq<char>>::empty(), false, timestamp) =~= Seq::empty());
            assert(self.ledger().records().skip(0) =~= self.ledger().records());
            assert(change_records(t, true, timestamp) + change_records(Seq::<Seq<char>>::empty(), false, timestamp)
                =~= change_records(t, true, timestamp));
        }
        Ok(())
    }
}

proof fn lemma_missing_from_none(a: Seq<Seq<char>>)
    ensures
        missing_from(a, Seq::empty()) == a,
    decreases a.len(),
{
    if a.len() > 0 {
        lemma_missing_from_none(a.drop_last());
        assert(a.drop_last().push(a.last()) =~= a);
    }
}

/// The effect of one invocation of `update_validator_ranks`.
pub open spec fn ranks_updated(before: CouncilKeeper, after: CouncilKeeper, b0: Budget, b1: Budget) -> bool {
    let waiting0 = before.pending();
    let waiting1 = after.pending();
    &&& after.same_but_ranking(&before)
    &&& b1.spec_ceiling() == b0.spec_ceiling()
    &&& waiting1.len() == waiting0.len() - min(waiting0.len() as int, b0.remaining() as int)
    &&& waiting1 == waiting0.take(waiting1.len() as int)
    &&& b1.spec_used() == b0.spec_used() + (waiting0.len() - waiting1.len())
    &&& forall|k: int| waiting1.len() <= k < waiting0.len() ==> after.ranked().contains(#[trigger] waiting0[k])
    &&& after.ranked() == drain(before.ranked(), before.stakes(), waiting0, (waiting0.len() - waiting1.len()) as nat)
}

/// The keeper's whole state as plain values, for storage.
pub struct CouncilSnapshot {
    pub owner: String,
    pub appchain_registry_account: String,
    pub dao_contract_account: String,
    pub living_appchain_ids: Vec<String>,
    /// Validators by handle.
    pub validators: Vec<ValidatorStake>,
    /// Handles by rank.
    pub ranked_validators: Vec<u32>,
    pub max_number_of_council_members: u32,
    pub latest_members: Vec<String>,
    pub excluding_validator_accounts: Vec<String>,
    pub change_histories_start_index: u64,
    pub change_histories: Vec<CouncilChangeHistory>,
    pub validators_waiting_to_update_rank: Vec<u32>,
}

/// `s` holds exactly the state of `k`.
pub open spec fn snapshot_matches(k: CouncilKeeper, s: CouncilSnapshot) -> bool {
    &&& layout_matches(
        k,
        s.owner,
        s.appchain_registry_account,
        s.dao_contract_account,
        s.validators@,
        s.ranked_validators@,
        s.max_number_of_council_members,
        s.latest_members@,
        s.change_histories_start_index,
        s.change_histories@,
        s.validators_waiting_to_update_rank@,
    )
    &&& k.living_ids() == ids_view(s.living_appchain_ids@)
    &&& k.excluded() == ids_view(s.excluding_validator_accounts@)
}

/// `k` holds these values, all but its living appchains and excluded
/// accounts.
pub open spec fn layout_matches(
    k: CouncilKeeper,
    owner: String,
    registry: String,
    dao: String,
    validators: Seq<ValidatorStake>,
    ranked: Seq<u32>,
    max: u32,
    members: Seq<String>,
    start: u64,
    records: Seq<CouncilChangeHistory>,
    pending: Seq<u32>,
) -> bool {
    &&& k.owner_id() == owner@
    &&& k.registry_account() == registry@
    &&& k.dao_account() == dao@
    &&& k.stakes().view().len() == validators.len()
    &&& forall|h: int| 0 <= h < validators.len() ==> {
        let e = #[trigger] k.stakes().view()[h];
        &&& e.id_string() == validators[h].validator_id
        &&& e.stakes() == validators[h].stake_in_appchains@
        &&& e.total() == validators[h].total_stake
        &&& e.rank() == validators[h].overall_rank
    }
    &&& k.ranked() == ranked
    &&& k.max_members() == max
    &&& k.members() == ids_view(members)
    &&& k.ledger().start() == start
    &&& k.ledger().records() == records
    &&& k.pending() == pending
}

/// The invariant of the keeper, read off a snapshot.
pub open spec fn snapshot_valid(s: CouncilSnapshot) -> bool {
    &&& layout_valid(
        s.validators@,
        s.ranked_validators@,
        s.validators_waiting_to_update_rank@,
        s.latest_members@,
        s.change_histories_start_index,
        s.change_histories@,
    )
    &&& ids_view(s.living_appchain_ids@).no_duplicates()
    &&& ids_view(s.excluding_validator_accounts@).no_duplicates()
}

/// The invariant of the keeper over its stored parts, but for the lists of
/// living appchains and excluded accounts.
pub open spec fn layout_valid(
    vs: Seq<ValidatorStake>,
    ranked: Seq<u32>,
    pending: Seq<u32>,
    members: Seq<String>,
    start: u64,
    records: Seq<CouncilChangeHistory>,
) -> bool {
    &&& vs.len() < u32::MAX
    &&& forall|h: int| 0 <= h < vs.len() ==> #[trigger] stake_record_valid(vs[h].stake_in_appchains@, vs[h].total_stake)
    &&& forall|h: int, g: int| 0 <= h < g < vs.len() ==> #[trigger] vs[h].validator_id@ != #[trigger] vs[g].validator_id@
    &&& forall|i: int| #![trigger ranked[i]] 0 <= i < ranked.len() ==> ranked[i] < vs.len() && vs[ranked[i] as int].overall_rank == i
    &&& forall|h: u32|
        #![trigger ranked.contains(h)]
        h < vs.len() && !ranked.contains(h) ==> vs[h as int].overall_rank == u32::MAX && pending.contains(h)
    &&& pending.no_duplicates()
    &&& forall|k: int| 0 <= k < pending.len() ==> #[trigger] pending[k] < vs.len()
    &&& ids_view(members).no_duplicates()
    &&& start + records.len() <= u64::MAX
    &&& forall|k: int| 0 <= k < records.len() ==> #[trigger] records[k].index == start + k
}

/// The state as an earlier layout stored it, where the living appchains and
/// the excluded accounts were plain lists that could repeat.
pub struct OldOctopusCouncil {
    pub owner: String,
    pub appchain_registry_account: String,
    pub dao_contract_account: String,
    pub living_appchain_ids: Vec<String>,
    pub validators: Vec<ValidatorStake>,
    pub ranked_validators: Vec<u32>,
    pub max_number_of_council_members: u32,
    pub latest_members: Vec<String>,
    pub excluding_validator_accounts: Vec<String>,
    pub change_histories_start_index: u64,
    pub change_histories: Vec<CouncilChangeHistory>,
    pub validators_waiting_to_update_rank: Vec<u32>,
}

/// `v` without repeats, each id at its first occurrence.
fn dedup_strings(v: &Vec<String>) -> (r: Vec<String>)
    ensures
        ids_view(r@) == dedup(ids_view(v@)),
        ids_view(r@).no_duplicates(),
{
    let mut r: Vec<String> = Vec::new();
    let mut k: usize = 0;
    while k < v.len()
        invariant
            k <= v@.len(),
            ids_view(r@) == dedup(ids_view(v@).take(k as int)),
            ids_view(r@).no_duplicates(),
        decreases v@.len() - k,
    {
        let ghost before = r@;
        proof {
            assert(ids_view(v@).take(k + 1).drop_last() =~= ids_view(v@).take(k as int));
            assert(ids_view(v@).take(k + 1).last() == v@[k as int]@);
        }
        if !contains_id(&r, &v[k]) {
            r.push(v[k].clone());
            proof {
                assert(ids_view(r@) =~= ids_view(before).push(v@[k as int]@));
                lemma_push_distinct(ids_view(before), v@[k as int]@);
            }
        }
        k = k + 1;
    }
    proof {
        assert(ids_view(v@).take(v@.len() as int) =~= ids_view(v@));
    }
    r
}

impl CouncilKeeper {
    /// The keeper that an earlier layout describes: repeats in its lists of
    /// living appchains and excluded accounts are dropped; the rest must
    /// satisfy the keeper's invariant.
    pub fn migrate_state(old: OldOctopusCouncil) -> (r: Option<Self>)
        ensures
            r is Some <==> layout_valid(
                old.validators@,
                old.ranked_validators@,
                old.validators_waiting_to_update_rank@,
                old.latest_members@,
                old.change_histories_start_index,
                old.change_histories@,
            ),
            r matches Some(k) ==> {
                &&& k.wf()
                &&& layout_matches(
                    k,
                    old.owner,
                    old.appchain_registry_account,
                    old.dao_contract_account,
                    old.validators@,
                    old.ranked_validators@,
                    old.max_number_of_council_members,
                    old.latest_members@,
                    old.change_histories_start_index,
                    old.change_histories@,
                    old.validators_waiting_to_update_rank@,
                )
                &&& k.living_ids() == dedup(ids_view(old.living_appchain_ids@))
                &&& k.excluded() == dedup(ids_view(old.excluding_validator_accounts@))
            },
    {
        let living_appchain_ids = dedup_strings(&old.living_appchain_ids);
        let excluding_validator_accounts = dedup_strings(&old.excluding_validator_accounts);
        CouncilKeeper::restore(CouncilSnapshot {
            owner: old.owner,
            appchain_registry_account: old.appchain_registry_account,
            dao_contract_account: old.dao_contract_account,
            living_appchain_ids,
            validators: old.validators,
            ranked_validators: old.ranked_validators,
            max_number_of_council_members: old.max_number_of_council_members,
            latest_members: old.latest_members,
            excluding_validator_accounts,
            change_histories_start_index: old.change_histories_start_index,
            change_histories: old.change_histories,
            validators_waiting_to_update_rank: old.validators_waiting_to_update_rank,
        })
    }
}

/// Whether no id occurs twice among `v`.
fn strings_distinct(v: &Vec<String>) -> (r: bool)
    ensures
        r == ids_view(v@).no_duplicates(),
{
    let mut i: usize = 0;
    while i < v.len()
        invariant
            i <= v@.len(),
            forall|a: int, b: int| 0 <= a < b < i ==> v@[a]@ != v@[b]@,
        decreases v@.len() - i,
    {
        let mut j: usize = 0;
        while j < i
            invariant
                j <= i < v@.len(),
                forall|a: int| 0 <= a < j ==> v@[a]@ != v@[i as int]@,
            decreases i - j,
        {
            if v[j] == v[i] {
                assert(ids_view(v@)[j as int] == ids_view(v@)[i as int]);
                return false;
            }
            j = j + 1;
        }
        i = i + 1;
    }
    assert forall|a: int, b: int| 0 <= a < v@.len() && 0 <= b < v@.len() && a != b implies ids_view(v@)[a] != ids_view(v@)[b] by {
        if a < b {
            assert(v@[a]@ != v@[b]@);
        } else {
            assert(v@[b]@ != v@[a]@);
        }
    }
    true
}

/// Whether the handles in `v` are distinct and all below `n`.
fn handles_distinct_below(v: &Vec<u32>, n: usize) -> (r: bool)
    ensures
        r == (v@.no_duplicates() && forall|k: int| 0 <= k < v@.len() ==> #[trigger] v@[k] < n),
{
    let mut i: usize = 0;
    while i < v.len()
        invariant
            i <= v@.len(),
            forall|a: int, b: int| 0 <= a < b < i ==> v@[a] != v@[b],
            forall|a: int| 0 <= a < i ==> #[trigger] v@[a] < n,
        decreases v@.len() - i,
    {
        if v[i] as usize >= n {
            return false;
        }
        let mut j: usize = 0;
        while j < i
            invariant
                j <= i < v@.len(),
                forall|a: int| 0 <= a < j ==> v@[a] != v@[i as int],
            decreases i - j,
        {
            if v[j] == v[i] {
                return false;
            }
            j = j + 1;
        }
        i = i + 1;
    }
    assert forall|a: int, b: int| 0 <= a < v@.len() && 0 <= b < v@.len() && a != b implies v@[a] != v@[b] by {
        if a < b {
            assert(v@[a] != v@[b]);
        } else {
            assert(v@[b] != v@[a]);
        }
    }
    true
}

impl CouncilKeeper {
    /// The whole state as plain values.
    pub fn snapshot(&self) -> (s: CouncilSnapshot)
        requires
            self.wf(),
        ensures
            snapshot_matches(*self, s),
            snapshot_valid(s),
    {
        let n = self.validator_stakes.len();
        let mut validators: Vec<ValidatorStake> = Vec::new();
        let mut h: u32 = 0;
        while h < n
            invariant
                self.wf(),
                n == self.stakes().view().len(),
                h <= n,
                validators@.len() == h,
                forall|g: int| 0 <= g < h ==> {
                    let e = #[trigger] self.stakes().view()[g];
                    &&& e.id_string() == validators@[g].validator_id
                    &&& e.stakes() == validators@[g].stake_in_appchains@
                    &&& e.total() == validators@[g].total_stake
                    &&& e.rank() == validators@[g].overall_rank
                },
            decreases n - h,
        {
            validators.push(self.validator_stakes.entry(h).to_json_type());
            h = h + 1;
        }
        let records = self.change_histories.get_slice_of(self.change_histories.start_index(), None);
        proof {
            let l = self.ledger();
            assert(l.records().subrange(0, l.records().len() as int) =~= l.records());
        }
        let s = CouncilSnapshot {
            owner: self.owner.clone(),
            appchain_registry_account: self.appchain_registry_account.clone(),
            dao_contract_account: self.dao_contract_account.clone(),
            living_appchain_ids: copy_strings(&self.living_appchain_ids),
            validators,
            ranked_validators: self.ranked_validators.get_all(),
            max_number_of_council_members: self.max_number_of_council_members,
            latest_members: copy_strings(&self.latest_members),
            excluding_validator_accounts: copy_strings(&self.excluding_validator_accounts),
            change_histories_start_index: self.change_histories.start_index(),
            change_histories: records,
            validators_waiting_to_update_rank: copy_handles(&self.validators_waiting_to_update_rank),
        };
        proof {
            let vs = s.validators@;
            let st = self.stakes();
            assert forall|h: int| 0 <= h < vs.len() implies #[trigger] stake_record_valid(vs[h].stake_in_appchains@, vs[h].total_stake) by {
                assert(st.view()[h].wf());
            }
            assert forall|h: int, g: int| 0 <= h < g < vs.len() implies #[trigger] vs[h].validator_id@ != #[trigger] vs[g].validator_id@ by {
                assert(st.view()[h].id() != st.view()[g].id());
            }
            assert forall|i: int| #![trigger s.ranked_validators@[i]] 0 <= i < s.ranked_validators@.len() implies s.ranked_validators@[i] < vs.len()
                && vs[s.ranked_validators@[i] as int].overall_rank == i by {
                assert(st.holds(self.ranked()[i]));
            }
            assert forall|h: u32| #![trigger s.ranked_validators@.contains(h)] h < vs.len() && !s.ranked_validators@.contains(h) implies
                vs[h as int].overall_rank == u32::MAX && s.validators_waiting_to_update_rank@.contains(h) by {
                assert(!self.ranked().contains(h));
            }
        }
        s
    }

    /// The keeper that `s` describes, where `s` satisfies the keeper's
    /// invariant.
    pub fn restore(s: CouncilSnapshot) -> (r: Option<Self>)
        ensures
            r is Some <==> snapshot_valid(s),
            r matches Some(k) ==> k.wf() && snapshot_matches(k, s),
    {
        let ghost s0 = s;
        let n = s.validators.len();
        if n >= u32::MAX as usize {
            return None;
        }
        // Validator ids are distinct.
        let mut i: usize = 0;
        while i < n
            invariant
                n == s.validators@.len(),
                s == s0,
                i <= n,
                forall|a: int, b: int| 0 <= a < b < i ==> s.validators@[a].validator_id@ != s.validators@[b].validator_id@,
            decreases n - i,
        {
            let mut j: usize = 0;
            while j < i
                invariant
                    n == s.validators@.len(),
                    s == s0,
                    j <= i < n,
                    forall|a: int| 0 <= a < j ==> s.validators@[a].validator_id@ != s.validators@[i as int].validator_id@,
                decreases i - j,
            {
                if s.validators[j].validator_id == s.validators[i].validator_id {
                    return None;
                }
                j = j + 1;
            }
            i = i + 1;
        }
        // Each ranked validator records its index.
        let ranked_len = s.ranked_validators.len();
        let mut i: usize = 0;
        while i < ranked_len
            invariant
                n == s.validators@.len(),
                ranked_len == s.ranked_validators@.len(),
                s == s0,
                i <= ranked_len,
                forall|a: int| #![trigger s.ranked_validators@[a]] 0 <= a < i ==> s.ranked_validators@[a] < n
                    && s.validators@[s.ranked_validators@[a] as int].overall_rank == a,
            decreases ranked_len - i,
        {
            let h = s.ranked_validators[i];
            if h as usize >= n || s.validators[h as usize].overall_rank as usize != i {
                return None;
            }
            i = i + 1;
        }
        // Each unranked validator is waiting to be ranked.
        let mut h: usize = 0;
        while h < n
            invariant
                n == s.validators@.len(),
                n < u32::MAX,
                ranked_len == s.ranked_validators@.len(),
                s == s0,
                h <= n,
                forall|a: int| #![trigger s.ranked_validators@[a]] 0 <= a < ranked_len ==> s.ranked_validators@[a] < n
                    && s.validators@[s.ranked_validators@[a] as int].overall_rank == a,
                forall|g: u32| #![trigger s.ranked_validators@.contains(g)] g < h && !s.ranked_validators@.contains(g)
                    ==> s.validators@[g as int].overall_rank == u32::MAX && s.validators_waiting_to_update_rank@.contains(g),
            decreases n - h,
        {
            let rank = s.validators[h].overall_rank;
            let ranked_here = (rank as usize) < ranked_len && s.ranked_validators[rank as usize] as usize == h;
            if !ranked_here {
                proof {
                    if s.ranked_validators@.contains(h as u32) {
                        let a = choose|a: int| 0 <= a < ranked_len && s.ranked_validators@[a] == h as u32;
                        assert(s.validators@[s.ranked_validators@[a] as int].overall_rank == a);
                    }
                }
                if rank != u32::MAX || !contains_handle(&s.validators_waiting_to_update_rank, h as u32) {
                    assert(!s.ranked_validators@.contains(h as u32));
                    return None;
                }
            } else {
                assert(s.ranked_validators@[rank as int] == h as u32);
            }
            h = h + 1;
        }
        if !handles_distinct_below(&s.validators_waiting_to_update_rank, n)
            || !strings_distinct(&s.living_appchain_ids)
            || !strings_distinct(&s.latest_members)
            || !strings_distinct(&s.excluding_validator_accounts)
        {
            return None;
        }
        let change_histories = match ChangeHistories::from_records(s.change_histories_start_index, s.change_histories) {
            Some(l) => l,
            None => return None,
        };
        let ghost vs = s0.validators@;
        let entries = match entries_from_stakes(s.validators) {
            Some(entries) => entries,
            None => return None,
        };
        proof {
            assert forall|h: int, g: int| 0 <= h < g < entries@.len() implies #[trigger] entries@[h].id() != #[trigger] entries@[g].id() by {
                assert(vs[h].validator_id@ != vs[g].validator_id@);
            }
            let r = s0.ranked_validators@;
            assert(r.no_duplicates()) by {
                assert forall|a: int, b: int| 0 <= a < r.len() && 0 <= b < r.len() && a != b implies r[a] != r[b] by {
                    assert(vs[r[a] as int].overall_rank == a);
                    assert(vs[r[b] as int].overall_rank == b);
                }
            }
            lemma_distinct_handles_bounded(r, n as int);
        }
        let validator_stakes = ValidatorStakes::from_entries(entries);
        let ranked_validators = RankedLookupArray::from_slots(s.ranked_validators);
        let k = CouncilKeeper {
            owner: s.owner,
            appchain_registry_account: s.appchain_registry_account,
            dao_contract_account: s.dao_contract_account,
            living_appchain_ids: s.living_appchain_ids,
            validator_stakes,
            ranked_validators,
            max_number_of_council_members: s.max_number_of_council_members,
            latest_members: s.latest_members,
            excluding_validator_accounts: s.excluding_validator_accounts,
            change_histories,
            validators_waiting_to_update_rank: s.validators_waiting_to_update_rank,
        };
        proof {
            let st = k.stakes();
            assert forall|i: int| #![trigger k.ranked()[i]] 0 <= i < k.ranked().len() implies st.holds(k.ranked()[i])
                && st.rank(k.ranked()[i]) == i by {
                assert(s0.ranked_validators@[i] < n);
            }
            assert forall|h: u32|
                #![trigger st.view()[h as int].rank()]
                #![trigger k.ranked().contains(h)]
                h < st.view().len() && !k.ranked().contains(h) implies {
                    &&& st.view()[h as int].rank() == u32::MAX
                    &&& k.pending().contains(h)
                } by {
                assert(!s0.ranked_validators@.contains(h));
            }
        }
        Some(k)
    }
}

/// Registry entries rebuilt from plain stakes, where each is consistent.
fn entries_from_stakes(stakes: Vec<ValidatorStake>) -> (r: Option<Vec<InternalValidatorStake>>)
    ensures
        r is Some <==> forall|g: int| 0 <= g < stakes@.len() ==> #[trigger] stake_record_valid(
            stakes@[g].stake_in_appchains@,
            stakes@[g].total_stake,
        ),
        r matches Some(entries) ==> entries@.len() == stakes@.len() && forall|g: int| 0 <= g < stakes@.len() ==> {
            let e = #[trigger] entries@[g];
            &&& e.wf()
            &&& e.id_string() == stakes@[g].validator_id
            &&& e.stakes() == stakes@[g].stake_in_appchains@
            &&& e.total() == stakes@[g].total_stake
            &&& e.rank() == stakes@[g].overall_rank
        },
{
    let ghost vs = stakes@;
    let n = stakes.len();
    let mut remaining = stakes;
    let mut entries: Vec<InternalValidatorStake> = Vec::new();
    let mut k: usize = 0;
    while k < n
        invariant
            n == vs.len(),
            vs == stakes@,
            k <= n,
            remaining@ == vs.skip(k as int),
            entries@.len() == k,
            forall|g: int| 0 <= g < k ==> {
                let e = #[trigger] entries@[g];
                &&& e.wf()
                &&& e.id_string() == vs[g].validator_id
                &&& e.stakes() == vs[g].stake_in_appchains@
                &&& e.total() == vs[g].total_stake
                &&& e.rank() == vs[g].overall_rank
            },
            forall|g: int| 0 <= g < k ==> #[trigger] stake_record_valid(vs[g].stake_in_appchains@, vs[g].total_stake),
        decreases n - k,
    {
        let stake = remaining.remove(0);
        assert(stake == vs[k as int]);
        let ghost ks = k as int;
        match InternalValidatorStake::from_json_type(stake) {
            Some(e) => entries.push(e),
            None => {
                assert(!stake_record_valid(vs[ks].stake_in_appchains@, vs[ks].total_stake));
                return None;
            },
        }
        assert(remaining@ =~= vs.skip(k + 1));
        k = k + 1;
    }
    Some(entries)
}

/// A copy of a list of handles.
fn copy_handles(v: &Vec<u32>) -> (r: Vec<u32>)
    ensures
        r@ == v@,
{
    let mut r: Vec<u32> = Vec::new();
    let mut k: usize = 0;
    while k < v.len()
        invariant
            k <= v@.len(),
            r@ == v@.take(k as int),
        decreases v@.len() - k,
    {
        r.push(v[k]);
        assert(r@ =~= v@.take(k + 1));
        k = k + 1;
    }
    assert(r@ =~= v@);
    r
}

/// Whether `h` is among `v`.
fn contains_handle(v: &Vec<u32>, h: u32) -> (r: bool)
    ensures
        r == v@.contains(h),
{
    let mut k: usize = 0;
    while k < v.len()
        invariant
            k <= v@.len(),
            forall|j: int| 0 <= j < k ==> v@[j] != h,
        decreases v@.len() - k,
    {
        if v[k] == h {
            return true;
        }
        k = k + 1;
    }
    false
}

/// `after` is `before` with the stake that `appchain` reports for validator
/// `id` set to `amount`; the validator is registered and marked pending
/// where that changes its stake.
pub open spec fn stake_update(before: CouncilKeeper, after: CouncilKeeper, appchain: Seq<char>, id: Seq<char>, amount: u128) -> bool {
    let changed = amount != before.stake_of(id, appchain);
    &&& forall|i: Seq<char>, a: Seq<char>|
        #[trigger] after.stake_of(i, a) == if i == id && a == appchain {
            amount
        } else {
            before.stake_of(i, a)
        }
    &&& forall|i: Seq<char>|
        #[trigger] after.total_of(i) == if i == id {
            before.total_of(i) - before.stake_of(i, appchain) + amount
        } else {
            before.total_of(i) as int
        }
    &&& forall|i: Seq<char>| #[trigger] after.is_registered(i) == (before.is_registered(i) || (i == id && changed))
    &&& forall|i: Seq<char>| #[trigger] after.is_pending(i) == (before.is_pending(i) || (i == id && changed))
    &&& after.ranked() == before.ranked()
    &&& after.owner_id() == before.owner_id()
    &&& after.registry_account() == before.registry_account()
    &&& after.dao_account() == before.dao_account()
    &&& after.living_ids() == before.living_ids()
    &&& after.max_members() == before.max_members()
    &&& after.members() == before.members()
    &&& after.excluded() == before.excluded()
    &&& after.ledger() == before.ledger()
    &&& forall|g: int| 0 <= g < before.stakes().view().len() ==> #[trigger] after.stakes().view()[g].id() == before.stakes().view()[g].id()
}

/// The index at which `h` stands in `s`.
pub open spec fn index_in(s: Seq<u32>, h: u32) -> int {
    choose|i: int| 0 <= i < s.len() && s[i] == h
}

/// `after` is `before` once validator `h` was repositioned from where it
/// stands, or appended and repositioned if it was not ranked.
pub open spec fn reconciled(before: Seq<u32>, stakes: ValidatorStakes, h: u32, after: Seq<u32>) -> bool {
    if before.contains(h) {
        let from = index_in(before, h);
        exists|to: int| rest_position(before, stakes, from, to) && after == moved(before, from, to)
    } else {
        let s = before.push(h);
        let from = before.len() as int;
        exists|to: int| rest_position(s, stakes, from, to) && after == moved(s, from, to)
    }
}

/// The ranking once validator `h` is repositioned; rank values come from
/// `stakes`.
pub open spec fn reconcile_step(ranked: Seq<u32>, stakes: ValidatorStakes, h: u32) -> Seq<u32> {
    choose|after: Seq<u32>| reconciled(ranked, stakes, h, after)
}

/// The ranking once the last `n` pending validators are repositioned, the
/// newest first.
pub open spec fn drain(ranked: Seq<u32>, stakes: ValidatorStakes, pending: Seq<u32>, n: nat) -> Seq<u32>
    decreases n,
{
    if n == 0 || n > pending.len() {
        ranked
    } else {
        reconcile_step(drain(ranked, stakes, pending, (n - 1) as nat), stakes, pending[pending.len() - n])
    }
}

/// Draining the pending validators in several invocations ends in the same
/// ranking as draining them in one: `a` steps, then `b` steps on what is
/// still pending, make `a + b` steps.
pub proof fn lemma_drain_resumable(ranked: Seq<u32>, stakes: ValidatorStakes, pending: Seq<u32>, a: nat, b: nat)
    requires
        a + b <= pending.len(),
    ensures
        drain(drain(ranked, stakes, pending, a), stakes, pending.take(pending.len() - a), b) == drain(
            ranked,
            stakes,
            pending,
            a + b,
        ),
    decreases b,
{
    if b > 0 {
        lemma_drain_resumable(ranked, stakes, pending, a, (b - 1) as nat);
        let q = pending.take(pending.len() - a);
        assert(q[q.len() - b] == pending[pending.len() - (a + b)]);
    }
}

/// Descending order comes back once the only validator out of place is
/// repositioned: where `h` is ranked and everything else is in order, or `h`
/// is not ranked yet and the ranking is in order.
pub proof fn lemma_reconcile_sorts(ranked: Seq<u32>, stakes: ValidatorStakes, h: u32)
    requires
        ranked.contains(h) ==> crate::ranked_lookup_array::sorted_except(ranked, stakes, index_in(ranked, h)),
        !ranked.contains(h) ==> crate::ranked_lookup_array::sorted_by(ranked, stakes),
        exists|after: Seq<u32>| reconciled(ranked, stakes, h, after),
    ensures
        crate::ranked_lookup_array::sorted_by(reconcile_step(ranked, stakes, h), stakes),
{
    let after = reconcile_step(ranked, stakes, h);
    assert(reconciled(ranked, stakes, h, after));
    if ranked.contains(h) {
        let from = index_in(ranked, h);
        let to = choose|to: int| rest_position(ranked, stakes, from, to) && after == moved(ranked, from, to);
        crate::ranked_lookup_array::lemma_reposition_sorts(ranked, stakes, from, to);
    } else {
        let s = ranked.push(h);
        let from = ranked.len() as int;
        let to = choose|to: int| rest_position(s, stakes, from, to) && after == moved(s, from, to);
        assert(crate::ranked_lookup_array::sorted_except(s, stakes, from));
        crate::ranked_lookup_array::lemma_reposition_sorts(s, stakes, from, to);
    }
}

proof fn lemma_reconciled_unique(before: Seq<u32>, stakes: ValidatorStakes, h: u32, a1: Seq<u32>, a2: Seq<u32>)
    requires
        reconciled(before, stakes, h, a1),
        reconciled(before, stakes, h, a2),
    ensures
        a1 == a2,
{
    if before.contains(h) {
        let from = index_in(before, h);
        let t1 = choose|to: int| rest_position(before, stakes, from, to) && a1 == moved(before, from, to);
        let t2 = choose|to: int| rest_position(before, stakes, from, to) && a2 == moved(before, from, to);
        lemma_rest_position_unique(before, stakes, from, t1, t2);
    } else {
        let s = before.push(h);
        let from = before.len() as int;
        let t1 = choose|to: int| rest_position(s, stakes, from, to) && a1 == moved(s, from, to);
        let t2 = choose|to: int| rest_position(s, stakes, from, to) && a2 == moved(s, from, to);
        lemma_rest_position_unique(s, stakes, from, t1, t2);
    }
}

proof fn lemma_same_rank_values(st1: ValidatorStakes, st2: ValidatorStakes)
    requires
        st1.unranked() == st2.unranked(),
    ensures
        forall|m: u32| #[trigger] st1.rank_value(m) == st2.rank_value(m),
{
    assert(st1.unranked().len() == st1.view().len());
    assert(st2.unranked().len() == st2.view().len());
    assert forall|m: u32| #[trigger] st1.rank_value(m) == st2.rank_value(m) by {
        if m < st1.view().len() {
            assert(st1.unranked()[m as int] == st2.unranked()[m as int]);
        }
    }
}

/// Rank values, not back-references, decide a repositioning.
proof fn lemma_reconciled_values(before: Seq<u32>, st1: ValidatorStakes, st2: ValidatorStakes, h: u32, after: Seq<u32>)
    requires
        reconciled(before, st1, h, after),
        forall|m: u32| #[trigger] st1.rank_value(m) == st2.rank_value(m),
    ensures
        reconciled(before, st2, h, after),
        reconcile_step(before, st2, h) == after,
{
    if before.contains(h) {
        let from = index_in(before, h);
        let to = choose|to: int| rest_position(before, st1, from, to) && after == moved(before, from, to);
        lemma_rest_position_values(before, st1, st2, from, to);
    } else {
        let s = before.push(h);
        let from = before.len() as int;
        let to = choose|to: int| rest_position(s, st1, from, to) && after == moved(s, from, to);
        lemma_rest_position_values(s, st1, st2, from, to);
    }
    lemma_reconciled_unique(before, st2, h, after, reconcile_step(before, st2, h));
}

proof fn lemma_reconciled_keeps(before: Seq<u32>, stakes: ValidatorStakes, h: u32, after: Seq<u32>, m: u32)
    requires
        reconciled(before, stakes, h, after),
        linked(before, stakes),
        before.contains(m),
    ensures
        after.contains(m),
{
    if before.contains(h) {
        let from = index_in(before, h);
        let to = choose|to: int| rest_position(before, stakes, from, to) && after == moved(before, from, to);
        lemma_moved_keeps_members(before, from, to);
    } else {
        let s = before.push(h);
        let from = before.len() as int;
        let to = choose|to: int| rest_position(s, stakes, from, to) && after == moved(s, from, to);
        lemma_moved_keeps_members(s, from, to);
        let i = choose|i: int| 0 <= i < before.len() && before[i] == m;
        assert(s[i] == m);
    }
}

proof fn lemma_linked_distinct(s: Seq<u32>, stakes: ValidatorStakes)
    requires
        linked(s, stakes),
    ensures
        s.no_duplicates(),
{
    assert forall|i: int, j: int| 0 <= i < s.len() && 0 <= j < s.len() && i != j implies s[i] != s[j] by {
        assert(stakes.rank(s[i]) == i);
        assert(stakes.rank(s[j]) == j);
    }
}

/// Distinct handles below `n` are at most `n`.
proof fn lemma_distinct_handles_bounded(s: Seq<u32>, n: int)
    requires
        s.no_duplicates(),
        0 <= n,
        forall|k: int| 0 <= k < s.len() ==> s[k] < n,
    ensures
        s.len() <= n,
{
    let t = s.map_values(|x: u32| x as int);
    assert(t.no_duplicates()) by {
        assert forall|i: int, j: int| 0 <= i < t.len() && 0 <= j < t.len() && i != j implies t[i] != t[j] by {
            assert(s[i] != s[j]);
        }
    }
    t.unique_seq_to_set();
    lemma_int_range(0, n);
    assert(t.to_set().subset_of(set_int_range(0, n)));
    lemma_len_subset(t.to_set(), set_int_range(0, n));
}

/// Every ranked validator's recorded index is the index at which it stands.
pub proof fn lemma_back_references(k: CouncilKeeper)
    requires
        k.wf(),
    ensures
        forall|i: int| 0 <= i < k.ranked().len() ==> #[trigger] k.stakes().view()[k.ranked()[i] as int].rank() == i,
{
    assert forall|i: int| 0 <= i < k.ranked().len() implies #[trigger] k.stakes().view()[k.ranked()[i] as int].rank() == i by {
        assert(k.stakes().holds(k.ranked()[i]));
        assert(k.stakes().rank(k.ranked()[i]) == i);
    }
}

proof fn lemma_no_dot_count(s: Seq<char>)
    requires
        forall|i: int| 0 <= i < s.len() ==> s[i] != '.',
    ensures
        dot_count(s) == 0,
    decreases s.len(),
{
    if s.len() > 0 {
        lemma_no_dot_count(s.drop_last());
    }
}

} // verus!
