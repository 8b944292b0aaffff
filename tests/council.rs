use council_keeper::batch::Budget;
use council_keeper::council::CouncilKeeper;
use council_keeper::types::{
    CouncilChangeAction, CouncilChangeHistory, CouncilChangeHistoryState, CouncilError, DaoRequest,
    PromiseOutcome, ProposalKind, ValidatorStakeRecord,
};

const ANCHOR: &str = "appchain1.octopus-registry.near";

fn keeper(max: u32) -> CouncilKeeper {
    CouncilKeeper::new(
        &"octopus-council.octopus-registry.near".to_string(),
        max,
        "dao.near".to_string(),
    )
    .unwrap()
}

fn records(list: &[(&str, u128)]) -> Vec<ValidatorStakeRecord> {
    list.iter()
        .map(|(id, amount)| ValidatorStakeRecord { validator_id: id.to_string(), total_stake: *amount })
        .collect()
}

fn sync(k: &mut CouncilKeeper, list: &[(&str, u128)]) {
    k.sync_validator_stakes_of_anchor(&ANCHOR.to_string(), records(list)).unwrap();
}

fn settle(k: &mut CouncilKeeper, timestamp: u64) {
    loop {
        let mut budget = Budget::new(100);
        let result = k.update_council_change_histories(&mut budget, timestamp);
        assert!(!result.is_error());
        if result.is_ok() {
            break;
        }
    }
}

fn ranked_ids(k: &CouncilKeeper) -> Vec<String> {
    k.get_ranked_validator_stakes(0, None).into_iter().map(|s| s.validator_id).collect()
}

fn added(h: &CouncilChangeHistory) -> Option<String> {
    match &h.action {
        CouncilChangeAction::MemberAdded(id) => Some(id.clone()),
        _ => None,
    }
}

fn removed(h: &CouncilChangeHistory) -> Option<String> {
    match &h.action {
        CouncilChangeAction::MemberRemoved(id) => Some(id.clone()),
        _ => None,
    }
}

fn sorted(mut v: Vec<String>) -> Vec<String> {
    v.sort();
    v
}

#[test]
fn new_takes_registry_after_first_separator() {
    let k = keeper(3);
    assert_eq!(k.get_max_number_of_council_members(), 3);
    assert_eq!(k.version(), "v0.4.0");
    assert_eq!(
        CouncilKeeper::new(&"council.near".to_string(), 3, "dao.near".to_string()).err(),
        Some(CouncilError::NotUnderRegistry)
    );
    let mut k = keeper(3);
    assert_eq!(
        k.sync_validator_stakes_of_anchor(&"appchain1.other.near".to_string(), records(&[("a", 1)])),
        Err(CouncilError::NotAnAnchor)
    );
    assert_eq!(
        k.sync_validator_stakes_of_anchor(&"registryless".to_string(), records(&[("a", 1)])),
        Err(CouncilError::NotAnAnchor)
    );
    assert!(k.get_living_appchain_ids().is_empty());
}

#[test]
fn sync_records_stakes_and_living_appchains() {
    let mut k = keeper(3);
    sync(&mut k, &[("a", 100), ("b", 50)]);
    k.sync_validator_stakes_of_anchor(
        &"appchain2.octopus-registry.near".to_string(),
        records(&[("a", 30)]),
    )
    .unwrap();
    sync(&mut k, &[("b", 60), ("b", 70)]);
    assert_eq!(k.get_living_appchain_ids(), vec!["appchain1".to_string(), "appchain2".to_string()]);
    let a = k.get_validator_stake_of(&"a".to_string()).unwrap();
    assert_eq!(a.total_stake, 130);
    assert_eq!(
        a.stake_in_appchains,
        vec![("appchain1".to_string(), 100), ("appchain2".to_string(), 30)]
    );
    assert_eq!(k.get_validator_stake_of(&"b".to_string()).unwrap().total_stake, 70);
    assert!(k.get_validator_stake_of(&"c".to_string()).is_none());
    assert_eq!(k.number_of_validators(), 2);
}

#[test]
fn zero_stake_report_registers_nobody() {
    let mut k = keeper(3);
    sync(&mut k, &[("ghost", 0)]);
    assert_eq!(k.number_of_validators(), 0);
    let mut budget = Budget::new(10);
    assert!(k.update_council_change_histories(&mut budget, 1).is_ok());
    assert!(k.get_council_change_histories(0, None).is_empty());
}

#[test]
fn stake_overflow_rejects_the_whole_report() {
    let mut k = keeper(3);
    k.sync_validator_stakes_of_anchor(
        &"appchain2.octopus-registry.near".to_string(),
        records(&[("a", u128::MAX - 5)]),
    )
    .unwrap();
    assert_eq!(
        k.sync_validator_stakes_of_anchor(&ANCHOR.to_string(), records(&[("b", 1), ("a", 6)])),
        Err(CouncilError::StakeOverflow)
    );
    assert!(k.get_validator_stake_of(&"b".to_string()).is_none());
    assert_eq!(k.get_living_appchain_ids(), vec!["appchain2".to_string()]);
    sync(&mut k, &[("a", 5)]);
    assert_eq!(k.get_validator_stake_of(&"a".to_string()).unwrap().total_stake, u128::MAX);
}

#[test]
fn ranking_follows_stake_updates() {
    let mut k = keeper(3);
    sync(&mut k, &[("a", 100), ("b", 50), ("c", 200)]);
    settle(&mut k, 1);
    assert_eq!(ranked_ids(&k), vec!["c", "a", "b"]);
    sync(&mut k, &[("b", 300)]);
    settle(&mut k, 2);
    assert_eq!(ranked_ids(&k), vec!["b", "c", "a"]);
    let stakes = k.get_ranked_validator_stakes(0, None);
    for (i, s) in stakes.iter().enumerate() {
        assert_eq!(s.overall_rank, i as u32);
    }
    let page = k.get_ranked_validator_stakes(1, Some(1));
    assert_eq!(page.len(), 1);
    assert_eq!(page[0].validator_id, "c");
    assert_eq!(page[0].total_stake, 200);
}

#[test]
fn top_members_become_the_council() {
    let mut k = keeper(2);
    sync(&mut k, &[("a", 100), ("b", 300), ("c", 200)]);
    settle(&mut k, 7);
    let histories = k.get_council_change_histories(0, None);
    assert_eq!(histories.len(), 2);
    assert_eq!(added(&histories[0]), Some("b".to_string()));
    assert_eq!(added(&histories[1]), Some("c".to_string()));
    for (i, h) in histories.iter().enumerate() {
        assert_eq!(h.index, i as u64);
        assert_eq!(h.state, CouncilChangeHistoryState::WaitingForApplying);
        assert_eq!(h.timestamp, 7);
    }
    assert_eq!(sorted(k.get_council_members()), vec!["b", "c"]);
}

#[test]
fn diff_appends_only_the_symmetric_difference() {
    let mut k = keeper(2);
    sync(&mut k, &[("a", 100), ("b", 300), ("c", 200)]);
    settle(&mut k, 1);
    sync(&mut k, &[("a", 400), ("c", 10)]);
    settle(&mut k, 2);
    let histories = k.get_council_change_histories(2, None);
    assert_eq!(histories.len(), 2);
    assert_eq!(added(&histories[0]), Some("a".to_string()));
    assert_eq!(removed(&histories[1]), Some("c".to_string()));
    assert_eq!(histories[1].index, 3);
    assert_eq!(sorted(k.get_council_members()), vec!["a", "b"]);
    let mut budget = Budget::new(10);
    assert!(k.update_council_change_histories(&mut budget, 3).is_ok());
    assert_eq!(k.get_council_change_histories(0, None).len(), 4);
}

#[test]
fn zero_seats_mean_no_council() {
    let mut k = keeper(0);
    sync(&mut k, &[("a", 100)]);
    settle(&mut k, 1);
    assert!(k.get_council_members().is_empty());
    assert!(k.get_council_change_histories(0, None).is_empty());
}

#[test]
fn reconcile_ranks_resumes_to_same_state() {
    let list = [("a", 5), ("b", 9), ("c", 1), ("d", 7), ("e", 3)];
    let mut split = keeper(3);
    let mut whole = keeper(3);
    sync(&mut split, &list);
    sync(&mut whole, &list);
    let mut rounds = 0;
    loop {
        let mut budget = Budget::new(2);
        let result = split.update_validator_ranks(&mut budget);
        rounds += 1;
        if result.is_ok() {
            break;
        }
        assert!(result.is_need_more_gas());
        assert_eq!(budget.used(), 2);
    }
    assert_eq!(rounds, 3);
    let mut budget = Budget::new(1000);
    assert!(whole.update_validator_ranks(&mut budget).is_ok());
    assert_eq!(budget.used(), 5);
    assert_eq!(ranked_ids(&split), ranked_ids(&whole));
    assert_eq!(ranked_ids(&whole), vec!["b", "d", "a", "e", "c"]);
}

#[test]
fn zero_budget_makes_no_progress() {
    let mut k = keeper(3);
    sync(&mut k, &[("a", 5)]);
    let mut budget = Budget::new(0);
    assert!(k.update_validator_ranks(&mut budget).is_need_more_gas());
    assert!(k.get_ranked_validator_stakes(0, None).is_empty());
}

#[test]
fn max_members_setting_reshapes_council() {
    let mut k = keeper(1);
    sync(&mut k, &[("a", 100), ("b", 300), ("c", 200)]);
    settle(&mut k, 1);
    assert_eq!(k.set_max_number_of_council_members(1, 2), Err(CouncilError::ValueUnchanged));
    k.set_max_number_of_council_members(3, 2).unwrap();
    assert_eq!(k.get_max_number_of_council_members(), 3);
    assert_eq!(sorted(k.get_council_members()), vec!["a", "b", "c"]);
    let histories = k.get_council_change_histories(1, None);
    assert_eq!(added(&histories[0]), Some("c".to_string()));
    assert_eq!(added(&histories[1]), Some("a".to_string()));
    k.set_max_number_of_council_members(1, 3).unwrap();
    assert_eq!(k.get_council_members(), vec!["b".to_string()]);
    assert_eq!(k.get_council_change_histories(0, None).len(), 5);
}

#[test]
fn excluded_validators_stay_off_the_council() {
    let mut k = keeper(2);
    sync(&mut k, &[("a", 100), ("b", 300), ("c", 200)]);
    settle(&mut k, 1);
    assert_eq!(k.exclude_validator_from_council(&"zed".to_string(), 2), Err(CouncilError::UnknownValidator));
    k.exclude_validator_from_council(&"b".to_string(), 2).unwrap();
    assert_eq!(k.exclude_validator_from_council(&"b".to_string(), 2), Err(CouncilError::AlreadyExcluded));
    assert_eq!(sorted(k.get_council_members()), vec!["a", "c"]);
    assert_eq!(k.get_excluding_validator_accounts(), vec!["b".to_string()]);
    assert_eq!(k.recover_excluding_validator(&"a".to_string(), 3), Err(CouncilError::NotExcluded));
    k.recover_excluding_validator(&"b".to_string(), 3).unwrap();
    assert!(k.get_excluding_validator_accounts().is_empty());
    assert_eq!(sorted(k.get_council_members()), vec!["b", "c"]);
    k.set_excluding_validator_accounts(vec!["c".to_string(), "a".to_string(), "c".to_string()], 4).unwrap();
    assert_eq!(k.get_excluding_validator_accounts(), vec!["c".to_string(), "a".to_string()]);
    assert_eq!(k.get_council_members(), vec!["b".to_string()]);
}

#[test]
fn regenerate_prunes_ledger_and_reseats() {
    let mut k = keeper(2);
    sync(&mut k, &[("a", 100), ("b", 300), ("c", 200)]);
    settle(&mut k, 1);
    k.clear_council_members_and_regenerate_change_histories(9).unwrap();
    let histories = k.get_council_change_histories(0, None);
    assert_eq!(histories.len(), 2);
    assert_eq!(histories[0].index, 2);
    assert_eq!(histories[1].index, 3);
    assert_eq!(added(&histories[0]), Some("b".to_string()));
    assert_eq!(histories[0].timestamp, 9);
    assert_eq!(sorted(k.get_council_members()), vec!["b", "c"]);
}

#[test]
fn ledger_pages_clamp_to_held_records() {
    let mut k = keeper(3);
    sync(&mut k, &[("a", 100), ("b", 300), ("c", 200)]);
    settle(&mut k, 1);
    assert_eq!(k.get_council_change_histories(1, Some(1)).len(), 1);
    assert_eq!(k.get_council_change_histories(1, Some(1))[0].index, 1);
    assert_eq!(k.get_council_change_histories(2, Some(5)).len(), 1);
    assert!(k.get_council_change_histories(7, None).is_empty());
}

#[test]
fn dao_account_can_be_replaced() {
    let mut k = keeper(3);
    k.set_dao_contract_account("dao2.near".to_string());
    sync(&mut k, &[("a", 1)]);
    settle(&mut k, 1);
    assert_eq!(k.get_council_members(), vec!["a".to_string()]);
}

fn proposal_keeper() -> CouncilKeeper {
    let mut k = keeper(2);
    sync(&mut k, &[("a", 100), ("b", 300), ("c", 200)]);
    settle(&mut k, 1);
    k
}

#[test]
fn apply_issues_one_submit_per_waiting_record() {
    let k = proposal_keeper();
    let mut budget = Budget::new(100);
    let outcome = k.apply_change_histories_to_dao_contract(0, &mut budget);
    assert!(outcome.result.is_ok());
    assert_eq!(outcome.next_index, 2);
    assert_eq!(outcome.requests.len(), 2);
    match &outcome.requests[0] {
        DaoRequest::AddProposal { history_index, member_id, kind } => {
            assert_eq!(*history_index, 0);
            assert_eq!(member_id, "b");
            assert_eq!(*kind, ProposalKind::AddMemberToRole);
        }
        _ => panic!("expected a proposal"),
    }
}

#[test]
fn failed_submit_is_retried_exactly_once_per_pass() {
    let mut k = proposal_keeper();
    assert_eq!(k.resolve_add_proposal(0, &PromiseOutcome::Failed), Ok(None));
    assert_eq!(
        k.get_council_change_histories(0, Some(1))[0].state,
        CouncilChangeHistoryState::WaitingForApplying
    );
    let mut budget = Budget::new(100);
    let outcome = k.apply_change_histories_to_dao_contract(0, &mut budget);
    let for_first: Vec<&DaoRequest> = outcome
        .requests
        .iter()
        .filter(|r| matches!(r, DaoRequest::AddProposal { history_index: 0, .. }))
        .collect();
    assert_eq!(for_first.len(), 1);
}

#[test]
fn successful_submit_records_proposal_and_asks_for_vote() {
    let mut k = proposal_keeper();
    let answer = k.resolve_add_proposal(1, &PromiseOutcome::Successful(b"42".to_vec())).unwrap();
    match answer {
        Some(DaoRequest::ActProposal { history_index, proposal_id }) => {
            assert_eq!(history_index, 1);
            assert_eq!(proposal_id, 42);
        }
        _ => panic!("expected a vote"),
    }
    let record = &k.get_council_change_histories(1, Some(1))[0];
    assert_eq!(record.state, CouncilChangeHistoryState::ProposalAdded(42));
    assert_eq!(added(record), Some("c".to_string()));
    assert_eq!(record.timestamp, 1);
    // A pass now votes on the proposal instead of proposing again.
    let mut budget = Budget::new(100);
    let outcome = k.apply_change_histories_to_dao_contract(1, &mut budget);
    assert_eq!(outcome.requests.len(), 1);
    assert!(matches!(outcome.requests[0], DaoRequest::ActProposal { history_index: 1, proposal_id: 42 }));
    // A late duplicate answer leaves the record alone.
    assert_eq!(k.resolve_add_proposal(1, &PromiseOutcome::Successful(b"43".to_vec())), Ok(None));
    assert_eq!(
        k.get_council_change_histories(1, Some(1))[0].state,
        CouncilChangeHistoryState::ProposalAdded(42)
    );
}

#[test]
fn approved_vote_finishes_record() {
    let mut k = proposal_keeper();
    k.record_proposal_added(0, 7).unwrap();
    assert_eq!(k.resolve_act_proposal(0, &PromiseOutcome::Failed), Ok(()));
    assert_eq!(
        k.get_council_change_histories(0, Some(1))[0].state,
        CouncilChangeHistoryState::ProposalAdded(7)
    );
    assert_eq!(k.resolve_act_proposal(0, &PromiseOutcome::Successful(Vec::new())), Ok(()));
    assert_eq!(
        k.get_council_change_histories(0, Some(1))[0].state,
        CouncilChangeHistoryState::ProposalApproved(7)
    );
    let mut budget = Budget::new(100);
    let outcome = k.apply_change_histories_to_dao_contract(0, &mut budget);
    assert_eq!(outcome.requests.len(), 1);
    assert!(matches!(outcome.requests[0], DaoRequest::AddProposal { history_index: 1, .. }));
}

#[test]
fn callbacks_reject_inconsistent_states() {
    let mut k = proposal_keeper();
    assert_eq!(
        k.resolve_act_proposal(0, &PromiseOutcome::Successful(Vec::new())),
        Err(CouncilError::InternalConsistency)
    );
    assert_eq!(
        k.resolve_add_proposal(9, &PromiseOutcome::Successful(b"1".to_vec())),
        Err(CouncilError::OutOfRange)
    );
    assert_eq!(
        k.resolve_add_proposal(0, &PromiseOutcome::Successful(b"not a number".to_vec())),
        Err(CouncilError::MalformedResponse)
    );
    assert_eq!(k.mark_no_need_to_apply(5), Err(CouncilError::OutOfRange));
    k.mark_no_need_to_apply(0).unwrap();
    assert_eq!(
        k.resolve_add_proposal(0, &PromiseOutcome::Successful(b"3".to_vec())),
        Err(CouncilError::InternalConsistency)
    );
    assert_eq!(
        k.get_council_change_histories(0, Some(1))[0].state,
        CouncilChangeHistoryState::NoNeedToApply
    );
    let mut budget = Budget::new(100);
    let outcome = k.apply_change_histories_to_dao_contract(0, &mut budget);
    assert_eq!(outcome.requests.len(), 1);
}

#[test]
fn apply_resumes_where_it_stopped() {
    let mut k = keeper(4);
    sync(&mut k, &[("a", 4), ("b", 3), ("c", 2), ("d", 1)]);
    settle(&mut k, 1);
    let mut budget = Budget::new(100);
    let whole = k.apply_change_histories_to_dao_contract(0, &mut budget);
    let mut collected = Vec::new();
    let mut start = 0;
    let mut passes = 0;
    loop {
        let mut budget = Budget::new(3);
        let pass = k.apply_change_histories_to_dao_contract(start, &mut budget);
        passes += 1;
        collected.extend(pass.requests.iter().map(|r| format!("{:?}", r)));
        start = pass.next_index;
        if pass.result.is_ok() {
            break;
        }
    }
    assert_eq!(passes, 2);
    let whole: Vec<String> = whole.requests.iter().map(|r| format!("{:?}", r)).collect();
    assert_eq!(collected, whole);
    let mut budget = Budget::new(3);
    let past_end = k.apply_change_histories_to_dao_contract(10, &mut budget);
    assert!(past_end.result.is_ok());
    assert!(past_end.requests.is_empty());
    assert_eq!(budget.used(), 0);
}

#[test]
fn living_appchains_are_listed_once() {
    let mut k = keeper(3);
    assert_eq!(k.assert_and_update_living_appchain_ids(&ANCHOR.to_string()), Ok("appchain1".to_string()));
    assert_eq!(k.assert_and_update_living_appchain_ids(&ANCHOR.to_string()), Ok("appchain1".to_string()));
    assert_eq!(k.get_living_appchain_ids(), vec!["appchain1".to_string()]);
    assert_eq!(k.appchain_id_of_anchor(&"x.y".to_string()), None);
}

#[test]
fn repeated_passes_change_nothing_and_repeat_the_same_calls() {
    let mut k = proposal_keeper();
    k.record_proposal_added(0, 11).unwrap();
    let mut first_budget = Budget::new(100);
    let first = k.apply_change_histories_to_dao_contract(0, &mut first_budget);
    let mut second_budget = Budget::new(100);
    let second = k.apply_change_histories_to_dao_contract(0, &mut second_budget);
    assert_eq!(first.requests, second.requests);
    assert_eq!(
        first.requests,
        vec![
            DaoRequest::ActProposal { history_index: 0, proposal_id: 11 },
            DaoRequest::AddProposal {
                history_index: 1,
                member_id: "c".to_string(),
                kind: ProposalKind::AddMemberToRole
            },
        ]
    );
    assert_eq!(k.get_council_change_histories(0, None).len(), 2);
}
