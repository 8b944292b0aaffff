use council_keeper::batch::Budget;
use council_keeper::council::CouncilKeeper;
use council_keeper::types::ValidatorStakeRecord;

fn settled_keeper() -> CouncilKeeper {
    let mut k = CouncilKeeper::new(
        &"octopus-council.octopus-registry.near".to_string(),
        2,
        "dao.near".to_string(),
    )
    .unwrap();
    let records = vec![
        ValidatorStakeRecord { validator_id: "a".to_string(), total_stake: 100 },
        ValidatorStakeRecord { validator_id: "b".to_string(), total_stake: 300 },
        ValidatorStakeRecord { validator_id: "c".to_string(), total_stake: 200 },
    ];
    k.sync_validator_stakes_of_anchor(&"appchain1.octopus-registry.near".to_string(), records).unwrap();
    loop {
        let mut budget = Budget::new(100);
        if k.update_council_change_histories(&mut budget, 5).is_ok() {
            break;
        }
    }
    k
}

#[test]
fn snapshot_round_trips() {
    let k = settled_keeper();
    let snapshot = k.snapshot();
    assert_eq!(snapshot.appchain_registry_account, "octopus-registry.near");
    assert_eq!(snapshot.ranked_validators, vec![1, 2, 0]);
    assert_eq!(snapshot.change_histories.len(), 2);
    let restored = CouncilKeeper::restore(snapshot).unwrap();
    assert_eq!(restored.get_council_members(), k.get_council_members());
    let ids: Vec<String> = restored
        .get_ranked_validator_stakes(0, None)
        .into_iter()
        .map(|s| s.validator_id)
        .collect();
    assert_eq!(ids, vec!["b", "c", "a"]);
    assert_eq!(restored.get_council_change_histories(0, None).len(), 2);
}

#[test]
fn restore_rejects_broken_back_reference() {
    let mut snapshot = settled_keeper().snapshot();
    snapshot.validators[0].overall_rank = 0;
    assert!(CouncilKeeper::restore(snapshot).is_none());
}

#[test]
fn restore_rejects_wrong_total() {
    let mut snapshot = settled_keeper().snapshot();
    snapshot.validators[1].total_stake += 1;
    assert!(CouncilKeeper::restore(snapshot).is_none());
}

#[test]
fn restore_rejects_gap_in_ledger() {
    let mut snapshot = settled_keeper().snapshot();
    snapshot.change_histories[1].index = 5;
    assert!(CouncilKeeper::restore(snapshot).is_none());
}

#[test]
fn restore_rejects_repeated_member() {
    let mut snapshot = settled_keeper().snapshot();
    let first = snapshot.latest_members[0].clone();
    snapshot.latest_members.push(first);
    assert!(CouncilKeeper::restore(snapshot).is_none());
}

#[test]
fn restore_rejects_unranked_validator_not_pending() {
    let mut snapshot = settled_keeper().snapshot();
    snapshot.ranked_validators.pop();
    assert!(CouncilKeeper::restore(snapshot).is_none());
}

#[test]
fn full_ledger_refuses_new_records() {
    let mut snapshot = settled_keeper().snapshot();
    snapshot.change_histories_start_index = u64::MAX - 3;
    snapshot.change_histories.clear();
    let mut k = CouncilKeeper::restore(snapshot).unwrap();
    assert_eq!(
        k.set_max_number_of_council_members(3, 6),
        Err(council_keeper::types::CouncilError::LedgerFull)
    );
    assert_eq!(k.get_max_number_of_council_members(), 2);
    let mut budget = Budget::new(10);
    assert!(k.update_council_change_histories(&mut budget, 6).is_error());
}

#[test]
fn migration_drops_repeats_from_old_lists() {
    let s = settled_keeper().snapshot();
    let old = council_keeper::council::OldOctopusCouncil {
        owner: s.owner,
        appchain_registry_account: s.appchain_registry_account,
        dao_contract_account: s.dao_contract_account,
        living_appchain_ids: vec!["appchain1".to_string(), "appchain2".to_string(), "appchain1".to_string()],
        validators: s.validators,
        ranked_validators: s.ranked_validators,
        max_number_of_council_members: s.max_number_of_council_members,
        latest_members: s.latest_members,
        excluding_validator_accounts: vec!["x".to_string(), "x".to_string()],
        change_histories_start_index: s.change_histories_start_index,
        change_histories: s.change_histories,
        validators_waiting_to_update_rank: s.validators_waiting_to_update_rank,
    };
    let k = CouncilKeeper::migrate_state(old).unwrap();
    assert_eq!(k.get_living_appchain_ids(), vec!["appchain1".to_string(), "appchain2".to_string()]);
    assert_eq!(k.get_excluding_validator_accounts(), vec!["x".to_string()]);
    assert_eq!(k.get_council_change_histories(0, None).len(), 2);
}
