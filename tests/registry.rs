use council_keeper::types::ValidatorStakeRecord;
use council_keeper::validator_stakes::InternalValidatorStake;

fn record(id: &str, amount: u128) -> ValidatorStakeRecord {
    ValidatorStakeRecord { validator_id: id.to_string(), total_stake: amount }
}

#[test]
fn stake_total_sums_sources() {
    let mut stake = InternalValidatorStake::new(&"alice".to_string());
    assert_eq!(stake.overall_rank(), u32::MAX);
    assert!(stake.update_stake_record(&"chain1".to_string(), &record("alice", 100)));
    assert!(stake.update_stake_record(&"chain2".to_string(), &record("alice", 40)));
    assert_eq!(stake.total_stake(), 140);
    assert!(stake.update_stake_record(&"chain1".to_string(), &record("alice", 70)));
    assert_eq!(stake.total_stake(), 110);
    assert!(!stake.update_stake_record(&"chain2".to_string(), &record("alice", 40)));
    assert_eq!(stake.stake_in_appchain(&"chain1".to_string()), 70);
    assert_eq!(stake.stake_in_appchain(&"chain3".to_string()), 0);
    let view = stake.to_json_type();
    assert_eq!(view.validator_id, "alice");
    assert_eq!(view.total_stake, 110);
    assert_eq!(
        view.stake_in_appchains,
        vec![("chain1".to_string(), 70), ("chain2".to_string(), 40)]
    );
}

#[test]
fn zero_report_for_new_source_changes_nothing() {
    let mut stake = InternalValidatorStake::new(&"bob".to_string());
    assert!(!stake.update_stake_record(&"chain1".to_string(), &record("bob", 0)));
    assert_eq!(stake.to_json_type().stake_in_appchains.len(), 0);
}
