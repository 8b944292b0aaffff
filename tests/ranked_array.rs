use council_keeper::batch::Budget;
use council_keeper::ranked_lookup_array::RankedLookupArray;
use council_keeper::types::ValidatorStakeRecord;
use council_keeper::validator_stakes::{InternalValidatorStake, ValidatorStakes};

fn register(stakes: &mut ValidatorStakes, id: &str, amount: u128) -> u32 {
    let id = id.to_string();
    let handle = stakes.push(InternalValidatorStake::new(&id));
    set_stake(stakes, handle, &id, amount);
    handle
}

fn set_stake(stakes: &mut ValidatorStakes, handle: u32, id: &str, amount: u128) -> bool {
    let record = ValidatorStakeRecord { validator_id: id.to_string(), total_stake: amount };
    stakes.update_stake_record(handle, &"appchain".to_string(), &record)
}

fn ranks_of(stakes: &ValidatorStakes, handles: &[u32]) -> Vec<u32> {
    handles.iter().map(|h| stakes.entry(*h).overall_rank()).collect()
}

#[test]
fn append_orders_by_stake_and_reinsert_repositions() {
    let mut stakes = ValidatorStakes::new();
    let a = register(&mut stakes, "a", 100);
    let b = register(&mut stakes, "b", 50);
    let c = register(&mut stakes, "c", 200);
    let mut array = RankedLookupArray::<u32>::new();
    assert_eq!(array.append(&a, &mut stakes), 0);
    assert_eq!(array.append(&b, &mut stakes), 1);
    assert_eq!(array.append(&c, &mut stakes), 0);
    assert_eq!(array.get_slice_of(0, None), vec![c, a, b]);
    assert_eq!(ranks_of(&stakes, &[c, a, b]), vec![0, 1, 2]);

    assert!(set_stake(&mut stakes, b, "b", 300));
    let index = stakes.entry(b).overall_rank();
    assert_eq!(index, 2);
    assert_eq!(array.insert(index, &b, &mut stakes), 0);
    assert_eq!(array.get_slice_of(0, None), vec![b, c, a]);
    assert_eq!(ranks_of(&stakes, &[b, c, a]), vec![0, 1, 2]);
}

#[test]
fn insert_moves_down_when_stake_drops() {
    let mut stakes = ValidatorStakes::new();
    let a = register(&mut stakes, "a", 300);
    let b = register(&mut stakes, "b", 200);
    let c = register(&mut stakes, "c", 100);
    let mut array = RankedLookupArray::<u32>::new();
    for h in [a, b, c] {
        array.append(&h, &mut stakes);
    }
    assert!(set_stake(&mut stakes, a, "a", 150));
    assert_eq!(array.insert(0, &a, &mut stakes), 1);
    assert_eq!(array.get_slice_of(0, None), vec![b, a, c]);
    assert_eq!(ranks_of(&stakes, &[b, a, c]), vec![0, 1, 2]);
}

#[test]
fn equal_stakes_do_not_move() {
    let mut stakes = ValidatorStakes::new();
    let a = register(&mut stakes, "a", 100);
    let b = register(&mut stakes, "b", 100);
    let mut array = RankedLookupArray::<u32>::new();
    array.append(&a, &mut stakes);
    assert_eq!(array.append(&b, &mut stakes), 1);
    assert_eq!(array.insert(1, &b, &mut stakes), 1);
    assert_eq!(array.get_slice_of(0, None), vec![a, b]);
}

#[test]
fn get_and_slices_respect_bounds() {
    let mut stakes = ValidatorStakes::new();
    let mut array = RankedLookupArray::<u32>::new();
    assert_eq!(array.get(0), None);
    for (i, amount) in [50u128, 40, 30, 20].iter().enumerate() {
        let h = register(&mut stakes, &format!("v{}", i), *amount);
        array.append(&h, &mut stakes);
    }
    assert_eq!(array.len(), 4);
    assert_eq!(array.get(3), Some(3));
    assert_eq!(array.get(4), None);
    assert_eq!(array.get_slice_of(1, Some(2)), vec![1, 2]);
    assert_eq!(array.get_slice_of(1, Some(10)), vec![1, 2, 3]);
    assert_eq!(array.get_slice_of(3, None), vec![3]);
    assert_eq!(array.get_slice_of(2, Some(0)), Vec::<u32>::new());
}

#[test]
fn clear_resumes_across_invocations() {
    let mut stakes = ValidatorStakes::new();
    let mut split = RankedLookupArray::<u32>::new();
    let mut whole = RankedLookupArray::<u32>::new();
    for i in 0..5u128 {
        let h = register(&mut stakes, &format!("v{}", i), 100 - i);
        split.append(&h, &mut stakes);
        whole.append(&h, &mut stakes);
    }
    let mut budget = Budget::new(2);
    assert!(split.clear(&mut budget).is_need_more_gas());
    assert_eq!(split.get_slice_of(0, None), vec![0, 1, 2]);
    assert_eq!(budget.used(), 2);
    let mut budget = Budget::new(2);
    assert!(split.clear(&mut budget).is_need_more_gas());
    assert_eq!(split.get_slice_of(0, None), vec![0]);
    let mut budget = Budget::new(2);
    assert!(split.clear(&mut budget).is_ok());
    assert_eq!(budget.used(), 1);
    assert_eq!(split.len(), 0);

    let mut budget = Budget::new(u64::MAX);
    assert!(whole.clear(&mut budget).is_ok());
    assert_eq!(whole.len(), split.len());
}

#[test]
fn budget_counts_units_up_to_ceiling() {
    let mut budget = Budget::new(2);
    assert!(!budget.is_exhausted());
    assert!(budget.try_consume());
    assert!(budget.try_consume());
    assert!(!budget.try_consume());
    assert!(budget.is_exhausted());
    assert_eq!(budget.used(), 2);
    assert_eq!(budget.ceiling(), 2);
}
