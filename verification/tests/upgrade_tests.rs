use block_store::upgrade::SimpleValidatorUpgrade;

#[test]
fn upgrade_plan_splits_the_swarm() {
    let test = SimpleValidatorUpgrade;
    let versions = vec![2u64, 1u64];
    let validators = vec![10u64, 20, 30, 40, 50];
    let plan = test.plan(&versions, &validators).expect("plan exists");
    assert_eq!(plan.old_version, 1);
    assert_eq!(plan.new_version, 2);
    assert_eq!(plan.first_node, 20);
    assert_eq!(plan.first_batch, vec![10]);
    assert_eq!(plan.second_batch, vec![30, 40, 50]);
}

#[test]
fn upgrade_plan_needs_two_versions_and_four_validators() {
    let test = SimpleValidatorUpgrade;
    assert!(test.plan(&vec![1u64], &vec![1u64, 2, 3, 4]).is_none());
    assert!(test.plan(&vec![1u64, 2, 3], &vec![1u64, 2, 3, 4]).is_none());
    assert!(test.plan(&vec![1u64, 2], &vec![1u64, 2, 3]).is_none());
}

#[test]
fn upgrade_test_name_is_stable() {
    let test = SimpleValidatorUpgrade;
    assert_eq!(test.name(), "compatibility::simple-validator-upgrade");
}
