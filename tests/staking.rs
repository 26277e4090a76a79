use core_staking::staking::{stake, unstake, Attribute, PluginWrite, StakingError};

fn attrs(pairs: &[(&str, &str)]) -> Vec<Attribute> {
    pairs
        .iter()
        .map(|(k, v)| Attribute::new(k.to_string(), v.to_string()))
        .collect()
}

fn pairs(list: &[Attribute]) -> Vec<(String, String)> {
    list.iter().map(|a| (a.key.clone(), a.value.clone())).collect()
}

fn expect(pairs: &[(&str, &str)]) -> Vec<(String, String)> {
    pairs.iter().map(|(k, v)| (k.to_string(), v.to_string())).collect()
}

#[test]
fn stake_without_attribute_plugin_adds_one() {
    match stake(None, 1_700_000_000) {
        Ok(PluginWrite::Add(list)) => assert_eq!(
            pairs(&list),
            expect(&[("frozen", "1"), ("staked", "1700000000"), ("staked_time", "0")])
        ),
        other => panic!("unexpected {:?}", other),
    }
}

#[test]
fn stake_appends_staking_attributes_when_missing() {
    let list = attrs(&[("color", "red"), ("level", "3")]);
    match stake(Some(list), 42) {
        Ok(PluginWrite::Update(out)) => assert_eq!(
            pairs(&out),
            expect(&[
                ("color", "red"),
                ("level", "3"),
                ("frozen", "1"),
                ("staked", "42"),
                ("staked_time", "0"),
            ])
        ),
        other => panic!("unexpected {:?}", other),
    }
}

#[test]
fn stake_rewrites_existing_attributes_in_place() {
    let list = attrs(&[("frozen", "0"), ("staked", "0"), ("color", "red"), ("staked_time", "90")]);
    match stake(Some(list), 1000) {
        Ok(PluginWrite::Update(out)) => assert_eq!(
            pairs(&out),
            expect(&[("frozen", "1"), ("staked", "1000"), ("color", "red"), ("staked_time", "90")])
        ),
        other => panic!("unexpected {:?}", other),
    }
}

#[test]
fn stake_writes_negative_time_with_sign() {
    match stake(Some(attrs(&[("staked", "5")])), -17) {
        Ok(PluginWrite::Update(out)) => assert_eq!(pairs(&out), expect(&[("staked", "-17")])),
        other => panic!("unexpected {:?}", other),
    }
}

#[test]
fn stake_refuses_frozen_asset() {
    let list = attrs(&[("staked", "10"), ("frozen", "1")]);
    assert_eq!(stake(Some(list), 20).unwrap_err(), StakingError::OwnerMismatched);
}

#[test]
fn stake_refuses_unknown_frozen_value() {
    let list = attrs(&[("frozen", "yes")]);
    assert_eq!(stake(Some(list), 20).unwrap_err(), StakingError::OwnerMismatched);
}

#[test]
fn unstake_accumulates_elapsed_time() {
    let list = attrs(&[("frozen", "1"), ("staked", "100"), ("color", "red"), ("staked_time", "50")]);
    let out = unstake(Some(list), 160).unwrap();
    assert_eq!(
        pairs(&out),
        expect(&[("staked", "160"), ("color", "red"), ("frozen", "0"), ("staked_time", "110")])
    );
}

#[test]
fn stake_then_unstake_fresh_asset() {
    let first = match stake(None, 1_000) {
        Ok(PluginWrite::Add(list)) => list,
        other => panic!("unexpected {:?}", other),
    };
    let out = unstake(Some(first), 4_600).unwrap();
    assert_eq!(
        pairs(&out),
        expect(&[("staked", "4600"), ("frozen", "0"), ("staked_time", "3600")])
    );
}

#[test]
fn unstaked_asset_can_be_staked_again() {
    let list = attrs(&[("frozen", "1"), ("staked", "10"), ("staked_time", "0")]);
    let out = unstake(Some(list), 30).unwrap();
    match stake(Some(out), 40) {
        Ok(PluginWrite::Update(again)) => assert_eq!(
            pairs(&again),
            expect(&[("staked", "40"), ("frozen", "1"), ("staked_time", "20")])
        ),
        other => panic!("unexpected {:?}", other),
    }
}

#[test]
fn unstake_reads_signed_values() {
    let list = attrs(&[("staked", "+10"), ("staked_time", "-4")]);
    let out = unstake(Some(list), 20).unwrap();
    assert_eq!(
        pairs(&out),
        expect(&[("staked", "20"), ("frozen", "0"), ("staked_time", "6")])
    );
}

#[test]
fn unstake_without_attribute_plugin() {
    assert_eq!(unstake(None, 5).unwrap_err(), StakingError::AttributesNotInitialized);
}

#[test]
fn unstake_without_staked_attribute() {
    let list = attrs(&[("frozen", "1"), ("staked_time", "3")]);
    assert_eq!(unstake(Some(list), 5).unwrap_err(), StakingError::StakingNotInitialized);
}

#[test]
fn unstake_empty_list() {
    assert_eq!(unstake(Some(Vec::new()), 5).unwrap_err(), StakingError::StakingNotInitialized);
}

#[test]
fn unstake_refuses_asset_not_frozen() {
    let list = attrs(&[("staked", "1"), ("frozen", "0")]);
    assert_eq!(unstake(Some(list), 5).unwrap_err(), StakingError::NotStaked);
}

#[test]
fn unstake_refuses_bad_timestamp() {
    let list = attrs(&[("frozen", "1"), ("staked", "12a")]);
    assert_eq!(unstake(Some(list), 5).unwrap_err(), StakingError::InvalidTimestamp);
}

#[test]
fn unstake_refuses_bad_staked_time() {
    let list = attrs(&[("staked", "1"), ("staked_time", "")]);
    assert_eq!(unstake(Some(list), 5).unwrap_err(), StakingError::InvalidTimestamp);
}

#[test]
fn unstake_refuses_out_of_range_timestamp() {
    let list = attrs(&[("staked", "9223372036854775808")]);
    assert_eq!(unstake(Some(list), 5).unwrap_err(), StakingError::InvalidTimestamp);
}

#[test]
fn unstake_elapsed_time_underflow() {
    let list = attrs(&[("staked", "-9223372036854775808")]);
    assert_eq!(unstake(Some(list), 1).unwrap_err(), StakingError::Underflow);
}

#[test]
fn unstake_accumulated_time_overflow() {
    let list = attrs(&[("staked_time", "9223372036854775807"), ("staked", "0")]);
    assert_eq!(unstake(Some(list), 1).unwrap_err(), StakingError::Overflow);
}

#[test]
fn unstake_first_refusal_wins() {
    let list = attrs(&[("staked", "x"), ("frozen", "0")]);
    assert_eq!(unstake(Some(list), 1).unwrap_err(), StakingError::InvalidTimestamp);
    let list = attrs(&[("frozen", "0"), ("staked", "x")]);
    assert_eq!(unstake(Some(list), 1).unwrap_err(), StakingError::NotStaked);
}

#[test]
fn unstake_largest_values() {
    let list = attrs(&[("staked", "0"), ("staked_time", "0")]);
    let out = unstake(Some(list), i64::MAX).unwrap();
    assert_eq!(
        pairs(&out),
        expect(&[("staked", "9223372036854775807"), ("frozen", "0"), ("staked_time", "9223372036854775807")])
    );
}
