use narwhal::committee::{Authority, Committee};

fn members(stakes: &[(u64, u64)]) -> Vec<Authority> {
    stakes.iter().map(|(id, stake)| Authority { id: *id, stake: *stake }).collect()
}

#[test]
fn four_equal_authorities_need_three_for_a_quorum() {
    let c = Committee::new(members(&[(1, 1), (2, 1), (3, 1), (4, 1)])).unwrap();
    assert_eq!(c.size(), 4);
    assert_eq!(c.total_stake(), 4);
    assert_eq!(c.quorum_threshold(), 3);
    assert_eq!(c.validity_threshold(), 2);
}

#[test]
fn thresholds_follow_the_total_stake() {
    let c = Committee::new(members(&[(1, 10)])).unwrap();
    assert_eq!((c.quorum_threshold(), c.validity_threshold()), (7, 4));
    let c = Committee::new(members(&[(1, 1), (2, 2)])).unwrap();
    assert_eq!((c.quorum_threshold(), c.validity_threshold()), (3, 1));
    let c = Committee::new(members(&[(1, 3), (2, 3), (3, 3), (4, 1)])).unwrap();
    assert_eq!((c.total_stake(), c.quorum_threshold(), c.validity_threshold()), (10, 7, 4));
    let c = Committee::new(members(&[(1, u64::MAX)])).unwrap();
    assert_eq!(c.quorum_threshold(), u64::MAX / 3 * 2 + 1);
    assert_eq!(c.validity_threshold(), u64::MAX / 3);
}

#[test]
fn committee_must_be_sorted_positive_and_fit() {
    assert!(Committee::new(vec![]).is_none());
    assert!(Committee::new(members(&[(2, 1), (1, 1)])).is_none());
    assert!(Committee::new(members(&[(1, 1), (1, 1)])).is_none());
    assert!(Committee::new(members(&[(1, 1), (2, 0)])).is_none());
    assert!(Committee::new(members(&[(1, u64::MAX), (2, 1)])).is_none());
    assert!(Committee::new(members(&[(1, u64::MAX - 1), (2, 1)])).is_some());
}

#[test]
fn stake_and_membership() {
    let c = Committee::new(members(&[(5, 2), (7, 3), (9, 4)])).unwrap();
    assert_eq!(c.stake(5), 2);
    assert_eq!(c.stake(7), 3);
    assert_eq!(c.stake(9), 4);
    assert_eq!(c.stake(6), 0);
    assert!(c.contains(7));
    assert!(!c.contains(8));
    assert_eq!(c.index_of(9), Some(2));
    assert_eq!(c.index_of(1), None);
    assert_eq!(c.member(1), Authority { id: 7, stake: 3 });
}

#[test]
fn listed_weight_counts_each_member_once() {
    let c = Committee::new(members(&[(5, 2), (7, 3), (9, 4)])).unwrap();
    assert_eq!(c.listed_weight(&vec![]), 0);
    assert_eq!(c.listed_weight(&vec![7, 7, 7]), 3);
    assert_eq!(c.listed_weight(&vec![9, 5, 100]), 6);
    assert_eq!(c.listed_weight(&vec![5, 7, 9]), 9);
}

#[test]
fn leaders_take_turns_in_order_of_identifier() {
    let c = Committee::new(members(&[(5, 2), (7, 3), (9, 4)])).unwrap();
    assert_eq!(c.leader(0), 5);
    assert_eq!(c.leader(1), 7);
    assert_eq!(c.leader(2), 9);
    assert_eq!(c.leader(3), 5);
    assert_eq!(c.leader(u64::MAX), c.leader(u64::MAX % 3));
}

#[test]
fn two_computations_of_the_leader_agree() {
    let a = Committee::new(members(&[(5, 2), (7, 3), (9, 4)])).unwrap();
    let b = a.duplicate();
    for round in 0..20u64 {
        assert_eq!(a.leader(round), b.leader(round));
        assert_eq!(a.leader(round), a.leader(round));
    }
    assert_eq!(b.total_stake(), 9);
}
