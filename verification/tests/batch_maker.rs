use narwhal::batch_maker::BatchMaker;

#[test]
fn a_batch_leaves_when_it_is_worth_sending() {
    let mut maker = BatchMaker::new(10);
    assert_eq!(maker.add(vec![1, 2, 3]), None);
    assert_eq!(maker.add(vec![]), None);
    assert_eq!(maker.add(vec![4; 6]), None);
    assert_eq!(maker.add(vec![5]), Some(vec![vec![1, 2, 3], vec![], vec![4; 6], vec![5]]));
    assert_eq!(maker.add(vec![6; 9]), None);
    assert_eq!(maker.add(vec![7; 20]), Some(vec![vec![6; 9], vec![7; 20]]));
    assert_eq!(maker.flush(), None);
}

#[test]
fn the_timer_sends_what_there_is() {
    let mut maker = BatchMaker::new(1_000);
    assert_eq!(maker.flush(), None);
    assert_eq!(maker.add(vec![1]), None);
    assert_eq!(maker.add(vec![2, 2]), None);
    assert_eq!(maker.flush(), Some(vec![vec![1], vec![2, 2]]));
    assert_eq!(maker.flush(), None);
    assert_eq!(maker.add(vec![3; 999]), None);
    assert_eq!(maker.add(vec![4]), Some(vec![vec![3; 999], vec![4]]));
}

#[test]
fn with_no_size_every_transaction_is_a_batch() {
    let mut maker = BatchMaker::new(0);
    assert_eq!(maker.add(vec![]), Some(vec![vec![]]));
    assert_eq!(maker.add(vec![9]), Some(vec![vec![9]]));
    assert_eq!(maker.flush(), None);
}
