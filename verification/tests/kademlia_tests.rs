use kademlia_routing::kademlia::{
    iddiff, InsertOutcome, NodeDescription, TableError, VectorRoutingTable,
};

#[test]
fn test_table_initialization() {
    let table = VectorRoutingTable::new(0, 1, 2).unwrap();
    let pop = table.population();
    assert_eq!(0, pop);

    let table = VectorRoutingTable::default();
    let pop = table.population();
    assert_eq!(0, pop);
}

#[test]
fn test_table_population() {
    let mut table = VectorRoutingTable::default();
    assert_eq!(0, table.population());
    assert_eq!(0, table.hoods.len());
    table.hoods.push(vec![]);
    assert_eq!(1, table.hoods.len());
    assert_eq!(0, table.population());
    assert_eq!(0, table.hoods[0].len());
    table.hoods[0].push(NodeDescription::default());
    assert_eq!(1, table.population());
}

#[test]
fn test_table_insert() {
    let key_space: usize = 4;
    let kay: usize = 2;
    let mut table = VectorRoutingTable::new(0, key_space, kay).unwrap();
    assert_eq!(1, table.hoods.len());
    assert_eq!(0, table.hoods[0].len());
    assert_eq!(0, table.population());
    println!("sizes:{:?}", table._pop_by_hood());
    println!("first insert");
    let _ = table.insert(NodeDescription::_dummy(4));
    println!("sizes:{:?}", table._pop_by_hood());
    assert_eq!(1, table.hoods.len());
    assert_eq!(1, table.population());
    assert_eq!(1, table.hoods[0].len());
    println!("second insert");
    let _ = table.insert(NodeDescription::_dummy(3));
    println!("sizes:{:?}", table._pop_by_hood());
    assert_eq!(1, table.hoods.len());
    assert_eq!(2, table.population());
    assert_eq!(2, table.hoods[0].len());
    println!("third insert");
    let _ = table.insert(NodeDescription::_dummy(2));
    println!("sizes:{:#?}", table._pop_by_hood());
    assert_eq!(3, table.hoods.len());
    assert_eq!(3, table.population());
    assert_eq!(0, table.hoods[0].len());
    assert_eq!(1, table.hoods[1].len());
}

#[test]
fn test_iddiff() {
    assert_eq!(iddiff(&0, &0), 0);
    assert_eq!(iddiff(&1, &1), 0);
    assert_eq!(iddiff(&42, &42), 0);

    assert_eq!(iddiff(&0, &1), 1);
    assert_eq!(iddiff(&2, &0), 2);
    assert_eq!(iddiff(&1, &2), 3);
}

#[test]
fn test_lookup() {
    let key_space: usize = 4;
    let kay: usize = 2;
    let mut table = VectorRoutingTable::new(0, key_space, kay).unwrap();
    table.insert(NodeDescription::_dummy(1)).unwrap(); //dist = 1 => bucket: 3
    table.insert(NodeDescription::_dummy(2)).unwrap(); //dist = 2 => bucket: 2
    table.insert(NodeDescription::_dummy(3)).unwrap(); //dist = 3 => bucket: 2
    table.insert(NodeDescription::_dummy(4)).unwrap(); //dist = 4 => bucket: 1
    // buckets now hold [[], [4], [2, 3], [1]]
    let hood = table.lookup(2);
    assert_eq!(
        hood,
        vec![NodeDescription::_dummy(2), NodeDescription::_dummy(3)]
    );
    // the walk from bucket 3 to the table's end sees only peer 1
    let hood = table.lookup(1);
    assert_eq!(hood, vec![NodeDescription::_dummy(1)]);
}

#[test]
fn empty_table_answers_empty() {
    let table = VectorRoutingTable::new(0, 4, 2).unwrap();
    assert_eq!(0, table.population());
    assert_eq!(1, table.hoods.len());
    assert!(table.lookup(5).is_empty());
    assert!(table.lookup(0).is_empty());
}

#[test]
fn invalid_configuration_is_rejected() {
    assert_eq!(
        VectorRoutingTable::new(0, 0, 2).unwrap_err(),
        TableError::InvalidConfiguration
    );
    assert_eq!(
        VectorRoutingTable::new(0, 4, 0).unwrap_err(),
        TableError::InvalidConfiguration
    );
}

#[test]
fn self_insertion_is_rejected() {
    let mut table = VectorRoutingTable::new(7, 4, 2).unwrap();
    let outcome = table.insert(NodeDescription::_dummy(7)).unwrap();
    assert_eq!(outcome, InsertOutcome::Rejected);
    assert_eq!(0, table.population());
    assert_eq!(1, table.hoods.len());
}

#[test]
fn full_far_bucket_rejects_silently() {
    let mut table = VectorRoutingTable::new(0, 4, 1).unwrap();
    assert_eq!(table.insert(NodeDescription::_dummy(4)).unwrap(), InsertOutcome::Inserted);
    // the only bucket is full, so this insert splits it and lands in bucket 0
    assert_eq!(table.insert(NodeDescription::_dummy(8)).unwrap(), InsertOutcome::Split);
    assert_eq!(2, table.hoods.len());
    assert_eq!(2, table.population());
    // bucket 0 is full and no longer the last: the peer is dropped
    assert_eq!(table.insert(NodeDescription::_dummy(9)).unwrap(), InsertOutcome::Rejected);
    assert_eq!(2, table.population());
    assert_eq!(2, table.hoods.len());
}

#[test]
fn split_without_progress_reports_violation() {
    // all peers of the full catch-all bucket collapse back onto one index,
    // so the split makes no room for a third equal-distance peer
    let mut table = VectorRoutingTable::new(0, 4, 2).unwrap();
    table.insert(NodeDescription::_dummy(1)).unwrap();
    table.insert(NodeDescription::_dummy(1)).unwrap();
    let before = table.hoods.len();
    let err = table.insert(NodeDescription::_dummy(1)).unwrap_err();
    assert_eq!(err, TableError::RoutingInvariantViolation);
    // the split itself is kept: the table grew, the peer was dropped
    assert_eq!(4, table.hoods.len());
    assert!(table.hoods.len() >= before);
    assert_eq!(2, table.population());
}

#[test]
fn split_cannot_reach_a_nearer_peer() {
    // the catch-all bucket holds only the farthest peer, so a split grows
    // nothing and the nearer peer's bucket still does not exist
    let mut table = VectorRoutingTable::new(0, 4, 1).unwrap();
    assert_eq!(table.insert(NodeDescription::_dummy(8)).unwrap(), InsertOutcome::Inserted);
    let err = table.insert(NodeDescription::_dummy(4)).unwrap_err();
    assert_eq!(err, TableError::RoutingInvariantViolation);
    assert_eq!(1, table.hoods.len());
    assert_eq!(1, table.population());
}

#[test]
fn distance_is_symmetric_and_zero_on_self() {
    let pairs: [(u128, u128); 4] = [(0, 1), (3, 12), (1 << 100, 17), (u128::MAX, 0)];
    for (a, b) in pairs {
        assert_eq!(iddiff(&a, &b), iddiff(&b, &a));
    }
    for x in [0u128, 1, 42, u128::MAX, 1 << 127] {
        assert_eq!(iddiff(&x, &x), 0);
    }
}

#[test]
fn lookup_never_exceeds_kay() {
    let key_space: usize = 4;
    let kay: usize = 2;
    let mut table = VectorRoutingTable::new(0, key_space, kay).unwrap();
    for id in [1u128, 2, 3, 4, 5, 6, 7] {
        let _ = table.insert(NodeDescription::_dummy(id));
    }
    for key in [0u128, 1, 2, 3, 4, 5, 6, 7] {
        assert!(table.lookup(key).len() <= kay);
    }
    assert_eq!(table.kay(), kay);
}

#[test]
fn pop_by_hood_matches_buckets() {
    let mut table = VectorRoutingTable::new(0, 4, 2).unwrap();
    let _ = table.insert(NodeDescription::_dummy(4));
    let _ = table.insert(NodeDescription::_dummy(3));
    let _ = table.insert(NodeDescription::_dummy(2));
    assert_eq!(table._pop_by_hood(), vec![0, 1, 2]);
    let mut total: usize = 0;
    for n in table._pop_by_hood() {
        total += n;
    }
    assert_eq!(total, table.population());
}

#[test]
fn lookup_of_own_id_starts_at_last_bucket() {
    let mut table = VectorRoutingTable::new(0, 4, 2).unwrap();
    table.insert(NodeDescription::_dummy(1)).unwrap();
    // one bucket: the zero distance folds into it
    assert_eq!(table.lookup(0), vec![NodeDescription::_dummy(1)]);
    table.insert(NodeDescription::_dummy(2)).unwrap();
    table.insert(NodeDescription::_dummy(3)).unwrap();
    table.insert(NodeDescription::_dummy(4)).unwrap();
    // buckets now hold [[], [4], [2, 3], [1]]: the last holds the nearest
    assert_eq!(table.lookup(0), vec![NodeDescription::_dummy(1)]);
}

#[test]
fn split_redistributes_in_insertion_order() {
    let mut table = VectorRoutingTable::new(0, 4, 2).unwrap();
    assert_eq!(table.insert(NodeDescription::_dummy(4)).unwrap(), InsertOutcome::Inserted);
    assert_eq!(table.insert(NodeDescription::_dummy(3)).unwrap(), InsertOutcome::Inserted);
    assert_eq!(table.insert(NodeDescription::_dummy(2)).unwrap(), InsertOutcome::Split);
    assert_eq!(table.hoods[0], vec![]);
    assert_eq!(table.hoods[1], vec![NodeDescription::_dummy(4)]);
    assert_eq!(
        table.hoods[2],
        vec![NodeDescription::_dummy(3), NodeDescription::_dummy(2)]
    );
}

#[test]
fn accepted_inserts_are_counted() {
    let mut table = VectorRoutingTable::new(0, 4, 2).unwrap();
    let mut accepted: usize = 0;
    let mut buckets_before: usize = table.hoods.len();
    for id in [4u128, 3, 2, 1, 5, 6, 7, 7, 1] {
        match table.insert(NodeDescription::_dummy(id)) {
            Ok(InsertOutcome::Inserted) | Ok(InsertOutcome::Split) => accepted += 1,
            Ok(InsertOutcome::Rejected) | Err(_) => {}
        }
        // bucket count never shrinks
        assert!(table.hoods.len() >= buckets_before);
        buckets_before = table.hoods.len();
        // no bucket ever exceeds its capacity
        for hood in &table.hoods {
            assert!(hood.len() <= 2);
        }
    }
    assert_eq!(accepted, table.population());
}
