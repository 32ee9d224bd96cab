use nextaction::ranked::{RankedSet, RebuildInsertion};
use nextaction::Project;

#[test]
fn order1() {
    let a = Project {
        id: 1,
        item_order: 1,
        ..Default::default()
    };
    let b = Project {
        id: 2,
        item_order: 2,
        ..Default::default()
    };
    let c = Project {
        id: 3,
        item_order: 3,
        ..Default::default()
    };

    let mut bt = RankedSet::new();
    bt.rebuild_insert(a.clone());
    bt.rebuild_insert(b.clone());
    bt.rebuild_insert(c.clone());

    let v: Vec<Project> = bt.into_vec();
    assert_eq!(v, vec![a, b, c]);
}

#[test]
fn order2() {
    let a = Project {
        id: 1,
        item_order: 3,
        ..Default::default()
    };
    let b = Project {
        id: 2,
        item_order: 2,
        ..Default::default()
    };
    let c = Project {
        id: 3,
        item_order: 1,
        ..Default::default()
    };

    let mut bt = RankedSet::new();
    bt.rebuild_insert(a.clone());
    bt.rebuild_insert(b.clone());
    bt.rebuild_insert(c.clone());

    let v: Vec<Project> = bt.into_vec();
    assert_eq!(v, vec![c, b, a]);
}

#[test]
fn order3() {
    let a = Project {
        id: 1,
        item_order: 1,
        name: "a".to_string(),
        ..Default::default()
    };
    let b = Project {
        id: 2,
        item_order: 1,
        name: "b".to_string(),
        ..Default::default()
    };
    let c = Project {
        id: 3,
        item_order: 3,
        name: "c".to_string(),
        ..Default::default()
    };
    let d = Project {
        id: 1,
        item_order: 2,
        name: "d".to_string(),
        ..Default::default()
    };

    let mut bt = RankedSet::new();
    bt.rebuild_insert(a.clone());
    bt.rebuild_insert(b.clone());
    bt.rebuild_insert(c.clone());
    bt.rebuild_insert(d.clone());

    let v: Vec<Project> = bt.into_vec();
    assert_eq!(v, vec![b, d, c]);
}

#[test]
fn rebuild_insert_reports_replacement() {
    let a = Project { id: 7, item_order: 1, ..Default::default() };
    let a2 = Project { id: 7, item_order: 5, name: "moved".to_string(), ..Default::default() };
    let mut bt = RankedSet::new();
    assert!(!bt.rebuild_insert(a));
    assert!(bt.rebuild_insert(a2.clone()));
    assert_eq!(bt.len(), 1);
    assert_eq!(bt.into_vec(), vec![a2]);
}

#[test]
fn equal_rank_orders_by_id() {
    let x = Project { id: 9, item_order: 4, ..Default::default() };
    let y = Project { id: 3, item_order: 4, ..Default::default() };
    let mut bt = RankedSet::new();
    bt.rebuild_insert(x.clone());
    bt.rebuild_insert(y.clone());
    assert_eq!(bt.into_vec(), vec![y, x]);
}

#[test]
fn remove_id_takes_the_record_out() {
    let a = Project { id: 1, item_order: 1, ..Default::default() };
    let b = Project { id: 2, item_order: 2, ..Default::default() };
    let mut bt = RankedSet::new();
    bt.rebuild_insert(a);
    bt.rebuild_insert(b.clone());
    assert!(bt.remove_id(1));
    assert!(!bt.remove_id(1));
    assert_eq!(bt.into_vec(), vec![b]);
}
