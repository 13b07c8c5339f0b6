use std::sync::Arc;

use object_store::register::Register;
use object_store::{Db, Object, Oid};

#[test]
fn fresh_insert_visible_from_creation() {
    let mut db = Db::new();
    let o = db.insert(Arc::new(Register { word: 10 }));
    // visible at its creation position and at every later bound
    assert_eq!(db.get(o, 0), Some(Arc::new(Register { word: 10 })));
    assert_eq!(db.get(o, 1000), Some(Arc::new(Register { word: 10 })));
}

#[test]
fn unknown_identifier_absent() {
    let db: Db<Register> = Db::new();
    assert_eq!(db.get(Oid(7), 1000), None);
}

#[test]
fn register_apply_folds_newest_first() {
    let mut base = Register { word: 1 };
    // newest-first batch: 4 is the most recent change and must win
    base.apply(&[&4, &3, &2]);
    assert_eq!(base, Register { word: 4 });
    let mut untouched = Register { word: 5 };
    untouched.apply(&[]);
    assert_eq!(untouched, Register { word: 5 });
}

#[test]
fn last_writer_wins_through_store() {
    let mut db = Db::new();
    let o = db.insert(Arc::new(Register { word: 1 }));
    db.patch(o, 2);
    db.patch(o, 3);
    assert_eq!(db.get(o, 1), Some(Arc::new(Register { word: 2 })));
    assert_eq!(db.get(o, 2), Some(Arc::new(Register { word: 3 })));
    assert_eq!(db.get(o, 0), Some(Arc::new(Register { word: 1 })));
}

#[test]
fn oid_order_is_reversed() {
    // identifiers sort newest-created-first: a smaller number sorts greater
    assert!(Oid(0) > Oid(1));
    assert!(Oid(2) < Oid(1));
    assert!(Oid(3) >= Oid(3));
    assert!(Oid(3) <= Oid(3));
    let mut oids = vec![Oid(1), Oid(0), Oid(2)];
    oids.sort_by(|a, b| a.partial_cmp(b).unwrap());
    assert_eq!(oids, vec![Oid(2), Oid(1), Oid(0)]);
}
