use std::sync::Arc;

use object_store::{Db, Delta, Object};

#[derive(Clone, Debug, PartialEq, Eq)]
struct L(Vec<&'static str>);

impl Delta for L {
    type Change = &'static str;

    fn applied(self, change: &'static str) -> Self {
        let mut value = self.clone();
        value.0.push(change);
        value
    }
}

impl Object for L {
    fn apply(&mut self, changes: &[&&'static str]) {
        for s in changes.iter().rev() {
            self.0.push(**s);
        }
    }

    fn dup(&self) -> Self {
        self.clone()
    }
}

#[test]
fn test() {
    let mut db = Db::new();

    let o1 = db.insert(Arc::new(L(vec![])));
    let o2 = db.insert(Arc::new(L(vec!["d"])));

    db.patch(o1, "a");
    db.patch(o2, "e");
    db.patch(o1, "b");
    db.patch(o1, "c");

    assert_eq!(db.get(o1, 5), Some(Arc::new(L(vec!["a", "b", "c"]))));
    assert_eq!(db.get(o1, 1000), Some(Arc::new(L(vec!["a", "b", "c"]))));
    assert_eq!(db.get(o2, 5), Some(Arc::new(L(vec!["d", "e"]))));
    assert_eq!(db.get(o1, 3), Some(Arc::new(L(vec!["a"]))));

    db.replace(o1, Arc::new(L(vec!["1", "2", "3"])));
    db.patch(o1, "4");

    assert_eq!(db.get(o1, 5), None);
    assert_eq!(db.get(o1, 6), Some(Arc::new(L(vec!["1", "2", "3"]))));
    assert_eq!(db.get(o1, 1000), Some(Arc::new(L(vec!["1", "2", "3", "4"]))));
}

#[test]
fn patch_run_applies_in_order() {
    let mut db = Db::new();
    let o = db.insert(Arc::new(L(vec![])));
    db.patch(o, "x");
    db.patch(o, "y");
    db.patch(o, "z");
    // bound at the position of the last patch sees the whole run, oldest first
    assert_eq!(db.get(o, 3), Some(Arc::new(L(vec!["x", "y", "z"]))));
    // a bound in the middle of the run sees only its prefix
    assert_eq!(db.get(o, 2), Some(Arc::new(L(vec!["x", "y"]))));
}

#[test]
fn reads_stable_between_patches() {
    let mut db = Db::new();
    let o1 = db.insert(Arc::new(L(vec!["seed"])));
    db.patch(o1, "p");
    // operations of other objects advance positions without touching o1
    let o2 = db.insert(Arc::new(L(vec![])));
    db.patch(o2, "q");
    let at_patch = db.get(o1, 1);
    for bound in 2..6u64 {
        assert_eq!(db.get(o1, bound), at_patch);
    }
}

#[test]
fn absent_below_base() {
    let mut db = Db::new();
    let _o1 = db.insert(Arc::new(L(vec![])));
    let o2 = db.insert(Arc::new(L(vec!["late"])));
    // o2's base Put sits at position 1: a bound of 0 predates it
    assert_eq!(db.get(o2, 0), None);
    assert_eq!(db.get(o2, 1), Some(Arc::new(L(vec!["late"]))));
}

#[test]
fn replace_shadow_window() {
    let mut db = Db::new();
    let o = db.insert(Arc::new(L(vec!["v1"])));
    db.patch(o, "a");
    db.patch(o, "b");
    db.replace(o, Arc::new(L(vec!["v2"])));
    // bounds inside the superseded chain resolve to absence, not to the old value
    for bound in 0..3u64 {
        assert_eq!(db.get(o, bound), None);
    }
    assert_eq!(db.get(o, 3), Some(Arc::new(L(vec!["v2"]))));
    assert_eq!(db.get(o, 1000), Some(Arc::new(L(vec!["v2"]))));
}
