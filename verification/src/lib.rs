use vstd::prelude::*;

pub mod chain;
pub mod laws;
pub mod object;
pub mod register;

pub use chain::ObjectOp;
pub use object::{Delta, Object, Oid};

use chain::{chain_base, lemma_resolve_append, lemma_resolve_some_iff, lemma_store_append,
    op_wf_at, resolve, store_wf};
use object::{deref_changes, fold_newest_first, lemma_fold_push};
use std::sync::Arc;
use vstd::pervasive::unreached;

verus! {

/// A versioned object store: an append-only log of operations together with
/// a table mapping each identifier to the log position of its most recent
/// operation. Values are never mutated in place; every write appends, and a
/// read reconstructs the value as of a snapshot bound.
pub struct Db<O: Object> {
    mapping: Vec<u64>,
    ops: Vec<ObjectOp<O>>,
}

/// Lifting an optional resolved value over a pending newest-first batch.
pub open spec fn opt_fold<O: Object>(base: Option<O>, changes: Seq<O::Change>) -> Option<O> {
    match base {
        Some(value) => Some(fold_newest_first(value, changes)),
        None => None,
    }
}

impl<O: Object> Db<O> {
    /// The append-only operation log.
    pub closed spec fn log(self) -> Seq<ObjectOp<O>> {
        self.ops@
    }

    /// The head position of each identifier's chain, indexed by identifier.
    pub closed spec fn heads(self) -> Seq<u64> {
        self.mapping@
    }

    /// The store's invariant: every patch points strictly backward and links
    /// to an operation of the same identifier, and each identifier's head
    /// points into the log, at that identifier's most recent operation.
    /// Together these make every chain walk terminate in a Put of its own
    /// identifier.
    pub open spec fn wf(self) -> bool {
        store_wf(self.log(), self.heads())
    }

    /// Whether `oid` was handed out by this store.
    pub open spec fn contains(self, oid: Oid) -> bool {
        (oid.0 as int) < self.heads().len()
    }

    /// The head position of `oid`'s chain.
    pub open spec fn head_of(self, oid: Oid) -> int {
        self.heads()[oid.0 as int] as int
    }

    /// The position of the base Put of `oid`'s current chain.
    pub open spec fn base_position(self, oid: Oid) -> int {
        chain_base(self.log(), self.head_of(oid))
    }

    /// The value of `oid` as of the snapshot bound `bound`, or absence.
    pub open spec fn spec_get(self, oid: Oid, bound: int) -> Option<O> {
        if self.contains(oid) {
            resolve(self.log(), self.head_of(oid), bound)
        } else {
            None
        }
    }

    /// Reconstruct the value of `oid` as of the snapshot bound `max_offset`:
    /// walk the chain backward from the head, collect the changes whose
    /// positions are at or before the bound, and fold them into a copy of the
    /// base value — copying only when at least one change was collected.
    /// Absent when the base Put lies after the bound, or when the identifier
    /// was never handed out.
    pub fn get(&self, oid: Oid, max_offset: u64) -> (result: Option<Arc<O>>)
        requires
            self.wf(),
        ensures
            (result is Some) == (self.spec_get(oid, max_offset as int) is Some),
            result matches Some(obj) ==> self.spec_get(oid, max_offset as int) == Some(*obj),
    {
        let n = self.mapping.len();
        if oid.0 >= n as u64 {
            return None;
        }
        let idx: usize = oid.0 as usize;
        let mut offset: u64 = self.mapping[idx];
        let ghost head: int = offset as int;
        let ghost bound: int = max_offset as int;
        let mut changes: Vec<&O::Change> = Vec::new();
        proof {
            assert(deref_changes(changes@) =~= Seq::<O::Change>::empty());
            assert(opt_fold(resolve(self.log(), head, bound), deref_changes(changes@)) == resolve(
                self.log(),
                head,
                bound,
            ));
        }
        loop
            invariant
                self.wf(),
                bound == max_offset as int,
                (offset as int) < self.log().len(),
                opt_fold(resolve(self.log(), offset as int, bound), deref_changes(changes@))
                    == resolve(self.log(), head, bound),
            ensures
                (offset as int) < self.log().len(),
                self.log()[offset as int] is Put,
                opt_fold(resolve(self.log(), offset as int, bound), deref_changes(changes@))
                    == resolve(self.log(), head, bound),
            decreases offset,
        {
            let m = self.ops.len();
            proof {
                assert(op_wf_at(self.log(), offset as int));
                assert((offset as int) < m as int);
            }
            match &self.ops[offset as usize] {
                ObjectOp::Put(_, _) => {
                    break ;
                },
                ObjectOp::Patch { prev_offset, change, .. } => {
                    let ghost pos = offset as int;
                    let ghost prev = *prev_offset as int;
                    if offset <= max_offset {
                        let ghost pending = changes@;
                        changes.push(change);
                        proof {
                            let rest = resolve(self.log(), prev, bound);
                            assert(changes@ == pending.push(change));
                            assert(deref_changes(changes@) =~= deref_changes(pending).push(
                                *change,
                            ));
                            if rest is Some {
                                lemma_fold_push(rest.unwrap(), deref_changes(pending), *change);
                                assert(resolve(self.log(), pos, bound) == Some(
                                    rest.unwrap().applied(*change),
                                ));
                            }
                        }
                    }
                    offset = *prev_offset;
                },
            }
        }
        if offset > max_offset {
            proof {
                assert(resolve(self.log(), offset as int, bound) is None);
            }
            return None;
        }
        let m = self.ops.len();
        proof {
            assert((offset as int) < m as int);
        }
        match &self.ops[offset as usize] {
            ObjectOp::Put(_, obj) => {
                proof {
                    assert(resolve(self.log(), offset as int, bound) == Some(**obj));
                }
                if changes.len() == 0 {
                    proof {
                        assert(deref_changes(changes@) =~= Seq::<O::Change>::empty());
                        assert(fold_newest_first(**obj, deref_changes(changes@)) == **obj);
                    }
                    Some(obj.clone())
                } else {
                    let mut value: O = (&**obj).dup();
                    value.apply(changes.as_slice());
                    Some(Arc::new(value))
                }
            },
            ObjectOp::Patch { .. } => unreached(),
        }
    }

    /// An empty store: no identifiers, no operations.
    pub fn new() -> (db: Self)
        ensures
            db.wf(),
            db.log() == Seq::<ObjectOp<O>>::empty(),
            db.heads() == Seq::<u64>::empty(),
    {
        Self { mapping: Vec::new(), ops: Vec::new() }
    }

    /// Allocate the next identifier, append a Put with the given value and
    /// point the new identifier's head at it. The fresh object is visible
    /// from its creation position on, and absent before it; no other object
    /// is affected.
    pub fn insert(&mut self, obj: Arc<O>) -> (oid: Oid)
        requires
            old(self).wf(),
        ensures
            final(self).wf(),
            oid.0 == old(self).heads().len(),
            final(self).log() == old(self).log().push(ObjectOp::Put(oid, obj)),
            final(self).heads() == old(self).heads().push(old(self).log().len() as u64),
            forall|p: int|
                old(self).log().len() <= p ==> final(self).spec_get(oid, p) == Some(*obj),
            forall|p: int| p < old(self).log().len() ==> final(self).spec_get(oid, p) is None,
            forall|other: Oid, p: int|
                old(self).contains(other) ==> final(self).spec_get(other, p) == old(
                    self,
                ).spec_get(other, p),
    {
        let idx = self.mapping.len();
        let oid = Oid(idx as u64);
        let offset = self.ops.len() as u64;
        self.ops.push(ObjectOp::Put(oid, obj));
        self.mapping.push(offset);
        proof {
            let pre = *old(self);
            let post = *self;
            let op = post.log()[pre.log().len() as int];
            lemma_store_append(pre.log(), pre.heads(), op, pre.heads().len() as int);
            assert(post.wf());
            assert(post.head_of(oid) == pre.log().len());
            assert forall|p: int| pre.log().len() <= p implies post.spec_get(oid, p) == Some(
                *obj,
            ) by {
                assert(post.log()[post.head_of(oid)] == op);
            }
            assert forall|p: int| p < pre.log().len() implies post.spec_get(oid, p) is None by {
                assert(post.log()[post.head_of(oid)] == op);
            }
            assert forall|other: Oid, p: int| pre.contains(other) implies post.spec_get(other, p)
                == pre.spec_get(other, p) by {
                assert(pre.heads()[other.0 as int] == post.heads()[other.0 as int]);
                lemma_resolve_append(pre.log(), op, pre.head_of(other), p);
            }
        }
        oid
    }

    /// Append a Patch linked to `oid`'s current head and advance the head to
    /// it. The change is stored verbatim; materialization is deferred to
    /// read time. From the patch's position on, reads see the change applied
    /// to the object's previous value; earlier snapshot bounds and all other
    /// objects are unaffected.
    pub fn patch(&mut self, oid: Oid, change: O::Change)
        requires
            old(self).wf(),
            old(self).contains(oid),
        ensures
            final(self).wf(),
            final(self).log() == old(self).log().push(
                (ObjectOp::Patch {
                    oid,
                    prev_offset: old(self).heads()[oid.0 as int],
                    change,
                }),
            ),
            final(self).heads() == old(self).heads().update(
                oid.0 as int,
                old(self).log().len() as u64,
            ),
            forall|p: int|
                old(self).log().len() <= p ==> final(self).spec_get(oid, p) == Some(
                    old(self).spec_get(oid, p).unwrap().applied(change),
                ) && old(self).spec_get(oid, p) is Some,
            forall|p: int|
                p < old(self).log().len() ==> final(self).spec_get(oid, p) == old(self).spec_get(
                    oid,
                    p,
                ),
            forall|other: Oid, p: int|
                other.0 != oid.0 ==> final(self).spec_get(other, p) == old(self).spec_get(
                    other,
                    p,
                ),
    {
        let n = self.mapping.len();
        proof {
            assert((oid.0 as int) < n as int);
        }
        let idx: usize = oid.0 as usize;
        let prev_offset = self.mapping[idx];
        let offset = self.ops.len();
        self.ops.push(ObjectOp::Patch { oid, prev_offset, change });
        self.mapping[idx] = offset as u64;
        proof {
            let pre = *old(self);
            let post = *self;
            let new_pos = pre.log().len() as int;
            let op = post.log()[new_pos];
            lemma_store_append(pre.log(), pre.heads(), op, oid.0 as int);
            assert(post.wf());
            assert(post.head_of(oid) == new_pos);
            let head = pre.head_of(oid);
            assert forall|p: int| new_pos <= p implies post.spec_get(oid, p) == Some(
                pre.spec_get(oid, p).unwrap().applied(change),
            ) && pre.spec_get(oid, p) is Some by {
                assert(post.log()[new_pos] == op);
                lemma_resolve_append(pre.log(), op, head, p);
                lemma_resolve_some_iff(pre.log(), head, p);
                assert(chain_base(pre.log(), head) <= head < new_pos <= p);
                assert(resolve(post.log(), head, p) == resolve(pre.log(), head, p));
                assert(resolve(pre.log(), head, p) is Some);
            }
            assert forall|p: int| p < new_pos implies post.spec_get(oid, p) == pre.spec_get(
                oid,
                p,
            ) by {
                assert(post.log()[new_pos] == op);
                lemma_resolve_append(pre.log(), op, head, p);
            }
            assert forall|other: Oid, p: int| other.0 != oid.0 implies post.spec_get(other, p)
                == pre.spec_get(other, p) by {
                if pre.contains(other) {
                    assert(post.heads()[other.0 as int] == pre.heads()[other.0 as int]);
                    lemma_resolve_append(pre.log(), op, pre.head_of(other), p);
                }
            }
        }
    }

    /// Append a fresh Put for `oid` and advance the head to it, starting a
    /// new epoch with no link back into the old chain. From the Put's
    /// position on, reads see the new value; for every bound strictly before
    /// it — even bounds inside the superseded chain — the object is absent.
    pub fn replace(&mut self, oid: Oid, obj: Arc<O>)
        requires
            old(self).wf(),
            old(self).contains(oid),
        ensures
            final(self).wf(),
            final(self).log() == old(self).log().push(ObjectOp::Put(oid, obj)),
            final(self).heads() == old(self).heads().update(
                oid.0 as int,
                old(self).log().len() as u64,
            ),
            forall|p: int|
                old(self).log().len() <= p ==> final(self).spec_get(oid, p) == Some(*obj),
            forall|p: int| p < old(self).log().len() ==> final(self).spec_get(oid, p) is None,
            forall|other: Oid, p: int|
                other.0 != oid.0 ==> final(self).spec_get(other, p) == old(self).spec_get(
                    other,
                    p,
                ),
    {
        let n = self.mapping.len();
        proof {
            assert((oid.0 as int) < n as int);
        }
        let idx: usize = oid.0 as usize;
        let offset = self.ops.len();
        self.ops.push(ObjectOp::Put(oid, obj));
        self.mapping[idx] = offset as u64;
        proof {
            let pre = *old(self);
            let post = *self;
            let new_pos = pre.log().len() as int;
            let op = post.log()[new_pos];
            lemma_store_append(pre.log(), pre.heads(), op, oid.0 as int);
            assert(post.wf());
            assert(post.head_of(oid) == new_pos);
            assert forall|p: int| new_pos <= p implies post.spec_get(oid, p) == Some(*obj) by {
                assert(post.log()[new_pos] == op);
            }
            assert forall|p: int| p < new_pos implies post.spec_get(oid, p) is None by {
                assert(post.log()[new_pos] == op);
            }
            assert forall|other: Oid, p: int| other.0 != oid.0 implies post.spec_get(other, p)
                == pre.spec_get(other, p) by {
                if pre.contains(other) {
                    assert(post.heads()[other.0 as int] == pre.heads()[other.0 as int]);
                    lemma_resolve_append(pre.log(), op, pre.head_of(other), p);
                }
            }
        }
    }
}

} // verus!
