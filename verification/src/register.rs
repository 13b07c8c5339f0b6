use vstd::prelude::*;

use crate::object::{deref_changes, fold_newest_first, Delta, Object};

verus! {

/// A minimal sample value for the store: a single word whose change records
/// each propose a replacement word, the newest visible change winning. Small
/// as it is, it is order-sensitive, so it exercises the reverse-order
/// folding contract of `Object::apply`.
#[derive(PartialEq, Eq, Structural, Clone, Copy, Debug)]
pub struct Register {
    pub word: u64,
}

impl Delta for Register {
    type Change = u64;

    open spec fn applied(self, change: u64) -> Self {
        Register { word: change }
    }
}

/// Folding any nonempty newest-first batch into a register leaves the
/// newest change's word; an empty batch leaves the register unchanged.
pub proof fn lemma_register_fold(base: Register, changes: Seq<u64>)
    ensures
        fold_newest_first(base, changes) == if changes.len() == 0 {
            base
        } else {
            (Register { word: changes[0] })
        },
{
    if changes.len() > 0 {
        assert(fold_newest_first(base, changes) == fold_newest_first(
            base,
            changes.drop_first(),
        ).applied(changes[0]));
    }
}

impl Object for Register {
    fn apply(&mut self, changes: &[&u64]) {
        if changes.len() > 0 {
            self.word = *changes[0];
        }
        proof {
            lemma_register_fold(*old(self), deref_changes(changes@));
            if changes@.len() > 0 {
                assert(deref_changes(changes@)[0] == *changes@[0]);
            } else {
                assert(deref_changes(changes@) =~= Seq::<u64>::empty());
            }
        }
    }

    fn dup(&self) -> (duplicate: Self) {
        Register { word: self.word }
    }
}

} // verus!
