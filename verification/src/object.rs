use vstd::prelude::*;

verus! {

/// The specification side of a value the store can hold: the type of its
/// incremental change records, and what one such record does to a value.
pub trait Delta: Sized {
    /// The type of one incremental change record.
    type Change;

    /// What a single change does to the value.
    spec fn applied(self, change: Self::Change) -> Self;
}

/// A value that the store can hold: it can be duplicated exactly, and a
/// batch of its associated change records can be folded into it.
///
/// `apply` receives the batch in reverse-chronological order (the most
/// recent change first) and must produce the value that results from
/// applying the changes in chronological order. This inversion is a hard
/// contract on every implementation, captured by `fold_newest_first`.
pub trait Object: Delta {
    /// Fold a newest-first batch of changes into the value.
    fn apply(&mut self, changes: &[&Self::Change])
        ensures
            *final(self) == fold_newest_first(*old(self), deref_changes(changes@)),
    ;

    /// An exact duplicate of the value, independent of the original.
    fn dup(&self) -> (duplicate: Self)
        ensures
            duplicate == *self,
    ;
}

/// The values behind a sequence of borrowed change records.
pub open spec fn deref_changes<C>(changes: Seq<&C>) -> Seq<C> {
    Seq::new(changes.len(), |i: int| *changes[i])
}

/// Folding a newest-first batch: the last element is the oldest change and
/// lands first, the first element is the newest change and lands last.
pub open spec fn fold_newest_first<O: Delta>(base: O, changes: Seq<O::Change>) -> O
    decreases changes.len(),
{
    if changes.len() == 0 {
        base
    } else {
        fold_newest_first(base, changes.drop_first()).applied(changes[0])
    }
}

/// Applying a batch of changes in chronological order, first element first.
pub open spec fn applied_all<O: Delta>(base: O, changes: Seq<O::Change>) -> O
    decreases changes.len(),
{
    if changes.len() == 0 {
        base
    } else {
        applied_all(base.applied(changes[0]), changes.drop_first())
    }
}

/// Appending an older change to a newest-first batch means applying that
/// change before the whole batch.
pub proof fn lemma_fold_push<O: Delta>(base: O, changes: Seq<O::Change>, oldest: O::Change)
    ensures
        fold_newest_first(base, changes.push(oldest)) == fold_newest_first(
            base.applied(oldest),
            changes,
        ),
    decreases changes.len(),
{
    if changes.len() == 0 {
        assert(changes.push(oldest).drop_first() =~= Seq::<O::Change>::empty());
        assert(fold_newest_first(base, Seq::<O::Change>::empty()) == base);
        assert(fold_newest_first(base, changes.push(oldest)) == base.applied(oldest));
    } else {
        assert(changes.push(oldest).drop_first() =~= changes.drop_first().push(oldest));
        lemma_fold_push(base, changes.drop_first(), oldest);
        assert(fold_newest_first(base, changes.push(oldest)) == fold_newest_first(
            base,
            changes.drop_first().push(oldest),
        ).applied(changes[0]));
        assert(fold_newest_first(base.applied(oldest), changes) == fold_newest_first(
            base.applied(oldest),
            changes.drop_first(),
        ).applied(changes[0]));
    }
}

/// Applying one more change after a chronological batch extends the batch.
pub proof fn lemma_applied_all_push<O: Delta>(base: O, changes: Seq<O::Change>, newest: O::Change)
    ensures
        applied_all(base, changes.push(newest)) == applied_all(base, changes).applied(newest),
    decreases changes.len(),
{
    if changes.len() == 0 {
        assert(changes.push(newest).drop_first() =~= Seq::<O::Change>::empty());
        assert(applied_all(base.applied(newest), Seq::<O::Change>::empty()) == base.applied(
            newest,
        ));
        assert(applied_all(base, changes.push(newest)) == base.applied(newest));
        assert(applied_all(base, changes) == base);
    } else {
        assert(changes.push(newest).drop_first() =~= changes.drop_first().push(newest));
        lemma_applied_all_push(base.applied(changes[0]), changes.drop_first(), newest);
        assert(applied_all(base, changes.push(newest)) == applied_all(
            base.applied(changes[0]),
            changes.drop_first().push(newest),
        ));
        assert(applied_all(base, changes) == applied_all(
            base.applied(changes[0]),
            changes.drop_first(),
        ));
    }
}

/// The reverse-order folding contract in one line: folding a newest-first
/// batch is the same as applying the reversed batch in chronological order.
pub proof fn lemma_fold_is_chronological<O: Delta>(base: O, changes: Seq<O::Change>)
    ensures
        fold_newest_first(base, changes) == applied_all(base, changes.reverse()),
    decreases changes.len(),
{
    if changes.len() == 0 {
        assert(changes.reverse() =~= Seq::<O::Change>::empty());
    } else {
        lemma_fold_is_chronological(base, changes.drop_first());
        assert(changes.reverse() =~= changes.drop_first().reverse().push(changes[0]));
        lemma_applied_all_push(base, changes.drop_first().reverse(), changes[0]);
    }
}

/// An object identifier: an opaque handle naming one logical object, backed
/// by a dense zero-based index into the store's head table.
#[derive(PartialEq, Eq, Structural, Hash, Clone, Copy, Debug)]
pub struct Oid(pub u64);

impl PartialOrd for Oid {
    /// Identifiers order by the reverse of their numeric order: the most
    /// recently created identifier sorts first.
    fn partial_cmp(&self, other: &Self) -> (ordering: Option<core::cmp::Ordering>) {
        if self.0 > other.0 {
            Some(core::cmp::Ordering::Less)
        } else if self.0 == other.0 {
            Some(core::cmp::Ordering::Equal)
        } else {
            Some(core::cmp::Ordering::Greater)
        }
    }
}

impl vstd::std_specs::cmp::PartialOrdSpecImpl for Oid {
    open spec fn obeys_partial_cmp_spec() -> bool {
        true
    }

    open spec fn partial_cmp_spec(&self, other: &Self) -> Option<core::cmp::Ordering> {
        if self.0 > other.0 {
            Some(core::cmp::Ordering::Less)
        } else if self.0 == other.0 {
            Some(core::cmp::Ordering::Equal)
        } else {
            Some(core::cmp::Ordering::Greater)
        }
    }
}

} // verus!
