use vstd::prelude::*;

use crate::chain::{lemma_resolve_some_iff, lemma_resolve_stable, on_chain};
use crate::object::{applied_all, Object, Oid};
use crate::Db;

verus! {

/// One `patch` call on `oid`, as its contract describes it: the facts below
/// all follow from the ensures of `Db::patch`, so any caller of `patch` can
/// establish this relation between the state before and the state after.
pub open spec fn patch_step<O: Object>(
    pre: Db<O>,
    post: Db<O>,
    oid: Oid,
    change: O::Change,
) -> bool {
    &&& pre.wf()
    &&& post.wf()
    &&& pre.contains(oid)
    &&& post.contains(oid)
    &&& post.log().len() == pre.log().len() + 1
    &&& post.head_of(oid) == pre.log().len()
    &&& forall|p: int|
        pre.log().len() <= p ==> post.spec_get(oid, p) == Some(
            pre.spec_get(oid, p).unwrap().applied(change),
        ) && pre.spec_get(oid, p) is Some
}

/// After any run of consecutive `patch` calls on one object, reading at the
/// position of the last patch yields the object's value before the run with
/// exactly those changes applied, in chronological order. `states` holds the
/// store before the run and after each call; `changes` the patched changes,
/// in call order.
pub proof fn lemma_patch_run_get<O: Object>(states: Seq<Db<O>>, oid: Oid, changes: Seq<O::Change>)
    requires
        states.len() == changes.len() + 1,
        changes.len() > 0,
        forall|k: int|
            0 <= k < changes.len() ==> #[trigger] patch_step(
                states[k],
                states[k + 1],
                oid,
                changes[k],
            ),
    ensures
        ({
            let first = states[0];
            let last_state = states[changes.len() as int];
            let last_pos = first.log().len() + changes.len() - 1;
            &&& first.spec_get(oid, last_pos) is Some
            &&& last_state.spec_get(oid, last_pos) == Some(
                applied_all(first.spec_get(oid, last_pos).unwrap(), changes),
            )
        }),
    decreases changes.len(),
{
    let first = states[0];
    let last_pos = first.log().len() + changes.len() - 1;
    let k0: int = 0;
    assert(patch_step(states[k0], states[k0 + 1], oid, changes[k0]));
    let value0 = first.spec_get(oid, last_pos).unwrap();
    if changes.len() == 1 {
        assert(changes.drop_first() =~= Seq::<O::Change>::empty());
        assert(applied_all(value0.applied(changes[0]), Seq::<O::Change>::empty()) == value0.applied(
            changes[0],
        ));
        assert(applied_all(value0, changes) == value0.applied(changes[0]));
    } else {
        let rest_states = states.drop_first();
        let rest_changes = changes.drop_first();
        assert forall|k: int| 0 <= k < rest_changes.len() implies #[trigger] patch_step(
            rest_states[k],
            rest_states[k + 1],
            oid,
            rest_changes[k],
        ) by {
            assert(patch_step(states[k + 1], states[(k + 1) + 1], oid, changes[k + 1]));
            assert(rest_states[k] == states[k + 1]);
            assert(rest_states[k + 1] == states[k + 2]);
        }
        lemma_patch_run_get(rest_states, oid, rest_changes);
        assert(rest_states[rest_changes.len() as int] == states[changes.len() as int]);
        assert(states[1].spec_get(oid, last_pos) == Some(value0.applied(changes[0])));
        assert(applied_all(value0, changes) == applied_all(
            value0.applied(changes[0]),
            changes.drop_first(),
        ));
    }
}

/// Monotonicity of reads: two snapshot bounds that both reach the object's
/// base Put, with no patch of the object's chain strictly between them, see
/// the same value.
pub proof fn lemma_get_monotonic<O: Object>(db: Db<O>, oid: Oid, bound1: int, bound2: int)
    requires
        db.wf(),
        db.contains(oid),
        bound1 <= bound2,
        db.base_position(oid) <= bound1,
        forall|q: int| #[trigger]
            on_chain(db.log(), db.head_of(oid), q) ==> !(db.log()[q] is Patch && bound1 < q
                <= bound2),
    ensures
        db.spec_get(oid, bound1) == db.spec_get(oid, bound2),
{
    assert(db.head_of(oid) < db.log().len());
    lemma_resolve_stable(db.log(), db.head_of(oid), bound1, bound2);
}

/// A read is present exactly when the snapshot bound reaches the object's
/// base Put; in particular every bound strictly before the base sees the
/// object as absent.
pub proof fn lemma_absent_below_base<O: Object>(db: Db<O>, oid: Oid, bound: int)
    requires
        db.wf(),
        db.contains(oid),
    ensures
        db.spec_get(oid, bound) is Some <==> db.base_position(oid) <= bound,
        bound < db.base_position(oid) ==> db.spec_get(oid, bound) is None,
{
    assert(db.head_of(oid) < db.log().len());
    lemma_resolve_some_iff(db.log(), db.head_of(oid), bound);
}

} // verus!
