use vstd::prelude::*;

use crate::object::{Object, Oid};
use std::sync::Arc;

verus! {

/// One entry of the append-only operation log.
pub enum ObjectOp<O: Object> {
    /// A full, self-contained snapshot of an object's value.
    Put(Oid, Arc<O>),
    /// An incremental change, linked backward to the previous operation of
    /// the same object.
    Patch { oid: Oid, prev_offset: u64, change: O::Change },
}

/// The identifier an operation belongs to.
pub open spec fn op_oid<O: Object>(op: ObjectOp<O>) -> Oid {
    match op {
        ObjectOp::Put(oid, _) => oid,
        ObjectOp::Patch { oid, .. } => oid,
    }
}

/// The operation at position `j` points strictly backward if it is a patch.
pub open spec fn op_wf_at<O: Object>(ops: Seq<ObjectOp<O>>, j: int) -> bool {
    match ops[j] {
        ObjectOp::Put(..) => true,
        ObjectOp::Patch { prev_offset, .. } => (prev_offset as int) < j,
    }
}

/// Every patch in the log points strictly backward, so every chain walk
/// terminates and bottoms out in a Put.
pub open spec fn ops_wf<O: Object>(ops: Seq<ObjectOp<O>>) -> bool {
    forall|j: int| 0 <= j < ops.len() ==> #[trigger] op_wf_at(ops, j)
}

/// A patch at position `j` links to an operation of the same identifier.
pub open spec fn op_coherent_at<O: Object>(ops: Seq<ObjectOp<O>>, j: int) -> bool {
    match ops[j] {
        ObjectOp::Put(..) => true,
        ObjectOp::Patch { oid, prev_offset, .. } => op_oid(ops[prev_offset as int]) == oid,
    }
}

/// The well-formedness of a whole store state: every patch points strictly
/// backward and links to an operation of the same identifier, and each
/// identifier's head points into the log, at that identifier's most recent
/// operation.
pub open spec fn store_wf<O: Object>(ops: Seq<ObjectOp<O>>, heads: Seq<u64>) -> bool {
    &&& ops_wf(ops)
    &&& forall|j: int| 0 <= j < ops.len() ==> #[trigger] op_coherent_at(ops, j)
    &&& forall|i: int| 0 <= i < heads.len() ==> ((#[trigger] heads[i]) as int) < ops.len()
    &&& forall|i: int|
        0 <= i < heads.len() ==> (op_oid(ops[(#[trigger] heads[i]) as int]).0 as int) == i
    &&& forall|i: int, j: int|
        #![trigger heads[i], ops[j]]
        0 <= i < heads.len() && (heads[i] as int) < j < ops.len() ==> (op_oid(ops[j]).0 as int)
            != i
}

/// Appending one operation for the identifier at index `idx` — a fresh Put,
/// or a Patch linked to that identifier's current head — and pointing the
/// head at the new position keeps the store well-formed. `idx` equal to the
/// head count grows the table by one entry; a smaller `idx` moves an
/// existing head.
pub proof fn lemma_store_append<O: Object>(
    ops: Seq<ObjectOp<O>>,
    heads: Seq<u64>,
    op: ObjectOp<O>,
    idx: int,
)
    requires
        store_wf(ops, heads),
        ops.len() <= u64::MAX,
        0 <= idx <= heads.len(),
        (op_oid(op).0 as int) == idx,
        op matches ObjectOp::Patch { prev_offset, .. } ==> idx < heads.len() && prev_offset
            == heads[idx],
    ensures
        store_wf(
            ops.push(op),
            if idx == heads.len() {
                heads.push(ops.len() as u64)
            } else {
                heads.update(idx, ops.len() as u64)
            },
        ),
{
    let ops2 = ops.push(op);
    let heads2 = if idx == heads.len() {
        heads.push(ops.len() as u64)
    } else {
        heads.update(idx, ops.len() as u64)
    };
    assert forall|j: int| 0 <= j < ops2.len() implies #[trigger] op_wf_at(ops2, j) by {
        if j < ops.len() {
            assert(op_wf_at(ops, j));
            assert(ops2[j] == ops[j]);
        } else {
            match op {
                ObjectOp::Put(..) => {},
                ObjectOp::Patch { prev_offset, .. } => {
                    assert((heads[idx] as int) < ops.len());
                },
            }
        }
    }
    assert forall|j: int| 0 <= j < ops2.len() implies #[trigger] op_coherent_at(ops2, j) by {
        if j < ops.len() {
            assert(op_coherent_at(ops, j));
            assert(op_wf_at(ops, j));
            assert(ops2[j] == ops[j]);
            match ops[j] {
                ObjectOp::Put(..) => {},
                ObjectOp::Patch { prev_offset, .. } => {
                    assert(ops2[prev_offset as int] == ops[prev_offset as int]);
                },
            }
        } else {
            match op {
                ObjectOp::Patch { oid, prev_offset, .. } => {
                    assert(ops2[prev_offset as int] == ops[heads[idx] as int]);
                    assert((op_oid(ops[heads[idx] as int]).0 as int) == idx);
                },
                ObjectOp::Put(..) => {},
            }
        }
    }
    assert forall|i: int| 0 <= i < heads2.len() implies ((#[trigger] heads2[i]) as int)
        < ops2.len() by {
        if i != idx {
            assert(heads2[i] == heads[i]);
        }
    }
    assert forall|i: int| 0 <= i < heads2.len() implies (op_oid(
        ops2[(#[trigger] heads2[i]) as int],
    ).0 as int) == i by {
        if i == idx {
            assert(heads2[i] as int == ops.len());
            assert(ops2[ops.len() as int] == op);
        } else {
            assert(heads2[i] == heads[i]);
            assert(ops2[heads[i] as int] == ops[heads[i] as int]);
        }
    }
    assert forall|i: int, j: int|
        #![trigger heads2[i], ops2[j]]
        0 <= i < heads2.len() && (heads2[i] as int) < j < ops2.len() implies (op_oid(
        ops2[j],
    ).0 as int) != i by {
        if i == idx {
            assert(heads2[i] as int == ops.len());
        } else {
            assert(heads2[i] == heads[i]);
            if j < ops.len() {
                assert(ops2[j] == ops[j]);
                assert((op_oid(ops[j]).0 as int) != i);
            } else {
                assert(ops2[j] == op);
            }
        }
    }
}

/// The value of the chain headed at `pos`, as of the snapshot bound `bound`:
/// walk backward to the base Put, folding in every patch whose own position
/// is at or before `bound`; absent when the base Put itself lies after
/// `bound`.
pub open spec fn resolve<O: Object>(ops: Seq<ObjectOp<O>>, pos: int, bound: int) -> Option<O>
    decreases pos,
{
    if 0 <= pos < ops.len() {
        match ops[pos] {
            ObjectOp::Put(_, obj) => if pos <= bound {
                Some(*obj)
            } else {
                None
            },
            ObjectOp::Patch { prev_offset, change, .. } => if (prev_offset as int) < pos {
                match resolve(ops, prev_offset as int, bound) {
                    Some(value) => if pos <= bound {
                        Some(value.applied(change))
                    } else {
                        Some(value)
                    },
                    None => None,
                }
            } else {
                None
            },
        }
    } else {
        None
    }
}

/// The position of the Put at the bottom of the chain headed at `pos`.
pub open spec fn chain_base<O: Object>(ops: Seq<ObjectOp<O>>, pos: int) -> int
    decreases pos,
{
    if 0 <= pos < ops.len() {
        match ops[pos] {
            ObjectOp::Put(..) => pos,
            ObjectOp::Patch { prev_offset, .. } => if (prev_offset as int) < pos {
                chain_base(ops, prev_offset as int)
            } else {
                -1
            },
        }
    } else {
        -1
    }
}

/// Whether `q` is one of the positions on the chain headed at `pos`.
pub open spec fn on_chain<O: Object>(ops: Seq<ObjectOp<O>>, pos: int, q: int) -> bool
    decreases pos,
{
    if 0 <= pos < ops.len() {
        q == pos || (match ops[pos] {
            ObjectOp::Put(..) => false,
            ObjectOp::Patch { prev_offset, .. } => (prev_offset as int) < pos && on_chain(
                ops,
                prev_offset as int,
                q,
            ),
        })
    } else {
        false
    }
}

/// Resolution reads only positions at or below `pos`, so operations appended
/// after `pos` change nothing about the chain headed there.
pub proof fn lemma_resolve_append<O: Object>(
    ops: Seq<ObjectOp<O>>,
    more: ObjectOp<O>,
    pos: int,
    bound: int,
)
    requires
        0 <= pos < ops.len(),
    ensures
        resolve(ops.push(more), pos, bound) == resolve(ops, pos, bound),
        chain_base(ops.push(more), pos) == chain_base(ops, pos),
        forall|q: int|
            #![trigger on_chain(ops.push(more), pos, q)]
            on_chain(ops.push(more), pos, q) == on_chain(ops, pos, q),
    decreases pos,
{
    assert(ops.push(more)[pos] == ops[pos]);
    match ops[pos] {
        ObjectOp::Put(..) => {
            assert forall|q: int|
                on_chain(ops.push(more), pos, q) == on_chain(ops, pos, q) by {
                assert(on_chain(ops.push(more), pos, q) == (q == pos));
                assert(on_chain(ops, pos, q) == (q == pos));
            }
        },
        ObjectOp::Patch { prev_offset, .. } => {
            let prev = prev_offset as int;
            if prev < pos {
                lemma_resolve_append(ops, more, prev, bound);
                assert forall|q: int|
                    on_chain(ops.push(more), pos, q) == on_chain(ops, pos, q) by {
                    assert(on_chain(ops.push(more), prev, q) == on_chain(ops, prev, q));
                    assert(on_chain(ops.push(more), pos, q) == (q == pos || on_chain(
                        ops.push(more),
                        prev,
                        q,
                    )));
                    assert(on_chain(ops, pos, q) == (q == pos || on_chain(ops, prev, q)));
                }
            }
        },
    }
}

/// A bound at or above the chain's head sees the whole chain, so any two
/// such bounds resolve to the same value.
pub proof fn lemma_resolve_high_bound<O: Object>(
    ops: Seq<ObjectOp<O>>,
    pos: int,
    bound1: int,
    bound2: int,
)
    requires
        ops_wf(ops),
        0 <= pos < ops.len(),
        pos <= bound1,
        pos <= bound2,
    ensures
        resolve(ops, pos, bound1) == resolve(ops, pos, bound2),
    decreases pos,
{
    assert(op_wf_at(ops, pos));
    match ops[pos] {
        ObjectOp::Put(..) => {},
        ObjectOp::Patch { prev_offset, .. } => {
            lemma_resolve_high_bound(ops, prev_offset as int, bound1, bound2);
        },
    }
}

/// The chain's base is a Put on the chain, and resolution succeeds exactly
/// when the bound reaches that base.
pub proof fn lemma_resolve_some_iff<O: Object>(ops: Seq<ObjectOp<O>>, pos: int, bound: int)
    requires
        ops_wf(ops),
        0 <= pos < ops.len(),
    ensures
        0 <= chain_base(ops, pos) <= pos,
        ops[chain_base(ops, pos)] is Put,
        on_chain(ops, pos, chain_base(ops, pos)),
        resolve(ops, pos, bound) is Some <==> chain_base(ops, pos) <= bound,
    decreases pos,
{
    assert(op_wf_at(ops, pos));
    match ops[pos] {
        ObjectOp::Put(..) => {},
        ObjectOp::Patch { prev_offset, .. } => {
            lemma_resolve_some_iff(ops, prev_offset as int, bound);
        },
    }
}

/// Between two bounds that both reach the chain's base, resolution only
/// changes if some patch of the chain falls in the window between them.
pub proof fn lemma_resolve_stable<O: Object>(
    ops: Seq<ObjectOp<O>>,
    pos: int,
    bound1: int,
    bound2: int,
)
    requires
        ops_wf(ops),
        0 <= pos < ops.len(),
        bound1 <= bound2,
        chain_base(ops, pos) <= bound1,
        forall|q: int| #[trigger]
            on_chain(ops, pos, q) ==> !(ops[q] is Patch && bound1 < q <= bound2),
    ensures
        resolve(ops, pos, bound1) == resolve(ops, pos, bound2),
    decreases pos,
{
    assert(op_wf_at(ops, pos));
    match ops[pos] {
        ObjectOp::Put(..) => {
            assert(on_chain(ops, pos, pos));
        },
        ObjectOp::Patch { prev_offset, .. } => {
            let prev = prev_offset as int;
            assert(on_chain(ops, pos, pos));
            assert(forall|q: int| #[trigger]
                on_chain(ops, prev, q) ==> on_chain(ops, pos, q));
            lemma_resolve_stable(ops, prev, bound1, bound2);
        },
    }
}

} // verus!
