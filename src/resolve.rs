//! Linking of operations to the structures they take and give.

use vstd::prelude::*;
use crate::classify::op_views;
use crate::keyed::{last_wins, upsert_seq};
use crate::model::{ModelError, Operation, Refs, Service};

verus! {

/// A reference resolves when it is absent or names a registered structure.
pub open spec fn resolves<V>(reg: Map<Seq<char>, V>, r: Option<Seq<char>>) -> bool {
    r matches Some(k) ==> reg.contains_key(k)
}

/// Both references of an operation resolve.
pub open spec fn op_resolves<V>(reg: Map<Seq<char>, V>, op: (Seq<char>, Refs)) -> bool {
    resolves(reg, op.1.0) && resolves(reg, op.1.1)
}

/// Every operation of `ops` resolves.
pub open spec fn all_resolve<V>(reg: Map<Seq<char>, V>, ops: Seq<(Seq<char>, Refs)>) -> bool {
    forall|i: int| 0 <= i < ops.len() ==> #[trigger] op_resolves(reg, ops[i])
}

/// Operation `k` is the first that does not resolve.
pub open spec fn first_unresolved<V>(reg: Map<Seq<char>, V>, ops: Seq<(Seq<char>, Refs)>, k: int) -> bool {
    &&& 0 <= k < ops.len()
    &&& !op_resolves(reg, ops[k])
    &&& all_resolve(reg, ops.take(k))
}

/// The reference that fails for an operation that does not resolve: its input's if that fails.
pub open spec fn unresolved_of<V>(reg: Map<Seq<char>, V>, op: (Seq<char>, Refs)) -> Seq<char> {
    if !resolves(reg, op.1.0) {
        op.1.0.unwrap()
    } else {
        op.1.1.unwrap()
    }
}

fn copy_ref(r: &Option<String>) -> (c: Option<String>)
    ensures
        c == *r,
{
    match r {
        Some(s) => Some(s.clone()),
        None => None,
    }
}

/// Checks that a reference names a registered structure, where it is present.
fn check_ref(svc: &Service, r: &Option<String>) -> (res: Result<(), ModelError>)
    requires
        svc.wf(),
    ensures
        res is Ok <==> resolves(svc.registry(), crate::tree::text_of(*r)),
        res matches Err(e) ==> e matches ModelError::UnresolvedReference(n) && Some(n@) == crate::tree::text_of(*r),
{
    match r {
        Some(name) => match svc.structure_named(name) {
            Some(_) => Ok(()),
            None => Err(ModelError::UnresolvedReference(name.clone())),
        },
        None => Ok(()),
    }
}

/// Resolves each pending operation against the registry and adds it to the
/// service. Fails on the first reference to a structure that is not registered.
pub fn resolve(svc: &mut Service, pending: &Vec<Operation>) -> (r: Result<(), ModelError>)
    requires
        old(svc).wf(),
    ensures
        final(svc).wf(),
        final(svc).name == old(svc).name,
        final(svc).structures == old(svc).structures,
        r is Ok <==> all_resolve(old(svc).registry(), op_views(pending@)),
        r is Ok ==> final(svc).operation_map() == last_wins(old(svc).operation_pairs() + op_views(pending@)),
        r is Ok ==> final(svc).operation_pairs() == upsert_seq(old(svc).operation_pairs(), op_views(pending@)),
        r matches Err(e) ==> exists|k: int| {
            &&& first_unresolved(old(svc).registry(), op_views(pending@), k)
            &&& e matches ModelError::UnresolvedReference(n)
            &&& n@ == unresolved_of(old(svc).registry(), #[trigger] op_views(pending@)[k])
        },
{
    let ghost ops = op_views(pending@);
    let ghost reg = svc.registry();
    let ghost base = svc.operation_pairs();
    assert((base + ops.take(0)) =~= base);
    assert(ops.take(0) =~= Seq::<(Seq<char>, Refs)>::empty());
    let mut i: usize = 0;
    while i < pending.len()
        invariant
            ops == op_views(pending@),
            i <= pending@.len(),
            svc.wf(),
            svc.name == old(svc).name,
            svc.structures == old(svc).structures,
            reg == old(svc).registry(),
            base == old(svc).operation_pairs(),
            all_resolve(reg, ops.take(i as int)),
            svc.operation_map() == last_wins(base + ops.take(i as int)),
            svc.operation_pairs() == upsert_seq(base, ops.take(i as int)),
        decreases pending@.len() - i,
    {
        let op = &pending[i];
        assert(ops[i as int] == (op.name@, op.refs()));
        match check_ref(svc, &op.input) {
            Ok(()) => {},
            Err(e) => {
                assert(first_unresolved(reg, ops, i as int));
                return Err(e);
            },
        }
        match check_ref(svc, &op.output) {
            Ok(()) => {},
            Err(e) => {
                assert(first_unresolved(reg, ops, i as int));
                return Err(e);
            },
        }
        let resolved = Operation { name: op.name.clone(), input: copy_ref(&op.input), output: copy_ref(&op.output) };
        svc.insert_operation(resolved);
        proof {
            assert((base + ops.take(i + 1)).drop_last() =~= base + ops.take(i as int));
            assert(ops.take(i + 1).drop_last() =~= ops.take(i as int));
            crate::keyed::lemma_last_wins_push(base + ops.take(i as int), op.name@, op.refs());
            assert((base + ops.take(i as int)).push((op.name@, op.refs())) =~= base + ops.take(i + 1));
            assert forall|j: int| 0 <= j < i + 1 implies #[trigger] op_resolves(reg, ops.take(i + 1)[j]) by {
                if j < i {
                    assert(ops.take(i + 1)[j] == ops.take(i as int)[j]);
                }
            }
        }
        i = i + 1;
    }
    assert(ops.take(i as int) =~= ops);
    Ok(())
}

} // verus!
