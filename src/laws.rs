//! Properties that hold of every document.

use vstd::prelude::*;
use crate::classify::{declared_members, first_malformed, structure_decls, kind_of, pending_of, service_name_of, shape_ok, shapes_ok, structures_of};
use crate::document::{load_error, load_ok, loaded, service_lines};
use crate::keyed::last_wins;
use crate::model::{ModelError, Operation, Service, Structure, named};
use crate::report::{LineKind, input_lines, report_of, selected_lines, tag_lines};
use crate::resolve::{op_resolves, resolves};
use crate::text::{is_infix, is_tag_name};
use crate::tree::{Node, text_of};

verus! {

/// No shape of `s` is of kind `kind`.
pub open spec fn none_of_kind(s: Seq<(String, Node)>, kind: Seq<char>) -> bool {
    forall|i: int| 0 <= i < s.len() ==> kind_of(#[trigger] s[i].1) != Some(kind)
}

/// Every shape of `s` is of kind `kind`.
pub open spec fn all_of_kind(s: Seq<(String, Node)>, kind: Seq<char>) -> bool {
    forall|i: int| 0 <= i < s.len() ==> kind_of(#[trigger] s[i].1) == Some(kind)
}

proof fn lemma_no_service(s: Seq<(String, Node)>)
    requires
        none_of_kind(s, "service"@),
    ensures
        service_name_of(s) == "UNKNOWN"@,
        service_lines(s) == Seq::<(LineKind, Seq<char>)>::empty(),
    decreases s.len(),
{
    if s.len() > 0 {
        assert(kind_of(s[s.len() - 1].1) != Some("service"@));
        lemma_no_service(s.drop_last());
    }
}

/// With exactly one service shape, the service takes its name and the
/// report announces it exactly once.
pub proof fn lemma_single_service(s: Seq<(String, Node)>, k: int)
    requires
        0 <= k < s.len(),
        kind_of(s[k].1) == Some("service"@),
        forall|i: int| 0 <= i < s.len() && i != k ==> kind_of(#[trigger] s[i].1) != Some("service"@),
    ensures
        service_name_of(s) == s[k].0@,
        service_lines(s) == seq![(LineKind::Service, s[k].0@)],
    decreases s.len(),
{
    let d = s.drop_last();
    if k == s.len() - 1 {
        assert forall|i: int| 0 <= i < d.len() implies kind_of(#[trigger] d[i].1) != Some("service"@) by {
            assert(d[i] == s[i]);
        }
        lemma_no_service(d);
        assert(service_lines(s) =~= seq![(LineKind::Service, s[k].0@)]);
    } else {
        assert(kind_of(s[s.len() - 1].1) != Some("service"@));
        assert forall|i: int| 0 <= i < d.len() && i != k implies kind_of(#[trigger] d[i].1) != Some("service"@) by {
            assert(d[i] == s[i]);
        }
        assert(d[k] == s[k]);
        lemma_single_service(d, k);
    }
}

/// The registry holds under a structure's name the members that its last
/// structure shape declares.
pub proof fn lemma_registry_members(s: Seq<(String, Node)>, k: int)
    requires
        0 <= k < s.len(),
        kind_of(s[k].1) == Some("structure"@),
        forall|j: int| k < j < s.len() ==> !(kind_of(#[trigger] s[j].1) == Some("structure"@) && s[j].0@ == s[k].0@),
    ensures
        last_wins(structures_of(s)).contains_key(s[k].0@),
        last_wins(structures_of(s))[s[k].0@] == declared_members(s[k].1),
    decreases s.len(),
{
    let d = s.drop_last();
    if k < s.len() - 1 {
        assert(d[k] == s[k]);
        assert forall|j: int| k < j < d.len() implies
            !(kind_of(#[trigger] d[j].1) == Some("structure"@) && d[j].0@ == d[k].0@) by {
            assert(d[j] == s[j]);
        }
        lemma_registry_members(d, k);
        let j = s.len() - 1;
        assert(!(kind_of(s[j].1) == Some("structure"@) && s[j].0@ == s[k].0@));
        if kind_of(s.last().1) == Some("structure"@) {
            crate::keyed::lemma_last_wins_push(structures_of(d), s.last().0@, declared_members(s.last().1));
        }
    } else {
        crate::keyed::lemma_last_wins_push(structures_of(d), s.last().0@, declared_members(s.last().1));
    }
}

proof fn lemma_last_wins_value<V>(p: Seq<(Seq<char>, V)>, key: Seq<char>)
    requires
        last_wins(p).contains_key(key),
    ensures
        exists|i: int| 0 <= i < p.len() && #[trigger] p[i] == (key, last_wins(p)[key]),
    decreases p.len(),
{
    if p.last().0 != key {
        lemma_last_wins_value(p.drop_last(), key);
        let i = choose|i: int| 0 <= i < p.drop_last().len() && #[trigger] p.drop_last()[i] == (key, last_wins(p.drop_last())[key]);
        assert(p[i] == p.drop_last()[i]);
    } else {
        assert(p[p.len() - 1] == (key, last_wins(p)[key]));
    }
}

/// A loaded document has no dangling references: every operation's input and
/// output, where present, name a registered structure.
pub proof fn lemma_no_dangling(svc: Service, s: Seq<(String, Node)>)
    requires
        loaded(svc, s),
        load_ok(s),
    ensures
        forall|op: Seq<char>| #[trigger] svc.operation_map().contains_key(op) ==> {
            &&& resolves(svc.registry(), svc.operation_map()[op].0)
            &&& resolves(svc.registry(), svc.operation_map()[op].1)
        },
{
    assert forall|op: Seq<char>| #[trigger] svc.operation_map().contains_key(op) implies {
        &&& resolves(svc.registry(), svc.operation_map()[op].0)
        &&& resolves(svc.registry(), svc.operation_map()[op].1)
    } by {
        lemma_last_wins_value(pending_of(s), op);
        let i = choose|i: int| 0 <= i < pending_of(s).len() && #[trigger] pending_of(s)[i] == (op, svc.operation_map()[op]);
        assert(op_resolves(last_wins(structures_of(s)), pending_of(s)[i]));
    }
}

/// The structure that an operation of a loaded document takes or gives is
/// registered with exactly the members that its last structure shape declares.
pub proof fn lemma_operation_members(svc: Service, s: Seq<(String, Node)>, op: Seq<char>, k: int)
    requires
        loaded(svc, s),
        load_ok(s),
        svc.operation_map().contains_key(op),
        svc.operation_map()[op].0 == Some(s[k].0@) || svc.operation_map()[op].1 == Some(s[k].0@),
        0 <= k < s.len(),
        kind_of(s[k].1) == Some("structure"@),
        forall|j: int| k < j < s.len() ==> !(kind_of(#[trigger] s[j].1) == Some("structure"@) && s[j].0@ == s[k].0@),
    ensures
        svc.registry().contains_key(s[k].0@),
        svc.registry()[s[k].0@] == declared_members(s[k].1),
{
    lemma_registry_members(s, k);
}

proof fn lemma_structures_append(x: Seq<(String, Node)>, y: Seq<(String, Node)>)
    ensures
        structures_of(x + y) == structures_of(x) + structures_of(y),
        structure_decls(x + y) == structure_decls(x) + structure_decls(y),
        pending_of(x + y) == pending_of(x) + pending_of(y),
        shapes_ok(x + y) == (shapes_ok(x) && shapes_ok(y)),
    decreases y.len(),
{
    if y.len() == 0 {
        assert(x + y =~= x);
        assert(structures_of(x) + structures_of(y) =~= structures_of(x));
        assert(structure_decls(x) + structure_decls(y) =~= structure_decls(x));
        assert(pending_of(x) + pending_of(y) =~= pending_of(x));
    } else {
        lemma_structures_append(x, y.drop_last());
        assert((x + y).drop_last() =~= x + y.drop_last());
        assert((x + y).last() == y.last());
        assert(structures_of(x + y) =~= structures_of(x) + structures_of(y));
        assert(structure_decls(x + y) =~= structure_decls(x) + structure_decls(y));
        assert(pending_of(x + y) =~= pending_of(x) + pending_of(y));
        if shapes_ok(x + y) {
            assert forall|i: int| 0 <= i < x.len() implies #[trigger] shape_ok(x[i].1) by {
                assert((x + y)[i] == x[i]);
            }
            assert forall|i: int| 0 <= i < y.len() implies #[trigger] shape_ok(y[i].1) by {
                assert((x + y)[x.len() + i] == y[i]);
            }
        }
        if shapes_ok(x) && shapes_ok(y) {
            assert forall|i: int| 0 <= i < (x + y).len() implies #[trigger] shape_ok((x + y)[i].1) by {
                if i < x.len() {
                    assert((x + y)[i] == x[i]);
                } else {
                    assert((x + y)[i] == y[i - x.len()]);
                }
            }
        }
    }
}

proof fn lemma_service_append(x: Seq<(String, Node)>, y: Seq<(String, Node)>)
    ensures
        none_of_kind(y, "service"@) ==> service_name_of(x + y) == service_name_of(x),
        none_of_kind(x, "service"@) ==> service_name_of(x + y) == service_name_of(y),
        none_of_kind(y, "service"@) ==> service_lines(x + y) == service_lines(x),
        none_of_kind(x, "service"@) ==> service_lines(x + y) == service_lines(y),
    decreases y.len(),
{
    if y.len() == 0 {
        assert(x + y =~= x);
        if none_of_kind(x, "service"@) {
            lemma_no_service(x);
        }
    } else {
        assert((x + y).drop_last() =~= x + y.drop_last());
        assert((x + y).last() == y.last());
        if none_of_kind(y, "service"@) {
            assert(kind_of(y[y.len() - 1].1) != Some("service"@));
            assert(none_of_kind(y.drop_last(), "service"@)) by {
                assert forall|i: int| 0 <= i < y.drop_last().len() implies
                    kind_of(#[trigger] y.drop_last()[i].1) != Some("service"@) by {
                    assert(y.drop_last()[i] == y[i]);
                }
            }
        }
        lemma_service_append(x, y.drop_last());
    }
}

proof fn lemma_none_of_kind(s: Seq<(String, Node)>, kind: Seq<char>)
    requires
        none_of_kind(s, kind),
    ensures
        kind == "structure"@ ==> structures_of(s) == Seq::<(Seq<char>, Map<Seq<char>, Seq<char>>)>::empty(),
        kind == "structure"@ ==> structure_decls(s) == Seq::<(Seq<char>, Seq<(Seq<char>, Seq<char>)>)>::empty(),
        kind == "operation"@ ==> pending_of(s) == Seq::<(Seq<char>, crate::model::Refs)>::empty(),
    decreases s.len(),
{
    if s.len() > 0 {
        assert(kind_of(s[s.len() - 1].1) != Some(kind));
        assert forall|i: int| 0 <= i < s.drop_last().len() implies
            kind_of(#[trigger] s.drop_last()[i].1) != Some(kind) by {
            assert(s.drop_last()[i] == s[i]);
        }
        lemma_none_of_kind(s.drop_last(), kind);
    }
}

/// Two lists of structures that agree name by name and member by member.
pub open spec fn same_structures(a: Seq<Structure>, b: Seq<Structure>) -> bool {
    &&& a.len() == b.len()
    &&& forall|i: int| 0 <= i < a.len() ==> (#[trigger] a[i]).name@ == b[i].name@ && a[i].pairs() == b[i].pairs()
}

/// Two lists of operations that agree name by name and reference by reference.
pub open spec fn same_operations(a: Seq<Operation>, b: Seq<Operation>) -> bool {
    &&& a.len() == b.len()
    &&& forall|i: int| 0 <= i < a.len() ==> (#[trigger] a[i]).name@ == b[i].name@ && a[i].refs() == b[i].refs()
}

proof fn lemma_named_same(a: Seq<Structure>, b: Seq<Structure>, r: Seq<char>)
    requires
        same_structures(a, b),
    ensures
        named(a, r) is Some == named(b, r) is Some,
        named(a, r) is Some ==> named(a, r).unwrap().pairs() == named(b, r).unwrap().pairs(),
    decreases a.len(),
{
    if a.len() > 0 {
        assert(same_structures(a.drop_last(), b.drop_last())) by {
            assert forall|i: int| 0 <= i < a.drop_last().len() implies
                (#[trigger] a.drop_last()[i]).name@ == b.drop_last()[i].name@
                && a.drop_last()[i].pairs() == b.drop_last()[i].pairs() by {
                assert(a.drop_last()[i] == a[i] && b.drop_last()[i] == b[i]);
            }
        }
        lemma_named_same(a.drop_last(), b.drop_last(), r);
        assert(a[a.len() - 1].name@ == b[b.len() - 1].name@);
    }
}

proof fn lemma_selected_same(sa: Seq<Structure>, sb: Seq<Structure>, oa: Seq<Operation>, ob: Seq<Operation>, marker: Seq<char>)
    requires
        same_structures(sa, sb),
        same_operations(oa, ob),
    ensures
        selected_lines(sa, oa, marker) == selected_lines(sb, ob, marker),
    decreases oa.len(),
{
    if oa.len() > 0 {
        assert(same_operations(oa.drop_last(), ob.drop_last())) by {
            assert forall|i: int| 0 <= i < oa.drop_last().len() implies
                (#[trigger] oa.drop_last()[i]).name@ == ob.drop_last()[i].name@
                && oa.drop_last()[i].refs() == ob.drop_last()[i].refs() by {
                assert(oa.drop_last()[i] == oa[i] && ob.drop_last()[i] == ob[i]);
            }
        }
        lemma_selected_same(sa, sb, oa.drop_last(), ob.drop_last(), marker);
        let k = oa.len() - 1;
        assert(oa[k].name@ == ob[k].name@ && oa[k].refs() == ob[k].refs());
        match oa.last().refs().0 {
            Some(r) => {
                lemma_named_same(sa, sb, r);
            },
            None => {},
        }
        assert(input_lines(sa, oa.last().refs().0) == input_lines(sb, ob.last().refs().0));
    }
}

/// The report of a service depends only on its structures' names and member
/// lists and its operations' names and references, in order.
pub proof fn lemma_report_determined(a: Service, b: Service)
    requires
        a.structure_views() == b.structure_views(),
        a.operation_pairs() == b.operation_pairs(),
    ensures
        report_of(a) == report_of(b),
{
    assert(same_structures(a.structures@, b.structures@)) by {
        assert(a.structures@.len() == a.structure_views().len());
        assert forall|i: int| 0 <= i < a.structures@.len() implies
            (#[trigger] a.structures@[i]).name@ == b.structures@[i].name@
            && a.structures@[i].pairs() == b.structures@[i].pairs() by {
            assert(a.structure_views()[i] == b.structure_views()[i]);
        }
    }
    assert(same_operations(a.operations@, b.operations@)) by {
        assert(a.operations@.len() == a.operation_pairs().len());
        assert forall|i: int| 0 <= i < a.operations@.len() implies
            (#[trigger] a.operations@[i]).name@ == b.operations@[i].name@
            && a.operations@[i].refs() == b.operations@[i].refs() by {
            assert(a.operation_pairs()[i] == b.operation_pairs()[i]);
        }
    }
    lemma_selected_same(a.structures@, b.structures@, a.operations@, b.operations@, "#List"@);
    lemma_selected_same(a.structures@, b.structures@, a.operations@, b.operations@, "#Describe"@);
}

/// The report of a document does not depend on which service it was loaded
/// into: every service that a document describes gives the same report.
pub proof fn lemma_loaded_report_unique(a: Service, b: Service, s: Seq<(String, Node)>)
    requires
        loaded(a, s),
        loaded(b, s),
    ensures
        report_of(a) == report_of(b),
{
    lemma_report_determined(a, b);
}

/// Resolution does not depend on order: operations listed before the
/// structures they use load exactly as when listed after them. Both orders
/// succeed or fail alike, with the same error, announce the same services,
/// admit the same loaded services, and give line for line the same report.
pub proof fn lemma_order_independent(ops: Seq<(String, Node)>, rest: Seq<(String, Node)>)
    requires
        all_of_kind(ops, "operation"@),
        none_of_kind(rest, "operation"@),
    ensures
        load_ok(ops + rest) == load_ok(rest + ops),
        service_name_of(ops + rest) == service_name_of(rest + ops),
        last_wins(structures_of(ops + rest)) == last_wins(structures_of(rest + ops)),
        last_wins(pending_of(ops + rest)) == last_wins(pending_of(rest + ops)),
        forall|svc: Service| loaded(svc, ops + rest) == loaded(svc, rest + ops),
        forall|e: ModelError| load_error(ops + rest, e) == load_error(rest + ops, e),
        service_lines(ops + rest) == service_lines(rest + ops),
        forall|a: Service, b: Service| loaded(a, ops + rest) && loaded(b, rest + ops)
            ==> #[trigger] report_of(a) == #[trigger] report_of(b),
{
    crate::classify::lemma_kinds_differ();
    assert(none_of_kind(ops, "service"@));
    assert(none_of_kind(ops, "structure"@));
    assert(shapes_ok(ops));
    lemma_none_of_kind(ops, "structure"@);
    lemma_none_of_kind(rest, "operation"@);
    lemma_structures_append(ops, rest);
    lemma_structures_append(rest, ops);
    lemma_service_append(ops, rest);
    lemma_service_append(rest, ops);
    assert(structures_of(ops + rest) =~= structures_of(rest + ops));
    assert(structure_decls(ops + rest) =~= structure_decls(rest + ops));
    assert(pending_of(ops + rest) =~= pending_of(rest + ops));
    lemma_first_malformed_shift(ops, rest);
    assert forall|a: Service, b: Service| loaded(a, ops + rest) && loaded(b, rest + ops)
        implies #[trigger] report_of(a) == #[trigger] report_of(b) by {
        lemma_report_determined(a, b);
    }
    assert forall|e: ModelError| load_error(ops + rest, e) == load_error(rest + ops, e) by {
        let a = ops + rest;
        let b = rest + ops;
        if exists|k: int| first_malformed(a, k) && (e matches ModelError::MalformedShape(n) && n@ == (#[trigger] a[k]).0@) {
            let k = choose|k: int| first_malformed(a, k) && (e matches ModelError::MalformedShape(n) && n@ == (#[trigger] a[k]).0@);
            assert(first_malformed(b, k - ops.len()));
            assert(b[k - ops.len()] == a[k]);
        }
        if exists|k: int| first_malformed(b, k) && (e matches ModelError::MalformedShape(n) && n@ == (#[trigger] b[k]).0@) {
            let k = choose|k: int| first_malformed(b, k) && (e matches ModelError::MalformedShape(n) && n@ == (#[trigger] b[k]).0@);
            assert(first_malformed(a, k + ops.len()));
            assert(a[k + ops.len()] == b[k]);
        }
    }
}

/// Where every shape of `ops` is well formed, the first malformed shape of
/// `ops + rest` is the first malformed shape of `rest + ops`, shifted.
proof fn lemma_first_malformed_shift(ops: Seq<(String, Node)>, rest: Seq<(String, Node)>)
    requires
        shapes_ok(ops),
    ensures
        forall|k: int| first_malformed(ops + rest, k) ==> first_malformed(rest + ops, k - ops.len()),
        forall|k: int| first_malformed(rest + ops, k) ==> first_malformed(ops + rest, k + ops.len()),
{
    let a = ops + rest;
    let b = rest + ops;
    assert forall|k: int| first_malformed(a, k) implies first_malformed(b, k - ops.len()) by {
        if k < ops.len() {
            assert(a[k] == ops[k]);
            assert(shape_ok(ops[k].1));
        }
        let j = k - ops.len();
        assert(a[k] == rest[j]);
        assert(b[j] == rest[j]);
        assert forall|i: int| 0 <= i < j implies #[trigger] shape_ok(b.take(j)[i].1) by {
            assert(b.take(j)[i] == rest[i]);
            assert(a.take(k)[ops.len() + i] == rest[i]);
        }
    }
    assert forall|k: int| first_malformed(b, k) implies first_malformed(a, k + ops.len()) by {
        if k >= rest.len() {
            assert(b[k] == ops[k - rest.len()]);
            assert(shape_ok(ops[k - rest.len()].1));
        }
        let j = k + ops.len();
        assert(a[j] == rest[k]);
        assert(b[k] == rest[k]);
        assert forall|i: int| 0 <= i < j implies #[trigger] shape_ok(a.take(j)[i].1) by {
            if i < ops.len() {
                assert(a.take(j)[i] == ops[i]);
            } else {
                assert(a.take(j)[i] == rest[i - ops.len()]);
                assert(b.take(k)[i - ops.len()] == rest[i - ops.len()]);
            }
        }
    }
}

proof fn lemma_selected_has(structs: Seq<Structure>, ops: Seq<Operation>, marker: Seq<char>, m: int)
    requires
        0 <= m < ops.len(),
        is_infix(marker, ops[m].name@),
    ensures
        exists|i: int| 0 <= i < selected_lines(structs, ops, marker).len()
            && #[trigger] selected_lines(structs, ops, marker)[i] == (LineKind::Operation, ops[m].name@),
    decreases ops.len(),
{
    let d = ops.drop_last();
    let prev = selected_lines(structs, d, marker);
    if m == ops.len() - 1 {
        let i = prev.len() as int;
        assert(selected_lines(structs, ops, marker)[i] == (LineKind::Operation, ops[m].name@));
    } else {
        assert(d[m] == ops[m]);
        lemma_selected_has(structs, d, marker, m);
        let i = choose|i: int| 0 <= i < prev.len() && #[trigger] prev[i] == (LineKind::Operation, ops[m].name@);
        let cur = selected_lines(structs, ops, marker);
        if is_infix(marker, ops.last().name@) {
            assert(cur == prev + seq![(LineKind::Operation, ops.last().name@)]
                + input_lines(structs, ops.last().refs().0));
            assert(cur[i] == prev[i]);
        } else {
            assert(cur == prev);
        }
        assert(0 <= i < cur.len() && cur[i] == (LineKind::Operation, ops[m].name@));
    }
}

/// An operation whose name holds both `#List` and `#Describe` is reported
/// twice: once among the list operations and once among the describe ones.
pub proof fn lemma_reported_twice(svc: Service, m: int)
    requires
        0 <= m < svc.operations@.len(),
        is_infix("#List"@, svc.operations@[m].name@),
        is_infix("#Describe"@, svc.operations@[m].name@),
    ensures
        exists|i: int, j: int| 0 <= i < j < report_of(svc).len()
            && #[trigger] report_of(svc)[i] == (LineKind::Operation, svc.operations@[m].name@)
            && #[trigger] report_of(svc)[j] == (LineKind::Operation, svc.operations@[m].name@),
{
    let a = selected_lines(svc.structures@, svc.operations@, "#List"@);
    let b = selected_lines(svc.structures@, svc.operations@, "#Describe"@);
    lemma_selected_has(svc.structures@, svc.operations@, "#List"@, m);
    lemma_selected_has(svc.structures@, svc.operations@, "#Describe"@, m);
    let i = choose|i: int| 0 <= i < a.len() && #[trigger] a[i] == (LineKind::Operation, svc.operations@[m].name@);
    let j = choose|j: int| 0 <= j < b.len() && #[trigger] b[j] == (LineKind::Operation, svc.operations@[m].name@);
    assert(report_of(svc)[i] == a[i]);
    assert(report_of(svc)[a.len() + j] == b[j]);
}

/// How many times `x` occurs in `s`.
pub open spec fn count_of(s: Seq<(LineKind, Seq<char>)>, x: (LineKind, Seq<char>)) -> nat
    decreases s.len(),
{
    if s.len() == 0 {
        0
    } else {
        count_of(s.drop_last(), x) + if s.last() == x { 1nat } else { 0nat }
    }
}

proof fn lemma_count_append(a: Seq<(LineKind, Seq<char>)>, b: Seq<(LineKind, Seq<char>)>, x: (LineKind, Seq<char>))
    ensures
        count_of(a + b, x) == count_of(a, x) + count_of(b, x),
    decreases b.len(),
{
    if b.len() == 0 {
        assert(a + b =~= a);
    } else {
        lemma_count_append(a, b.drop_last(), x);
        assert((a + b).drop_last() =~= a + b.drop_last());
    }
}

proof fn lemma_count_absent(s: Seq<(LineKind, Seq<char>)>, x: (LineKind, Seq<char>))
    requires
        !s.contains(x),
    ensures
        count_of(s, x) == 0,
    decreases s.len(),
{
    if s.len() > 0 {
        assert(s.drop_last().contains(x) ==> s.contains(x)) by {
            if s.drop_last().contains(x) {
                let i = choose|i: int| 0 <= i < s.drop_last().len() && s.drop_last()[i] == x;
                assert(s[i] == x);
            }
        }
        assert(s[s.len() - 1] != x);
        lemma_count_absent(s.drop_last(), x);
    }
}

/// Operations with distinct names: one holding `marker` has exactly one
/// operation line among the lines selected by `marker`; others have none.
proof fn lemma_selected_count(structs: Seq<Structure>, ops: Seq<Operation>, marker: Seq<char>, n: Seq<char>)
    requires
        forall|i: int, j: int| 0 <= i < j < ops.len() ==> ops[i].name@ != ops[j].name@,
    ensures
        count_of(selected_lines(structs, ops, marker), (LineKind::Operation, n))
            == if is_infix(marker, n) && exists|i: int| 0 <= i < ops.len() && #[trigger] ops[i].name@ == n { 1nat } else { 0nat },
    decreases ops.len(),
{
    let x = (LineKind::Operation, n);
    if ops.len() > 0 {
        let d = ops.drop_last();
        lemma_selected_count(structs, d, marker, n);
        let prev = selected_lines(structs, d, marker);
        let last = ops.last();
        let tags = input_lines(structs, last.refs().0);
        assert(!tags.contains(x)) by {
            match last.refs().0 {
                Some(r) => match named(structs, r) {
                    Some(st) => {
                        lemma_tag_lines_exact(st.pairs());
                    },
                    None => {},
                },
                None => {},
            }
        }
        lemma_count_absent(tags, x);
        let one = seq![(LineKind::Operation, last.name@)];
        let cur = count_of(selected_lines(structs, ops, marker), x);
        if is_infix(marker, last.name@) {
            lemma_count_append(prev + one, tags, x);
            lemma_count_append(prev, one, x);
            assert(one.drop_last() =~= Seq::<(LineKind, Seq<char>)>::empty());
            assert(count_of(one.drop_last(), x) == 0);
            assert(one.last() == (LineKind::Operation, last.name@));
            assert(count_of(one, x) == if last.name@ == n { 1nat } else { 0nat });
            assert(cur == count_of(prev, x) + if last.name@ == n { 1nat } else { 0nat });
        } else {
            assert(cur == count_of(prev, x));
        }
        if exists|i: int| 0 <= i < ops.len() && #[trigger] ops[i].name@ == n {
            let i = choose|i: int| 0 <= i < ops.len() && #[trigger] ops[i].name@ == n;
            if i < d.len() {
                assert(d[i].name@ == n);
                assert(last.name@ != n);
            }
        }
        if exists|i: int| 0 <= i < d.len() && #[trigger] d[i].name@ == n {
            let i = choose|i: int| 0 <= i < d.len() && #[trigger] d[i].name@ == n;
            assert(ops[i].name@ == n);
        }
        if last.name@ == n {
            assert(ops[ops.len() - 1].name@ == n);
            assert forall|i: int| 0 <= i < d.len() implies #[trigger] d[i].name@ != n by {
                assert(d[i] == ops[i]);
            }
        }
    }
}

/// An operation whose name holds both `#List` and `#Describe` is reported
/// exactly twice.
pub proof fn lemma_reported_exactly_twice(svc: Service, m: int)
    requires
        svc.wf(),
        0 <= m < svc.operations@.len(),
        is_infix("#List"@, svc.operations@[m].name@),
        is_infix("#Describe"@, svc.operations@[m].name@),
    ensures
        count_of(report_of(svc), (LineKind::Operation, svc.operations@[m].name@)) == 2,
{
    let ops = svc.operations@;
    let n = ops[m].name@;
    assert forall|i: int, j: int| 0 <= i < j < ops.len() implies ops[i].name@ != ops[j].name@ by {
        assert(svc.operation_pairs()[i].0 == ops[i].name@);
        assert(svc.operation_pairs()[j].0 == ops[j].name@);
    }
    assert(ops[m].name@ == n);
    lemma_selected_count(svc.structures@, ops, "#List"@, n);
    lemma_selected_count(svc.structures@, ops, "#Describe"@, n);
    lemma_count_append(
        selected_lines(svc.structures@, ops, "#List"@),
        selected_lines(svc.structures@, ops, "#Describe"@),
        (LineKind::Operation, n),
    );
}

/// In the report of a loaded document, an operation whose name holds both
/// `#List` and `#Describe` is announced exactly twice.
pub proof fn lemma_document_reports_twice(svc: Service, s: Seq<(String, Node)>, n: Seq<char>)
    requires
        loaded(svc, s),
        last_wins(pending_of(s)).contains_key(n),
        is_infix("#List"@, n),
        is_infix("#Describe"@, n),
    ensures
        count_of(report_of(svc), (LineKind::Operation, n)) == 2,
{
    crate::keyed::lemma_last_wins_domain(svc.operation_pairs(), n);
    let m = choose|i: int| 0 <= i < svc.operation_pairs().len() && svc.operation_pairs()[i].0 == n;
    assert(svc.operations@[m].name@ == n);
    lemma_reported_exactly_twice(svc, m);
}

proof fn lemma_no_input_lines(structs: Seq<Structure>, ops: Seq<Operation>, marker: Seq<char>)
    requires
        forall|k: int| 0 <= k < ops.len() ==> (#[trigger] ops[k]).input is None,
    ensures
        forall|i: int| 0 <= i < selected_lines(structs, ops, marker).len()
            ==> (#[trigger] selected_lines(structs, ops, marker)[i]).0 == LineKind::Operation,
    decreases ops.len(),
{
    if ops.len() > 0 {
        let d = ops.drop_last();
        assert forall|k: int| 0 <= k < d.len() implies (#[trigger] d[k]).input is None by {
            assert(d[k] == ops[k]);
        }
        lemma_no_input_lines(structs, d, marker);
        assert(ops[ops.len() - 1].input is None);
        assert(input_lines(structs, ops.last().refs().0) =~= Seq::<(LineKind, Seq<char>)>::empty());
    }
}

/// Operations without an input give no tag-filter lines: where no operation
/// has one, every line of the report announces an operation.
pub proof fn lemma_no_input_no_tags(svc: Service)
    requires
        forall|k: int| 0 <= k < svc.operations@.len() ==> (#[trigger] svc.operations@[k]).input is None,
    ensures
        forall|i: int| 0 <= i < report_of(svc).len() ==> (#[trigger] report_of(svc)[i]).0 == LineKind::Operation,
{
    let a = selected_lines(svc.structures@, svc.operations@, "#List"@);
    let b = selected_lines(svc.structures@, svc.operations@, "#Describe"@);
    lemma_no_input_lines(svc.structures@, svc.operations@, "#List"@);
    lemma_no_input_lines(svc.structures@, svc.operations@, "#Describe"@);
    assert forall|i: int| 0 <= i < report_of(svc).len() implies (#[trigger] report_of(svc)[i]).0 == LineKind::Operation by {
        if i < a.len() {
            assert(report_of(svc)[i] == a[i]);
        } else {
            assert(report_of(svc)[i] == b[i - a.len()]);
        }
    }
}

/// The tag lines of a member list name exactly the members whose name marks
/// a tag filter.
pub proof fn lemma_tag_lines_exact(ms: Seq<(Seq<char>, Seq<char>)>)
    ensures
        forall|x: (LineKind, Seq<char>)| #[trigger] tag_lines(ms).contains(x) <==> {
            &&& x.0 == LineKind::TagFilter
            &&& last_wins(ms).contains_key(x.1)
            &&& is_tag_name(x.1)
        },
    decreases ms.len(),
{
    if ms.len() > 0 {
        let d = ms.drop_last();
        lemma_tag_lines_exact(d);
        assert forall|x: (LineKind, Seq<char>)| #[trigger] tag_lines(ms).contains(x) <==> {
            &&& x.0 == LineKind::TagFilter
            &&& last_wins(ms).contains_key(x.1)
            &&& is_tag_name(x.1)
        } by {
            if is_tag_name(ms.last().0) {
                let prev = tag_lines(d);
                let pushed = prev.push((LineKind::TagFilter, ms.last().0));
                if pushed.contains(x) {
                    let i = choose|i: int| 0 <= i < pushed.len() && pushed[i] == x;
                    if i < prev.len() {
                        assert(prev[i] == x);
                        assert(prev.contains(x));
                    }
                }
                if prev.contains(x) {
                    let i = choose|i: int| 0 <= i < prev.len() && prev[i] == x;
                    assert(pushed[i] == x);
                }
                if x == (LineKind::TagFilter, ms.last().0) {
                    assert(pushed[prev.len() as int] == x);
                }
            }
        }
    }
}

/// The lines of one operation selected by a marker: its own line, then the
/// tag lines of its input.
pub open spec fn op_block(structs: Seq<Structure>, op: Operation) -> Seq<(LineKind, Seq<char>)> {
    seq![(LineKind::Operation, op.name@)] + input_lines(structs, op.refs().0)
}

proof fn lemma_selected_append(structs: Seq<Structure>, a: Seq<Operation>, b: Seq<Operation>, marker: Seq<char>)
    ensures
        selected_lines(structs, a + b, marker) == selected_lines(structs, a, marker) + selected_lines(structs, b, marker),
    decreases b.len(),
{
    if b.len() == 0 {
        assert(a + b =~= a);
        assert(selected_lines(structs, a, marker) + selected_lines(structs, b, marker) =~= selected_lines(structs, a, marker));
    } else {
        lemma_selected_append(structs, a, b.drop_last(), marker);
        assert((a + b).drop_last() =~= a + b.drop_last());
        assert((a + b).last() == b.last());
        let pa = selected_lines(structs, a, marker);
        let pb = selected_lines(structs, b.drop_last(), marker);
        if is_infix(marker, b.last().name@) {
            let one = seq![(LineKind::Operation, b.last().name@)];
            let tags = input_lines(structs, b.last().refs().0);
            assert(pa + pb + one + tags =~= pa + (pb + one + tags));
        }
    }
}

/// Among the lines selected by a marker, a matching operation's block stands
/// where the operation stands: after the lines of the operations before it and
/// before those of the operations after it.
pub proof fn lemma_block_at(structs: Seq<Structure>, ops: Seq<Operation>, marker: Seq<char>, m: int)
    requires
        0 <= m < ops.len(),
        is_infix(marker, ops[m].name@),
    ensures
        selected_lines(structs, ops, marker) == selected_lines(structs, ops.take(m), marker)
            + op_block(structs, ops[m]) + selected_lines(structs, ops.skip(m + 1), marker),
{
    let one = seq![ops[m]];
    assert(ops =~= ops.take(m) + one + ops.skip(m + 1));
    lemma_selected_append(structs, ops.take(m) + one, ops.skip(m + 1), marker);
    lemma_selected_append(structs, ops.take(m), one, marker);
    assert(one.drop_last() =~= Seq::<Operation>::empty());
    assert(one.last() == ops[m]);
    assert(selected_lines(structs, one.drop_last(), marker) == Seq::<(LineKind, Seq<char>)>::empty());
    assert(Seq::<(LineKind, Seq<char>)>::empty() + seq![(LineKind::Operation, ops[m].name@)]
        =~= seq![(LineKind::Operation, ops[m].name@)]);
    assert(selected_lines(structs, one, marker) =~= op_block(structs, ops[m]));
}

/// Wherever it stands, an operation without an input has a block of its own
/// line alone: no tag-filter line follows it.
pub proof fn lemma_no_input_block(structs: Seq<Structure>, ops: Seq<Operation>, marker: Seq<char>, m: int)
    requires
        0 <= m < ops.len(),
        is_infix(marker, ops[m].name@),
        ops[m].input is None,
    ensures
        selected_lines(structs, ops, marker) == selected_lines(structs, ops.take(m), marker)
            + seq![(LineKind::Operation, ops[m].name@)] + selected_lines(structs, ops.skip(m + 1), marker),
{
    lemma_block_at(structs, ops, marker, m);
    assert(op_block(structs, ops[m]) =~= seq![(LineKind::Operation, ops[m].name@)]);
}

/// Wherever it stands, an operation whose input is registered is followed by
/// one tag line for each member of that structure whose name marks a tag
/// filter, and no other.
pub proof fn lemma_input_block(svc: Service, marker: Seq<char>, m: int, r: Seq<char>)
    requires
        svc.wf(),
        0 <= m < svc.operations@.len(),
        is_infix(marker, svc.operations@[m].name@),
        text_of(svc.operations@[m].input) == Some(r),
        svc.registry().contains_key(r),
    ensures
        op_block(svc.structures@, svc.operations@[m])[0] == (LineKind::Operation, svc.operations@[m].name@),
        forall|x: (LineKind, Seq<char>)| #[trigger] op_block(svc.structures@, svc.operations@[m]).drop_first().contains(x) <==> {
            &&& x.0 == LineKind::TagFilter
            &&& svc.registry()[r].contains_key(x.1)
            &&& is_tag_name(x.1)
        },
        selected_lines(svc.structures@, svc.operations@, marker)
            == selected_lines(svc.structures@, svc.operations@.take(m), marker)
            + op_block(svc.structures@, svc.operations@[m])
            + selected_lines(svc.structures@, svc.operations@.skip(m + 1), marker),
{
    let op = svc.operations@[m];
    lemma_block_at(svc.structures@, svc.operations@, marker, m);
    crate::model::lemma_named_registry(svc.structures@, r);
    let st = named(svc.structures@, r).unwrap();
    lemma_tag_lines_exact(st.pairs());
    assert(op.refs().0 == Some(r));
    assert(op_block(svc.structures@, op).drop_first() =~= tag_lines(st.pairs()));
    assert(svc.registry()[r] == st.member_map());
}

/// An operation whose name holds both `#List` and `#Describe` is reported
/// once in each pass, each time followed by the same block of tag lines.
pub proof fn lemma_both_passes_same_block(svc: Service, m: int)
    requires
        0 <= m < svc.operations@.len(),
        is_infix("#List"@, svc.operations@[m].name@),
        is_infix("#Describe"@, svc.operations@[m].name@),
    ensures
        report_of(svc) == selected_lines(svc.structures@, svc.operations@.take(m), "#List"@)
            + op_block(svc.structures@, svc.operations@[m])
            + selected_lines(svc.structures@, svc.operations@.skip(m + 1), "#List"@)
            + selected_lines(svc.structures@, svc.operations@.take(m), "#Describe"@)
            + op_block(svc.structures@, svc.operations@[m])
            + selected_lines(svc.structures@, svc.operations@.skip(m + 1), "#Describe"@),
{
    lemma_block_at(svc.structures@, svc.operations@, "#List"@, m);
    lemma_block_at(svc.structures@, svc.operations@, "#Describe"@, m);
    let a = selected_lines(svc.structures@, svc.operations@.take(m), "#List"@);
    let b = op_block(svc.structures@, svc.operations@[m]);
    let c = selected_lines(svc.structures@, svc.operations@.skip(m + 1), "#List"@);
    let d = selected_lines(svc.structures@, svc.operations@.take(m), "#Describe"@);
    let e = selected_lines(svc.structures@, svc.operations@.skip(m + 1), "#Describe"@);
    assert((a + b + c) + (d + b + e) =~= a + b + c + d + b + e);
}

/// A reference to a structure that the document does not define fails the
/// document, and the error it fails with is `UnresolvedReference`.
pub proof fn lemma_unresolved_fails(s: Seq<(String, Node)>, k: int)
    requires
        shapes_ok(s),
        0 <= k < pending_of(s).len(),
        !op_resolves(last_wins(structures_of(s)), pending_of(s)[k]),
    ensures
        !load_ok(s),
        forall|e: ModelError| #[trigger] load_error(s, e) ==> e is UnresolvedReference,
{
    assert(!crate::resolve::all_resolve(last_wins(structures_of(s)), pending_of(s)));
    assert forall|e: ModelError| #[trigger] load_error(s, e) implies e is UnresolvedReference by {
        if exists|k: int| crate::classify::first_malformed(s, k) {
            let k = choose|k: int| crate::classify::first_malformed(s, k);
            assert(shape_ok(s[k].1));
        }
    }
}

} // verus!
