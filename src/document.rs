//! One document from text to report: parse, classify, resolve, report.

use vstd::prelude::*;
use crate::classify::{classify, first_malformed, structure_decls, kind_of, op_views, pending_of, service_name_of, shapes_ok,
    structures_of};
use crate::keyed::{last_wins, upsert_seq};
use crate::model::{ModelError, Service};
use crate::report::{LineKind, ReportLine, lines_view, report, report_of};
use crate::resolve::{all_resolve, first_unresolved, resolve, unresolved_of};
use crate::tree::{Node, entries_of, field, get_field};

verus! {

/// The shape entries of a document: the entries of its top-level `shapes` object.
pub open spec fn shapes_of(doc: Node) -> Seq<(String, Node)> {
    match field(doc, "shapes"@) {
        Some(n) => entries_of(n),
        None => Seq::empty(),
    }
}

/// Every shape is well formed and every operation resolves.
pub open spec fn load_ok(s: Seq<(String, Node)>) -> bool {
    shapes_ok(s) && all_resolve(last_wins(structures_of(s)), pending_of(s))
}

/// `svc` is what the shapes `s` describe.
pub open spec fn loaded(svc: Service, s: Seq<(String, Node)>) -> bool {
    &&& svc.wf()
    &&& svc.name@ == service_name_of(s)
    &&& svc.registry() == last_wins(structures_of(s))
    &&& svc.operation_map() == last_wins(pending_of(s))
    &&& svc.structure_views() == upsert_seq(Seq::empty(), structure_decls(s))
    &&& svc.operation_pairs() == upsert_seq(Seq::empty(), pending_of(s))
}

/// The error that loading the shapes `s` fails with: the first malformed shape,
/// or else the first reference that does not resolve.
pub open spec fn load_error(s: Seq<(String, Node)>, e: ModelError) -> bool {
    ||| exists|k: int| {
        &&& first_malformed(s, k)
        &&& e matches ModelError::MalformedShape(n)
        &&& n@ == (#[trigger] s[k]).0@
    }
    ||| {
        &&& shapes_ok(s)
        &&& exists|k: int| {
            &&& first_unresolved(last_wins(structures_of(s)), pending_of(s), k)
            &&& e matches ModelError::UnresolvedReference(n)
            &&& n@ == unresolved_of(last_wins(structures_of(s)), #[trigger] pending_of(s)[k])
        }
    }
}

/// A service line for each service shape, in order.
pub open spec fn service_lines(s: Seq<(String, Node)>) -> Seq<(LineKind, Seq<char>)>
    decreases s.len(),
{
    if s.len() == 0 {
        Seq::empty()
    } else if kind_of(s.last().1) == Some("service"@) {
        service_lines(s.drop_last()).push((LineKind::Service, s.last().0@))
    } else {
        service_lines(s.drop_last())
    }
}

/// Reads the service that a parsed document describes: all structures are
/// registered first, then every operation is resolved against them.
pub fn load_service(doc: &Node) -> (r: Result<Service, ModelError>)
    ensures
        r is Ok <==> load_ok(shapes_of(*doc)),
        r matches Ok(svc) ==> loaded(svc, shapes_of(*doc)),
        r matches Err(e) ==> load_error(shapes_of(*doc), e),
{
    let other = Node::Other;
    let shapes: &Node = match get_field(doc, "shapes") {
        Some(n) => n,
        None => &other,
    };
    assert(entries_of(*shapes) == shapes_of(*doc));
    let ghost s = shapes_of(*doc);
    match classify(shapes) {
        Err(e) => Err(e),
        Ok((mut svc, pending)) => {
            assert(svc.operation_pairs() =~= Seq::empty());
            assert(svc.operation_pairs() + op_views(pending@) =~= pending_of(s));
            match resolve(&mut svc, &pending) {
                Ok(()) => Ok(svc),
                Err(e) => Err(e),
            }
        },
    }
}

/// Appends a service line for each service shape.
fn push_service_lines(shapes: &Node, out: &mut Vec<ReportLine>)
    ensures
        lines_view(final(out)@) == lines_view(old(out)@) + service_lines(entries_of(*shapes)),
{
    let empty: Vec<(String, Node)> = Vec::new();
    let entries: &Vec<(String, Node)> = match shapes {
        Node::Object(v) => v,
        _ => &empty,
    };
    let ghost s = entries_of(*shapes);
    let ghost start = lines_view(out@);
    let service_kind = "service".to_owned();
    assert(s.take(0) =~= Seq::<(String, Node)>::empty());
    assert(start + service_lines(s.take(0)) =~= start);
    let mut i: usize = 0;
    while i < entries.len()
        invariant
            entries@ == s,
            i <= s.len(),
            service_kind@ == "service"@,
            start == lines_view(old(out)@),
            lines_view(out@) == start + service_lines(s.take(i as int)),
        decreases s.len() - i,
    {
        let ghost t = s.take(i + 1);
        assert(t.drop_last() =~= s.take(i as int));
        assert(t.last() == s[i as int]);
        let is_service = match get_field(&entries[i].1, "type") {
            Some(Node::Str(k)) => *k == service_kind,
            _ => false,
        };
        if is_service {
            let ghost before = lines_view(out@);
            out.push(ReportLine { kind: LineKind::Service, text: entries[i].0.clone() });
            assert(lines_view(out@) =~= before.push((LineKind::Service, s[i as int].0@)));
        }
        assert(lines_view(out@) =~= start + service_lines(t));
        i = i + 1;
    }
    assert(s.take(i as int) =~= s);
}

/// The report of a parsed document: a line for each service shape, then the
/// report of the service it describes.
pub fn query_shapes(doc: &Node) -> (r: Result<Vec<ReportLine>, ModelError>)
    ensures
        r is Ok <==> load_ok(shapes_of(*doc)),
        r matches Ok(lines) ==> exists|svc: Service| {
            &&& loaded(svc, shapes_of(*doc))
            &&& #[trigger] lines_view(lines@) == service_lines(shapes_of(*doc)) + report_of(svc)
        },
        r matches Err(e) ==> load_error(shapes_of(*doc), e),
{
    match load_service(doc) {
        Err(e) => Err(e),
        Ok(svc) => {
            let other = Node::Other;
            let shapes: &Node = match get_field(doc, "shapes") {
                Some(n) => n,
                None => &other,
            };
            let mut out: Vec<ReportLine> = Vec::new();
            assert(lines_view(out@) =~= Seq::<(LineKind, Seq<char>)>::empty());
            push_service_lines(shapes, &mut out);
            let tail = report(&svc);
            let ghost head = lines_view(out@);
            let mut tail = tail;
            out.append(&mut tail);
            assert(lines_view(out@) =~= head + report_of(svc));
            Ok(out)
        },
    }
}

} // verus!
