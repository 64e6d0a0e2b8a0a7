//! The report: list and describe operations, each followed by the input
//! members through which it can be filtered by tag.

use vstd::prelude::*;
use crate::model::{Operation, Service, Structure, named};
use crate::text::{has_marker, is_infix, is_tag_member, is_tag_name};

verus! {

/// What a report line announces.
#[derive(Clone, Copy, Debug, PartialEq, Eq, Structural)]
pub enum LineKind {
    /// A service shape being scanned.
    Service,
    /// A list or describe operation.
    Operation,
    /// An input member through which the operation filters by tag.
    TagFilter,
}

/// One line of the report: its kind and the name it carries.
#[derive(Debug)]
pub struct ReportLine {
    pub kind: LineKind,
    pub text: String,
}

pub open spec fn lines_view(ls: Seq<ReportLine>) -> Seq<(LineKind, Seq<char>)> {
    ls.map_values(|l: ReportLine| (l.kind, l.text@))
}

/// A tag-filter line for each member, in order, whose name marks a tag filter.
pub open spec fn tag_lines(ms: Seq<(Seq<char>, Seq<char>)>) -> Seq<(LineKind, Seq<char>)>
    decreases ms.len(),
{
    if ms.len() == 0 {
        Seq::empty()
    } else if is_tag_name(ms.last().0) {
        tag_lines(ms.drop_last()).push((LineKind::TagFilter, ms.last().0))
    } else {
        tag_lines(ms.drop_last())
    }
}

/// The tag-filter lines of an operation's input, where it has one that is registered.
pub open spec fn input_lines(structs: Seq<Structure>, input: Option<Seq<char>>) -> Seq<(LineKind, Seq<char>)> {
    match input {
        Some(r) => match named(structs, r) {
            Some(st) => tag_lines(st.pairs()),
            None => Seq::empty(),
        },
        None => Seq::empty(),
    }
}

/// The lines for the operations of `ops` whose name holds `marker`, in order.
pub open spec fn selected_lines(structs: Seq<Structure>, ops: Seq<Operation>, marker: Seq<char>) -> Seq<(LineKind, Seq<char>)>
    decreases ops.len(),
{
    if ops.len() == 0 {
        Seq::empty()
    } else if is_infix(marker, ops.last().name@) {
        selected_lines(structs, ops.drop_last(), marker)
            + seq![(LineKind::Operation, ops.last().name@)]
            + input_lines(structs, ops.last().refs().0)
    } else {
        selected_lines(structs, ops.drop_last(), marker)
    }
}

/// The whole report of a service: first the list operations, then the describe operations.
pub open spec fn report_of(svc: Service) -> Seq<(LineKind, Seq<char>)> {
    selected_lines(svc.structures@, svc.operations@, "#List"@)
        + selected_lines(svc.structures@, svc.operations@, "#Describe"@)
}

/// Appends the tag-filter lines of a structure's members.
fn push_tag_lines(st: &Structure, out: &mut Vec<ReportLine>)
    ensures
        lines_view(final(out)@) == lines_view(old(out)@) + tag_lines(st.pairs()),
{
    let ghost start = lines_view(out@);
    let ghost ms = st.pairs();
    assert(ms.take(0) =~= Seq::<(Seq<char>, Seq<char>)>::empty());
    assert(start + tag_lines(ms.take(0)) =~= start);
    let mut i: usize = 0;
    while i < st.members.len()
        invariant
            i <= st.members@.len(),
            ms == st.pairs(),
            start == lines_view(old(out)@),
            lines_view(out@) == start + tag_lines(ms.take(i as int)),
        decreases st.members@.len() - i,
    {
        let ghost t = ms.take(i + 1);
        assert(t.drop_last() =~= ms.take(i as int));
        assert(t.last() == (st.members@[i as int].0@, st.members@[i as int].1@));
        let ghost before = out@;
        if is_tag_member(&st.members[i].0) {
            out.push(ReportLine { kind: LineKind::TagFilter, text: st.members[i].0.clone() });
            assert(lines_view(out@) =~= lines_view(before).push((LineKind::TagFilter, t.last().0)));
            assert(lines_view(out@) =~= start + tag_lines(t));
        }
        i = i + 1;
    }
    assert(ms.take(i as int) =~= ms);
}

/// Appends the lines of the operations whose name holds `marker`.
fn push_selected(svc: &Service, marker: &str, out: &mut Vec<ReportLine>)
    requires
        svc.wf(),
    ensures
        lines_view(final(out)@) == lines_view(old(out)@) + selected_lines(svc.structures@, svc.operations@, marker@),
{
    let ghost start = lines_view(out@);
    let ghost ops = svc.operations@;
    assert(ops.take(0) =~= Seq::<Operation>::empty());
    assert(start + selected_lines(svc.structures@, ops.take(0), marker@) =~= start);
    let mut i: usize = 0;
    while i < svc.operations.len()
        invariant
            i <= ops.len(),
            ops == svc.operations@,
            svc.wf(),
            start == lines_view(old(out)@),
            lines_view(out@) == start + selected_lines(svc.structures@, ops.take(i as int), marker@),
        decreases ops.len() - i,
    {
        let ghost t = ops.take(i + 1);
        assert(t.drop_last() =~= ops.take(i as int));
        assert(t.last() == ops[i as int]);
        let op = &svc.operations[i];
        if has_marker(&op.name, marker) {
            let ghost before = lines_view(out@);
            out.push(ReportLine { kind: LineKind::Operation, text: op.name.clone() });
            assert(lines_view(out@) =~= before + seq![(LineKind::Operation, op.name@)]);
            let ghost mid = lines_view(out@);
            match &op.input {
                Some(r) => match svc.structure_named(r) {
                    Some(st) => {
                        push_tag_lines(st, out);
                    },
                    None => {},
                },
                None => {},
            }
            assert(lines_view(out@) == mid + input_lines(svc.structures@, op.refs().0));
            assert(lines_view(out@) =~= start + selected_lines(svc.structures@, t, marker@));
        }
        i = i + 1;
    }
    assert(ops.take(i as int) =~= ops);
}

/// The report of a service: each operation whose name holds `#List`, then each
/// whose name holds `#Describe` (one holding both comes twice), in registry
/// order, each followed by the members of its input whose lower-cased name
/// begins with `tag`.
pub fn report(svc: &Service) -> (r: Vec<ReportLine>)
    requires
        svc.wf(),
    ensures
        lines_view(r@) == report_of(*svc),
{
    let mut out: Vec<ReportLine> = Vec::new();
    assert(lines_view(out@) =~= Seq::<(LineKind, Seq<char>)>::empty());
    push_selected(svc, "#List", &mut out);
    push_selected(svc, "#Describe", &mut out);
    assert(lines_view(out@) =~= report_of(*svc));
    out
}

} // verus!
