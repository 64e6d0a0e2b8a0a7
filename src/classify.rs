//! Routing of a document's shapes by kind: the service name, the structure
//! registry, and the operations still to be resolved.

use vstd::prelude::*;
use crate::keyed::{last_wins, upsert_seq};
use crate::model::{ModelError, Operation, Refs, Service, Structure};
use crate::tree::{Node, entries_of, field, field_str, text_of, get_field, as_text};

verus! {

/// The kind a shape declares in its `type` field.
pub open spec fn kind_of(shape: Node) -> Option<Seq<char>> {
    field_str(shape, "type"@)
}

/// The member entries of a shape; none where `members` is absent.
pub open spec fn member_entries(shape: Node) -> Seq<(String, Node)> {
    match field(shape, "members"@) {
        Some(m) => entries_of(m),
        None => Seq::empty(),
    }
}

/// The type reference of a member.
pub open spec fn target_of(member: Node) -> Option<Seq<char>> {
    field_str(member, "target"@)
}

/// Every member names its type.
pub open spec fn members_ok(ms: Seq<(String, Node)>) -> bool {
    forall|i: int| 0 <= i < ms.len() ==> (#[trigger] target_of(ms[i].1)) is Some
}

/// The members of a structure shape, as written, paired with their type references.
pub open spec fn declared_pairs(ms: Seq<(String, Node)>) -> Seq<(Seq<char>, Seq<char>)> {
    ms.map_values(|p: (String, Node)| (p.0@, target_of(p.1).unwrap()))
}

/// The member map that a structure shape declares.
pub open spec fn declared_members(shape: Node) -> Map<Seq<char>, Seq<char>> {
    last_wins(declared_pairs(member_entries(shape)))
}

/// The member list that a structure shape declares: each name once, in order
/// of first appearance, with its last type reference.
pub open spec fn declared_list(shape: Node) -> Seq<(Seq<char>, Seq<char>)> {
    upsert_seq(Seq::empty(), declared_pairs(member_entries(shape)))
}

/// A shape has a kind, and when it is a structure, each member names its type.
pub open spec fn shape_ok(shape: Node) -> bool {
    &&& kind_of(shape) is Some
    &&& kind_of(shape) == Some("structure"@) ==> members_ok(member_entries(shape))
}

/// The `target` under field `key` (`input` or `output`) of an operation shape.
pub open spec fn ref_of(shape: Node, key: Seq<char>) -> Option<Seq<char>> {
    match field(shape, key) {
        Some(n) => field_str(n, "target"@),
        None => None,
    }
}

/// The name of the last service shape, or `UNKNOWN` where there is none.
pub open spec fn service_name_of(s: Seq<(String, Node)>) -> Seq<char>
    decreases s.len(),
{
    if s.len() == 0 {
        "UNKNOWN"@
    } else if kind_of(s.last().1) == Some("service"@) {
        s.last().0@
    } else {
        service_name_of(s.drop_last())
    }
}

/// The structure shapes, in order, with the members each declares.
pub open spec fn structures_of(s: Seq<(String, Node)>) -> Seq<(Seq<char>, Map<Seq<char>, Seq<char>>)>
    decreases s.len(),
{
    if s.len() == 0 {
        Seq::empty()
    } else if kind_of(s.last().1) == Some("structure"@) {
        structures_of(s.drop_last()).push((s.last().0@, declared_members(s.last().1)))
    } else {
        structures_of(s.drop_last())
    }
}

/// The structure shapes, in order, with the member lists they declare.
pub open spec fn structure_decls(s: Seq<(String, Node)>) -> Seq<(Seq<char>, Seq<(Seq<char>, Seq<char>)>)>
    decreases s.len(),
{
    if s.len() == 0 {
        Seq::empty()
    } else if kind_of(s.last().1) == Some("structure"@) {
        structure_decls(s.drop_last()).push((s.last().0@, declared_list(s.last().1)))
    } else {
        structure_decls(s.drop_last())
    }
}

/// The operation shapes, in order, with their input and output references.
pub open spec fn pending_of(s: Seq<(String, Node)>) -> Seq<(Seq<char>, Refs)>
    decreases s.len(),
{
    if s.len() == 0 {
        Seq::empty()
    } else if kind_of(s.last().1) == Some("operation"@) {
        pending_of(s.drop_last()).push(
            (s.last().0@, (ref_of(s.last().1, "input"@), ref_of(s.last().1, "output"@))),
        )
    } else {
        pending_of(s.drop_last())
    }
}

/// Every shape is well formed.
pub open spec fn shapes_ok(s: Seq<(String, Node)>) -> bool {
    forall|i: int| 0 <= i < s.len() ==> #[trigger] shape_ok(s[i].1)
}

/// Shape `k` is the first that is not well formed.
pub open spec fn first_malformed(s: Seq<(String, Node)>, k: int) -> bool {
    &&& 0 <= k < s.len()
    &&& !shape_ok(s[k].1)
    &&& shapes_ok(s.take(k))
}

/// The view of a list of operations: names with references.
pub open spec fn op_views(ops: Seq<Operation>) -> Seq<(Seq<char>, Refs)> {
    ops.map_values(|o: Operation| (o.name@, o.refs()))
}

/// Reads the `target` under field `key` of an operation shape.
fn read_ref(shape: &Node, key: &str) -> (r: Option<String>)
    ensures
        text_of(r) == ref_of(*shape, key@),
{
    match get_field(shape, key) {
        Some(inner) => match get_field(inner, "target") {
            Some(t) => as_text(t),
            None => None,
        },
        None => None,
    }
}

/// Builds the structure that a structure shape declares.
pub fn read_structure(name: &String, shape: &Node) -> (r: Result<Structure, ModelError>)
    ensures
        r is Ok <==> members_ok(member_entries(*shape)),
        r matches Ok(st) ==> st.wf() && st.name == *name && st.member_map() == declared_members(*shape)
            && st.pairs() == declared_list(*shape),
        r matches Err(e) ==> e matches ModelError::MalformedShape(n) && n@ == name@,
{
    let mut st = Structure::new(name.clone());
    let empty: Vec<(String, Node)> = Vec::new();
    let ms: &Vec<(String, Node)> = match get_field(shape, "members") {
        Some(Node::Object(v)) => v,
        _ => &empty,
    };
    assert(ms@ == member_entries(*shape));
    let ghost d = declared_pairs(ms@);
    assert(st.pairs() =~= upsert_seq(Seq::empty(), d.take(0)));
    let mut i: usize = 0;
    while i < ms.len()
        invariant
            i <= ms@.len(),
            d == declared_pairs(ms@),
            ms@ == member_entries(*shape),
            st.wf(),
            st.name == *name,
            members_ok(ms@.take(i as int)),
            st.member_map() == last_wins(d.take(i as int)),
            st.pairs() == upsert_seq(Seq::empty(), d.take(i as int)),
        decreases ms@.len() - i,
    {
        assert(d.take(i + 1).drop_last() =~= d.take(i as int));
        match get_field(&ms[i].1, "target") {
            Some(t) => match as_text(t) {
                Some(target) => {
                    st.insert_member(ms[i].0.clone(), target);
                },
                None => {
                    assert(!members_ok(ms@)) by {
                        assert(target_of(ms@[i as int].1) is None);
                    }
                    return Err(ModelError::MalformedShape(name.clone()));
                },
            },
            None => {
                assert(!members_ok(ms@)) by {
                    assert(target_of(ms@[i as int].1) is None);
                }
                return Err(ModelError::MalformedShape(name.clone()));
            },
        }
        assert forall|j: int| 0 <= j < i + 1 implies (#[trigger] target_of(ms@.take(i + 1)[j].1)) is Some by {
            if j < i {
                assert(ms@.take(i + 1)[j] == ms@.take(i as int)[j]);
            }
        }
        i = i + 1;
    }
    assert(d.take(i as int) =~= d);
    assert(ms@.take(i as int) =~= ms@);
    Ok(st)
}

/// The three kinds that are read are distinct words.
pub proof fn lemma_kinds_differ()
    ensures
        "service"@ != "structure"@,
        "service"@ != "operation"@,
        "structure"@ != "operation"@,
{
    reveal_strlit("service");
    reveal_strlit("structure");
    reveal_strlit("operation");
    assert("service"@[1] != "structure"@[1]);
    assert("service"@[0] != "operation"@[0]);
    assert("structure"@[0] != "operation"@[0]);
}

/// Routes each entry of `shapes` by its kind: a service names the service, a
/// structure enters the registry, an operation is kept for resolution; other
/// kinds are ignored. Fails on the first shape that is not well formed.
pub fn classify(shapes: &Node) -> (r: Result<(Service, Vec<Operation>), ModelError>)
    ensures
        r is Ok <==> shapes_ok(entries_of(*shapes)),
        r matches Ok((svc, pend)) ==> {
            &&& svc.wf()
            &&& svc.name@ == service_name_of(entries_of(*shapes))
            &&& svc.registry() == last_wins(structures_of(entries_of(*shapes)))
            &&& svc.structure_views() == upsert_seq(Seq::empty(), structure_decls(entries_of(*shapes)))
            &&& svc.operations@.len() == 0
            &&& op_views(pend@) == pending_of(entries_of(*shapes))
        },
        r matches Err(e) ==> exists|k: int| {
            &&& first_malformed(entries_of(*shapes), k)
            &&& e matches ModelError::MalformedShape(n)
            &&& n@ == (#[trigger] entries_of(*shapes)[k]).0@
        },
{
    let empty: Vec<(String, Node)> = Vec::new();
    let entries: &Vec<(String, Node)> = match shapes {
        Node::Object(v) => v,
        _ => &empty,
    };
    let ghost s = entries_of(*shapes);
    assert(entries@ == s);
    let mut svc = Service::new();
    let mut pend: Vec<Operation> = Vec::new();
    let service_kind = "service".to_owned();
    let structure_kind = "structure".to_owned();
    let operation_kind = "operation".to_owned();
    assert(s.take(0) =~= Seq::<(String, Node)>::empty());
    assert(op_views(pend@) =~= Seq::<(Seq<char>, Refs)>::empty());
    assert(svc.structure_views() =~= upsert_seq(Seq::empty(), structure_decls(s.take(0))));
    let mut i: usize = 0;
    while i < entries.len()
        invariant
            entries@ == s,
            s == entries_of(*shapes),
            i <= s.len(),
            service_kind@ == "service"@,
            structure_kind@ == "structure"@,
            operation_kind@ == "operation"@,
            svc.wf(),
            svc.operations@.len() == 0,
            svc.name@ == service_name_of(s.take(i as int)),
            svc.registry() == last_wins(structures_of(s.take(i as int))),
            svc.structure_views() == upsert_seq(Seq::empty(), structure_decls(s.take(i as int))),
            op_views(pend@) == pending_of(s.take(i as int)),
            shapes_ok(s.take(i as int)),
        decreases s.len() - i,
    {
        proof {
            lemma_kinds_differ();
        }
        let ghost t = s.take(i + 1);
        assert(t.drop_last() =~= s.take(i as int));
        assert(t.last() == s[i as int]);
        let name = &entries[i].0;
        let shape = &entries[i].1;
        let kind = match get_field(shape, "type") {
            Some(k) => as_text(k),
            None => None,
        };
        assert(*shape == s[i as int].1);
        assert(kind_of(*shape) == text_of(kind));
        match kind {
            None => {
                assert(first_malformed(s, i as int));
                return Err(ModelError::MalformedShape(name.clone()));
            },
            Some(kind) => {
                if kind == service_kind {
                    svc.name = name.clone();
                } else if kind == structure_kind {
                    match read_structure(name, shape) {
                        Ok(st) => {
                            proof {
                                crate::keyed::lemma_last_wins_push(
                                    structures_of(s.take(i as int)), st.name@, st.member_map());
                                let prev = structure_decls(s.take(i as int));
                                assert(structure_decls(t) == prev.push((st.name@, st.pairs())));
                                assert(prev.push((st.name@, st.pairs())).drop_last() =~= prev);
                            }
                            svc.insert_structure(st);
                        },
                        Err(e) => {
                            assert(first_malformed(s, i as int));
                            return Err(e);
                        },
                    }
                } else if kind == operation_kind {
                    let input = read_ref(shape, "input");
                    let output = read_ref(shape, "output");
                    let op = Operation { name: name.clone(), input, output };
                    let ghost before = pend@;
                    pend.push(op);
                    assert(op_views(pend@) =~= op_views(before).push((op.name@, op.refs())));
                }
            },
        }
        assert forall|j: int| 0 <= j < i + 1 implies #[trigger] shape_ok(t[j].1) by {
            if j < i {
                assert(t[j] == s.take(i as int)[j]);
            }
        }
        i = i + 1;
    }
    assert(s.take(i as int) =~= s);
    Ok((svc, pend))
}

} // verus!
