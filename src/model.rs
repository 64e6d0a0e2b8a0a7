//! Structures, operations and the service that holds them, each keyed by its
//! shape name.

use vstd::prelude::*;
use crate::keyed::{last_wins, unique_keys, upsert, lemma_upsert_at, lemma_upsert_new, lemma_last_wins_domain,
    lemma_last_wins_update, lemma_last_wins_push};
use crate::tree::text_of;

verus! {

/// The input and output references of an operation.
pub type Refs = (Option<Seq<char>>, Option<Seq<char>>);

/// A record shape: member names mapped to the shape references of their types.
/// Members are kept in order of first appearance, each name once.
pub struct Structure {
    pub name: String,
    pub members: Vec<(String, String)>,
}

/// An operation; its input and output name structures of the service's registry.
pub struct Operation {
    pub name: String,
    pub input: Option<String>,
    pub output: Option<String>,
}

/// Everything read from one document.
pub struct Service {
    pub name: String,
    pub operations: Vec<Operation>,
    pub structures: Vec<Structure>,
}

/// Why a document could not be processed.
pub enum ModelError {
    /// A shape without a string `type`, or a structure member without a string `target`;
    /// carries the shape's name.
    MalformedShape(String),
    /// An operation names a structure that the document does not define; carries the reference.
    UnresolvedReference(String),
    /// The text is not a JSON document.
    ParseError,
}

impl Structure {
    pub open spec fn pairs(&self) -> Seq<(Seq<char>, Seq<char>)> {
        self.members@.map_values(|p: (String, String)| (p.0@, p.1@))
    }

    /// The members as a map from name to type reference.
    pub open spec fn member_map(&self) -> Map<Seq<char>, Seq<char>> {
        last_wins(self.pairs())
    }

    pub open spec fn wf(&self) -> bool {
        unique_keys(self.pairs())
    }

    /// A structure without members.
    pub fn new(name: String) -> (r: Structure)
        ensures
            r.name == name,
            r.wf(),
            r.pairs() == Seq::<(Seq<char>, Seq<char>)>::empty(),
    {
        let r = Structure { name, members: Vec::new() };
        assert(r.pairs() =~= Seq::<(Seq<char>, Seq<char>)>::empty());
        r
    }

    /// Sets the type of member `member`, replacing an earlier one of the same name.
    pub fn insert_member(&mut self, member: String, target: String)
        requires
            old(self).wf(),
        ensures
            final(self).wf(),
            final(self).name == old(self).name,
            final(self).member_map() == old(self).member_map().insert(member@, target@),
            final(self).pairs() == upsert(old(self).pairs(), member@, target@),
    {
        let ghost p = self.pairs();
        let mut i: usize = 0;
        while i < self.members.len()
            invariant
                i <= self.members@.len(),
                self.pairs() == p,
                p == old(self).pairs(),
                unique_keys(p),
                self.name == old(self).name,
                forall|j: int| 0 <= j < i ==> p[j].0 != member@,
            decreases self.members@.len() - i,
        {
            if self.members[i].0 == member {
                proof {
                    assert(p[i as int].0 == member@);
                    lemma_last_wins_update(p, i as int, target@);
                    lemma_upsert_at(p, i as int, target@);
                }
                self.members[i] = (member, target);
                assert(self.pairs() =~= p.update(i as int, (p[i as int].0, target@)));
                assert(self.member_map() == last_wins(p).insert(member@, target@));
                return;
            }
            i = i + 1;
        }
        proof {
            lemma_last_wins_domain(p, member@);
            lemma_last_wins_push(p, member@, target@);
            lemma_upsert_new(p, member@, target@);
        }
        self.members.push((member, target));
        assert(self.pairs() =~= p.push((member@, target@)));
    }
}

impl Operation {
    pub open spec fn refs(&self) -> Refs {
        (text_of(self.input), text_of(self.output))
    }
}

/// The structure of the last entry of `s` named `name`.
pub open spec fn named(s: Seq<Structure>, name: Seq<char>) -> Option<Structure>
    decreases s.len(),
{
    if s.len() == 0 {
        None
    } else if s.last().name@ == name {
        Some(s.last())
    } else {
        named(s.drop_last(), name)
    }
}

impl Service {
    pub open spec fn structure_pairs(&self) -> Seq<(Seq<char>, Map<Seq<char>, Seq<char>>)> {
        self.structures@.map_values(|s: Structure| (s.name@, s.member_map()))
    }

    /// The structures in order, each as its name and member list.
    pub open spec fn structure_views(&self) -> Seq<(Seq<char>, Seq<(Seq<char>, Seq<char>)>)> {
        self.structures@.map_values(|s: Structure| (s.name@, s.pairs()))
    }

    /// The structure registry: shape name to member map.
    pub open spec fn registry(&self) -> Map<Seq<char>, Map<Seq<char>, Seq<char>>> {
        last_wins(self.structure_pairs())
    }

    pub open spec fn operation_pairs(&self) -> Seq<(Seq<char>, Refs)> {
        self.operations@.map_values(|o: Operation| (o.name@, o.refs()))
    }

    /// The operations: name to input and output references.
    pub open spec fn operation_map(&self) -> Map<Seq<char>, Refs> {
        last_wins(self.operation_pairs())
    }

    pub open spec fn wf(&self) -> bool {
        &&& unique_keys(self.structure_pairs())
        &&& unique_keys(self.operation_pairs())
        &&& forall|i: int| 0 <= i < self.structures@.len() ==> (#[trigger] self.structures@[i]).wf()
    }

    /// A service with the placeholder name `UNKNOWN`, no operations and no structures.
    pub fn new() -> (r: Service)
        ensures
            r.wf(),
            r.name@ == "UNKNOWN"@,
            r.operations@.len() == 0,
            r.structures@.len() == 0,
    {
        let r = Service { name: "UNKNOWN".to_owned(), operations: Vec::new(), structures: Vec::new() };
        assert(r.structure_pairs() =~= Seq::empty());
        assert(r.operation_pairs() =~= Seq::empty());
        r
    }

    /// Registers a structure, replacing an earlier one of the same name.
    pub fn insert_structure(&mut self, st: Structure)
        requires
            old(self).wf(),
            st.wf(),
        ensures
            final(self).wf(),
            final(self).name == old(self).name,
            final(self).operations == old(self).operations,
            final(self).registry() == old(self).registry().insert(st.name@, st.member_map()),
            final(self).structure_views() == upsert(old(self).structure_views(), st.name@, st.pairs()),
    {
        let ghost p = self.structure_pairs();
        let ghost q = self.operation_pairs();
        let mut i: usize = 0;
        while i < self.structures.len()
            invariant
                i <= self.structures@.len(),
                self.structure_pairs() == p,
                p == old(self).structure_pairs(),
                self.structures@ == old(self).structures@,
                st.wf(),
                self.wf(),
                self.name == old(self).name,
                self.operations == old(self).operations,
                forall|j: int| 0 <= j < i ==> p[j].0 != st.name@,
            decreases self.structures@.len() - i,
        {
            if self.structures[i].name == st.name {
                proof {
                    assert(p[i as int].0 == st.name@);
                    lemma_last_wins_update(p, i as int, st.member_map());
                    lemma_structure_views_unique(*self);
                    assert(self.structure_views()[i as int].0 == st.name@);
                    lemma_upsert_at(self.structure_views(), i as int, st.pairs());
                }
                let ghost old_v = self.structure_views();
                let ghost old_s = self.structures@;
                let ghost sv = st;
                self.structures[i] = st;
                assert(self.structure_pairs() =~= p.update(i as int, (p[i as int].0, st.member_map())));
                assert(self.registry() == last_wins(p).insert(st.name@, st.member_map()));
                assert(self.structure_views() =~= old_v.update(i as int, (st.name@, sv.pairs())));
                assert forall|j: int| 0 <= j < self.structures@.len() implies
                    (#[trigger] self.structures@[j]).wf() by {
                    if j != i {
                        assert(self.structures@[j] == old_s[j]);
                    } else {
                        assert(self.structures@[j] == sv);
                    }
                }
                return;
            }
            i = i + 1;
        }
        proof {
            lemma_last_wins_domain(p, st.name@);
            lemma_last_wins_push(p, st.name@, st.member_map());
            assert forall|j: int| 0 <= j < self.structure_views().len() implies
                self.structure_views()[j].0 != st.name@ by {
                assert(p[j].0 == self.structure_views()[j].0);
            }
            lemma_upsert_new(self.structure_views(), st.name@, st.pairs());
        }
        let ghost old_v = self.structure_views();
        let ghost old_s = self.structures@;
        self.structures.push(st);
        assert(self.structure_pairs() =~= p.push((st.name@, st.member_map())));
        assert(self.structure_views() =~= old_v.push((st.name@, st.pairs())));
        assert forall|j: int| 0 <= j < self.structures@.len() implies
            (#[trigger] self.structures@[j]).wf() by {
            if j < old_s.len() {
                assert(self.structures@[j] == old_s[j]);
            }
        }
    }

    /// Registers an operation, replacing an earlier one of the same name.
    pub fn insert_operation(&mut self, op: Operation)
        requires
            old(self).wf(),
        ensures
            final(self).wf(),
            final(self).name == old(self).name,
            final(self).structures == old(self).structures,
            final(self).operation_map() == old(self).operation_map().insert(op.name@, op.refs()),
            final(self).operation_pairs() == upsert(old(self).operation_pairs(), op.name@, op.refs()),
    {
        let ghost p = self.operation_pairs();
        let mut i: usize = 0;
        while i < self.operations.len()
            invariant
                i <= self.operations@.len(),
                self.operation_pairs() == p,
                p == old(self).operation_pairs(),
                self.wf(),
                self.name == old(self).name,
                self.structures == old(self).structures,
                forall|j: int| 0 <= j < i ==> p[j].0 != op.name@,
            decreases self.operations@.len() - i,
        {
            if self.operations[i].name == op.name {
                proof {
                    assert(p[i as int].0 == op.name@);
                    lemma_last_wins_update(p, i as int, op.refs());
                    lemma_upsert_at(p, i as int, op.refs());
                }
                self.operations[i] = op;
                assert(self.operation_pairs() =~= p.update(i as int, (p[i as int].0, op.refs())));
                assert(self.operation_map() == last_wins(p).insert(op.name@, op.refs()));
                return;
            }
            i = i + 1;
        }
        proof {
            lemma_last_wins_domain(p, op.name@);
            lemma_last_wins_push(p, op.name@, op.refs());
            lemma_upsert_new(p, op.name@, op.refs());
        }
        self.operations.push(op);
        assert(self.operation_pairs() =~= p.push((op.name@, op.refs())));
    }

    /// The registered structure named `name`.
    pub fn structure_named(&self, name: &String) -> (r: Option<&Structure>)
        requires
            self.wf(),
        ensures
            match r {
                Some(st) => named(self.structures@, name@) == Some(*st),
                None => named(self.structures@, name@) is None,
            },
            r is Some <==> self.registry().contains_key(name@),
    {
        proof {
            lemma_named_registry(self.structures@, name@);
        }
        let ghost has = self.registry().contains_key(name@);
        let mut i: usize = self.structures.len();
        assert(self.structures@.take(i as int) =~= self.structures@);
        while i > 0
            invariant
                i <= self.structures@.len(),
                named(self.structures@, name@) == named(self.structures@.take(i as int), name@),
                has == self.registry().contains_key(name@),
                has <==> named(self.structures@, name@) is Some,
            decreases i,
        {
            let ghost t = self.structures@.take(i as int);
            assert(t.drop_last() =~= self.structures@.take(i - 1));
            if self.structures[i - 1].name == *name {
                let st = &self.structures[i - 1];
                assert(named(t, name@) == Some(*st));
                return Some(st);
            }
            i = i - 1;
        }
        None
    }
}

/// The structures' names are unique in the named member lists as in the registry pairs.
proof fn lemma_structure_views_unique(svc: Service)
    requires
        unique_keys(svc.structure_pairs()),
    ensures
        unique_keys(svc.structure_views()),
{
    assert forall|i: int, j: int| 0 <= i < j < svc.structure_views().len() implies
        svc.structure_views()[i].0 != svc.structure_views()[j].0 by {
        assert(svc.structure_pairs()[i].0 != svc.structure_pairs()[j].0);
    }
}

/// The structure found by name is the one that the registry holds under that name.
pub proof fn lemma_named_registry(s: Seq<Structure>, name: Seq<char>)
    ensures
        named(s, name) is Some <==> last_wins(s.map_values(|x: Structure| (x.name@, x.member_map()))).contains_key(name),
        named(s, name) matches Some(st) ==> st.name@ == name
            && last_wins(s.map_values(|x: Structure| (x.name@, x.member_map())))[name] == st.member_map(),
    decreases s.len(),
{
    if s.len() > 0 {
        lemma_named_registry(s.drop_last(), name);
        assert(s.map_values(|x: Structure| (x.name@, x.member_map())).drop_last()
            =~= s.drop_last().map_values(|x: Structure| (x.name@, x.member_map())));
    }
}

} // verus!
