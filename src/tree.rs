//! The parsed form of a document: a tree of objects and strings.

use vstd::prelude::*;

verus! {

/// A parsed document value. Objects keep their entries in document order;
/// numbers, booleans, arrays and null are all `Other`, as nothing here reads them.
pub enum Node {
    Str(String),
    Object(Vec<(String, Node)>),
    Other,
}

/// The entries of an object; every other value has none.
pub open spec fn entries_of(n: Node) -> Seq<(String, Node)> {
    match n {
        Node::Object(v) => v@,
        _ => Seq::empty(),
    }
}

/// The value stored under `key`, where a later entry overrides an earlier one.
pub open spec fn find(s: Seq<(String, Node)>, key: Seq<char>) -> Option<Node>
    decreases s.len(),
{
    if s.len() == 0 {
        None
    } else if s.last().0@ == key {
        Some(s.last().1)
    } else {
        find(s.drop_last(), key)
    }
}

/// The value of field `key` of `n`.
pub open spec fn field(n: Node, key: Seq<char>) -> Option<Node> {
    find(entries_of(n), key)
}

/// The text of a string value.
pub open spec fn str_of(n: Node) -> Option<Seq<char>> {
    match n {
        Node::Str(s) => Some(s@),
        _ => None,
    }
}

/// The text of field `key` of `n`, where that field holds a string.
pub open spec fn field_str(n: Node, key: Seq<char>) -> Option<Seq<char>> {
    match field(n, key) {
        Some(c) => str_of(c),
        None => None,
    }
}

/// The text held by an optional string.
pub open spec fn text_of(o: Option<String>) -> Option<Seq<char>> {
    match o {
        Some(s) => Some(s@),
        None => None,
    }
}

/// Looks up field `key` of `n`.
pub fn get_field<'a>(n: &'a Node, key: &str) -> (r: Option<&'a Node>)
    ensures
        match r {
            Some(c) => field(*n, key@) == Some(*c),
            None => field(*n, key@) is None,
        },
{
    match n {
        Node::Object(entries) => {
            let wanted = key.to_owned();
            let mut i: usize = entries.len();
            assert(entries@.take(i as int) =~= entries@);
            while i > 0
                invariant
                    i <= entries@.len(),
                    entries_of(*n) == entries@,
                    find(entries@, key@) == find(entries@.take(i as int), key@),
                    wanted@ == key@,
                decreases i,
            {
                let ghost t = entries@.take(i as int);
                assert(t.drop_last() =~= entries@.take(i - 1));
                assert(t.last() == entries@[i - 1]);
                if entries[i - 1].0 == wanted {
                    assert(find(t, key@) == Some(entries@[i - 1].1));
                    let c = &entries[i - 1].1;
                    assert(field(*n, key@) == Some(*c));
                    return Some(c);
                }
                i = i - 1;
            }
            None
        },
        _ => None,
    }
}

/// The text of `n`, where `n` is a string.
pub fn as_text(n: &Node) -> (r: Option<String>)
    ensures
        text_of(r) == str_of(*n),
{
    match n {
        Node::Str(s) => Some(s.clone()),
        _ => None,
    }
}

} // verus!
