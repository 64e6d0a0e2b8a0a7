//! Sequences of key/value pairs read as maps in which a later pair overrides
//! an earlier one with the same key.

use vstd::prelude::*;

verus! {

/// The map described by `s` when a later pair overrides an earlier one.
pub open spec fn last_wins<V>(s: Seq<(Seq<char>, V)>) -> Map<Seq<char>, V>
    decreases s.len(),
{
    if s.len() == 0 {
        Map::empty()
    } else {
        last_wins(s.drop_last()).insert(s.last().0, s.last().1)
    }
}

/// No key occurs twice in `s`.
pub open spec fn unique_keys<V>(s: Seq<(Seq<char>, V)>) -> bool {
    forall|i: int, j: int| 0 <= i < j < s.len() ==> s[i].0 != s[j].0
}

/// A key is in the map exactly when some pair carries it.
pub proof fn lemma_last_wins_domain<V>(s: Seq<(Seq<char>, V)>, k: Seq<char>)
    ensures
        last_wins(s).contains_key(k) <==> exists|i: int| 0 <= i < s.len() && s[i].0 == k,
    decreases s.len(),
{
    if s.len() > 0 {
        lemma_last_wins_domain(s.drop_last(), k);
        if last_wins(s.drop_last()).contains_key(k) {
            let i = choose|i: int| 0 <= i < s.drop_last().len() && s.drop_last()[i].0 == k;
            assert(s[i].0 == k);
        }
        if exists|i: int| 0 <= i < s.len() && s[i].0 == k {
            let i = choose|i: int| 0 <= i < s.len() && s[i].0 == k;
            if i < s.len() - 1 {
                assert(s.drop_last()[i].0 == k);
            }
        }
    }
}

/// Replacing the value of an existing pair in place is an overriding insert.
pub proof fn lemma_last_wins_update<V>(s: Seq<(Seq<char>, V)>, j: int, v: V)
    requires
        unique_keys(s),
        0 <= j < s.len(),
    ensures
        last_wins(s.update(j, (s[j].0, v))) == last_wins(s).insert(s[j].0, v),
        unique_keys(s.update(j, (s[j].0, v))),
    decreases s.len(),
{
    let t = s.update(j, (s[j].0, v));
    if j == s.len() - 1 {
        assert(t.drop_last() =~= s.drop_last());
        assert(last_wins(t) =~= last_wins(s).insert(s[j].0, v));
    } else {
        assert(unique_keys(s.drop_last()));
        lemma_last_wins_update(s.drop_last(), j, v);
        assert(t.drop_last() =~= s.drop_last().update(j, (s[j].0, v)));
        assert(s.last().0 != s[j].0);
        assert(last_wins(t) =~= last_wins(s).insert(s[j].0, v));
    }
}

/// Appending a pair is an overriding insert; keys stay unique when the key is new.
pub proof fn lemma_last_wins_push<V>(s: Seq<(Seq<char>, V)>, k: Seq<char>, v: V)
    ensures
        last_wins(s.push((k, v))) == last_wins(s).insert(k, v),
        unique_keys(s) && !last_wins(s).contains_key(k) ==> unique_keys(s.push((k, v))),
{
    assert(s.push((k, v)).drop_last() =~= s);
    lemma_last_wins_domain(s, k);
}

/// `s` with the pair `(k, v)`: replacing the value of the pair that carries
/// `k`, or appended where no pair does.
pub open spec fn upsert<V>(s: Seq<(Seq<char>, V)>, k: Seq<char>, v: V) -> Seq<(Seq<char>, V)> {
    if exists|i: int| 0 <= i < s.len() && s[i].0 == k {
        let i = choose|i: int| 0 <= i < s.len() && s[i].0 == k;
        s.update(i, (k, v))
    } else {
        s.push((k, v))
    }
}

/// `base` with each pair of `p` upserted in turn.
pub open spec fn upsert_seq<V>(base: Seq<(Seq<char>, V)>, p: Seq<(Seq<char>, V)>) -> Seq<(Seq<char>, V)>
    decreases p.len(),
{
    if p.len() == 0 {
        base
    } else {
        upsert(upsert_seq(base, p.drop_last()), p.last().0, p.last().1)
    }
}

/// With unique keys, upserting an existing key replaces its pair in place.
pub proof fn lemma_upsert_at<V>(s: Seq<(Seq<char>, V)>, i: int, v: V)
    requires
        unique_keys(s),
        0 <= i < s.len(),
    ensures
        upsert(s, s[i].0, v) == s.update(i, (s[i].0, v)),
{
    let j = choose|j: int| 0 <= j < s.len() && s[j].0 == s[i].0;
    assert(j == i);
}

/// Upserting a new key appends it.
pub proof fn lemma_upsert_new<V>(s: Seq<(Seq<char>, V)>, k: Seq<char>, v: V)
    requires
        forall|i: int| 0 <= i < s.len() ==> s[i].0 != k,
    ensures
        upsert(s, k, v) == s.push((k, v)),
{
}

} // verus!
