//! The few operations on names that the report needs.

use vstd::prelude::*;
use vstd::string::StrSliceExecFns;

verus! {

/// `needle` occurs in `hay` as a contiguous run.
pub open spec fn is_infix(needle: Seq<char>, hay: Seq<char>) -> bool {
    exists|i: int| 0 <= i && i + needle.len() <= hay.len() && #[trigger] hay.subrange(i, i + needle.len()) == needle
}

/// The code of `c` after ASCII lower-casing: `A` to `Z` become `a` to `z`, all else stays.
pub open spec fn lower_code(c: char) -> u32 {
    if 65 <= (c as u32) && (c as u32) <= 90 {
        ((c as u32) + 32) as u32
    } else {
        c as u32
    }
}

/// The lower-cased name begins with `tag`.
pub open spec fn is_tag_name(n: Seq<char>) -> bool {
    &&& n.len() >= 3
    &&& lower_code(n[0]) == 116
    &&& lower_code(n[1]) == 97
    &&& lower_code(n[2]) == 103
}

/// The code of `c` after ASCII lower-casing.
fn lower(c: char) -> (r: u32)
    ensures
        r == lower_code(c),
{
    let v = c as u32;
    if 65 <= v && v <= 90 {
        v + 32
    } else {
        v
    }
}

/// Whether `marker` occurs in `name`.
pub fn has_marker(name: &String, marker: &str) -> (r: bool)
    ensures
        r == is_infix(marker@, name@),
{
    let h = name.as_str();
    let n = h.unicode_len();
    let m = marker.unicode_len();
    if m > n {
        return false;
    }
    let mut i: usize = 0;
    while i <= n - m
        invariant
            n == h@.len(),
            m == marker@.len(),
            h@ == name@,
            m <= n,
            i <= n - m + 1,
            forall|k: int| 0 <= k < i ==> #[trigger] h@.subrange(k, k + m) != marker@,
        decreases n - m + 1 - i,
    {
        let mut j: usize = 0;
        let mut same = true;
        while j < m && same
            invariant
                n == h@.len(),
                m == marker@.len(),
                i + m <= n,
                j <= m,
                same ==> forall|t: int| 0 <= t < j ==> h@[i + t] == marker@[t],
                !same ==> h@[i + j - 1] != marker@[j - 1] && j >= 1,
            decreases m - j + if same { 1int } else { 0int },
        {
            if h.get_char(i + j) != marker.get_char(j) {
                same = false;
            }
            j = j + 1;
        }
        if same {
            assert(h@.subrange(i as int, i + m) =~= marker@);
            return true;
        }
        assert(h@.subrange(i as int, i + m)[j - 1] == h@[i + j - 1]);
        i = i + 1;
    }
    assert forall|k: int| 0 <= k && k + marker@.len() <= name@.len() implies
        #[trigger] name@.subrange(k, k + marker@.len()) != marker@ by {
        assert(k < i);
    }
    false
}

/// Whether a member name marks a tag filter: its lower-cased form begins with `tag`.
pub fn is_tag_member(name: &String) -> (r: bool)
    ensures
        r == is_tag_name(name@),
{
    let s = name.as_str();
    if s.unicode_len() < 3 {
        return false;
    }
    lower(s.get_char(0)) == 116 && lower(s.get_char(1)) == 97 && lower(s.get_char(2)) == 103
}

/// Whether a file name is that of a model document, `model.json`.
pub fn is_model_name(name: &str) -> (r: bool)
    ensures
        r == (name@ == "model.json"@),
{
    name.to_owned() == "model.json".to_owned()
}

} // verus!
