//! Matching output devices by name.
use vstd::prelude::*;

verus! {

broadcast use vstd::string::group_string_axioms;

/// The characters of `s` in order.
pub fn chars_of(s: &str) -> (r: Vec<char>)
    ensures
        r@ == s@,
{
    let mut r: Vec<char> = Vec::new();
    for c in iter: s.chars()
        invariant
            r@ == iter.seq().take(iter.index()),
    {
        r.push(c);
    }
    r
}

/// What `str::to_lowercase` returns for a string with these characters.
pub uninterp spec fn lowercase_of(s: Seq<char>) -> Seq<char>;

/// Calls `str::to_lowercase`, whose result is a function of its argument
/// alone (the Unicode lowercase mapping of each character); this contract
/// names it and claims nothing more.
#[verifier::external_body]
fn to_lowercase(s: &str) -> (r: String)
    ensures
        r@ == lowercase_of(s@),
{
    s.to_lowercase()
}

/// `needle` occurs in `hay` starting at position `i`.
pub open spec fn occurs_at(hay: Seq<char>, needle: Seq<char>, i: int) -> bool {
    &&& 0 <= i
    &&& i + needle.len() <= hay.len()
    &&& hay.subrange(i, i + needle.len()) == needle
}

/// `needle` occurs somewhere in `hay` (the empty needle occurs everywhere).
pub open spec fn has_substring(hay: Seq<char>, needle: Seq<char>) -> bool {
    exists|i: int| occurs_at(hay, needle, i)
}

/// Whether `needle` occurs in `hay`, as `has_substring` states.
pub fn contains_substring(hay: &Vec<char>, needle: &Vec<char>) -> (r: bool)
    ensures
        r == has_substring(hay@, needle@),
{
    let h = hay.len();
    let n = needle.len();
    if n > h {
        assert forall|i: int| !occurs_at(hay@, needle@, i) by {}
        return false;
    }
    if n == 0 {
        assert(hay@.subrange(0, 0) =~= needle@);
        assert(occurs_at(hay@, needle@, 0));
        return true;
    }
    let mut i: usize = 0;
    while i <= h - n
        invariant
            0 < n <= h,
            h == hay@.len(),
            n == needle@.len(),
            forall|k: int| 0 <= k < i ==> !occurs_at(hay@, needle@, k),
        decreases h - n + 1 - i,
    {
        let mut j: usize = 0;
        let mut same = true;
        while j < n && same
            invariant
                j <= n,
                i + n <= h,
                h == hay@.len(),
                n == needle@.len(),
                same ==> forall|t: int| 0 <= t < j ==> hay@[i + t] == needle@[t],
                !same ==> !occurs_at(hay@, needle@, i as int),
            decreases n - j + (if same { 1int } else { 0int }),
        {
            if hay[i + j] != needle[j] {
                same = false;
                assert(hay@.subrange(i as int, i + n)[j as int] != needle@[j as int]);
            } else {
                j = j + 1;
            }
        }
        if same {
            assert(hay@.subrange(i as int, i + n) =~= needle@);
            assert(occurs_at(hay@, needle@, i as int));
            return true;
        }
        i = i + 1;
    }
    assert forall|k: int| !occurs_at(hay@, needle@, k) by {
        if 0 <= k && k + n <= h {
            assert(k < i);
        }
    }
    false
}

/// A device label matches a requested name when the lowercased name occurs
/// in the lowercased label.
pub open spec fn name_matches(label: Seq<char>, name: Seq<char>) -> bool {
    has_substring(lowercase_of(label), lowercase_of(name))
}

/// The index of the first label that matches `name` (case-insensitive
/// substring), if any.
pub fn find_device_by_name(labels: &Vec<String>, name: &str) -> (r: Option<usize>)
    ensures
        match r {
            Some(i) => {
                &&& i < labels@.len()
                &&& name_matches(labels@[i as int]@, name@)
                &&& forall|j: int| 0 <= j < i ==> !name_matches(#[trigger] labels@[j]@, name@)
            },
            None => forall|j: int| 0 <= j < labels@.len() ==> !name_matches(#[trigger] labels@[j]@, name@),
        },
{
    let needle_string = to_lowercase(name);
    let needle = chars_of(needle_string.as_str());
    let mut i: usize = 0;
    while i < labels.len()
        invariant
            i <= labels@.len(),
            needle@ == lowercase_of(name@),
            forall|j: int| 0 <= j < i ==> !name_matches(#[trigger] labels@[j]@, name@),
        decreases labels@.len() - i,
    {
        let lowered = to_lowercase(labels[i].as_str());
        let hay = chars_of(lowered.as_str());
        if contains_substring(&hay, &needle) {
            return Some(i);
        }
        i = i + 1;
    }
    None
}

} // verus!
