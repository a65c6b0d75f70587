//! In-place rewrite of the version field of a manifest text.
use vstd::prelude::*;
use vstd::string::*;

verus! {

/// The version field's markup around a version text.
pub open spec fn version_markup(v: Seq<char>) -> Seq<char> {
    seq!['<', 'V', 'e', 'r', 's', 'i', 'o', 'n', '>'] + v + seq![
        '<',
        '/',
        'V',
        'e',
        'r',
        's',
        'i',
        'o',
        'n',
        '>',
    ]
}

/// Whether `n` occurs in `t` at position `i`.
pub open spec fn occurs_at(t: Seq<char>, n: Seq<char>, i: int) -> bool {
    0 <= i && i + n.len() <= t.len() && t.subrange(i, i + n.len()) == n
}

/// The first position at or after `i` where `n` occurs in `t`.
pub open spec fn first_match(t: Seq<char>, n: Seq<char>, i: int) -> Option<int>
    decreases t.len() + 1 - i,
{
    if i < 0 || i + n.len() > t.len() {
        None
    } else if occurs_at(t, n, i) {
        Some(i)
    } else {
        first_match(t, n, i + 1)
    }
}

/// The text with the first `<Version>old</Version>` replaced by
/// `<Version>new</Version>`; `None` when the old field is absent.
pub open spec fn patched(t: Seq<char>, old_v: Seq<char>, new_v: Seq<char>) -> Option<Seq<char>> {
    let m = version_markup(old_v);
    match first_match(t, m, 0) {
        None => None,
        Some(i) => Some(t.subrange(0, i) + version_markup(new_v) + t.subrange(
            i + m.len(),
            t.len() as int,
        )),
    }
}

/// Why a manifest text could not be patched.
#[derive(Debug, Clone, PartialEq, Eq)]
pub enum PatchError {
    /// The text holds no `<Version>` field with the old version as its exact content.
    PatchMismatch,
}

/// The characters of a text, one by one.
pub fn chars_of(s: &str) -> (r: Vec<char>)
    ensures
        r@ == s@,
{
    let n = s.unicode_len();
    let mut r: Vec<char> = Vec::new();
    let mut i: usize = 0;
    while i < n
        invariant
            n == s@.len(),
            i <= n,
            r@ == s@.subrange(0, i as int),
        decreases n - i,
    {
        r.push(s.get_char(i));
        i = i + 1;
        proof {
            assert(r@ =~= s@.subrange(0, i as int));
        }
    }
    proof {
        assert(r@ =~= s@);
    }
    r
}

fn markup_of(v: &str) -> (r: String)
    ensures
        r@ == version_markup(v@),
{
    let mut r = String::new();
    proof {
        reveal_strlit("<Version>");
        reveal_strlit("</Version>");
    }
    r.append("<Version>");
    r.append(v);
    r.append("</Version>");
    proof {
        assert(r@ =~= version_markup(v@));
    }
    r
}

fn occurs_here(t: &Vec<char>, n: &Vec<char>, i: usize) -> (r: bool)
    requires
        i + n@.len() <= t@.len(),
    ensures
        r == occurs_at(t@, n@, i as int),
{
    let tl = t.len();
    let mut j: usize = 0;
    while j < n.len()
        invariant
            tl == t@.len(),
            i + n@.len() <= t@.len(),
            j <= n@.len(),
            forall|k: int| 0 <= k < j ==> t@[i + k] == n@[k],
        decreases n@.len() - j,
    {
        if t[i + j] != n[j] {
            proof {
                assert(t@.subrange(i as int, i + n@.len())[j as int] != n@[j as int]);
            }
            return false;
        }
        j = j + 1;
    }
    proof {
        assert(t@.subrange(i as int, i + n@.len()) =~= n@);
    }
    true
}

fn find_first(t: &Vec<char>, n: &Vec<char>) -> (r: Option<usize>)
    requires
        n@.len() > 0,
    ensures
        match r {
            Some(i) => first_match(t@, n@, 0) == Some(i as int),
            None => first_match(t@, n@, 0) is None,
        },
{
    if n.len() > t.len() {
        return None;
    }
    let tl = t.len();
    let last = tl - n.len();
    let mut i: usize = 0;
    while i <= last
        invariant
            tl == t@.len(),
            n@.len() > 0,
            last + n@.len() == t@.len(),
            i <= last + 1,
            first_match(t@, n@, i as int) == first_match(t@, n@, 0),
        decreases last + 1 - i,
    {
        if occurs_here(t, n, i) {
            return Some(i);
        }
        i = i + 1;
    }
    None
}

/// Replaces the first `<Version>old</Version>` in `text` with
/// `<Version>new</Version>`, leaving every other character as it was.
pub fn patch_manifest(text: &str, old_version: &str, new_version: &str) -> (r: Result<
    String,
    PatchError,
>)
    ensures
        match r {
            Ok(s) => patched(text@, old_version@, new_version@) == Some(s@),
            Err(_) => patched(text@, old_version@, new_version@) is None,
        },
{
    let old_m = markup_of(old_version);
    let new_m = markup_of(new_version);
    let t = chars_of(text);
    let m = chars_of(old_m.as_str());
    match find_first(&t, &m) {
        None => Err(PatchError::PatchMismatch),
        Some(i) => {
            proof {
                assert(occurs_at(t@, m@, i as int)) by {
                    lemma_first_match_occurs(t@, m@, 0);
                }
            }
            let tl = t.len();
            let mut out = String::new();
            out.append(text.substring_char(0, i));
            out.append(new_m.as_str());
            out.append(text.substring_char(i + m.len(), tl));
            Ok(out)
        },
    }
}

proof fn lemma_first_match_occurs(t: Seq<char>, n: Seq<char>, i: int)
    ensures
        first_match(t, n, i) matches Some(j) ==> occurs_at(t, n, j) && i <= j,
    decreases t.len() + 1 - i,
{
    if !(i < 0 || i + n.len() > t.len()) && !occurs_at(t, n, i) {
        lemma_first_match_occurs(t, n, i + 1);
    }
}

/// A patch changes nothing before the first old version field, puts the new
/// field in its place, and keeps everything after it: every character outside
/// the replaced field is unchanged.
pub proof fn lemma_patch_keeps_other_text(t: Seq<char>, old_v: Seq<char>, new_v: Seq<char>)
    requires
        patched(t, old_v, new_v) is Some,
    ensures
        ({
            let r = patched(t, old_v, new_v).unwrap();
            let i = first_match(t, version_markup(old_v), 0).unwrap();
            let a = version_markup(old_v).len();
            let b = version_markup(new_v).len();
            &&& occurs_at(t, version_markup(old_v), i)
            &&& r.len() == t.len() - a + b
            &&& forall|k: int| 0 <= k < i ==> r[k] == t[k]
            &&& r.subrange(i, i + b) == version_markup(new_v)
            &&& forall|k: int| i + a <= k < t.len() ==> r[k - a + b] == t[k]
        }),
{
    lemma_first_match_occurs(t, version_markup(old_v), 0);
    let i = first_match(t, version_markup(old_v), 0).unwrap();
    let b = version_markup(new_v).len();
    let r = patched(t, old_v, new_v).unwrap();
    assert(r.subrange(i, i + b) =~= version_markup(new_v));
}

} // verus!
