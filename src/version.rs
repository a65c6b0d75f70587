//! Version normalization and minor-version bumping.
use vstd::prelude::*;
use vstd::string::*;

verus! {

/// A version as plain values: major, minor, patch, pre-release, build metadata.
pub type VersionParts = (u64, u64, u64, Seq<char>, Seq<char>);

#[verifier::external_type_specification]
#[verifier::external_body]
pub struct ExSemverError(semver::Error);

/// What `semver::Version::parse` yields for a text, as plain values.
pub uninterp spec fn semver_parse(s: Seq<char>) -> Option<VersionParts>;

/// The ten decimal digits.
pub open spec fn digit_chars() -> Seq<char> {
    seq!['0', '1', '2', '3', '4', '5', '6', '7', '8', '9']
}

/// Decimal rendering of a natural number, without leading zeros.
pub open spec fn dec(n: nat) -> Seq<char>
    decreases n,
{
    if n < 10 {
        seq![digit_chars()[n as int]]
    } else {
        dec(n / 10).push(digit_chars()[(n % 10) as int])
    }
}

/// Canonical text of a version: `major.minor.patch[-pre][+build]`.
pub open spec fn render(p: VersionParts) -> Seq<char> {
    dec(p.0 as nat) + seq!['.'] + dec(p.1 as nat) + seq!['.'] + dec(p.2 as nat) + (if p.3.len()
        == 0 {
        Seq::<char>::empty()
    } else {
        seq!['-'] + p.3
    }) + (if p.4.len() == 0 {
        Seq::<char>::empty()
    } else {
        seq!['+'] + p.4
    })
}

/// A parsed version with plain fields.
#[derive(Debug, Clone, PartialEq, Eq)]
pub struct SemVer {
    pub major: u64,
    pub minor: u64,
    pub patch: u64,
    pub pre: String,
    pub build: String,
}

impl View for SemVer {
    type V = VersionParts;

    open spec fn view(&self) -> VersionParts {
        (self.major, self.minor, self.patch, self.pre@, self.build@)
    }
}

/// Relies on `semver::Version::parse`: strict `major.minor.patch[-pre][+build]`
/// parsing. The parser keeps the pre-release and build identifiers as the text
/// it read and rejects leading zeros, so an accepted text is the canonical
/// rendering of its parts.
#[verifier::external_body]
fn semver_strict(s: &str) -> (r: Result<SemVer, semver::Error>)
    ensures
        match r {
            Ok(v) => semver_parse(s@) == Some(v@) && s@ == render(v@),
            Err(_) => semver_parse(s@) is None,
        },
{
    match semver::Version::parse(s) {
        Ok(v) => Ok(
            SemVer {
                major: v.major,
                minor: v.minor,
                patch: v.patch,
                pre: v.pre.as_str().to_string(),
                build: v.build.as_str().to_string(),
            },
        ),
        Err(e) => Err(e),
    }
}

pub open spec fn is_suffix_sep(c: char) -> bool {
    c == '-' || c == '+'
}

/// Index of the first `-` or `+` at or after `i`, or the length.
pub open spec fn sep_from(s: Seq<char>, i: int) -> int
    decreases s.len() - i,
{
    if i >= s.len() {
        s.len() as int
    } else if is_suffix_sep(s[i]) {
        i
    } else {
        sep_from(s, i + 1)
    }
}

/// Where the pre-release/build suffix starts (the length when there is none).
pub open spec fn suffix_start(s: Seq<char>) -> int {
    sep_from(s, 0)
}

/// Whether a non-empty dot-separated component starts at `j`.
pub open spec fn starts_component(s: Seq<char>, j: int) -> bool {
    s[j] != '.' && (j == 0 || s[j - 1] == '.')
}

/// Number of non-empty dot-separated components within the first `n` characters.
pub open spec fn component_count(s: Seq<char>, n: int) -> nat
    decreases n,
{
    if n <= 0 {
        0
    } else {
        component_count(s, n - 1) + if starts_component(s, n - 1) {
            1nat
        } else {
            0nat
        }
    }
}

/// Length of the first `n` characters once trailing dots are removed.
pub open spec fn trimmed_len(s: Seq<char>, n: int) -> int
    decreases n,
{
    if n > 0 && s[n - 1] == '.' {
        trimmed_len(s, n - 1)
    } else {
        n
    }
}

/// The text padded to three numeric components, with its suffix reattached;
/// `None` when the numeric part does not have one or two components.
pub open spec fn normalize(s: Seq<char>) -> Option<Seq<char>> {
    let k = suffix_start(s);
    let c = component_count(s, k);
    let head = s.subrange(0, trimmed_len(s, k));
    let tail = s.subrange(k, s.len() as int);
    if c == 1 {
        Some(head + seq!['.', '0', '.', '0'] + tail)
    } else if c == 2 {
        Some(head + seq!['.', '0'] + tail)
    } else {
        None
    }
}

/// The version a text denotes: a strict parse, else a strict parse of its
/// zero-padded form.
pub open spec fn parsed(s: Seq<char>) -> Option<VersionParts> {
    match semver_parse(s) {
        Some(p) => Some(p),
        None => match normalize(s) {
            Some(c) => semver_parse(c),
            None => None,
        },
    }
}

/// The bump: minor plus one; patch reset to zero only when there is neither
/// a pre-release nor build metadata.
pub open spec fn next_version(p: VersionParts) -> VersionParts {
    (
        p.0,
        (p.1 + 1) as u64,
        if p.3.len() == 0 && p.4.len() == 0 {
            0u64
        } else {
            p.2
        },
        p.3,
        p.4,
    )
}

fn suffix_index(s: &str) -> (k: usize)
    ensures
        k == suffix_start(s@),
        k <= s@.len(),
{
    let n = s.unicode_len();
    let mut i: usize = 0;
    while i < n
        invariant
            n == s@.len(),
            i <= n,
            sep_from(s@, i as int) == suffix_start(s@),
        decreases n - i,
    {
        let c = s.get_char(i);
        if c == '-' || c == '+' {
            return i;
        }
        i = i + 1;
    }
    i
}

fn count_components(s: &str, k: usize) -> (c: usize)
    requires
        k <= s@.len(),
    ensures
        c == component_count(s@, k as int),
{
    let mut i: usize = 0;
    let mut c: usize = 0;
    while i < k
        invariant
            k <= s@.len(),
            i <= k,
            c == component_count(s@, i as int),
            c <= i,
        decreases k - i,
    {
        let ch = s.get_char(i);
        if ch != '.' && (i == 0 || s.get_char(i - 1) == '.') {
            c = c + 1;
        }
        i = i + 1;
    }
    c
}

fn trim_dots(s: &str, k: usize) -> (t: usize)
    requires
        k <= s@.len(),
    ensures
        t == trimmed_len(s@, k as int),
        t <= k,
{
    let mut t: usize = k;
    while t > 0 && s.get_char(t - 1) == '.'
        invariant
            t <= k <= s@.len(),
            trimmed_len(s@, t as int) == trimmed_len(s@, k as int),
        decreases t,
    {
        t = t - 1;
    }
    t
}

/// Zero-pads a one- or two-component version to three components, keeping
/// any `-`/`+` suffix; `None` when it has any other number of components.
pub fn normalize_version(s: &str) -> (r: Option<String>)
    ensures
        match r {
            Some(c) => normalize(s@) == Some(c@),
            None => normalize(s@) is None,
        },
{
    let k = suffix_index(s);
    let c = count_components(s, k);
    if c != 1 && c != 2 {
        return None;
    }
    let t = trim_dots(s, k);
    let n = s.unicode_len();
    let mut out = String::new();
    out.append(s.substring_char(0, t));
    let pad = if c == 1 {
        ".0.0"
    } else {
        ".0"
    };
    proof {
        reveal_strlit(".0.0");
        reveal_strlit(".0");
    }
    out.append(pad);
    out.append(s.substring_char(k, n));
    proof {
        assert(out@ =~= normalize(s@).unwrap());
    }
    Some(out)
}

proof fn lemma_sep_from_is(s: Seq<char>, i: int, m: int)
    requires
        0 <= i <= m <= s.len(),
        forall|j: int| i <= j < m ==> !is_suffix_sep(#[trigger] s[j]),
        m == s.len() || is_suffix_sep(s[m]),
    ensures
        sep_from(s, i) == m,
    decreases m - i,
{
    if i < m {
        lemma_sep_from_is(s, i + 1, m);
    }
}

proof fn lemma_sep_from_before(s: Seq<char>, i: int)
    requires
        0 <= i <= s.len(),
    ensures
        i <= sep_from(s, i) <= s.len(),
        forall|j: int| i <= j < sep_from(s, i) ==> !is_suffix_sep(#[trigger] s[j]),
        sep_from(s, i) == s.len() || is_suffix_sep(s[sep_from(s, i)]),
    decreases s.len() - i,
{
    if i < s.len() && !is_suffix_sep(s[i]) {
        lemma_sep_from_before(s, i + 1);
    }
}

proof fn lemma_count_same_prefix(a: Seq<char>, b: Seq<char>, n: int)
    requires
        0 <= n <= a.len(),
        n <= b.len(),
        forall|j: int| 0 <= j < n ==> a[j] == b[j],
    ensures
        component_count(a, n) == component_count(b, n),
    decreases n,
{
    if n > 0 {
        lemma_count_same_prefix(a, b, n - 1);
    }
}

proof fn lemma_count_trimmed(s: Seq<char>, n: int)
    requires
        0 <= n <= s.len(),
    ensures
        component_count(s, trimmed_len(s, n)) == component_count(s, n),
        0 <= trimmed_len(s, n) <= n,
        trimmed_len(s, n) > 0 ==> s[trimmed_len(s, n) - 1] != '.',
    decreases n,
{
    if n > 0 && s[n - 1] == '.' {
        lemma_count_trimmed(s, n - 1);
    }
}

/// Padding is complete: a text that was padded needs no further padding,
/// so a version given with fewer components denotes what its padded form
/// denotes whenever the strict parser turns the short form down.
pub proof fn lemma_padding_complete(s: Seq<char>)
    requires
        normalize(s) is Some,
    ensures
        normalize(normalize(s).unwrap()) is None,
        semver_parse(s) is None ==> parsed(s) == parsed(normalize(s).unwrap()),
        semver_parse(s) is None ==> bumped_text(s) == bumped_text(normalize(s).unwrap()),
{
    let k = suffix_start(s);
    lemma_sep_from_before(s, 0);
    let c1 = component_count(s, k);
    let t = trimmed_len(s, k);
    lemma_count_trimmed(s, k);
    let head = s.subrange(0, t);
    let tail = s.subrange(k, s.len() as int);
    let pad: Seq<char> = if c1 == 1 {
        seq!['.', '0', '.', '0']
    } else {
        seq!['.', '0']
    };
    let c = normalize(s).unwrap();
    assert(c =~= head + pad + tail);
    let m = t + pad.len();
    assert forall|j: int| 0 <= j < m implies !is_suffix_sep(#[trigger] c[j]) by {
        if j < t {
            assert(c[j] == s[j]);
        }
    }
    if k < s.len() {
        assert(c[m] == s[k]);
    }
    lemma_sep_from_is(c, 0, m);
    assert(suffix_start(c) == m);
    lemma_count_same_prefix(s, c, t);
    if t == 0 {
        assert(component_count(s, 0) == 0);
    }
    assert(t > 0);
    assert(!starts_component(c, t));
    assert(starts_component(c, t + 1));
    assert(component_count(c, t) == c1);
    assert(component_count(c, t + 1) == c1);
    assert(component_count(c, t + 2) == c1 + 1);
    if c1 == 1 {
        assert(!starts_component(c, t + 2));
        assert(starts_component(c, t + 3));
        assert(component_count(c, t + 3) == 2);
        assert(component_count(c, t + 4) == 3);
    }
}

/// Whether a text holds a `-` or `+`, which starts a pre-release or build suffix.
pub open spec fn has_suffix(s: Seq<char>) -> bool {
    exists|i: int| 0 <= i < s.len() && is_suffix_sep(#[trigger] s[i])
}

proof fn lemma_dec_plain(n: nat)
    ensures
        forall|i: int| 0 <= i < dec(n).len() ==> !is_suffix_sep(#[trigger] dec(n)[i]),
        dec(n).len() > 0,
    decreases n,
{
    if n >= 10 {
        lemma_dec_plain(n / 10);
        assert forall|i: int| 0 <= i < dec(n).len() implies !is_suffix_sep(#[trigger] dec(n)[i]) by {
            if i < dec(n / 10).len() {
                assert(dec(n)[i] == dec(n / 10)[i]);
            }
        }
    }
}

proof fn lemma_render_suffix(p: VersionParts)
    ensures
        has_suffix(render(p)) <==> (p.3.len() > 0 || p.4.len() > 0),
{
    lemma_dec_plain(p.0 as nat);
    lemma_dec_plain(p.1 as nat);
    lemma_dec_plain(p.2 as nat);
    let base = dec(p.0 as nat) + seq!['.'] + dec(p.1 as nat) + seq!['.'] + dec(p.2 as nat);
    let r = render(p);
    assert forall|i: int| 0 <= i < base.len() implies !is_suffix_sep(#[trigger] base[i]) by {
        let a = dec(p.0 as nat).len() as int;
        let b = dec(p.1 as nat).len() as int;
        if i < a {
            assert(base[i] == dec(p.0 as nat)[i]);
        } else if i == a {
        } else if i < a + 1 + b {
            assert(base[i] == dec(p.1 as nat)[i - a - 1]);
        } else if i == a + 1 + b {
        } else {
            assert(base[i] == dec(p.2 as nat)[i - a - 2 - b]);
        }
    }
    if p.3.len() > 0 {
        assert(is_suffix_sep(r[base.len() as int]));
    } else if p.4.len() > 0 {
        assert(is_suffix_sep(r[base.len() as int]));
    } else {
        assert(r =~= base);
    }
}

proof fn lemma_normalize_suffix(s: Seq<char>)
    requires
        normalize(s) is Some,
    ensures
        has_suffix(normalize(s).unwrap()) <==> has_suffix(s),
{
    let k = suffix_start(s);
    lemma_sep_from_before(s, 0);
    let c1 = component_count(s, k);
    let t = trimmed_len(s, k);
    lemma_count_trimmed(s, k);
    let head = s.subrange(0, t);
    let tail = s.subrange(k, s.len() as int);
    let pad: Seq<char> = if c1 == 1 {
        seq!['.', '0', '.', '0']
    } else {
        seq!['.', '0']
    };
    let c = normalize(s).unwrap();
    assert(c =~= head + pad + tail);
    let m = t + pad.len();
    assert forall|j: int| 0 <= j < m implies !is_suffix_sep(#[trigger] c[j]) by {
        if j < t {
            assert(c[j] == s[j]);
        }
    }
    if k < s.len() {
        assert(c[m] == s[k]);
        assert(is_suffix_sep(c[m]));
    } else {
        assert(c.len() == m);
        if has_suffix(s) {
            let i = choose|i: int| 0 <= i < s.len() && is_suffix_sep(#[trigger] s[i]);
            assert(false);
        }
    }
}

/// Parses a version strictly, or else after zero-padding it to three
/// components; the error is the parser's.
pub fn parse_version(input: &str) -> (r: Result<SemVer, semver::Error>)
    ensures
        match r {
            Ok(v) => parsed(input@) == Some(v@),
            Err(_) => parsed(input@) is None,
        },
        r matches Ok(v) ==> input@ == render(v@) || normalize(input@) == Some(render(v@)),
        r matches Ok(v) ==> (has_suffix(input@) <==> (v.pre@.len() > 0 || v.build@.len() > 0)),
{
    match semver_strict(input) {
        Ok(v) => {
            proof {
                lemma_render_suffix(v@);
            }
            Ok(v)
        },
        Err(e) => match normalize_version(input) {
            Some(c) => {
                let r = semver_strict(c.as_str());
                proof {
                    if r is Ok {
                        lemma_render_suffix(r->Ok_0@);
                        lemma_normalize_suffix(input@);
                    }
                }
                r
            },
            None => Err(e),
        },
    }
}

fn push_dec(out: &mut String, n: u64)
    ensures
        final(out)@ == old(out)@ + dec(n as nat),
    decreases n,
{
    if n >= 10 {
        push_dec(out, n / 10);
    }
    let d: usize = (n % 10) as usize;
    let digits = "0123456789";
    proof {
        reveal_strlit("0123456789");
        assert(digits@ =~= digit_chars());
    }
    out.append(digits.substring_char(d, d + 1));
    proof {
        assert(digits@.subrange(d as int, d + 1) =~= seq![digit_chars()[d as int]]);
        if n >= 10 {
            assert(final(out)@ =~= old(out)@ + dec(n as nat));
        } else {
            assert(final(out)@ =~= old(out)@ + dec(n as nat));
        }
    }
}

/// Canonical text of a version.
pub fn render_version(v: &SemVer) -> (r: String)
    ensures
        r@ == render(v@),
{
    let mut out = String::new();
    proof {
        reveal_strlit(".");
        reveal_strlit("-");
        reveal_strlit("+");
    }
    push_dec(&mut out, v.major);
    out.append(".");
    push_dec(&mut out, v.minor);
    out.append(".");
    push_dec(&mut out, v.patch);
    if v.pre.as_str().unicode_len() > 0 {
        out.append("-");
        out.append(v.pre.as_str());
    }
    if v.build.as_str().unicode_len() > 0 {
        out.append("+");
        out.append(v.build.as_str());
    }
    proof {
        assert(out@ =~= render(v@));
    }
    out
}

/// Why a version cannot be bumped.
#[derive(Debug)]
pub enum BumpError {
    /// Neither the text nor its zero-padded form is a valid version.
    InvalidVersion(semver::Error),
    /// The minor number is already the largest one representable.
    MinorOverflow,
}

/// The bumped version of a parsed one.
pub fn bump(v: SemVer) -> (r: Option<SemVer>)
    ensures
        v.minor == u64::MAX ==> r is None,
        v.minor < u64::MAX ==> r == Some(
            (SemVer {
                major: v.major,
                minor: (v.minor + 1) as u64,
                patch: if v.pre@.len() == 0 && v.build@.len() == 0 {
                    0u64
                } else {
                    v.patch
                },
                pre: v.pre,
                build: v.build,
            }),
        ),
        r matches Some(w) ==> w@ == next_version(v@),
{
    if v.minor == u64::MAX {
        return None;
    }
    let reset = v.pre.as_str().unicode_len() == 0 && v.build.as_str().unicode_len() == 0;
    let patch = if reset {
        0
    } else {
        v.patch
    };
    Some(SemVer { major: v.major, minor: v.minor + 1, patch, pre: v.pre, build: v.build })
}

/// What bumping a version text yields: `None` when it is no version,
/// `Some(None)` when its minor number cannot grow, else the new text.
pub open spec fn bumped_text(s: Seq<char>) -> Option<Option<Seq<char>>> {
    match parsed(s) {
        None => None,
        Some(p) => if p.1 == u64::MAX {
            Some(None)
        } else {
            Some(Some(render(next_version(p))))
        },
    }
}

/// Bumping any version text that parses raises its minor number by one,
/// keeps major, pre-release and build metadata, resets the patch number when
/// there is neither pre-release nor build metadata, and keeps it otherwise.
pub proof fn lemma_bump_fields(s: Seq<char>)
    requires
        parsed(s) matches Some(p) && p.1 < u64::MAX,
    ensures
        ({
            let p = parsed(s).unwrap();
            let q = next_version(p);
            &&& bumped_text(s) == Some(Some(render(q)))
            &&& q.0 == p.0
            &&& q.1 == p.1 + 1
            &&& p.3.len() == 0 && p.4.len() == 0 ==> q.2 == 0
            &&& p.3.len() > 0 || p.4.len() > 0 ==> q.2 == p.2
            &&& q.3 == p.3
            &&& q.4 == p.4
        }),
{
}

/// Parses a version text, bumps its minor number and renders the result.
pub fn bump_version(input: &str) -> (r: Result<String, BumpError>)
    ensures
        match r {
            Ok(s) => bumped_text(input@) == Some(Some(s@)),
            Err(BumpError::InvalidVersion(_)) => bumped_text(input@) is None,
            Err(BumpError::MinorOverflow) => bumped_text(input@) == Some(None::<Seq<char>>),
        },
        r matches Ok(t) ==> (parsed(input@) matches Some(p) && t@ == render(next_version(p))
            && next_version(p).1 == p.1 + 1 && (!has_suffix(input@) ==> next_version(p).2 == 0)
            && (has_suffix(input@) ==> next_version(p).2 == p.2)),
{
    match parse_version(input) {
        Err(e) => Err(BumpError::InvalidVersion(e)),
        Ok(v) => match bump(v) {
            None => Err(BumpError::MinorOverflow),
            Some(w) => Ok(render_version(&w)),
        },
    }
}

} // verus!
