//! Selection of the files that make up a release, in a fixed order.
use vstd::prelude::*;
use vstd::string::*;
use crate::patch::chars_of;

verus! {

/// Whether `a` sorts before `b`, comparing from position `i` on by code point.
pub open spec fn lex_lt_from(a: Seq<char>, b: Seq<char>, i: int) -> bool
    decreases a.len() - i,
{
    if i < 0 || i > a.len() || i > b.len() {
        false
    } else if i == a.len() {
        i < b.len()
    } else if i == b.len() {
        false
    } else if a[i] != b[i] {
        (a[i] as int) < (b[i] as int)
    } else {
        lex_lt_from(a, b, i + 1)
    }
}

/// Name order: lexicographic by code point, as `str`'s own order.
pub open spec fn lex_lt(a: Seq<char>, b: Seq<char>) -> bool {
    lex_lt_from(a, b, 0)
}

/// Each name sorts strictly before every later one.
pub open spec fn strictly_sorted(s: Seq<Seq<char>>) -> bool {
    forall|i: int, j: int| 0 <= i < j < s.len() ==> lex_lt(#[trigger] s[i], #[trigger] s[j])
}

/// The texts of a list of strings.
pub open spec fn texts(v: Seq<String>) -> Seq<Seq<char>> {
    v.map_values(|s: String| s@)
}

/// A source script: a name with a stem and the `.lua` extension.
pub open spec fn is_script(name: Seq<char>) -> bool {
    name.len() > 4 && name.subrange(name.len() - 4, name.len() as int) == seq!['.', 'l', 'u', 'a']
}

proof fn lemma_lex_irreflexive(a: Seq<char>, i: int)
    requires
        0 <= i <= a.len(),
    ensures
        !lex_lt_from(a, a, i),
    decreases a.len() - i,
{
    if i < a.len() {
        lemma_lex_irreflexive(a, i + 1);
    }
}

proof fn lemma_lex_transitive(a: Seq<char>, b: Seq<char>, c: Seq<char>, i: int)
    requires
        lex_lt_from(a, b, i),
        lex_lt_from(b, c, i),
    ensures
        lex_lt_from(a, c, i),
    decreases a.len() - i,
{
    if i < a.len() && i < b.len() && i < c.len() && a[i] == b[i] && b[i] == c[i] {
        lemma_lex_transitive(a, b, c, i + 1);
    }
}

proof fn lemma_lex_total(a: Seq<char>, b: Seq<char>, i: int)
    requires
        0 <= i <= a.len(),
        i <= b.len(),
        a.subrange(0, i) == b.subrange(0, i),
    ensures
        lex_lt_from(a, b, i) || lex_lt_from(b, a, i) || a == b,
    decreases a.len() - i,
{
    if i < a.len() && i < b.len() && a[i] == b[i] {
        assert(a.subrange(0, i + 1) =~= a.subrange(0, i).push(a[i]));
        assert(b.subrange(0, i + 1) =~= b.subrange(0, i).push(b[i]));
        lemma_lex_total(a, b, i + 1);
    } else if i == a.len() && i == b.len() {
        assert(a =~= a.subrange(0, i));
        assert(b =~= b.subrange(0, i));
    } else if i < a.len() && i < b.len() {
        assert(a[i] as int != b[i] as int);
    }
}

proof fn lemma_lex_trichotomy(a: Seq<char>, b: Seq<char>)
    ensures
        lex_lt(a, b) || lex_lt(b, a) || a == b,
{
    assert(a.subrange(0, 0) =~= b.subrange(0, 0));
    lemma_lex_total(a, b, 0);
}

proof fn lemma_sorted_unique(x: Seq<Seq<char>>, y: Seq<Seq<char>>)
    requires
        strictly_sorted(x),
        strictly_sorted(y),
        forall|e: Seq<char>| x.contains(e) <==> y.contains(e),
    ensures
        x == y,
    decreases x.len(),
{
    if x.len() == 0 {
        if y.len() > 0 {
            assert(y.contains(y[0]));
        }
        assert(x =~= y);
    } else {
        assert(x.contains(x[0]));
        assert(y.contains(x[0]));
        assert(y.len() > 0);
        assert(y.contains(y[0]));
        assert(x.contains(y[0]));
        let j = choose|j: int| 0 <= j < x.len() && x[j] == y[0];
        let k = choose|k: int| 0 <= k < y.len() && y[k] == x[0];
        if j > 0 {
            assert(lex_lt(x[0], x[j]));
            if k == 0 {
                lemma_lex_irreflexive(x[0], 0);
            } else {
                assert(lex_lt(y[0], y[k]));
                lemma_lex_transitive(x[0], y[0], x[0], 0);
                lemma_lex_irreflexive(x[0], 0);
            }
        }
        assert(x[0] == y[0]);
        let x1 = x.drop_first();
        let y1 = y.drop_first();
        assert forall|e: Seq<char>| x1.contains(e) <==> y1.contains(e) by {
            if x1.contains(e) {
                let a = choose|a: int| 0 <= a < x1.len() && x1[a] == e;
                assert(x[a + 1] == e);
                assert(lex_lt(x[0], x[a + 1]));
                lemma_lex_irreflexive(e, 0);
                assert(y.contains(e));
                let b = choose|b: int| 0 <= b < y.len() && y[b] == e;
                assert(b != 0);
                assert(y1[b - 1] == e);
            }
            if y1.contains(e) {
                let a = choose|a: int| 0 <= a < y1.len() && y1[a] == e;
                assert(y[a + 1] == e);
                assert(lex_lt(y[0], y[a + 1]));
                lemma_lex_irreflexive(e, 0);
                assert(x.contains(e));
                let b = choose|b: int| 0 <= b < x.len() && x[b] == e;
                assert(b != 0);
                assert(x1[b - 1] == e);
            }
        }
        assert forall|a: int, b: int| 0 <= a < b < x1.len() implies lex_lt(
            #[trigger] x1[a],
            #[trigger] x1[b],
        ) by {
            assert(x1[a] == x[a + 1] && x1[b] == x[b + 1]);
        }
        assert forall|a: int, b: int| 0 <= a < b < y1.len() implies lex_lt(
            #[trigger] y1[a],
            #[trigger] y1[b],
        ) by {
            assert(y1[a] == y[a + 1] && y1[b] == y[b + 1]);
        }
        lemma_sorted_unique(x1, y1);
        assert(x =~= seq![x[0]] + x1);
        assert(y =~= seq![y[0]] + y1);
    }
}

/// Script selection depends on the set of names alone: two listings of the
/// same names, in any order and with any repetition, select the same list.
pub proof fn lemma_selection_ignores_listing_order(
    a: Seq<String>,
    b: Seq<String>,
    x: Seq<String>,
    y: Seq<String>,
)
    requires
        forall|e: Seq<char>| texts(a).contains(e) <==> texts(b).contains(e),
        strictly_sorted(texts(x)),
        strictly_sorted(texts(y)),
        forall|e: Seq<char>| #[trigger]
            texts(x).contains(e) <==> (texts(a).contains(e) && is_script(e)),
        forall|e: Seq<char>| #[trigger]
            texts(y).contains(e) <==> (texts(b).contains(e) && is_script(e)),
    ensures
        texts(x) == texts(y),
{
    assert forall|e: Seq<char>| texts(x).contains(e) <==> texts(y).contains(e) by {
        assert(texts(x).contains(e) <==> (texts(a).contains(e) && is_script(e)));
        assert(texts(y).contains(e) <==> (texts(b).contains(e) && is_script(e)));
    }
    lemma_sorted_unique(texts(x), texts(y));
}

/// Exact comparison in name order.
pub fn name_lt(a: &Vec<char>, b: &Vec<char>) -> (r: bool)
    ensures
        r == lex_lt(a@, b@),
{
    let mut i: usize = 0;
    while i < a.len() && i < b.len()
        invariant
            i <= a@.len(),
            i <= b@.len(),
            lex_lt_from(a@, b@, i as int) == lex_lt(a@, b@),
        decreases a@.len() - i,
    {
        if a[i] != b[i] {
            return a[i] < b[i];
        }
        i = i + 1;
    }
    i < b.len() && i == a.len()
}

fn script_name(c: &Vec<char>) -> (r: bool)
    ensures
        r == is_script(c@),
{
    let n = c.len();
    if n <= 4 {
        return false;
    }
    let r = c[n - 4] == '.' && c[n - 3] == 'l' && c[n - 2] == 'u' && c[n - 1] == 'a';
    proof {
        let tail = c@.subrange(n - 4, n as int);
        if r {
            assert(tail =~= seq!['.', 'l', 'u', 'a']);
        } else {
            if tail == seq!['.', 'l', 'u', 'a'] {
                assert(tail[0] == c@[n - 4]);
                assert(tail[1] == c@[n - 3]);
                assert(tail[2] == c@[n - 2]);
                assert(tail[3] == c@[n - 1]);
            }
        }
    }
    r
}

/// The source scripts among the names of a directory's entries, each once,
/// sorted by name whatever the order of the listing.
pub fn select_scripts(names: &Vec<String>) -> (r: Vec<String>)
    ensures
        strictly_sorted(texts(r@)),
        forall|e: Seq<char>| #[trigger]
            texts(r@).contains(e) <==> (texts(names@).contains(e) && is_script(e)),
{
    let mut r: Vec<String> = Vec::new();
    let mut rc: Vec<Vec<char>> = Vec::new();
    let mut i: usize = 0;
    while i < names.len()
        invariant
            i <= names@.len(),
            r@.len() == rc@.len(),
            forall|k: int| 0 <= k < r@.len() ==> (#[trigger] r@[k])@ == rc@[k]@,
            strictly_sorted(texts(r@)),
            forall|e: Seq<char>| #[trigger]
                texts(r@).contains(e) <==> (texts(names@.subrange(0, i as int)).contains(e)
                    && is_script(e)),
        decreases names@.len() - i,
    {
        let ghost before = texts(r@);
        let ghost seen = texts(names@.subrange(0, i as int));
        let ghost seen2 = texts(names@.subrange(0, i + 1));
        proof {
            assert(seen2 =~= seen.push(names@[i as int]@));
        }
        let c = chars_of(names[i].as_str());
        if script_name(&c) {
            let mut p: usize = 0;
            while p < rc.len() && name_lt(&rc[p], &c)
                invariant
                    p <= rc@.len(),
                    r@.len() == rc@.len(),
                    forall|k: int| 0 <= k < r@.len() ==> (#[trigger] r@[k])@ == rc@[k]@,
                    forall|k: int| 0 <= k < p ==> lex_lt(#[trigger] rc@[k]@, c@),
                decreases rc@.len() - p,
            {
                p = p + 1;
            }
            let dup = p < rc.len() && !name_lt(&c, &rc[p]);
            if dup {
                proof {
                    lemma_lex_trichotomy(rc@[p as int]@, c@);
                    assert(rc@[p as int]@ == c@);
                    assert(before[p as int] == c@);
                    assert forall|e: Seq<char>| #[trigger]
                        before.contains(e) <==> (seen2.contains(e) && is_script(e)) by {
                        if seen2.contains(e) && is_script(e) && e == c@ {
                            assert(before[p as int] == e);
                        }
                        if seen2.contains(e) && e != c@ {
                            let j = choose|j: int| 0 <= j < seen2.len() && seen2[j] == e;
                            assert(seen[j] == e);
                        }
                        if seen.contains(e) {
                            let j = choose|j: int| 0 <= j < seen.len() && seen[j] == e;
                            assert(seen2[j] == e);
                        }
                    }
                }
            } else {
                proof {
                    if p < rc@.len() {
                        lemma_lex_trichotomy(rc@[p as int]@, c@);
                        assert(lex_lt(c@, rc@[p as int]@));
                    }
                    assert forall|k: int| p <= k < before.len() implies lex_lt(
                        c@,
                        #[trigger] before[k],
                    ) by {
                        assert(before[k] == rc@[k]@);
                        if k > p {
                            assert(lex_lt(before[p as int], before[k]));
                            lemma_lex_transitive(c@, before[p as int], before[k], 0);
                        }
                    }
                }
                let s = names[i].clone();
                r.insert(p, s);
                rc.insert(p, c);
                proof {
                    let after = texts(r@);
                    assert(after =~= before.insert(p as int, c@));
                    assert forall|a: int, b: int| 0 <= a < b < after.len() implies lex_lt(
                        #[trigger] after[a],
                        #[trigger] after[b],
                    ) by {
                        if b < p {
                        } else if b == p {
                            assert(after[a] == rc@[a]@);
                        } else if a < p {
                            assert(after[a] == before[a]);
                            assert(after[b] == before[b - 1]);
                            lemma_lex_transitive(before[a], c@, before[b - 1], 0);
                        } else if a == p {
                        } else {
                            assert(after[a] == before[a - 1]);
                            assert(after[b] == before[b - 1]);
                        }
                    }
                    assert forall|e: Seq<char>| #[trigger]
                        after.contains(e) <==> (seen2.contains(e) && is_script(e)) by {
                        if after.contains(e) {
                            let j = choose|j: int| 0 <= j < after.len() && after[j] == e;
                            if j < p {
                                assert(before[j] == e);
                            } else if j > p {
                                assert(before[j - 1] == e);
                            }
                        }
                        if before.contains(e) {
                            let j = choose|j: int| 0 <= j < before.len() && before[j] == e;
                            if j < p {
                                assert(after[j] == e);
                            } else {
                                assert(after[j + 1] == e);
                            }
                        }
                        if e == c@ {
                            assert(after[p as int] == e);
                            assert(seen2[i as int] == e);
                        }
                        if seen2.contains(e) && e != c@ {
                            let j = choose|j: int| 0 <= j < seen2.len() && seen2[j] == e;
                            assert(seen[j] == e);
                        }
                        if seen.contains(e) {
                            let j = choose|j: int| 0 <= j < seen.len() && seen[j] == e;
                            assert(seen2[j] == e);
                        }
                    }
                }
            }
        } else {
            proof {
                assert forall|e: Seq<char>| #[trigger]
                    before.contains(e) <==> (seen2.contains(e) && is_script(e)) by {
                    if seen2.contains(e) && e != c@ {
                        let j = choose|j: int| 0 <= j < seen2.len() && seen2[j] == e;
                        assert(seen[j] == e);
                    }
                    if seen.contains(e) {
                        let j = choose|j: int| 0 <= j < seen.len() && seen[j] == e;
                        assert(seen2[j] == e);
                    }
                }
            }
        }
        i = i + 1;
    }
    proof {
        assert(names@.subrange(0, i as int) =~= names@);
    }
    r
}

} // verus!
