//! Small verified string operations the dashboard logic builds on:
//! equality, substring search, ASCII-whitespace trimming, prefix and
//! suffix stripping, and dropping every occurrence of a pattern.

use vstd::prelude::*;
use vstd::string::StrSliceExecFns;
use vstd::string::StringExecFns;

verus! {

/// The needle stands at position `i` of the haystack.
pub open spec fn spec_match_at(h: Seq<char>, n: Seq<char>, i: int) -> bool {
    0 <= i && i + n.len() <= h.len() && h.subrange(i, i + n.len()) == n
}

/// The needle stands somewhere in the haystack.
pub open spec fn spec_contains(h: Seq<char>, n: Seq<char>) -> bool {
    exists|i: int| spec_match_at(h, n, i)
}

/// An ASCII whitespace character, as the trimming here understands it.
pub open spec fn spec_is_space(c: char) -> bool {
    c == ' ' || c == '\t' || c == '\n' || c == '\r'
}

/// The run without its leading whitespace.
pub open spec fn spec_trim_start(h: Seq<char>) -> Seq<char>
    decreases h.len(),
{
    if h.len() > 0 && spec_is_space(h[0]) {
        spec_trim_start(h.drop_first())
    } else {
        h
    }
}

/// The run without its trailing whitespace.
pub open spec fn spec_trim_end(h: Seq<char>) -> Seq<char>
    decreases h.len(),
{
    if h.len() > 0 && spec_is_space(h.last()) {
        spec_trim_end(h.drop_last())
    } else {
        h
    }
}

/// The run without leading or trailing whitespace.
pub open spec fn spec_trim(h: Seq<char>) -> Seq<char> {
    spec_trim_end(spec_trim_start(h))
}

/// The run with every occurrence of `pat` dropped, scanning left to
/// right.
pub open spec fn spec_remove_all(h: Seq<char>, pat: Seq<char>) -> Seq<char>
    decreases h.len(),
{
    if pat.len() == 0 || h.len() < pat.len() {
        h
    } else if h.subrange(0, pat.len() as int) == pat {
        spec_remove_all(h.skip(pat.len() as int), pat)
    } else {
        seq![h[0]] + spec_remove_all(h.drop_first(), pat)
    }
}

/// Are the two runs the same text?
pub fn str_eq(a: &str, b: &str) -> (r: bool)
    ensures
        r == (a@ == b@),
{
    let an = a.unicode_len();
    let bn = b.unicode_len();
    if an != bn {
        proof {
            assert(a@ != b@);
        }
        return false;
    }
    let mut j: usize = 0;
    while j < an
        invariant
            an == a@.len(),
            an == b@.len(),
            j <= an,
            forall|t: int| 0 <= t < j ==> a@[t] == b@[t],
        decreases an - j,
    {
        if a.get_char(j) != b.get_char(j) {
            return false;
        }
        j += 1;
    }
    proof {
        assert(a@ =~= b@);
    }
    true
}

/// Does the needle stand at position `i`?
pub fn match_at(h: &str, n: &str, i: usize) -> (r: bool)
    requires
        i + n@.len() <= h@.len(),
    ensures
        r == spec_match_at(h@, n@, i as int),
{
    let hn = h.unicode_len();
    let nn = n.unicode_len();
    let mut j: usize = 0;
    while j < nn
        invariant
            hn == h@.len(),
            nn == n@.len(),
            i + nn <= h@.len(),
            j <= nn,
            forall|t: int| 0 <= t < j ==> h@[i + t] == n@[t],
        decreases nn - j,
    {
        if h.get_char(i + j) != n.get_char(j) {
            proof {
                assert(h@.subrange(i as int, i + nn)[j as int] != n@[j as int]);
            }
            return false;
        }
        j += 1;
    }
    proof {
        assert(h@.subrange(i as int, i + nn) =~= n@);
    }
    true
}

/// Does the needle stand anywhere in the haystack?
pub fn contains_sub(h: &str, n: &str) -> (r: bool)
    ensures
        r == spec_contains(h@, n@),
{
    let hn = h.unicode_len();
    let nn = n.unicode_len();
    if nn > hn {
        proof {
            assert forall|i: int| !spec_match_at(h@, n@, i) by {}
        }
        return false;
    }
    if nn == 0 {
        proof {
            assert(h@.subrange(0, 0) =~= n@);
            assert(spec_match_at(h@, n@, 0));
        }
        return true;
    }
    let mut i: usize = 0;
    while i <= hn - nn
        invariant
            hn == h@.len(),
            nn == n@.len(),
            1 <= nn <= hn,
            i <= hn - nn + 1,
            forall|t: int| 0 <= t < i ==> !spec_match_at(h@, n@, t),
        decreases hn - nn + 1 - i,
    {
        if match_at(h, n, i) {
            return true;
        }
        i += 1;
    }
    proof {
        assert forall|t: int| !spec_match_at(h@, n@, t) by {
            if 0 <= t && t + nn <= hn {
                assert(!spec_match_at(h@, n@, t));
            }
        }
    }
    false
}

/// Where the trimmed text stands: `h[r.0 .. r.1]` is `spec_trim(h)`.
pub fn trim_bounds(h: &str) -> (r: (usize, usize))
    ensures
        r.0 <= r.1 <= h@.len(),
        h@.subrange(r.0 as int, r.1 as int) == spec_trim(h@),
{
    let hn = h.unicode_len();
    let mut a: usize = 0;
    while a < hn && is_space_char(h.get_char(a))
        invariant
            hn == h@.len(),
            a <= hn,
            forall|t: int| 0 <= t < a ==> spec_is_space(h@[t]),
        decreases hn - a,
    {
        a += 1;
    }
    let mut b: usize = hn;
    while b > a && is_space_char(h.get_char(b - 1))
        invariant
            hn == h@.len(),
            a <= b <= hn,
            forall|t: int| 0 <= t < a ==> spec_is_space(h@[t]),
            forall|t: int| b <= t < hn ==> spec_is_space(h@[t]),
        decreases b,
    {
        b -= 1;
    }
    proof {
        lemma_trim_start_chars(h@, a as int);
        let g = h@.subrange(a as int, hn as int);
        lemma_trim_end_chars(g, b - a);
        assert(g.subrange(0, b - a) =~= h@.subrange(a as int, b as int));
        if a < hn && !spec_is_space(h@[a as int]) {
            assert(g[0] == h@[a as int]);
        }
    }
    (a, b)
}

fn is_space_char(c: char) -> (r: bool)
    ensures
        r == spec_is_space(c),
{
    c == ' ' || c == '\t' || c == '\n' || c == '\r'
}

/// Dropping `a` leading whitespace characters does not change the
/// start-trimmed text; and a run that starts with none is done.
proof fn lemma_trim_start_chars(h: Seq<char>, a: int)
    requires
        0 <= a <= h.len(),
        forall|t: int| 0 <= t < a ==> spec_is_space(h[t]),
        a < h.len() ==> !spec_is_space(h[a]),
    ensures
        spec_trim_start(h) == h.subrange(a, h.len() as int),
    decreases a,
{
    if a == 0 {
        if h.len() > 0 && spec_is_space(h[0]) {
            assert(false);
        }
        assert(h.subrange(0, h.len() as int) =~= h);
    } else {
        assert(spec_is_space(h[0]));
        let d = h.drop_first();
        assert forall|t: int| 0 <= t < a - 1 implies spec_is_space(d[t]) by {
            assert(d[t] == h[t + 1]);
        }
        lemma_trim_start_chars(d, a - 1);
        assert(d.subrange(a - 1, d.len() as int) =~= h.subrange(a, h.len() as int));
    }
}

/// Dropping trailing whitespace likewise.
proof fn lemma_trim_end_chars(h: Seq<char>, b: int)
    requires
        0 <= b <= h.len(),
        forall|t: int| b <= t < h.len() ==> spec_is_space(h[t]),
        b > 0 ==> !spec_is_space(h[b - 1]),
    ensures
        spec_trim_end(h) == h.subrange(0, b),
    decreases h.len() - b,
{
    if b == h.len() {
        if h.len() > 0 && spec_is_space(h.last()) {
            assert(false);
        }
        assert(h.subrange(0, b) =~= h);
    } else {
        assert(spec_is_space(h.last()));
        let d = h.drop_last();
        lemma_trim_end_chars(d, b);
        assert(d.subrange(0, b) =~= h.subrange(0, b));
    }
}

/// The text with a prefix dropped, when it starts with it; unchanged
/// otherwise.
pub fn strip_prefix_str(h: &str, p: &str) -> (r: String)
    ensures
        spec_match_at(h@, p@, 0) ==> r@ == h@.skip(p@.len() as int),
        !spec_match_at(h@, p@, 0) ==> r@ == h@,
{
    let hn = h.unicode_len();
    let pn = p.unicode_len();
    if pn <= hn && match_at(h, p, 0) {
        let rest = h.substring_char(pn, hn);
        proof {
            assert(h@.subrange(pn as int, hn as int) =~= h@.skip(pn as int));
        }
        String::from_str(rest)
    } else {
        String::from_str(h)
    }
}

/// The text with a suffix dropped, when it ends with it; unchanged
/// otherwise.
pub fn strip_suffix_str(h: &str, p: &str) -> (r: String)
    ensures
        h@.len() >= p@.len() && spec_match_at(h@, p@, h@.len() - p@.len()) ==> r@ == h@.take(
            h@.len() - p@.len(),
        ),
        !(h@.len() >= p@.len() && spec_match_at(h@, p@, h@.len() - p@.len())) ==> r@ == h@,
{
    let hn = h.unicode_len();
    let pn = p.unicode_len();
    if pn <= hn && match_at(h, p, hn - pn) {
        let rest = h.substring_char(0, hn - pn);
        proof {
            assert(h@.subrange(0, hn - pn) =~= h@.take(hn as int - pn as int));
        }
        String::from_str(rest)
    } else {
        String::from_str(h)
    }
}

/// The text with every occurrence of `pat` dropped.
pub fn remove_occurrences(h: &str, pat: &str) -> (r: String)
    ensures
        r@ == spec_remove_all(h@, pat@),
    decreases h@.len(),
{
    let hn = h.unicode_len();
    let pn = pat.unicode_len();
    if pn == 0 || hn < pn {
        return String::from_str(h);
    }
    if match_at(h, pat, 0) {
        let rest = h.substring_char(pn, hn);
        proof {
            assert(h@.subrange(pn as int, hn as int) =~= h@.skip(pn as int));
        }
        remove_occurrences(rest, pat)
    } else {
        let head = h.substring_char(0, 1);
        let rest = h.substring_char(1, hn);
        proof {
            assert(h@.subrange(1, hn as int) =~= h@.drop_first());
        }
        let mut out = String::from_str(head);
        let tail = remove_occurrences(rest, pat);
        out.append(tail.as_str());
        proof {
            assert(out@ =~= seq![h@[0]] + spec_remove_all(h@.drop_first(), pat@));
        }
        out
    }
}

/// The index of the first comma, or the length when there is none.
pub open spec fn spec_first_comma_char(h: Seq<char>) -> int
    decreases h.len(),
{
    if h.len() == 0 {
        0
    } else if h[0] == ',' {
        0
    } else {
        1 + spec_first_comma_char(h.drop_first())
    }
}

/// What the first-comma index satisfies.
pub proof fn lemma_first_comma_char(h: Seq<char>)
    ensures
        0 <= spec_first_comma_char(h) <= h.len(),
        spec_first_comma_char(h) < h.len() ==> h[spec_first_comma_char(h)] == ',',
        forall|j: int| 0 <= j < spec_first_comma_char(h) ==> h[j] != ',',
    decreases h.len(),
{
    if h.len() > 0 && h[0] != ',' {
        lemma_first_comma_char(h.drop_first());
        assert forall|j: int| 0 <= j < spec_first_comma_char(h) implies h[j] != ',' by {
            if j > 0 {
                assert(h.drop_first()[j - 1] != ',');
            }
        }
    }
}

} // verus!
