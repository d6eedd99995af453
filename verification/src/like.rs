use vstd::prelude::*;
use crate::order::chars_of;
use vstd::utf8::{encode_utf8, encode_scalar};

verus! {

/// SQLite folds case for ASCII letters only.
pub open spec fn fold_case(c: char) -> u32 {
    if 'A' <= c && c <= 'Z' {
        (c as u32 + 32) as u32
    } else {
        c as u32
    }
}

/// A pattern character other than a wildcard matches a text character when
/// the two are equal after ASCII case folding.
pub open spec fn chars_match(p: char, t: char) -> bool {
    fold_case(p) == fold_case(t)
}

/// Whether `p[i..]` matches `t[j..]` under SQLite's `LIKE` without `ESCAPE`:
/// `%` matches any run of characters, `_` any single character, and any other
/// character itself, with ASCII letters matched regardless of case.
pub open spec fn like_from(p: Seq<char>, t: Seq<char>, i: int, j: int) -> bool
    decreases p.len() - i, t.len() - j,
{
    if i >= p.len() {
        j >= t.len()
    } else if p[i] == '%' {
        like_from(p, t, i + 1, j) || (j < t.len() && like_from(p, t, i, j + 1))
    } else if j >= t.len() {
        false
    } else if p[i] == '_' {
        like_from(p, t, i + 1, j + 1)
    } else {
        chars_match(p[i], t[j]) && like_from(p, t, i + 1, j + 1)
    }
}

/// The index of the first NUL character of `s` at or after `i`, or the
/// length of `s` when there is none.
pub open spec fn first_nul_from(s: Seq<char>, i: int) -> int
    decreases s.len() - i,
{
    if i >= s.len() {
        s.len() as int
    } else if s[i] == '\0' {
        i
    } else {
        first_nul_from(s, i + 1)
    }
}

/// The text as SQLite's `LIKE` reads it: up to its first NUL character.
pub open spec fn upto_nul(s: Seq<char>) -> Seq<char> {
    s.take(first_nul_from(s, 0))
}

/// `text LIKE pattern` in SQLite. Both sides are read as C strings, so each
/// ends at its first NUL character.
pub open spec fn like(p: Seq<char>, t: Seq<char>) -> bool {
    like_from(upto_nul(p), upto_nul(t), 0, 0)
}

proof fn lemma_first_nul(s: Seq<char>, k: int, i: int)
    requires
        0 <= k <= i <= s.len(),
        forall|j: int| k <= j < i ==> s[j] != '\0',
        i == s.len() || s[i] == '\0',
    ensures
        first_nul_from(s, k) == i,
    decreases i - k,
{
    if k < i {
        lemma_first_nul(s, k + 1, i);
    }
}

/// The characters of a string up to its first NUL character.
pub fn chars_upto_nul(s: &str) -> (v: Vec<char>)
    ensures
        v@ == upto_nul(s@),
{
    let cs = chars_of(s);
    let mut v: Vec<char> = Vec::new();
    let mut i: usize = 0;
    while i < cs.len() && cs[i] != '\0'
        invariant
            cs@ == s@,
            i <= cs@.len(),
            v@ == cs@.take(i as int),
            forall|j: int| 0 <= j < i ==> cs@[j] != '\0',
        decreases cs@.len() - i,
    {
        v.push(cs[i]);
        i = i + 1;
        proof {
            assert(v@ =~= cs@.take(i as int));
        }
    }
    proof {
        lemma_first_nul(s@, 0, i as int);
    }
    v
}

fn fold_case_exec(c: char) -> (r: u32)
    ensures
        r == fold_case(c),
{
    if 'A' <= c && c <= 'Z' {
        c as u32 + 32
    } else {
        c as u32
    }
}

/// Evaluates `text LIKE pattern` as SQLite does (no `ESCAPE` clause).
pub fn like_exec(pattern: &str, text: &str) -> (r: bool)
    ensures
        r == like(pattern@, text@),
{
    let p = chars_upto_nul(pattern);
    let t = chars_upto_nul(text);
    let m = p.len();
    let n = t.len();
    let ghost ps = upto_nul(pattern@);
    let ghost ts = upto_nul(text@);
    // next[j] == like_from(ps, ts, i + 1, j), starting with i + 1 == m.
    let mut next: Vec<bool> = Vec::new();
    let mut j: usize = 0;
    while j < n
        invariant
            n == ts.len(),
            m == ps.len(),
            j <= n,
            next@.len() == j,
            forall|k: int| 0 <= k < j ==> next@[k] == like_from(ps, ts, m as int, k),
        decreases n - j,
    {
        next.push(false);
        j = j + 1;
    }
    next.push(true);
    let mut i: usize = m;
    while i > 0
        invariant
            n == ts.len(),
            m == ps.len(),
            p@ == ps,
            t@ == ts,
            i <= m,
            next@.len() == n + 1,
            forall|k: int| 0 <= k <= n ==> next@[k] == like_from(ps, ts, i as int, k),
        decreases i,
    {
        let row = i - 1;
        let mut cur: Vec<bool> = Vec::new();
        let mut k: usize = 0;
        while k < n
            invariant
                cur@.len() == k,
                k <= n,
            decreases n - k,
        {
            cur.push(false);
            k = k + 1;
        }
        let pc = p[row];
        // With the text used up, only `%` can still match.
        cur.push(pc == '%' && next[n]);
        let mut jj: usize = n;
        while jj > 0
            invariant
                n == ts.len(),
                m == ps.len(),
                p@ == ps,
                t@ == ts,
                row < m,
                pc == ps[row as int],
                jj <= n,
                cur@.len() == n + 1,
                next@.len() == n + 1,
                forall|k: int| 0 <= k <= n ==> next@[k] == like_from(ps, ts, row + 1, k),
                forall|k: int| jj <= k <= n ==> cur@[k] == like_from(ps, ts, row as int, k),
            decreases jj,
        {
            let c = jj - 1;
            let v = if pc == '%' {
                next[c] || cur[c + 1]
            } else if pc == '_' {
                next[c + 1]
            } else {
                fold_case_exec(pc) == fold_case_exec(t[c]) && next[c + 1]
            };
            cur.set(c, v);
            jj = c;
        }
        next = cur;
        i = row;
    }
    next[0]
}


/// The longest `LIKE` pattern, in UTF-8 bytes, that SQLite evaluates
/// (`SQLITE_MAX_LIKE_PATTERN_LENGTH`).
pub const LIKE_PATTERN_LIMIT: usize = 50000;

/// SQLite refuses to evaluate `LIKE` with a longer pattern.
pub open spec fn pattern_too_long(pattern: Seq<char>) -> bool {
    encode_utf8(pattern).len() > LIKE_PATTERN_LIMIT
}

proof fn lemma_encode_suffix(s: Seq<char>, i: int)
    requires
        0 <= i < s.len(),
    ensures
        encode_utf8(s.skip(i)).len() == encode_scalar(s[i] as u32).len() + encode_utf8(
            s.skip(i + 1),
        ).len(),
{
    assert(s.skip(i).drop_first() =~= s.skip(i + 1));
}

proof fn lemma_encode_suffix_shorter(s: Seq<char>, i: int)
    requires
        0 <= i <= s.len(),
    ensures
        encode_utf8(s).len() >= encode_utf8(s.skip(i)).len(),
    decreases i,
{
    if i > 0 {
        lemma_encode_suffix_shorter(s, i - 1);
        lemma_encode_suffix(s, i - 1);
    } else {
        assert(s.skip(0) =~= s);
    }
}

fn utf8_width(c: char) -> (w: usize)
    ensures
        w == encode_scalar(c as u32).len(),
{
    let v = c as u32;
    if v <= 0x7f {
        1
    } else if v <= 0x7ff {
        2
    } else if v <= 0xffff {
        3
    } else {
        4
    }
}

/// Whether the pattern is longer than SQLite evaluates under `LIKE`.
pub fn pattern_too_long_exec(pattern: &str) -> (r: bool)
    ensures
        r == pattern_too_long(pattern@),
{
    let cs = chars_of(pattern);
    let ghost s = pattern@;
    let mut total: usize = 0;
    let mut i: usize = cs.len();
    while i > 0
        invariant
            s == pattern@,
            cs@ == s,
            i <= s.len(),
            total <= LIKE_PATTERN_LIMIT,
            total == encode_utf8(s.skip(i as int)).len(),
        decreases i,
    {
        let w = utf8_width(cs[i - 1]);
        proof {
            lemma_encode_suffix(s, i - 1);
        }
        if total + w > LIKE_PATTERN_LIMIT {
            proof {
                lemma_encode_suffix_shorter(s, i - 1);
            }
            return true;
        }
        total = total + w;
        i = i - 1;
    }
    proof {
        assert(s.skip(0) =~= s);
    }
    false
}

/// The pattern that search uses for a query: the query between two `%`.
pub open spec fn search_pattern(query: Seq<char>) -> Seq<char> {
    seq!['%'] + query + seq!['%']
}

/// Builds `%query%`.
pub fn search_pattern_exec(query: &str) -> (r: String)
    ensures
        r@ == search_pattern(query@),
{
    proof {
        reveal_strlit("%");
    }
    let mut r = String::from_str("%");
    r.append(query);
    r.append("%");
    proof {
        assert(r@ =~= search_pattern(query@));
    }
    r
}

/// The query holds neither `%` nor `_`, so each of its characters stands
/// for itself.
pub open spec fn has_no_wildcards(q: Seq<char>) -> bool {
    forall|d: int| 0 <= d < q.len() ==> #[trigger] q[d] != '%' && q[d] != '_'
}

/// A query whose characters all stand for themselves in the pattern: no
/// wildcard, and no NUL to cut the pattern short.
pub open spec fn is_plain_query(q: Seq<char>) -> bool {
    &&& has_no_wildcards(q)
    &&& forall|d: int| 0 <= d < q.len() ==> #[trigger] q[d] != '\0'
}

/// `q` occurs in `t` at position `k`, ASCII letters compared regardless of case.
pub open spec fn occurs_at(q: Seq<char>, t: Seq<char>, k: int) -> bool {
    &&& 0 <= k
    &&& k + q.len() <= t.len()
    &&& forall|d: int| 0 <= d < q.len() ==> #[trigger] chars_match(q[d], t[k + d])
}

/// `q` occurs somewhere in `t`, ASCII letters compared regardless of case.
pub open spec fn contains_folded(t: Seq<char>, q: Seq<char>) -> bool {
    exists|k: int| #[trigger] occurs_at(q, t, k)
}

proof fn lemma_trailing_percent(p: Seq<char>, t: Seq<char>, j: int)
    requires
        p.len() >= 1,
        p[p.len() - 1] == '%',
        0 <= j <= t.len(),
    ensures
        like_from(p, t, p.len() - 1, j),
    decreases t.len() - j,
{
    if j < t.len() {
        lemma_trailing_percent(p, t, j + 1);
    } else {
        assert(like_from(p, t, p.len() as int, j));
    }
}

proof fn lemma_literal_middle(q: Seq<char>, t: Seq<char>, i: int, j: int)
    requires
        has_no_wildcards(q),
        1 <= i <= q.len() + 1,
        0 <= j <= t.len(),
    ensures
        like_from(search_pattern(q), t, i, j) <==> occurs_at(
            q.subrange(i - 1, q.len() as int),
            t,
            j,
        ),
    decreases q.len() + 1 - i,
{
    let p = search_pattern(q);
    let tail = q.subrange(i - 1, q.len() as int);
    if i == q.len() + 1 {
        lemma_trailing_percent(p, t, j);
        assert(tail.len() == 0);
    } else {
        assert(p[i] == q[i - 1]);
        assert(q[i - 1] != '%' && q[i - 1] != '_');
        let rest = q.subrange(i, q.len() as int);
        if j < t.len() {
            lemma_literal_middle(q, t, i + 1, j + 1);
            if occurs_at(tail, t, j) {
                assert(chars_match(tail[0], t[j + 0]));
                assert forall|d: int| 0 <= d < rest.len() implies #[trigger] chars_match(
                    rest[d],
                    t[j + 1 + d],
                ) by {
                    assert(rest[d] == tail[d + 1]);
                    assert(chars_match(tail[d + 1], t[j + (d + 1)]));
                }
                assert(occurs_at(rest, t, j + 1));
            }
            if chars_match(p[i], t[j]) && occurs_at(rest, t, j + 1) {
                assert forall|d: int| 0 <= d < tail.len() implies #[trigger] chars_match(
                    tail[d],
                    t[j + d],
                ) by {
                    if d > 0 {
                        assert(tail[d] == rest[d - 1]);
                        assert(chars_match(rest[d - 1], t[j + 1 + (d - 1)]));
                    }
                }
            }
        }
    }
}

proof fn lemma_leading_percent(q: Seq<char>, t: Seq<char>, j: int)
    requires
        has_no_wildcards(q),
        0 <= j <= t.len(),
    ensures
        like_from(search_pattern(q), t, 0, j) <==> exists|k: int|
            j <= k && #[trigger] occurs_at(q, t, k),
    decreases t.len() - j,
{
    let p = search_pattern(q);
    lemma_literal_middle(q, t, 1, j);
    assert(q.subrange(0, q.len() as int) =~= q);
    if j < t.len() {
        lemma_leading_percent(q, t, j + 1);
        if exists|k: int| j <= k && #[trigger] occurs_at(q, t, k) {
            let k = choose|k: int| j <= k && #[trigger] occurs_at(q, t, k);
            if k > j {
                assert(j + 1 <= k && occurs_at(q, t, k));
            }
        }
    } else {
        if exists|k: int| j <= k && #[trigger] occurs_at(q, t, k) {
            let k = choose|k: int| j <= k && #[trigger] occurs_at(q, t, k);
            assert(k == j);
        }
    }
}

/// For a plain query, `x LIKE '%query%'` holds exactly when the query
/// occurs in `x` before its first NUL, ASCII letters compared regardless of
/// case.
pub proof fn lemma_search_pattern_is_substring(q: Seq<char>, t: Seq<char>)
    requires
        is_plain_query(q),
    ensures
        like(search_pattern(q), t) <==> contains_folded(upto_nul(t), q),
{
    let p = search_pattern(q);
    assert forall|j: int| 0 <= j < p.len() implies p[j] != '\0' by {
        if 1 <= j < p.len() - 1 {
            assert(p[j] == q[j - 1]);
        }
    }
    lemma_first_nul(p, 0, p.len() as int);
    assert(upto_nul(p) =~= p);
    let tt = upto_nul(t);
    lemma_leading_percent(q, tt, 0);
}


/// Two characters match under `LIKE` exactly when they are equal, or are the
/// same ASCII letter in upper and lower case.
pub proof fn lemma_chars_match_meaning(p: char, t: char)
    ensures
        chars_match(p, t) <==> p == t || ('A' <= p <= 'Z' && t as u32 == p as u32 + 32) || (
        'A' <= t <= 'Z' && p as u32 == t as u32 + 32),
{
}

proof fn lemma_no_nul(s: Seq<char>)
    requires
        forall|d: int| 0 <= d < s.len() ==> #[trigger] s[d] != '\0',
    ensures
        upto_nul(s) == s,
{
    lemma_first_nul(s, 0, s.len() as int);
    assert(s.take(s.len() as int) =~= s);
}

proof fn lemma_literal_whole(p: Seq<char>, t: Seq<char>, i: int)
    requires
        has_no_wildcards(p),
        0 <= i <= p.len(),
        i <= t.len(),
    ensures
        like_from(p, t, i, i) <==> p.len() == t.len() && forall|d: int|
            i <= d < p.len() ==> #[trigger] chars_match(p[d], t[d]),
    decreases p.len() - i,
{
    if i < p.len() {
        assert(p[i] != '%' && p[i] != '_');
        if i < t.len() {
            lemma_literal_whole(p, t, i + 1);
        }
    }
}

/// A pattern without wildcards or NUL matches a NUL-free text exactly when
/// both have the same length and match character by character.
pub proof fn lemma_like_literal(p: Seq<char>, t: Seq<char>)
    requires
        is_plain_query(p),
        forall|d: int| 0 <= d < t.len() ==> #[trigger] t[d] != '\0',
    ensures
        like(p, t) <==> p.len() == t.len() && forall|d: int|
            0 <= d < p.len() ==> #[trigger] chars_match(p[d], t[d]),
{
    lemma_no_nul(p);
    lemma_no_nul(t);
    if p.len() <= t.len() {
        lemma_literal_whole(p, t, 0);
    } else {
        assert(!like_from(p, t, 0, 0)) by {
            lemma_literal_short(p, t, 0);
        }
    }
}

proof fn lemma_literal_short(p: Seq<char>, t: Seq<char>, i: int)
    requires
        has_no_wildcards(p),
        0 <= i <= t.len(),
        t.len() < p.len(),
    ensures
        !like_from(p, t, i, i),
    decreases t.len() - i,
{
    assert(p[i] != '%' && p[i] != '_');
    if i < t.len() {
        lemma_literal_short(p, t, i + 1);
    }
}

/// The pattern `%` matches every text.
pub proof fn lemma_like_percent_matches_all(t: Seq<char>)
    ensures
        like(seq!['%'], t),
{
    let p = seq!['%'];
    lemma_no_nul(p);
    let tt = upto_nul(t);
    lemma_trailing_percent(p, tt, 0);
}

/// The pattern `_` matches exactly the texts of one character (before the
/// first NUL).
pub proof fn lemma_like_underscore_one_char(t: Seq<char>)
    ensures
        like(seq!['_'], t) <==> upto_nul(t).len() == 1,
{
    let p = seq!['_'];
    lemma_no_nul(p);
    let tt = upto_nul(t);
    if tt.len() >= 1 {
        assert(like_from(p, tt, 1, 1) <==> tt.len() <= 1);
    }
}

} // verus!
