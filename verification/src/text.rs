//! Character-level text utilities shared by the registry, the shell
//! integration and the release checker.
//!
//! All specifications work on `Seq<char>`, the view of `str` and `String`.
use vstd::prelude::*;
use crate::order::views;

verus! {

// ---------------------------------------------------------------------------
// Conversions between strings and character vectors
// ---------------------------------------------------------------------------

/// The characters of `s`, in order.
pub fn chars_of(s: &str) -> (v: Vec<char>)
    ensures
        v@ == s@,
{
    let mut v: Vec<char> = Vec::new();
    for c in it: s.chars()
        invariant
            v@ == it.seq().take(it.index() as int),
            it.seq() == s@,
    {
        v.push(c);
    }
    v
}

/// Builds a `String` from a sequence of characters (`FromIterator<&char>` of
/// std's `String`, which appends the characters in order).
#[verifier::external_body]
pub fn string_of(chars: &[char]) -> (s: String)
    ensures
        s@ == chars@,
{
    chars.iter().collect()
}

/// A copy of `s`.
pub fn copy_string(s: &str) -> (r: String)
    ensures
        r@ == s@,
{
    s.to_owned()
}

/// `a` followed by `b`.
pub fn concat2(a: &str, b: &str) -> (r: String)
    ensures
        r@ == a@ + b@,
{
    let mut v = chars_of(a);
    let w = chars_of(b);
    let mut i: usize = 0;
    while i < w.len()
        invariant
            0 <= i <= w.len(),
            w@ == b@,
            v@ == a@ + b@.take(i as int),
        decreases w.len() - i,
    {
        v.push(w[i]);
        i = i + 1;
        assert(v@ == a@ + b@.take(i as int));
    }
    assert(b@.take(b@.len() as int) == b@);
    string_of(v.as_slice())
}

// ---------------------------------------------------------------------------
// Whitespace and trimming
// ---------------------------------------------------------------------------

/// The Unicode `White_Space` property, which `char::is_whitespace` and the
/// trimming methods of `str` use.
pub open spec fn is_ws(c: char) -> bool {
    let u = c as u32;
    (0x9 <= u && u <= 0xd) || u == 0x20 || u == 0x85 || u == 0xa0 || u == 0x1680 || (0x2000 <= u
        && u <= 0x200a) || u == 0x2028 || u == 0x2029 || u == 0x202f || u == 0x205f || u == 0x3000
}

pub fn is_whitespace(c: char) -> (b: bool)
    ensures
        b == is_ws(c),
{
    let u = c as u32;
    (0x9 <= u && u <= 0xd) || u == 0x20 || u == 0x85 || u == 0xa0 || u == 0x1680 || (0x2000 <= u
        && u <= 0x200a) || u == 0x2028 || u == 0x2029 || u == 0x202f || u == 0x205f || u == 0x3000
}

/// `str::trim_start`.
pub open spec fn trim_start(s: Seq<char>) -> Seq<char>
    decreases s.len(),
{
    if s.len() > 0 && is_ws(s[0]) {
        trim_start(s.drop_first())
    } else {
        s
    }
}

/// `str::trim_end`.
pub open spec fn trim_end(s: Seq<char>) -> Seq<char>
    decreases s.len(),
{
    if s.len() > 0 && is_ws(s.last()) {
        trim_end(s.drop_last())
    } else {
        s
    }
}

/// `str::trim`.
pub open spec fn trim(s: Seq<char>) -> Seq<char> {
    trim_end(trim_start(s))
}

/// Index of the first character of `s` that is not whitespace (or `s.len()`).
pub fn trim_start_index(s: &[char]) -> (i: usize)
    ensures
        i <= s@.len(),
        s@.subrange(i as int, s@.len() as int) == trim_start(s@),
{
    let mut i: usize = 0;
    assert(s@.subrange(0, s@.len() as int) == s@);
    while i < s.len() && is_whitespace(s[i])
        invariant
            0 <= i <= s@.len(),
            trim_start(s@) == trim_start(s@.subrange(i as int, s@.len() as int)),
        decreases s.len() - i,
    {
        assert(s@.subrange(i as int, s@.len() as int).drop_first() == s@.subrange(
            i + 1,
            s@.len() as int,
        ));
        i = i + 1;
    }
    proof {
        assert(s@.subrange(0, s@.len() as int) == s@);
    }
    i
}

/// Index just past the last character of `s[..end]` that is not whitespace.
pub fn trim_end_index(s: &[char], start: usize, end: usize) -> (j: usize)
    requires
        start <= end <= s@.len(),
    ensures
        start <= j <= end,
        s@.subrange(start as int, j as int) == trim_end(s@.subrange(start as int, end as int)),
{
    let mut j: usize = end;
    while j > start && is_whitespace(s[j - 1])
        invariant
            start <= j <= end,
            end <= s@.len(),
            trim_end(s@.subrange(start as int, end as int)) == trim_end(
                s@.subrange(start as int, j as int),
            ),
        decreases j,
    {
        assert(s@.subrange(start as int, j as int).drop_last() == s@.subrange(
            start as int,
            j - 1,
        ));
        j = j - 1;
    }
    j
}

/// The bounds of `trim(s[start..end])` inside `s`.
pub fn trim_bounds(s: &[char], start: usize, end: usize) -> (r: (usize, usize))
    requires
        start <= end <= s@.len(),
    ensures
        start <= r.0 <= r.1 <= end,
        s@.subrange(r.0 as int, r.1 as int) == trim(s@.subrange(start as int, end as int)),
{
    let mut i: usize = start;
    while i < end && is_whitespace(s[i])
        invariant
            start <= i <= end,
            end <= s@.len(),
            trim_start(s@.subrange(start as int, end as int)) == trim_start(
                s@.subrange(i as int, end as int),
            ),
        decreases end - i,
    {
        assert(s@.subrange(i as int, end as int).drop_first() == s@.subrange(i + 1, end as int));
        i = i + 1;
    }
    let j = trim_end_index(s, i, end);
    (i, j)
}

/// `trim(s)` as a new vector.
pub fn trimmed(s: &[char]) -> (r: Vec<char>)
    ensures
        r@ == trim(s@),
{
    let (a, b) = trim_bounds(s, 0, s.len());
    assert(s@.subrange(0, s@.len() as int) == s@);
    let mut r: Vec<char> = Vec::new();
    let mut k = a;
    while k < b
        invariant
            a <= k <= b,
            b <= s@.len(),
            r@ == s@.subrange(a as int, k as int),
        decreases b - k,
    {
        r.push(s[k]);
        k = k + 1;
        assert(r@ == s@.subrange(a as int, k as int));
    }
    r
}

// ---------------------------------------------------------------------------
// Prefixes, suffixes and searching
// ---------------------------------------------------------------------------

pub open spec fn starts_with(s: Seq<char>, p: Seq<char>) -> bool {
    p.len() <= s.len() && s.subrange(0, p.len() as int) == p
}

pub open spec fn ends_with(s: Seq<char>, p: Seq<char>) -> bool {
    p.len() <= s.len() && s.subrange(s.len() - p.len(), s.len() as int) == p
}

/// `p` occurs in `s` at position `i`.
pub open spec fn matches_at(s: Seq<char>, p: Seq<char>, i: int) -> bool {
    0 <= i && i + p.len() <= s.len() && s.subrange(i, i + p.len()) == p
}

/// The first position at or after `i` where `p` occurs in `s` (`str::find`
/// for `i == 0`).
pub open spec fn find_from(s: Seq<char>, p: Seq<char>, i: int) -> Option<int>
    decreases s.len() + 1 - i,
{
    if i < 0 || i + p.len() > s.len() {
        None
    } else if matches_at(s, p, i) {
        Some(i)
    } else {
        find_from(s, p, i + 1)
    }
}

pub open spec fn find(s: Seq<char>, p: Seq<char>) -> Option<int> {
    find_from(s, p, 0)
}

/// `str::contains` with a string pattern.
pub open spec fn contains(s: Seq<char>, p: Seq<char>) -> bool {
    find(s, p) is Some
}

/// Facts about `find_from`: it is the least matching position at or after `i`.
pub proof fn lemma_find_from(s: Seq<char>, p: Seq<char>, i: int)
    requires
        0 <= i,
    ensures
        find_from(s, p, i) matches Some(k) ==> i <= k && matches_at(s, p, k) && forall|j: int|
            i <= j < k ==> !matches_at(s, p, j),
        find_from(s, p, i) is None ==> forall|j: int| i <= j ==> !matches_at(s, p, j),
    decreases s.len() + 1 - i,
{
    if i + p.len() > s.len() {
    } else if matches_at(s, p, i) {
    } else {
        lemma_find_from(s, p, i + 1);
    }
}

/// `find` finds a match exactly when one exists.
pub proof fn lemma_contains(s: Seq<char>, p: Seq<char>)
    ensures
        contains(s, p) <==> exists|j: int| matches_at(s, p, j),
        find(s, p) matches Some(k) ==> matches_at(s, p, k) && forall|j: int|
            0 <= j < k ==> !matches_at(s, p, j),
{
    lemma_find_from(s, p, 0);
    if contains(s, p) {
        let k = find(s, p)->0;
        assert(matches_at(s, p, k));
    }
}

/// Whether `p` occurs in `s` at position `i`.
pub fn matches_at_exec(s: &[char], p: &[char], i: usize) -> (b: bool)
    ensures
        b == matches_at(s@, p@, i as int),
{
    if i > s.len() || p.len() > s.len() - i {
        return false;
    }
    let mut k: usize = 0;
    assert(i + p.len() <= s.len());
    while k < p.len()
        invariant
            0 <= k <= p@.len(),
            i + p@.len() <= s@.len(),
            s@.len() == s.len(),
            p@.len() == p.len(),
            forall|m: int| 0 <= m < k ==> s@[i + m] == p@[m],
        decreases p.len() - k,
    {
        if s[i + k] != p[k] {
            assert(s@.subrange(i as int, i + p@.len())[k as int] != p@[k as int]);
            return false;
        }
        k = k + 1;
    }
    assert(s@.subrange(i as int, i + p@.len()) == p@);
    true
}

/// `str::find`, starting the search at `from`.
pub fn find_from_exec(s: &[char], p: &[char], from: usize) -> (r: Option<usize>)
    ensures
        match r {
            Some(k) => find_from(s@, p@, from as int) == Some(k as int),
            None => find_from(s@, p@, from as int) is None,
        },
{
    let mut i = from;
    while i <= s.len() && p.len() <= s.len() - i
        invariant
            from <= i,
            find_from(s@, p@, from as int) == find_from(s@, p@, i as int),
        decreases s.len() + 1 - i,
    {
        if matches_at_exec(s, p, i) {
            return Some(i);
        }
        if i == s.len() {
            assert(find_from(s@, p@, i + 1) is None);
            return None;
        }
        i = i + 1;
    }
    None
}

pub fn starts_with_exec(s: &[char], p: &[char]) -> (b: bool)
    ensures
        b == starts_with(s@, p@),
{
    let b = matches_at_exec(s, p, 0);
    b
}

pub fn ends_with_exec(s: &[char], p: &[char]) -> (b: bool)
    ensures
        b == ends_with(s@, p@),
{
    if p.len() > s.len() {
        return false;
    }
    let b = matches_at_exec(s, p, s.len() - p.len());
    b
}

/// `str::contains` on character slices.
pub fn contains_exec(s: &[char], p: &[char]) -> (b: bool)
    ensures
        b == contains(s@, p@),
{
    let r = find_from_exec(s, p, 0);
    r.is_some()
}

/// `str::contains` on string slices.
pub fn str_contains(s: &str, p: &str) -> (b: bool)
    ensures
        b == contains(s@, p@),
{
    let sv = chars_of(s);
    let pv = chars_of(p);
    contains_exec(sv.as_slice(), pv.as_slice())
}

/// The first index of `c` in `s`.
pub open spec fn find_char(s: Seq<char>, c: char) -> Option<int> {
    find(s, seq![c])
}

pub fn find_char_exec(s: &[char], c: char, from: usize) -> (r: Option<usize>)
    ensures
        match r {
            Some(k) => find_from(s@, seq![c], from as int) == Some(k as int),
            None => find_from(s@, seq![c], from as int) is None,
        },
{
    let pat: Vec<char> = vec![c];
    assert(pat@ == seq![c]);
    find_from_exec(s, pat.as_slice(), from)
}

// ---------------------------------------------------------------------------
// Splitting
// ---------------------------------------------------------------------------

/// `str::split` with a single-character separator: the pieces between
/// separators, always at least one.
pub open spec fn split(s: Seq<char>, c: char) -> Seq<Seq<char>>
    decreases s.len(),
{
    match find_char(s, c) {
        None => seq![s],
        Some(i) => if 0 <= i < s.len() {
            seq![s.take(i)] + split(s.skip(i + 1), c)
        } else {
            seq![s]
        },
    }
}

/// A trailing carriage return removed, if there is one.
pub open spec fn strip_cr(s: Seq<char>) -> Seq<char> {
    if s.len() > 0 && s.last() == '\r' {
        s.drop_last()
    } else {
        s
    }
}

/// `str::lines`: pieces ended by `\n` (with a `\r` before it dropped), the
/// final line ending being optional.
pub open spec fn lines(s: Seq<char>) -> Seq<Seq<char>>
    decreases s.len(),
{
    if s.len() == 0 {
        Seq::empty()
    } else {
        match find_char(s, '\n') {
            None => seq![s],
            Some(i) => if 0 <= i < s.len() {
                seq![strip_cr(s.take(i))] + lines(s.skip(i + 1))
            } else {
                seq![s]
            },
        }
    }
}

/// Relates a search from `from` to a search in the suffix starting there.
pub proof fn lemma_find_from_shift(s: Seq<char>, p: Seq<char>, from: int, i: int)
    requires
        0 <= from <= i <= s.len(),
    ensures
        find_from(s, p, i) == match find_from(s.skip(from), p, i - from) {
            Some(k) => Some(k + from),
            None => None::<int>,
        },
    decreases s.len() + 1 - i,
{
    let t = s.skip(from);
    if i + p.len() > s.len() {
    } else {
        if p.len() == 0 {
            assert(s.subrange(i, i) =~= p);
            assert(t.subrange(i - from, i - from) =~= p);
        }
        assert(matches_at(s, p, i) == matches_at(t, p, i - from)) by {
            if i + p.len() <= s.len() {
                assert(s.subrange(i, i + p.len()) == t.subrange(i - from, i - from + p.len()));
            }
        }
        if !matches_at(s, p, i) {
            lemma_find_from_shift(s, p, from, i + 1);
        }
    }
}

/// The sub-slice `s[a..b]` as a vector.
pub fn slice_to_vec(s: &[char], a: usize, b: usize) -> (r: Vec<char>)
    requires
        a <= b <= s@.len(),
    ensures
        r@ == s@.subrange(a as int, b as int),
{
    let mut r: Vec<char> = Vec::new();
    let mut k = a;
    while k < b
        invariant
            a <= k <= b,
            b <= s@.len(),
            r@ == s@.subrange(a as int, k as int),
        decreases b - k,
    {
        r.push(s[k]);
        k = k + 1;
        assert(r@ == s@.subrange(a as int, k as int));
    }
    r
}

/// `str::split` with a single-character separator.
pub fn split_exec(s: &[char], c: char) -> (r: Vec<Vec<char>>)
    ensures
        views(r@) == split(s@, c),
{
    let mut r: Vec<Vec<char>> = Vec::new();
    let mut start: usize = 0;
    assert(s@.skip(0) == s@);
    assert(views(r@) + split(s@, c) == split(s@, c));
    loop
        invariant
            0 <= start <= s@.len(),
            views(r@) + split(s@.skip(start as int), c) == split(s@, c),
        decreases s@.len() - start,
    {
        let ghost rest = s@.skip(start as int);
        proof {
            lemma_find_from_shift(s@, seq![c], start as int, start as int);
        }
        match find_char_exec(s, c, start) {
            None => {
                let piece = slice_to_vec(s, start, s.len());
                assert(piece@ == rest);
                let ghost old_r = views(r@);
                let ghost old_rr = r@;
                r.push(piece);
                proof { crate::order::lemma_views_push(old_rr, piece); }
                assert(views(r@) == old_r.push(piece@));
                assert(split(rest, c) == seq![rest]);
                assert(old_r + seq![rest] == old_r.push(rest));
                return r;
            },
            Some(k) => {
                proof {
                    lemma_find_from(s@, seq![c], start as int);
                }
                assert(matches_at(s@, seq![c], k as int));
                assert(k < s@.len());
                assert(k < s.len());
                let piece = slice_to_vec(s, start, k);
                assert(piece@ == rest.take(k - start));
                assert(rest.skip(k - start + 1) == s@.skip(k + 1));
                let ghost old_r = views(r@);
                let ghost old_rr = r@;
                r.push(piece);
                proof { crate::order::lemma_views_push(old_rr, piece); }
                assert(views(r@) == old_r.push(piece@));
                assert(split(rest, c) == seq![rest.take(k - start)] + split(rest.skip(k - start + 1), c));
                assert(old_r.push(piece@) + split(s@.skip(k + 1), c) == old_r + split(rest, c));
                start = k + 1;
            },
        }
    }
}

/// `str::lines` on a character slice.
pub fn lines_exec(s: &[char]) -> (r: Vec<Vec<char>>)
    ensures
        views(r@) == lines(s@),
{
    let mut r: Vec<Vec<char>> = Vec::new();
    let mut start: usize = 0;
    assert(s@.skip(0) == s@);
    assert(views(r@) + lines(s@) == lines(s@));
    loop
        invariant
            0 <= start <= s@.len(),
            views(r@) + lines(s@.skip(start as int)) == lines(s@),
        decreases s@.len() - start,
    {
        let ghost rest = s@.skip(start as int);
        if start == s.len() {
            assert(rest.len() == 0);
            assert(views(r@) + lines(rest) == views(r@));
            return r;
        }
        proof {
            lemma_find_from_shift(s@, seq!['\n'], start as int, start as int);
        }
        match find_char_exec(s, '\n', start) {
            None => {
                let piece = slice_to_vec(s, start, s.len());
                assert(piece@ == rest);
                let ghost old_r = views(r@);
                let ghost old_rr = r@;
                r.push(piece);
                proof { crate::order::lemma_views_push(old_rr, piece); }
                assert(lines(rest) == seq![rest]);
                assert(old_r + seq![rest] == old_r.push(rest));
                return r;
            },
            Some(k) => {
                proof {
                    lemma_find_from(s@, seq!['\n'], start as int);
                }
                assert(matches_at(s@, seq!['\n'], k as int));
                assert(k < s.len());
                let end: usize = if k > start && s[k - 1] == '\r' {
                    k - 1
                } else {
                    k
                };
                let piece = slice_to_vec(s, start, end);
                assert(rest.take(k - start) == s@.subrange(start as int, k as int));
                proof {
                    if k > start && s@[k - 1] == '\r' {
                        assert(rest.take(k - start).drop_last() == s@.subrange(start as int, end as int));
                    }
                }
                assert(piece@ == strip_cr(rest.take(k - start)));
                assert(rest.skip(k - start + 1) == s@.skip(k + 1));
                let ghost old_r = views(r@);
                let ghost old_rr = r@;
                r.push(piece);
                proof { crate::order::lemma_views_push(old_rr, piece); }
                assert(lines(rest) == seq![strip_cr(rest.take(k - start))] + lines(rest.skip(k - start + 1)));
                assert(old_r.push(piece@) + lines(s@.skip(k + 1)) == old_r + lines(rest));
                start = k + 1;
            },
        }
    }
}

// ---------------------------------------------------------------------------
// Lexicographic order (the order of `str`'s `Ord`, and of SQLite's BINARY
// collation on UTF-8 text: both compare by code point)
// ---------------------------------------------------------------------------

pub open spec fn lex_lt(a: Seq<char>, b: Seq<char>) -> bool
    decreases a.len(),
{
    if a.len() == 0 {
        b.len() > 0
    } else if b.len() == 0 {
        false
    } else if a[0] != b[0] {
        a[0] < b[0]
    } else {
        lex_lt(a.drop_first(), b.drop_first())
    }
}

pub proof fn lemma_lex_irreflexive(a: Seq<char>)
    ensures
        !lex_lt(a, a),
    decreases a.len(),
{
    if a.len() > 0 {
        lemma_lex_irreflexive(a.drop_first());
    }
}

pub proof fn lemma_lex_asymmetric(a: Seq<char>, b: Seq<char>)
    ensures
        !(lex_lt(a, b) && lex_lt(b, a)),
    decreases a.len(),
{
    if a.len() > 0 && b.len() > 0 && a[0] == b[0] {
        lemma_lex_asymmetric(a.drop_first(), b.drop_first());
    }
}

pub proof fn lemma_lex_transitive(a: Seq<char>, b: Seq<char>, c: Seq<char>)
    requires
        lex_lt(a, b),
        lex_lt(b, c),
    ensures
        lex_lt(a, c),
    decreases a.len(),
{
    if a.len() > 0 && b.len() > 0 && c.len() > 0 && a[0] == b[0] && b[0] == c[0] {
        lemma_lex_transitive(a.drop_first(), b.drop_first(), c.drop_first());
    }
}

pub proof fn lemma_lex_total(a: Seq<char>, b: Seq<char>)
    ensures
        a == b || lex_lt(a, b) || lex_lt(b, a),
    decreases a.len(),
{
    if a.len() > 0 && b.len() > 0 && a[0] == b[0] {
        lemma_lex_total(a.drop_first(), b.drop_first());
        if a.drop_first() == b.drop_first() {
            assert forall|i: int| 0 <= i < a.len() implies a[i] == b[i] by {
                if i > 0 {
                    assert(a[i] == a.drop_first()[i - 1]);
                    assert(b[i] == b.drop_first()[i - 1]);
                }
            }
            assert(a =~= b);
        }
    } else if a.len() == 0 && b.len() == 0 {
        assert(a =~= b);
    }
}

/// Three-way comparison outcome.
#[derive(PartialEq, Eq, Structural, Clone, Copy, Debug)]
pub enum Order {
    Less,
    Equal,
    Greater,
}

/// Compares two character sequences by code point.
pub fn compare_chars(a: &[char], b: &[char]) -> (o: Order)
    ensures
        o == Order::Less <==> lex_lt(a@, b@),
        o == Order::Equal <==> a@ == b@,
        o == Order::Greater <==> lex_lt(b@, a@),
{
    proof {
        lemma_lex_asymmetric(a@, b@);
        lemma_lex_irreflexive(a@);
        lemma_lex_total(a@, b@);
    }
    let mut i: usize = 0;
    assert(a@.skip(0) == a@ && b@.skip(0) == b@);
    assert(a@.take(0) =~= b@.take(0));
    while i < a.len() && i < b.len()
        invariant
            0 <= i <= a@.len(),
            i <= b@.len(),
            a@.take(i as int) == b@.take(i as int),
            lex_lt(a@, b@) == lex_lt(a@.skip(i as int), b@.skip(i as int)),
            lex_lt(b@, a@) == lex_lt(b@.skip(i as int), a@.skip(i as int)),
        decreases a.len() - i,
    {
        let x = a[i];
        let y = b[i];
        assert(a@.skip(i as int)[0] == x && b@.skip(i as int)[0] == y);
        if x != y {
            if x < y {
                return Order::Less;
            } else {
                return Order::Greater;
            }
        }
        assert(a@.skip(i as int).drop_first() == a@.skip(i + 1));
        assert(b@.skip(i as int).drop_first() == b@.skip(i + 1));
        assert(a@.take(i + 1) == a@.take(i as int).push(x));
        assert(b@.take(i + 1) == b@.take(i as int).push(y));
        i = i + 1;
    }
    if i < b.len() {
        Order::Less
    } else if i < a.len() {
        Order::Greater
    } else {
        assert(a@ == a@.take(i as int));
        assert(b@ == b@.take(i as int));
        Order::Equal
    }
}

pub fn compare_strs(a: &str, b: &str) -> (o: Order)
    ensures
        o == Order::Less <==> lex_lt(a@, b@),
        o == Order::Equal <==> a@ == b@,
        o == Order::Greater <==> lex_lt(b@, a@),
{
    let av = chars_of(a);
    let bv = chars_of(b);
    compare_chars(av.as_slice(), bv.as_slice())
}

pub fn str_eq(a: &str, b: &str) -> (r: bool)
    ensures
        r == (a@ == b@),
{
    compare_strs(a, b) == Order::Equal
}

// ---------------------------------------------------------------------------
// Decimal numbers
// ---------------------------------------------------------------------------

pub open spec fn is_digit(c: char) -> bool {
    '0' <= c && c <= '9'
}

pub open spec fn all_digits(s: Seq<char>) -> bool {
    forall|i: int| 0 <= i < s.len() ==> is_digit(#[trigger] s[i])
}

pub open spec fn digit_value(c: char) -> int {
    (c as u32) - ('0' as u32)
}

/// The value of a string of decimal digits.
pub open spec fn dec_value(s: Seq<char>) -> int
    decreases s.len(),
{
    if s.len() == 0 {
        0
    } else {
        dec_value(s.drop_last()) * 10 + digit_value(s.last())
    }
}

/// The magnitude part of an integer literal as `FromStr` of Rust's integers
/// reads it: an optional sign (`+`, or `-` when `signed`) followed by at
/// least one digit.
pub open spec fn unsigned_digits(s: Seq<char>) -> Seq<char> {
    if s.len() > 0 && s[0] == '+' {
        s.drop_first()
    } else {
        s
    }
}

/// `u32::from_str`.
pub open spec fn parse_u32(s: Seq<char>) -> Option<u32> {
    let d = unsigned_digits(s);
    if d.len() > 0 && all_digits(d) && dec_value(d) <= u32::MAX {
        Some(dec_value(d) as u32)
    } else {
        None
    }
}

/// `i64::from_str`.
pub open spec fn parse_i64(s: Seq<char>) -> Option<i64> {
    if s.len() > 0 && s[0] == '-' {
        let d = s.drop_first();
        if d.len() > 0 && all_digits(d) && dec_value(d) <= 0x8000_0000_0000_0000 {
            Some((-dec_value(d)) as i64)
        } else {
            None
        }
    } else {
        let d = unsigned_digits(s);
        if d.len() > 0 && all_digits(d) && dec_value(d) <= i64::MAX {
            Some(dec_value(d) as i64)
        } else {
            None
        }
    }
}

pub proof fn lemma_dec_value_nonneg(s: Seq<char>)
    requires
        all_digits(s),
    ensures
        dec_value(s) >= 0,
    decreases s.len(),
{
    if s.len() > 0 {
        lemma_dec_value_nonneg(s.drop_last());
        assert(is_digit(s[s.len() - 1]));
    }
}

/// The value of `s[a..b]` when it is all digits, or `None` when it is not
/// all digits or its value exceeds `limit`.
pub fn digits_value(s: &[char], a: usize, b: usize, limit: u64) -> (r: Option<u64>)
    requires
        a <= b <= s@.len(),
        limit >= 9,
    ensures
        match r {
            Some(v) => all_digits(s@.subrange(a as int, b as int)) && dec_value(
                s@.subrange(a as int, b as int),
            ) == v && v <= limit,
            None => !all_digits(s@.subrange(a as int, b as int)) || dec_value(
                s@.subrange(a as int, b as int),
            ) > limit,
        },
{
    let mut v: u64 = 0;
    let mut k = a;
    while k < b
        invariant
            a <= k <= b,
            b <= s@.len(),
            all_digits(s@.subrange(a as int, k as int)),
            dec_value(s@.subrange(a as int, k as int)) == v,
            v <= limit,
            limit >= 9,
        decreases b - k,
    {
        let c = s[k];
        assert(s@.subrange(a as int, k + 1).drop_last() == s@.subrange(a as int, k as int));
        assert(s@.subrange(a as int, k + 1).last() == c);
        if !('0' <= c && c <= '9') {
            assert(!is_digit(s@.subrange(a as int, b as int)[k - a]));
            return None;
        }
        let d = (c as u32 - '0' as u32) as u64;
        if v > (limit - d) / 10 {
            // the value of the prefix already exceeds the limit, and more
            // digits never decrease it
            proof {
                assert(dec_value(s@.subrange(a as int, k + 1)) > limit) by (nonlinear_arith)
                    requires
                        dec_value(s@.subrange(a as int, k + 1)) == v * 10 + d,
                        v > (limit - d) / 10,
                        d <= 9,
                        d <= limit,
                ;
                lemma_dec_value_grows(s@.subrange(a as int, b as int), (k + 1 - a) as int);
                assert(s@.subrange(a as int, b as int).take(k + 1 - a) == s@.subrange(
                    a as int,
                    k + 1,
                ));
            }
            return None;
        }
        v = v * 10 + d;
        k = k + 1;
        assert forall|i: int| 0 <= i < s@.subrange(a as int, k as int).len() implies is_digit(
            #[trigger] s@.subrange(a as int, k as int)[i],
        ) by {
            if i < k - 1 - a {
                assert(s@.subrange(a as int, k as int)[i] == s@.subrange(a as int, k - 1)[i]);
            }
        }
    }
    Some(v)
}

/// Appending digits never makes a value smaller, unless the remaining
/// characters are not digits.
pub proof fn lemma_dec_value_grows(s: Seq<char>, n: int)
    requires
        0 <= n <= s.len(),
    ensures
        all_digits(s) ==> dec_value(s) >= dec_value(s.take(n)),
    decreases s.len() - n,
{
    if n < s.len() && all_digits(s) {
        lemma_dec_value_grows(s, n + 1);
        assert(s.take(n + 1).drop_last() == s.take(n));
        assert(is_digit(s[n]));
        assert(all_digits(s.take(n))) by {
            assert forall|i: int| 0 <= i < s.take(n).len() implies is_digit(#[trigger] s.take(n)[i]) by {
                assert(s.take(n)[i] == s[i]);
            }
        }
        lemma_dec_value_nonneg(s.take(n));
    } else if n == s.len() {
        assert(s.take(n) == s);
    }
}

/// `u32::from_str`.
pub fn parse_u32_exec(s: &[char]) -> (r: Option<u32>)
    ensures
        r == parse_u32(s@),
{
    let a: usize = if s.len() > 0 && s[0] == '+' {
        1
    } else {
        0
    };
    assert(unsigned_digits(s@) == s@.subrange(a as int, s@.len() as int));
    if a >= s.len() {
        return None;
    }
    match digits_value(s, a, s.len(), 0xffff_ffff) {
        Some(v) => Some(v as u32),
        None => None,
    }
}

/// `i64::from_str`.
pub fn parse_i64_exec(s: &[char]) -> (r: Option<i64>)
    ensures
        r == parse_i64(s@),
{
    if s.len() > 0 && s[0] == '-' {
        assert(s@.drop_first() == s@.subrange(1, s@.len() as int));
        if s.len() < 2 {
            return None;
        }
        match digits_value(s, 1, s.len(), 0x8000_0000_0000_0000) {
            Some(v) => {
                if v == 0x8000_0000_0000_0000 {
                    Some(i64::MIN)
                } else {
                    Some(-(v as i64))
                }
            },
            None => None,
        }
    } else {
        let a: usize = if s.len() > 0 && s[0] == '+' {
            1
        } else {
            0
        };
        assert(unsigned_digits(s@) == s@.subrange(a as int, s@.len() as int));
        if a >= s.len() {
            return None;
        }
        match digits_value(s, a, s.len(), 0x7fff_ffff_ffff_ffff) {
            Some(v) => Some(v as i64),
            None => None,
        }
    }
}


/// The decimal digit character for `d` (`0 <= d < 10`).
pub open spec fn digit_char(d: int) -> char {
    if d == 0 { '0' } else if d == 1 { '1' } else if d == 2 { '2' } else if d == 3 { '3' }
    else if d == 4 { '4' } else if d == 5 { '5' } else if d == 6 { '6' } else if d == 7 { '7' }
    else if d == 8 { '8' } else { '9' }
}

/// The decimal notation of `n`, as `Display` of Rust's integers writes it.
pub open spec fn decimal(n: nat) -> Seq<char>
    decreases n,
{
    if n < 10 {
        seq![digit_char(n as int)]
    } else {
        decimal(n / 10).push(digit_char((n % 10) as int))
    }
}

fn digit_of(d: u128) -> (c: char)
    requires
        d < 10,
    ensures
        c == digit_char(d as int),
{
    if d == 0 { '0' } else if d == 1 { '1' } else if d == 2 { '2' } else if d == 3 { '3' }
    else if d == 4 { '4' } else if d == 5 { '5' } else if d == 6 { '6' } else if d == 7 { '7' }
    else if d == 8 { '8' } else { '9' }
}

fn push_decimal(n: u128, out: &mut Vec<char>)
    ensures
        final(out)@ == old(out)@ + decimal(n as nat),
    decreases n,
{
    if n >= 10 {
        push_decimal(n / 10, out);
    }
    let c = digit_of(n % 10);
    out.push(c);
    proof {
        if n < 10 {
            assert(decimal(n as nat) == seq![c]);
        }
    }
}

/// `n` written in decimal.
pub fn decimal_string(n: u128) -> (s: String)
    ensures
        s@ == decimal(n as nat),
{
    let mut v: Vec<char> = Vec::new();
    push_decimal(n, &mut v);
    assert(v@ == Seq::<char>::empty() + decimal(n as nat));
    string_of(v.as_slice())
}


/// The decimal notation of a signed `n`.
pub open spec fn signed_decimal(n: int) -> Seq<char> {
    if n < 0 {
        seq!['-'] + decimal((-n) as nat)
    } else {
        decimal(n as nat)
    }
}

/// `n` written in decimal, with a `-` when negative.
pub fn signed_decimal_string(n: i64) -> (s: String)
    ensures
        s@ == signed_decimal(n as int),
{
    if n < 0 {
        let m: u128 = if n == i64::MIN {
            0x8000_0000_0000_0000
        } else {
            (-n) as u128
        };
        let d = decimal_string(m);
        let mut v: Vec<char> = Vec::new();
        v.push('-');
        let w = chars_of(d.as_str());
        let mut i: usize = 0;
        while i < w.len()
            invariant
                i <= w@.len(),
                v@ == seq!['-'] + w@.take(i as int),
            decreases w.len() - i,
        {
            v.push(w[i]);
            i = i + 1;
            assert(v@ == seq!['-'] + w@.take(i as int));
        }
        assert(w@.take(w@.len() as int) == w@);
        string_of(v.as_slice())
    } else {
        decimal_string(n as u128)
    }
}

} // verus!
