//! Character-level text primitives: white space, trimming, splitting at a
//! separator, and the lexicographic order of character sequences.
//!
//! The executable functions that search or cut work on a slice of
//! characters and report positions, so that callers can cut the text without
//! copying it.

use vstd::prelude::*;

verus! {

/// The characters that carry the Unicode `White_Space` property.
pub open spec fn is_space(c: char) -> bool {
    let n = c as u32;
    ||| 0x09 <= n <= 0x0D
    ||| n == 0x20
    ||| n == 0x85
    ||| n == 0xA0
    ||| n == 0x1680
    ||| 0x2000 <= n <= 0x200A
    ||| n == 0x2028
    ||| n == 0x2029
    ||| n == 0x202F
    ||| n == 0x205F
    ||| n == 0x3000
}

/// `s` without its leading white space.
pub open spec fn trim_start(s: Seq<char>) -> Seq<char>
    decreases s.len(),
{
    if s.len() > 0 && is_space(s[0]) {
        trim_start(s.drop_first())
    } else {
        s
    }
}

/// `s` without its trailing white space.
pub open spec fn trim_end(s: Seq<char>) -> Seq<char>
    decreases s.len(),
{
    if s.len() > 0 && is_space(s.last()) {
        trim_end(s.drop_last())
    } else {
        s
    }
}

/// `s` without its leading and trailing white space.
pub open spec fn trim(s: Seq<char>) -> Seq<char> {
    trim_end(trim_start(s))
}

/// The position of the first `sep` in `s`, or `s.len()` where `s` holds none.
pub open spec fn first_index(s: Seq<char>, sep: char) -> int
    decreases s.len(),
{
    if s.len() == 0 || s[0] == sep {
        0
    } else {
        1 + first_index(s.drop_first(), sep)
    }
}

/// The pieces of `s` between occurrences of `sep`, in order. A sequence
/// without `sep` is one piece; two separators in a row enclose an empty piece.
pub open spec fn split(s: Seq<char>, sep: char) -> Seq<Seq<char>>
    decreases s.len(),
{
    let i = first_index(s, sep);
    if 0 <= i < s.len() {
        seq![s.take(i)] + split(s.skip(i + 1), sep)
    } else {
        seq![s]
    }
}

/// The pieces put together again, with `sep` between each two.
pub open spec fn join(pieces: Seq<Seq<char>>, sep: char) -> Seq<char>
    decreases pieces.len(),
{
    if pieces.len() == 0 {
        Seq::empty()
    } else if pieces.len() == 1 {
        pieces[0]
    } else {
        pieces[0] + seq![sep] + join(pieces.drop_first(), sep)
    }
}

/// The position in `s` where the piece numbered `n` (from zero) of `s` split
/// at `sep` starts: behind the pieces before it and the separator after each.
pub open spec fn piece_start(s: Seq<char>, sep: char, n: nat) -> int
    decreases n,
{
    if n == 0 {
        0
    } else {
        piece_start(s, sep, (n - 1) as nat) + split(s, sep)[n - 1].len() + 1
    }
}

/// Lexicographic order by code point: at the first position where the two
/// differ `a` holds the smaller character, or `a` ends there and `b` goes on.
pub open spec fn lex_lt(a: Seq<char>, b: Seq<char>) -> bool
    decreases a.len(),
{
    if b.len() == 0 {
        false
    } else if a.len() == 0 {
        true
    } else if a[0] != b[0] {
        (a[0] as u32) < (b[0] as u32)
    } else {
        lex_lt(a.drop_first(), b.drop_first())
    }
}

/// Each element is lexicographically below every later one.
pub open spec fn ascending(v: Seq<Seq<char>>) -> bool {
    forall|i: int, j: int| 0 <= i < j < v.len() ==> lex_lt(#[trigger] v[i], #[trigger] v[j])
}

/// How one character sequence stands to another in lexicographic order.
#[derive(Clone, Copy, Debug, PartialEq, Eq)]
pub enum Order {
    Less,
    Equal,
    Greater,
}

/// `first_index` is within bounds, points at a separator unless it is the
/// length, and no separator stands before it.
pub proof fn lemma_first_index(s: Seq<char>, sep: char)
    ensures
        0 <= first_index(s, sep) <= s.len(),
        first_index(s, sep) < s.len() ==> s[first_index(s, sep)] == sep,
        forall|j: int| 0 <= j < first_index(s, sep) ==> s[j] != sep,
    decreases s.len(),
{
    if s.len() == 0 || s[0] == sep {
    } else {
        let t = s.drop_first();
        lemma_first_index(t, sep);
        let r = first_index(t, sep);
        assert(r < t.len() ==> s[r + 1] == t[r]);
        assert forall|j: int| 0 <= j < r + 1 implies s[j] != sep by {
            if j > 0 {
                assert(s[j] == t[j - 1]);
            }
        }
    }
}

/// A position that points at the first separator, or at the end of a
/// sequence without one, is `first_index`.
pub proof fn lemma_first_index_is(s: Seq<char>, sep: char, i: int)
    requires
        0 <= i <= s.len(),
        i < s.len() ==> s[i] == sep,
        forall|j: int| 0 <= j < i ==> s[j] != sep,
    ensures
        first_index(s, sep) == i,
{
    lemma_first_index(s, sep);
}

/// Every piece of a split is free of the separator, and there is at least one piece.
pub proof fn lemma_split_pieces(s: Seq<char>, sep: char)
    ensures
        split(s, sep).len() >= 1,
        forall|k: int, j: int|
            0 <= k < split(s, sep).len() && 0 <= j < split(s, sep)[k].len() ==> split(
                s,
                sep,
            )[k][j] != sep,
    decreases s.len(),
{
    lemma_first_index(s, sep);
    let i = first_index(s, sep);
    if 0 <= i < s.len() {
        let rest = s.skip(i + 1);
        lemma_split_pieces(rest, sep);
        assert forall|k: int, j: int|
            0 <= k < split(s, sep).len() && 0 <= j < split(s, sep)[k].len() implies split(
            s,
            sep,
        )[k][j] != sep by {
            if k == 0 {
                assert(split(s, sep)[0] == s.take(i));
            } else {
                assert(split(s, sep)[k] == split(rest, sep)[k - 1]);
            }
        }
    }
}

/// Trimming removes white space at both ends and nothing else: the result is
/// a stretch of `s` that neither starts nor ends with white space, and what
/// lies outside it is white space only.
pub proof fn lemma_trim(s: Seq<char>) -> (span: (int, int))
    ensures
        0 <= span.0 <= span.1 <= s.len(),
        trim(s) == s.subrange(span.0, span.1),
        forall|j: int| 0 <= j < span.0 ==> is_space(s[j]),
        forall|j: int| span.1 <= j < s.len() ==> is_space(s[j]),
        span.0 < span.1 ==> !is_space(s[span.0]) && !is_space(s[span.1 - 1]),
{
    let a = lemma_trim_start(s);
    let t = s.skip(a);
    let b = lemma_trim_end(t);
    assert(t.take(b) == s.subrange(a, a + b));
    if a < a + b {
        assert(t[0] == s[a]);
    }
    assert forall|j: int| a + b <= j < s.len() implies is_space(s[j]) by {
        assert(s[j] == t[j - a]);
    }
    (a, a + b)
}

proof fn lemma_trim_start(s: Seq<char>) -> (a: int)
    ensures
        0 <= a <= s.len(),
        trim_start(s) == s.skip(a),
        forall|j: int| 0 <= j < a ==> is_space(s[j]),
        a < s.len() ==> !is_space(s[a]),
    decreases s.len(),
{
    if s.len() > 0 && is_space(s[0]) {
        let t = s.drop_first();
        let r = lemma_trim_start(t);
        assert(t.skip(r) == s.skip(r + 1));
        assert forall|j: int| 0 <= j < r + 1 implies is_space(s[j]) by {
            if j > 0 {
                assert(s[j] == t[j - 1]);
            }
        }
        assert(r < t.len() ==> t[r] == s[r + 1]);
        r + 1
    } else {
        assert(s.skip(0) == s);
        0
    }
}

proof fn lemma_trim_end(s: Seq<char>) -> (b: int)
    ensures
        0 <= b <= s.len(),
        trim_end(s) == s.take(b),
        forall|j: int| b <= j < s.len() ==> is_space(s[j]),
        0 < b ==> !is_space(s[b - 1]),
    decreases s.len(),
{
    if s.len() > 0 && is_space(s.last()) {
        let t = s.drop_last();
        let r = lemma_trim_end(t);
        assert(t.take(r) == s.take(r));
        assert forall|j: int| r <= j < s.len() implies is_space(s[j]) by {
            if j < t.len() {
                assert(s[j] == t[j]);
            }
        }
        assert(0 < r ==> t[r - 1] == s[r - 1]);
        r
    } else {
        assert(s.take(s.len() as int) == s);
        s.len() as int
    }
}

/// Splitting loses nothing: the pieces, joined by the separator, are what was split.
pub proof fn law_split_join(s: Seq<char>, sep: char)
    ensures
        join(split(s, sep), sep) == s,
    decreases s.len(),
{
    lemma_first_index(s, sep);
    let i = first_index(s, sep);
    if 0 <= i < s.len() {
        let rest = s.skip(i + 1);
        law_split_join(rest, sep);
        lemma_split_pieces(rest, sep);
        let pieces = split(s, sep);
        assert(pieces.drop_first() =~= split(rest, sep));
        assert(pieces[0] == s.take(i));
        assert(s.take(i) + seq![sep] + rest =~= s);
    }
}

/// Splitting distributes over a separator: the pieces of `a`, a separator
/// and `b` are the pieces of `a` followed by those of `b`.
pub proof fn lemma_split_concat(a: Seq<char>, b: Seq<char>, sep: char)
    ensures
        split(a + seq![sep] + b, sep) == split(a, sep) + split(b, sep),
    decreases a.len(),
{
    let s = a + seq![sep] + b;
    lemma_first_index(a, sep);
    let i = first_index(a, sep);
    if i < a.len() {
        assert(s[i] == a[i]);
        assert forall|j: int| 0 <= j < i implies s[j] != sep by {
            assert(s[j] == a[j]);
        }
        lemma_first_index_is(s, sep, i);
        assert(s.take(i) =~= a.take(i));
        assert(s.skip(i + 1) =~= a.skip(i + 1) + seq![sep] + b);
        lemma_split_concat(a.skip(i + 1), b, sep);
        assert(split(s, sep) =~= split(a, sep) + split(b, sep));
    } else {
        assert(s[a.len() as int] == sep);
        assert forall|j: int| 0 <= j < a.len() implies s[j] != sep by {
            assert(s[j] == a[j]);
        }
        lemma_first_index_is(s, sep, a.len() as int);
        assert(s.take(a.len() as int) =~= a);
        assert(s.skip(a.len() as int + 1) =~= b);
        assert(split(s, sep) =~= split(a, sep) + split(b, sep));
    }
}

/// A character other than the separator, added at the end, goes to the end
/// of the last piece and leaves the other pieces as they are.
pub proof fn lemma_split_push(s: Seq<char>, c: char, sep: char)
    requires
        c != sep,
    ensures
        split(s.push(c), sep) == split(s, sep).drop_last().push(split(s, sep).last().push(c)),
    decreases s.len(),
{
    let t = s.push(c);
    lemma_first_index(s, sep);
    lemma_split_pieces(s, sep);
    let i = first_index(s, sep);
    if i < s.len() {
        assert(t[i] == s[i]);
        assert forall|j: int| 0 <= j < i implies t[j] != sep by {
            assert(t[j] == s[j]);
        }
        lemma_first_index_is(t, sep, i);
        assert(t.take(i) =~= s.take(i));
        assert(t.skip(i + 1) =~= s.skip(i + 1).push(c));
        lemma_split_push(s.skip(i + 1), c, sep);
        lemma_split_pieces(s.skip(i + 1), sep);
        assert(split(t, sep) =~= split(s, sep).drop_last().push(split(s, sep).last().push(c)));
    } else {
        assert forall|j: int| 0 <= j < t.len() implies t[j] != sep by {
            if j < s.len() {
                assert(t[j] == s[j]);
            }
        }
        lemma_first_index_is(t, sep, t.len() as int);
        assert(split(t, sep) =~= split(s, sep).drop_last().push(split(s, sep).last().push(c)));
    }
}

/// A stretch of `s` that neither starts nor ends with white space, with
/// white space only outside it, is what trimming leaves of `s`.
pub proof fn lemma_trim_is(s: Seq<char>, a: int, b: int)
    requires
        0 <= a <= b <= s.len(),
        forall|j: int| 0 <= j < a ==> is_space(s[j]),
        forall|j: int| b <= j < s.len() ==> is_space(s[j]),
        a < b ==> !is_space(s[a]) && !is_space(s[b - 1]),
    ensures
        trim(s) == s.subrange(a, b),
{
    let span = lemma_trim(s);
    if a < b {
        assert(span.0 <= a < span.1);
        assert(span.0 < b <= span.1);
        assert(span.0 == a);
        assert(span.1 == b);
    } else {
        if span.0 < span.1 {
            assert(is_space(s[span.0]));
        }
        assert(s.subrange(span.0, span.1) =~= s.subrange(a, b));
    }
}

/// White space added at the end is trimmed away again.
pub proof fn lemma_trim_push_space(s: Seq<char>, c: char)
    requires
        is_space(c),
    ensures
        trim(s.push(c)) == trim(s),
{
    let t = s.push(c);
    let span = lemma_trim(s);
    if span.0 < span.1 {
        assert(t[span.0] == s[span.0]);
        assert(t[span.1 - 1] == s[span.1 - 1]);
        assert forall|j: int| 0 <= j < span.0 implies is_space(t[j]) by {
            assert(t[j] == s[j]);
        }
        assert forall|j: int| span.1 <= j < t.len() implies is_space(t[j]) by {
            if j < s.len() {
                assert(t[j] == s[j]);
            }
        }
        lemma_trim_is(t, span.0, span.1);
        assert(t.subrange(span.0, span.1) =~= s.subrange(span.0, span.1));
    } else {
        assert forall|j: int| 0 <= j < t.len() implies is_space(t[j]) by {
            if j < s.len() {
                assert(t[j] == s[j]);
            }
        }
        lemma_trim_is(t, 0, 0);
        assert(t.subrange(0, 0) =~= s.subrange(span.0, span.1));
    }
}

/// Nothing is below itself.
pub proof fn law_lex_irreflexive(a: Seq<char>)
    ensures
        !lex_lt(a, a),
    decreases a.len(),
{
    if a.len() > 0 {
        law_lex_irreflexive(a.drop_first());
    }
}

/// The order is transitive.
pub proof fn law_lex_transitive(a: Seq<char>, b: Seq<char>, c: Seq<char>)
    requires
        lex_lt(a, b),
        lex_lt(b, c),
    ensures
        lex_lt(a, c),
    decreases a.len(),
{
    if a.len() > 0 && a[0] == b[0] && b[0] == c[0] {
        law_lex_transitive(a.drop_first(), b.drop_first(), c.drop_first());
    }
}

/// Of two different sequences one is below the other.
pub proof fn law_lex_total(a: Seq<char>, b: Seq<char>)
    ensures
        lex_lt(a, b) || a == b || lex_lt(b, a),
    decreases a.len(),
{
    if a.len() == 0 || b.len() == 0 {
        if a.len() == 0 && b.len() == 0 {
            assert(a =~= b);
        }
    } else if a[0] == b[0] {
        law_lex_total(a.drop_first(), b.drop_first());
        if a.drop_first() == b.drop_first() {
            assert(a =~= seq![a[0]] + a.drop_first());
            assert(b =~= seq![b[0]] + b.drop_first());
        }
    } else {
        lemma_code_point_injective(a[0], b[0]);
    }
}

/// Different characters have different code points.
proof fn lemma_code_point_injective(c: char, d: char)
    ensures
        c as u32 == d as u32 ==> c == d,
{
}

/// Two sequences that agree on their first `i` characters compare as what
/// follows those characters.
proof fn lemma_lex_skip_common(a: Seq<char>, b: Seq<char>, i: int)
    requires
        0 <= i <= a.len(),
        i <= b.len(),
        forall|j: int| 0 <= j < i ==> a[j] == b[j],
    ensures
        lex_lt(a, b) == lex_lt(a.skip(i), b.skip(i)),
    decreases i,
{
    if i == 0 {
        assert(a.skip(0) == a);
        assert(b.skip(0) == b);
    } else {
        let a1 = a.drop_first();
        let b1 = b.drop_first();
        assert(a[0] == b[0]);
        assert forall|j: int| 0 <= j < i - 1 implies a1[j] == b1[j] by {
            assert(a1[j] == a[j + 1]);
            assert(b1[j] == b[j + 1]);
        }
        lemma_lex_skip_common(a1, b1, i - 1);
        assert(a1.skip(i - 1) == a.skip(i));
        assert(b1.skip(i - 1) == b.skip(i));
    }
}

/// An ascending sequence holds nothing twice.
pub proof fn lemma_ascending_no_duplicates(v: Seq<Seq<char>>)
    requires
        ascending(v),
    ensures
        v.no_duplicates(),
{
    assert forall|i: int, j: int| 0 <= i < v.len() && 0 <= j < v.len() && i != j implies v[i]
        != v[j] by {
        law_lex_irreflexive(v[i]);
        if i < j {
            assert(lex_lt(v[i], v[j]));
        } else {
            assert(lex_lt(v[j], v[i]));
        }
    }
}

/// An ascending sequence stays ascending when an element is put where it
/// belongs, and then holds that element besides the others.
pub proof fn lemma_ascending_insert(v: Seq<Seq<char>>, i: int, x: Seq<char>)
    requires
        ascending(v),
        0 <= i <= v.len(),
        forall|k: int| 0 <= k < i ==> lex_lt(#[trigger] v[k], x),
        i < v.len() ==> lex_lt(x, v[i]),
    ensures
        ascending(v.insert(i, x)),
        v.insert(i, x).to_set() == v.to_set().insert(x),
{
    let w = v.insert(i, x);
    assert forall|p: int, q: int| 0 <= p < q < w.len() implies lex_lt(w[p], w[q]) by {
        if q < i {
            assert(w[p] == v[p] && w[q] == v[q]);
        } else if q == i {
            assert(w[p] == v[p]);
        } else if p == i {
            assert(w[q] == v[q - 1]);
            if q - 1 > i {
                assert(lex_lt(v[i], v[q - 1]));
                law_lex_transitive(x, v[i], v[q - 1]);
            }
        } else if p < i {
            assert(w[p] == v[p] && w[q] == v[q - 1]);
        } else {
            assert(w[p] == v[p - 1] && w[q] == v[q - 1]);
        }
    }
    assert forall|y: Seq<char>| w.to_set().contains(y) == v.to_set().insert(x).contains(y) by {
        if w.contains(y) {
            let k = choose|k: int| 0 <= k < w.len() && w[k] == y;
            if k < i {
                assert(v[k] == y);
            } else if k > i {
                assert(v[k - 1] == y);
            }
        }
        if v.contains(y) {
            let k = choose|k: int| 0 <= k < v.len() && v[k] == y;
            if k < i {
                assert(w[k] == y);
            } else {
                assert(w[k + 1] == y);
            }
        }
        assert(w[i] == x);
    }
    assert(w.to_set() =~= v.to_set().insert(x));
}

/// Two ascending sequences with the same elements are the same sequence: a
/// set of character sequences has one ascending listing.
pub proof fn law_ascending_unique(a: Seq<Seq<char>>, b: Seq<Seq<char>>)
    requires
        ascending(a),
        ascending(b),
        a.to_set() == b.to_set(),
    ensures
        a == b,
    decreases a.len(),
{
    if a.len() == 0 {
        if b.len() > 0 {
            assert(b.to_set().contains(b[0]));
            assert(a.to_set().contains(b[0]));
        }
        assert(a =~= b);
    } else if b.len() == 0 {
        assert(a.to_set().contains(a[0]));
        assert(b.to_set().contains(a[0]));
    } else {
        assert(a.to_set().contains(a[0]));
        assert(b.to_set().contains(a[0]));
        assert(b.to_set().contains(b[0]));
        assert(a.to_set().contains(b[0]));
        let j = choose|j: int| 0 <= j < b.len() && b[j] == a[0];
        let i = choose|i: int| 0 <= i < a.len() && a[i] == b[0];
        if j > 0 {
            assert(lex_lt(b[0], b[j]));
            if i > 0 {
                assert(lex_lt(a[0], a[i]));
                law_lex_transitive(a[0], b[0], a[0]);
            }
            law_lex_irreflexive(a[0]);
        }
        assert(a[0] == b[0]);
        let a1 = a.drop_first();
        let b1 = b.drop_first();
        lemma_ascending_no_duplicates(a);
        lemma_ascending_no_duplicates(b);
        assert forall|x: Seq<char>| a1.to_set().contains(x) == b1.to_set().contains(x) by {
            if a1.contains(x) {
                let k = choose|k: int| 0 <= k < a1.len() && a1[k] == x;
                assert(a[k + 1] == x);
                assert(a.to_set().contains(x));
                assert(b.to_set().contains(x));
                let m = choose|m: int| 0 <= m < b.len() && b[m] == x;
                assert(m != 0);
                assert(b1[m - 1] == x);
            }
            if b1.contains(x) {
                let k = choose|k: int| 0 <= k < b1.len() && b1[k] == x;
                assert(b[k + 1] == x);
                assert(b.to_set().contains(x));
                assert(a.to_set().contains(x));
                let m = choose|m: int| 0 <= m < a.len() && a[m] == x;
                assert(m != 0);
                assert(a1[m - 1] == x);
            }
        }
        assert(a1.to_set() =~= b1.to_set());
        assert forall|p: int, q: int| 0 <= p < q < a1.len() implies lex_lt(a1[p], a1[q]) by {
            assert(lex_lt(a[p + 1], a[q + 1]));
        }
        assert forall|p: int, q: int| 0 <= p < q < b1.len() implies lex_lt(b1[p], b1[q]) by {
            assert(lex_lt(b[p + 1], b[q + 1]));
        }
        law_ascending_unique(a1, b1);
        assert(a =~= seq![a[0]] + a1);
        assert(b =~= seq![b[0]] + b1);
    }
}

/// Tells whether `c` is white space.
pub fn is_space_char(c: char) -> (b: bool)
    ensures
        b == is_space(c),
{
    let n: u32 = c as u32;
    (0x09 <= n && n <= 0x0D) || n == 0x20 || n == 0x85 || n == 0xA0 || n == 0x1680 || (0x2000 <= n
        && n <= 0x200A) || n == 0x2028 || n == 0x2029 || n == 0x202F || n == 0x205F || n == 0x3000
}

/// Copies the characters of `s` into a vector.
pub fn chars_of(s: &str) -> (v: Vec<char>)
    ensures
        v@ == s@,
{
    let mut v: Vec<char> = Vec::new();
    for c in it: s.chars()
        invariant
            v@ == it.seq().take(it.index() as int),
    {
        v.push(c);
    }
    v
}

/// Finds the first `sep` at or after `from`; the length of `s` where there is none.
pub fn find_char(s: &[char], from: usize, sep: char) -> (at: usize)
    ensures
        at <= s@.len(),
        from <= s@.len() ==> from <= at && at - from == first_index(s@.skip(from as int), sep),
        from > s@.len() ==> at == s@.len(),
{
    if from > s.len() {
        return s.len();
    }
    let mut at: usize = from;
    while at < s.len() && s[at] != sep
        invariant
            from <= at <= s@.len(),
            forall|j: int| from <= j < at ==> s@[j] != sep,
        decreases s@.len() - at,
    {
        at += 1;
    }
    proof {
        lemma_first_index_is(s@.skip(from as int), sep, at - from);
    }
    at
}

/// Finds the piece numbered `n` (from zero) of `s` split at `sep`, as the
/// positions where it starts and ends; `None` where there are not that many pieces.
pub fn field_span(s: &[char], sep: char, n: usize) -> (span: Option<(usize, usize)>)
    ensures
        span is Some <==> n < split(s@, sep).len(),
        span matches Some((a, b)) ==> a == piece_start(s@, sep, n as nat) && a <= b <= s@.len()
            && s@.subrange(a as int, b as int) == split(s@, sep)[n as int],
{
    let mut start: usize = 0;
    let mut k: usize = 0;
    proof {
        assert(s@.skip(0) == s@);
        assert(split(s@, sep).skip(0) == split(s@, sep));
    }
    loop
        invariant
            k <= n,
            start <= s@.len(),
            k <= split(s@, sep).len(),
            start == piece_start(s@, sep, k as nat),
            split(s@, sep).skip(k as int) == split(s@.skip(start as int), sep),
        decreases s@.len() - start,
    {
        let end = find_char(s, start, sep);
        let ghost rest = s@.skip(start as int);
        proof {
            lemma_first_index(rest, sep);
            lemma_split_pieces(rest, sep);
            assert(rest.take(end - start) == s@.subrange(start as int, end as int));
            assert(split(s@, sep)[k as int] == split(s@, sep).skip(k as int)[0]);
        }
        if k == n {
            return Some((start, end));
        }
        if end == s.len() {
            assert(split(rest, sep).len() == 1);
            return None;
        }
        proof {
            assert(rest.skip(end - start + 1) == s@.skip(end + 1));
            assert(split(s@, sep).skip(k as int + 1) == split(s@, sep).skip(k as int).skip(1));
            assert(split(rest, sep).skip(1) == split(s@.skip(end + 1), sep));
        }
        start = end + 1;
        k += 1;
    }
}

/// Finds what is left of `s` once leading and trailing white space is cut, as
/// the positions where it starts and ends: it starts behind the leading
/// white space, which is all of `s` where `s` holds nothing else.
pub fn trim_span(s: &[char]) -> (span: (usize, usize))
    ensures
        span.0 == s@.len() - trim_start(s@).len(),
        span.0 <= span.1 <= s@.len(),
        s@.subrange(span.0 as int, span.1 as int) == trim(s@),
{
    let mut a: usize = 0;
    let mut b: usize = s.len();
    proof {
        assert(s@.subrange(0, s@.len() as int) == s@);
    }
    while a < b && is_space_char(s[a])
        invariant
            a <= b == s@.len(),
            trim_start(s@) == trim_start(s@.subrange(a as int, b as int)),
        decreases b - a,
    {
        proof {
            assert(s@.subrange(a as int, b as int).drop_first() == s@.subrange(a + 1, b as int));
        }
        a += 1;
    }
    let ghost kept = s@.subrange(a as int, s@.len() as int);
    assert(trim_start(s@) == kept);
    while a < b && is_space_char(s[b - 1])
        invariant
            a <= b <= s@.len(),
            kept == s@.subrange(a as int, s@.len() as int),
            trim_end(kept) == trim_end(s@.subrange(a as int, b as int)),
        decreases b - a,
    {
        proof {
            assert(s@.subrange(a as int, b as int).drop_last() == s@.subrange(a as int, b - 1));
        }
        b -= 1;
    }
    (a, b)
}

/// Compares two character sequences in lexicographic order.
pub fn lex_order(a: &[char], b: &[char]) -> (o: Order)
    ensures
        o is Less <==> lex_lt(a@, b@),
        o is Equal <==> a@ == b@,
        o is Greater <==> lex_lt(b@, a@),
{
    let mut i: usize = 0;
    while i < a.len() && i < b.len() && a[i] == b[i]
        invariant
            i <= a@.len(),
            i <= b@.len(),
            forall|j: int| 0 <= j < i ==> a@[j] == b@[j],
        decreases a@.len() - i,
    {
        i += 1;
    }
    proof {
        lemma_lex_skip_common(a@, b@, i as int);
        lemma_lex_skip_common(b@, a@, i as int);
        law_lex_irreflexive(a@);
        if i == a@.len() && i == b@.len() {
            assert(a@ =~= b@);
        } else if i < a@.len() && i < b@.len() {
            assert(a@.skip(i as int)[0] == a@[i as int]);
            assert(b@.skip(i as int)[0] == b@[i as int]);
            lemma_code_point_injective(a@[i as int], b@[i as int]);
        }
    }
    if i == a.len() {
        if i == b.len() {
            Order::Equal
        } else {
            Order::Less
        }
    } else if i == b.len() {
        Order::Greater
    } else if (a[i] as u32) < (b[i] as u32) {
        Order::Less
    } else {
        Order::Greater
    }
}

} // verus!
