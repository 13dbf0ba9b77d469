//! The colon-delimited listing of secret keys.
//!
//! A listing is a sequence of records separated by newlines. Each record is a
//! sequence of fields separated by colons, and its first field names its
//! kind. A fingerprint record has the kind `fpr` and carries the fingerprint
//! in its tenth field. Records of other kinds, records with fewer fields and
//! records whose tenth field is blank carry none.
//!
//! A carriage return before the newline is part of the record's last field.
//! Where that field is the fingerprint, trimming removes it.

use crate::text::{
    ascending, field_span, find_char, first_index, is_space, law_ascending_unique,
    lemma_ascending_insert, lemma_ascending_no_duplicates, lemma_first_index, lemma_first_index_is, lemma_split_concat, lemma_split_pieces,
    lemma_split_push, lemma_trim, lemma_trim_push_space, lex_lt, lex_order, piece_start, split,
    trim, trim_span, trim_start, Order,
};
use vstd::prelude::*;
use vstd::slice::slice_subrange;

verus! {

/// The number, from zero, of the field that holds the fingerprint.
pub const FINGERPRINT_FIELD: usize = 9;

/// Tells whether `line` opens with the kind of a fingerprint record and the
/// colon that ends the kind.
pub open spec fn is_fingerprint_record(line: Seq<char>) -> bool {
    line.len() >= 4 && line[0] == 'f' && line[1] == 'p' && line[2] == 'r' && line[3] == ':'
}

/// The fingerprint that one record contributes, if any: the tenth field of a
/// fingerprint record, without the white space around it, unless that leaves nothing.
pub open spec fn line_fingerprint(line: Seq<char>) -> Option<Seq<char>> {
    let fields = split(line, ':');
    if is_fingerprint_record(line) && fields.len() > FINGERPRINT_FIELD && trim(
        fields[FINGERPRINT_FIELD as int],
    ).len() > 0 {
        Some(trim(fields[FINGERPRINT_FIELD as int]))
    } else {
        None
    }
}

/// The positions in a record that carries a fingerprint where the
/// fingerprint starts and ends: in the tenth field, behind the white space
/// that the field begins with.
pub open spec fn fingerprint_position(line: Seq<char>) -> (int, int) {
    let field = split(line, ':')[FINGERPRINT_FIELD as int];
    let start = piece_start(line, ':', FINGERPRINT_FIELD as nat) + field.len() - trim_start(
        field,
    ).len();
    (start, start + trim(field).len())
}

/// The fingerprints that the records `lines` contribute.
pub open spec fn fingerprints_in(lines: Seq<Seq<char>>) -> Set<Seq<char>> {
    Set::new(
        |f: Seq<char>|
            exists|i: int| 0 <= i < lines.len() && line_fingerprint(#[trigger] lines[i]) == Some(f),
    )
}

/// The fingerprints that a listing holds.
pub open spec fn fingerprints(text: Seq<char>) -> Set<Seq<char>> {
    fingerprints_in(split(text, '\n'))
}

/// Tells whether `listed` lists the fingerprints that a listing holds: those
/// and no others, in ascending lexicographic order, and so each once.
pub open spec fn lists_fingerprints_of(listed: Seq<Seq<char>>, text: Seq<char>) -> bool {
    ascending(listed) && listed.to_set() == fingerprints(text)
}

/// The stretches of `text` that `spans` mark, in the order of `spans`.
pub open spec fn cuts(text: Seq<char>, spans: Seq<(usize, usize)>) -> Seq<Seq<char>> {
    Seq::new(spans.len(), |i: int| text.subrange(spans[i].0 as int, spans[i].1 as int))
}

/// Every span lies within `text`.
pub open spec fn spans_within(text: Seq<char>, spans: Seq<(usize, usize)>) -> bool {
    forall|i: int| 0 <= i < spans.len() ==> (#[trigger] spans[i]).0 <= spans[i].1 <= text.len()
}

/// The fingerprints of a record followed by more records are that record's
/// own, if it has one, and those of the rest.
pub proof fn lemma_fingerprints_in_first(line: Seq<char>, more: Seq<Seq<char>>)
    ensures
        fingerprints_in(seq![line] + more) == match line_fingerprint(line) {
            Some(f) => fingerprints_in(more).insert(f),
            None => fingerprints_in(more),
        },
{
    let all = seq![line] + more;
    let expected = match line_fingerprint(line) {
        Some(f) => fingerprints_in(more).insert(f),
        None => fingerprints_in(more),
    };
    assert forall|f: Seq<char>| fingerprints_in(all).contains(f) == expected.contains(f) by {
        if fingerprints_in(all).contains(f) {
            let i = choose|i: int|
                0 <= i < all.len() && line_fingerprint(#[trigger] all[i]) == Some(f);
            if i > 0 {
                assert(all[i] == more[i - 1]);
            }
        }
        if fingerprints_in(more).contains(f) {
            let i = choose|i: int|
                0 <= i < more.len() && line_fingerprint(#[trigger] more[i]) == Some(f);
            assert(all[i + 1] == more[i]);
        }
        if line_fingerprint(line) == Some(f) {
            assert(all[0] == line);
        }
    }
    assert(fingerprints_in(all) =~= expected);
}

/// The fingerprints of some records followed by others are those of both.
pub proof fn lemma_fingerprints_in_concat(first: Seq<Seq<char>>, second: Seq<Seq<char>>)
    ensures
        fingerprints_in(first + second) == fingerprints_in(first).union(fingerprints_in(second)),
{
    let all = first + second;
    let both = fingerprints_in(first).union(fingerprints_in(second));
    assert forall|f: Seq<char>| fingerprints_in(all).contains(f) == both.contains(f) by {
        if fingerprints_in(all).contains(f) {
            let i = choose|i: int|
                0 <= i < all.len() && line_fingerprint(#[trigger] all[i]) == Some(f);
            if i < first.len() {
                assert(all[i] == first[i]);
            } else {
                assert(all[i] == second[i - first.len()]);
            }
        }
        if fingerprints_in(first).contains(f) {
            let i = choose|i: int|
                0 <= i < first.len() && line_fingerprint(#[trigger] first[i]) == Some(f);
            assert(all[i] == first[i]);
        }
        if fingerprints_in(second).contains(f) {
            let i = choose|i: int|
                0 <= i < second.len() && line_fingerprint(#[trigger] second[i]) == Some(f);
            assert(all[i + first.len()] == second[i]);
        }
    }
    assert(fingerprints_in(all) =~= both);
}

/// A listing has one list of fingerprints: two that list the fingerprints of
/// the same listing are equal, of the length of the set, and hold nothing twice.
pub proof fn law_fingerprints_are_listed_one_way(
    first: Seq<Seq<char>>,
    second: Seq<Seq<char>>,
    text: Seq<char>,
)
    requires
        lists_fingerprints_of(first, text),
        lists_fingerprints_of(second, text),
    ensures
        first == second,
        first.no_duplicates(),
        first.len() == fingerprints(text).len(),
{
    law_ascending_unique(first, second);
    lemma_ascending_no_duplicates(first);
    first.unique_seq_to_set();
}

/// A fingerprint record with fewer than ten fields carries no fingerprint.
pub proof fn law_short_record_carries_none(line: Seq<char>)
    requires
        is_fingerprint_record(line),
        split(line, ':').len() < 10,
    ensures
        line_fingerprint(line) is None,
{
}

/// A fingerprint record whose tenth field is empty carries no fingerprint.
pub proof fn law_empty_field_carries_none(line: Seq<char>)
    requires
        is_fingerprint_record(line),
        split(line, ':').len() >= 10,
        split(line, ':')[9].len() == 0,
    ensures
        line_fingerprint(line) is None,
{
}

/// A fingerprint record whose tenth field holds white space only carries no
/// fingerprint.
pub proof fn law_blank_field_carries_none(line: Seq<char>)
    requires
        is_fingerprint_record(line),
        split(line, ':').len() >= 10,
        forall|j: int| 0 <= j < split(line, ':')[9].len() ==> is_space(split(line, ':')[9][j]),
    ensures
        line_fingerprint(line) is None,
{
    let field = split(line, ':')[9];
    let span = lemma_trim(field);
    if span.0 < span.1 {
        assert(is_space(field[span.0]));
    }
}

/// A record of another kind carries no fingerprint, whatever its fields hold.
pub proof fn law_other_kind_carries_none(line: Seq<char>)
    requires
        !is_fingerprint_record(line),
    ensures
        line_fingerprint(line) is None,
{
}

/// The fingerprint that a record carries is never empty, holds no colon and
/// nothing that the record does not hold, and neither starts nor ends with
/// white space.
proof fn lemma_fingerprint_is_trimmed(line: Seq<char>)
    requires
        line_fingerprint(line) is Some,
    ensures
        ({
            let f = line_fingerprint(line).unwrap();
            &&& f.len() > 0
            &&& !is_space(f[0])
            &&& !is_space(f.last())
            &&& !f.contains(':')
            &&& forall|j: int| 0 <= j < f.len() ==> line.contains(#[trigger] f[j])
        }),
{
    let f = line_fingerprint(line).unwrap();
    let field = split(line, ':')[9];
    let span = lemma_trim(field);
    lemma_split_pieces(line, ':');
    assert(f[0] == field[span.0]);
    assert(f.last() == field[span.1 - 1]);
    assert forall|j: int| 0 <= j < f.len() implies f[j] != ':' && line.contains(
        #[trigger] f[j],
    ) by {
        assert(f[j] == field[span.0 + j]);
        assert(field[span.0 + j] != ':');
        lemma_piece_within(line, ':', 9, span.0 + j);
    }
}

/// Every fingerprint of a listing is a stretch of one of its records: it is
/// never empty, holds neither colon nor newline, and neither starts nor ends
/// with white space.
pub proof fn law_fingerprints_are_trimmed(text: Seq<char>, f: Seq<char>)
    requires
        fingerprints(text).contains(f),
    ensures
        f.len() > 0,
        !is_space(f[0]),
        !is_space(f.last()),
        !f.contains(':'),
        !f.contains('\n'),
{
    let lines = split(text, '\n');
    let i = choose|i: int| 0 <= i < lines.len() && line_fingerprint(#[trigger] lines[i]) == Some(f);
    lemma_split_pieces(text, '\n');
    lemma_fingerprint_is_trimmed(lines[i]);
    assert forall|j: int| 0 <= j < f.len() implies f[j] != '\n' by {
        assert(lines[i].contains(f[j]));
        let m = choose|m: int| 0 <= m < lines[i].len() && lines[i][m] == f[j];
        assert(lines[i][m] != '\n');
    }
}

/// Every character of a piece of a split is a character of what was split.
proof fn lemma_piece_within(s: Seq<char>, sep: char, k: int, j: int)
    requires
        0 <= k < split(s, sep).len(),
        0 <= j < split(s, sep)[k].len(),
    ensures
        s.contains(split(s, sep)[k][j]),
    decreases s.len(),
{
    lemma_first_index(s, sep);
    let i = first_index(s, sep);
    if 0 <= i < s.len() {
        if k == 0 {
            assert(split(s, sep)[0] == s.take(i));
            assert(s[j] == s.take(i)[j]);
        } else {
            let rest = s.skip(i + 1);
            assert(split(s, sep)[k] == split(rest, sep)[k - 1]);
            lemma_piece_within(rest, sep, k - 1, j);
            let c = split(rest, sep)[k - 1][j];
            let m = choose|m: int| 0 <= m < rest.len() && rest[m] == c;
            assert(s[i + 1 + m] == c);
        }
    } else {
        assert(split(s, sep)[0] == s);
    }
}

/// A carriage return at the end of a record changes nothing of what the
/// record carries: a line that ends in a carriage return and a newline is
/// read as the same line ending in the newline alone.
pub proof fn law_carriage_return_is_ignored(line: Seq<char>)
    ensures
        line_fingerprint(line.push('\r')) == line_fingerprint(line),
{
    let longer = line.push('\r');
    let fields = split(line, ':');
    lemma_split_pieces(line, ':');
    lemma_split_push(line, '\r', ':');
    let last = fields.len() - 1;
    assert(split(longer, ':').len() == fields.len());
    if line.len() >= 4 {
        assert(longer[0] == line[0] && longer[1] == line[1] && longer[2] == line[2] && longer[3]
            == line[3]);
    } else if line.len() == 3 {
        assert(longer[3] == '\r');
    }
    assert(is_fingerprint_record(longer) == is_fingerprint_record(line));
    if fields.len() > 9 {
        if last == 9 {
            assert(split(longer, ':')[9] == fields[9].push('\r'));
            lemma_trim_push_space(fields[9], '\r');
        } else {
            assert(split(longer, ':')[9] == fields[9]);
        }
    }
}

/// The fingerprints of a listing without a newline are what its one record carries.
pub proof fn law_single_record(line: Seq<char>)
    requires
        !line.contains('\n'),
    ensures
        fingerprints(line) == match line_fingerprint(line) {
            Some(f) => Set::<Seq<char>>::empty().insert(f),
            None => Set::<Seq<char>>::empty(),
        },
{
    assert forall|j: int| 0 <= j < line.len() implies line[j] != '\n' by {
        assert(line.contains(line[j]));
    }
    lemma_first_index_is(line, '\n', line.len() as int);
    assert(split(line, '\n') == seq![line]);
    assert(seq![line] =~= seq![line] + Seq::<Seq<char>>::empty());
    lemma_fingerprints_in_first(line, Seq::empty());
    assert(fingerprints_in(Seq::<Seq<char>>::empty()) =~= Set::<Seq<char>>::empty());
}

/// The fingerprints of two listings joined by a newline are those of both:
/// what a record contributes does not depend on the records around it.
pub proof fn law_listing_of_parts(head: Seq<char>, tail: Seq<char>)
    ensures
        fingerprints(head + seq!['\n'] + tail) == fingerprints(head).union(fingerprints(tail)),
{
    lemma_split_concat(head, tail, '\n');
    lemma_fingerprints_in_concat(split(head, '\n'), split(tail, '\n'));
}

/// A record that carries no fingerprint contributes none to a listing: with
/// it or without it between two parts, the listing holds the same fingerprints.
pub proof fn law_record_without_fingerprint_adds_nothing(
    head: Seq<char>,
    line: Seq<char>,
    tail: Seq<char>,
)
    requires
        !line.contains('\n'),
        line_fingerprint(line) is None,
    ensures
        fingerprints(head + seq!['\n'] + line + seq!['\n'] + tail) == fingerprints(
            head + seq!['\n'] + tail,
        ),
{
    let newline = seq!['\n'];
    law_single_record(line);
    law_listing_of_parts(head + newline + line, tail);
    law_listing_of_parts(head, line);
    law_listing_of_parts(head, tail);
    assert(fingerprints(head).union(fingerprints(line)).union(fingerprints(tail)) =~= fingerprints(
        head,
    ).union(fingerprints(tail)));
}

/// A record that is repeated contributes what it contributes once.
pub proof fn law_repeated_record_adds_nothing(head: Seq<char>, line: Seq<char>, tail: Seq<char>)
    requires
        !line.contains('\n'),
    ensures
        fingerprints(head + seq!['\n'] + line + seq!['\n'] + line + seq!['\n'] + tail)
            == fingerprints(head + seq!['\n'] + line + seq!['\n'] + tail),
{
    let newline = seq!['\n'];
    law_listing_of_parts(head + newline + line + newline + line, tail);
    law_listing_of_parts(head + newline + line, line);
    law_listing_of_parts(head + newline + line, tail);
    assert(fingerprints(head + newline + line).union(fingerprints(line)) =~= fingerprints(
        head + newline + line,
    )) by {
        law_listing_of_parts(head, line);
    }
}

/// Finds the fingerprint of one record, as the positions in `line` where it
/// starts and ends.
pub fn fingerprint_span(line: &[char]) -> (span: Option<(usize, usize)>)
    ensures
        span is Some <==> line_fingerprint(line@) is Some,
        span matches Some((a, b)) ==> (a as int, b as int) == fingerprint_position(line@) && a < b
            <= line@.len() && line_fingerprint(line@) == Some(line@.subrange(a as int, b as int)),
{
    if !(line.len() >= 4 && line[0] == 'f' && line[1] == 'p' && line[2] == 'r' && line[3] == ':') {
        return None;
    }
    match field_span(line, ':', FINGERPRINT_FIELD) {
        None => None,
        Some((a, b)) => {
            let field = slice_subrange(line, a, b);
            let (from, to) = trim_span(field);
            if from == to {
                None
            } else {
                assert(field@.subrange(from as int, to as int) == line@.subrange(
                    a + from,
                    a + to,
                ));
                Some((a + from, a + to))
            }
        },
    }
}

/// Adds the stretch from `a` to `b` of `text` to an ascending list of
/// stretches, unless the list already holds the same characters.
fn insert_span(text: &[char], spans: &mut Vec<(usize, usize)>, a: usize, b: usize)
    requires
        a <= b <= text@.len(),
        spans_within(text@, old(spans)@),
        ascending(cuts(text@, old(spans)@)),
    ensures
        spans_within(text@, final(spans)@),
        ascending(cuts(text@, final(spans)@)),
        cuts(text@, final(spans)@).to_set() == cuts(text@, old(spans)@).to_set().insert(
            text@.subrange(a as int, b as int),
        ),
{
    let item = slice_subrange(text, a, b);
    let ghost before = cuts(text@, spans@);
    let mut i: usize = 0;
    loop
        invariant
            a <= b <= text@.len(),
            item@ == text@.subrange(a as int, b as int),
            i <= spans@.len(),
            *spans == *old(spans),
            before == cuts(text@, spans@),
            spans_within(text@, spans@),
            ascending(before),
            forall|k: int| 0 <= k < i ==> lex_lt(#[trigger] before[k], item@),
        decreases spans@.len() - i,
    {
        let order = if i == spans.len() {
            Order::Greater
        } else {
            let (c, d) = spans[i];
            let other = slice_subrange(text, c, d);
            assert(other@ == before[i as int]);
            lex_order(other, item)
        };
        match order {
            Order::Less => {
                i += 1;
            },
            Order::Equal => {
                proof {
                    assert(before.to_set().contains(item@));
                    assert(before.to_set() =~= before.to_set().insert(item@));
                }
                return ;
            },
            Order::Greater => {
                spans.insert(i, (a, b));
                proof {
                    assert(cuts(text@, spans@) =~= before.insert(i as int, item@));
                    lemma_ascending_insert(before, i as int, item@);
                }
                return ;
            },
        }
    }
}

/// Finds the fingerprints of a listing, as stretches of `text` in ascending
/// order of what they hold, each fingerprint once.
pub(crate) fn fingerprint_spans(text: &[char]) -> (spans: Vec<(usize, usize)>)
    ensures
        spans_within(text@, spans@),
        ascending(cuts(text@, spans@)),
        cuts(text@, spans@).to_set() == fingerprints(text@),
{
    let mut spans: Vec<(usize, usize)> = Vec::new();
    let mut pos: usize = 0;
    proof {
        assert(text@.skip(0) == text@);
        assert(cuts(text@, spans@).to_set() =~= Set::<Seq<char>>::empty());
        assert(fingerprints(text@) =~= Set::<Seq<char>>::empty().union(fingerprints(text@)));
    }
    loop
        invariant
            pos <= text@.len(),
            spans_within(text@, spans@),
            ascending(cuts(text@, spans@)),
            fingerprints(text@) == cuts(text@, spans@).to_set().union(
                fingerprints(text@.skip(pos as int)),
            ),
        decreases text@.len() - pos,
    {
        let end = find_char(text, pos, '\n');
        let line = slice_subrange(text, pos, end);
        let ghost rest = text@.skip(pos as int);
        let ghost found = cuts(text@, spans@).to_set();
        proof {
            assert(line@ == rest.take(end - pos));
        }
        match fingerprint_span(line) {
            Some((a, b)) => {
                assert(line@.subrange(a as int, b as int) == text@.subrange(pos + a, pos + b));
                insert_span(text, &mut spans, pos + a, pos + b);
            },
            None => {},
        }
        let ghost found_now = cuts(text@, spans@).to_set();
        if end == text.len() {
            proof {
                assert(rest.take(end - pos) == rest);
                assert(split(rest, '\n') == seq![rest]);
                assert(seq![rest] =~= seq![rest] + Seq::<Seq<char>>::empty());
                lemma_fingerprints_in_first(rest, Seq::empty());
                assert(fingerprints_in(Seq::empty()) =~= Set::<Seq<char>>::empty());
                assert(found_now =~= found.union(fingerprints(rest)));
            }
            return spans;
        }
        proof {
            let more = split(rest.skip(end - pos + 1), '\n');
            assert(rest.skip(end - pos + 1) == text@.skip(end + 1));
            assert(split(rest, '\n') == seq![line@] + more);
            lemma_fingerprints_in_first(line@, more);
            assert(found.union(fingerprints(rest)) =~= found_now.union(fingerprints_in(more)));
        }
        pos = end + 1;
    }
}

} // verus!
