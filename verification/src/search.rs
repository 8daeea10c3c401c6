use vstd::prelude::*;

use crate::text::{
    ascii_lower, blen, blen_range, chars_of, is_white_space, is_whitespace, lemma_blen_push,
    lemma_blen_split, lemma_blen_take_mono, lemma_encode_concat, lemma_skip_back_run, lower_byte,
    lower_seq, skip_back, str_blen, string_from_chars, string_from_range, strings_view,
    to_ascii_lower, to_ascii_lower_byte, utf8_len,
};
use vstd::utf8::{encode_scalar, encode_utf8};

verus! {

/// One occurrence of the query inside a whitespace-delimited token of the pane.
/// `col`, `match_start` and `match_end` are byte offsets: `col` of the token in
/// its line, the other two of the match in the token.
#[derive(Debug)]
pub struct SearchMatch {
    pub text: String,
    pub line: usize,
    pub col: usize,
    pub label: Option<char>,
    pub match_start: usize,
    pub match_end: usize,
}

/// The pane's lines and the matches of the last search.
#[derive(Debug)]
pub struct SearchInterface {
    pub lines: Vec<String>,
    matches: Vec<SearchMatch>,
    label_chars: String,
}

/// The lines joined back together with `'\n'` between them.
pub open spec fn join_lines(lines: Seq<Seq<char>>) -> Seq<char>
    decreases lines.len(),
{
    if lines.len() == 0 {
        Seq::empty()
    } else if lines.len() == 1 {
        lines[0]
    } else {
        join_lines(lines.drop_last()) + seq!['\n'] + lines.last()
    }
}

/// `lines` is the result of splitting `content` at every `'\n'`.
pub open spec fn is_line_split(content: Seq<char>, lines: Seq<Seq<char>>) -> bool {
    &&& lines.len() >= 1
    &&& join_lines(lines) == content
    &&& forall|i: int, k: int|
        0 <= i < lines.len() && 0 <= k < lines[i].len() ==> #[trigger] lines[i][k] != '\n'
}

/// `line[a..b]` is a maximal run of non-whitespace characters.
pub open spec fn is_token(line: Seq<char>, a: int, b: int) -> bool {
    &&& 0 <= a < b <= line.len()
    &&& forall|i: int| a <= i < b ==> !is_white_space(#[trigger] line[i])
    &&& (a == 0 || is_white_space(line[a - 1]))
    &&& (b == line.len() || is_white_space(line[b]))
}

/// `q` occurs in `t` at character position `p`, ignoring ASCII case.
pub open spec fn ci_match_at(t: Seq<char>, q: Seq<char>, p: int) -> bool {
    &&& 0 <= p
    &&& p + q.len() <= t.len()
    &&& lower_seq(t.subrange(p, p + q.len())) == lower_seq(q)
}

/// `m` records the occurrence of `q` at character `p` of the token `line[a..b]`,
/// with the label left aside.
pub open spec fn match_in_line(
    m: SearchMatch,
    line: Seq<char>,
    q: Seq<char>,
    a: int,
    b: int,
    p: int,
) -> bool {
    &&& is_token(line, a, b)
    &&& ci_match_at(line.subrange(a, b), q, p)
    &&& m.text@ == line.subrange(a, b)
    &&& m.col == blen(line.take(a))
    &&& m.match_start == blen(m.text@.take(p))
    &&& m.match_end == blen(m.text@.take(p + q.len()))
}

pub open spec fn match_of(
    m: SearchMatch,
    lines: Seq<Seq<char>>,
    q: Seq<char>,
    a: int,
    b: int,
    p: int,
) -> bool {
    &&& m.line < lines.len()
    &&& match_in_line(m, lines[m.line as int], q, a, b, p)
}

/// `m1` comes before `m2` in (line, column, match start) order.
pub open spec fn key_lt(m1: SearchMatch, m2: SearchMatch) -> bool {
    ||| m1.line < m2.line
    ||| m1.line == m2.line && m1.col < m2.col
    ||| m1.line == m2.line && m1.col == m2.col && m1.match_start < m2.match_start
}

/// `ms` holds every occurrence of `q` in a token of `lines`, each once, in
/// decreasing (line, column, match start) order.
pub open spec fn found_matches(lines: Seq<Seq<char>>, q: Seq<char>, ms: Seq<SearchMatch>) -> bool {
    &&& all_occurrences(lines, q, ms)
    &&& occurrences_recorded(lines, q, ms, lines.len() as int)
    &&& descending(ms)
}

/// The matches are in strictly decreasing (line, column, match start) order.
pub open spec fn descending(ms: Seq<SearchMatch>) -> bool {
    forall|j: int, k: int| 0 <= j < k < ms.len() ==> #[trigger] key_lt(ms[k], ms[j])
}

/// `m` records some occurrence of `q` in `lines`.
pub open spec fn records_occurrence(m: SearchMatch, lines: Seq<Seq<char>>, q: Seq<char>) -> bool {
    exists|a: int, b: int, p: int| match_of(m, lines, q, a, b, p)
}

/// Every match of `ms` is an occurrence of `q` in `lines`.
pub open spec fn all_occurrences(lines: Seq<Seq<char>>, q: Seq<char>, ms: Seq<SearchMatch>) -> bool {
    forall|j: int| 0 <= j < ms.len() ==> records_occurrence(#[trigger] ms[j], lines, q)
}

/// `q` occurs at character `p` of the token `lines[i][a..b]`.
pub open spec fn occurs(lines: Seq<Seq<char>>, q: Seq<char>, i: int, a: int, b: int, p: int) -> bool {
    &&& 0 <= i < lines.len()
    &&& is_token(lines[i], a, b)
    &&& ci_match_at(lines[i].subrange(a, b), q, p)
}

/// Every occurrence of `q` in lines `0..upto` of `lines` is recorded in `ms`.
pub open spec fn occurrences_recorded(
    lines: Seq<Seq<char>>,
    q: Seq<char>,
    ms: Seq<SearchMatch>,
    upto: int,
) -> bool {
    forall|i: int, a: int, b: int, p: int|
        i < upto && #[trigger] occurs(lines, q, i, a, b, p) ==> exists|j: int|
            0 <= j < ms.len() && #[trigger] ms[j].line == i && ms[j].col == blen(lines[i].take(a))
                && ms[j].match_start == blen(lines[i].subrange(a, b).take(p))
}

/// The ASCII-lower-cased values of the bytes `bs`.
pub open spec fn lowered_bytes(bs: Seq<u8>) -> Set<u8> {
    Set::new(|x: u8| exists|i: int| 0 <= i < bs.len() && lower_byte(bs[i]) == x)
}

/// The lower-cased byte that follows the match, for every match that does not
/// end its token.
pub open spec fn next_byte_set(ms: Seq<SearchMatch>) -> Set<u8> {
    Set::new(
        |x: u8|
            exists|j: int|
                0 <= j < ms.len() && ms[j].match_end < encode_utf8(ms[j].text@).len() && lower_byte(
                    encode_utf8(ms[j].text@)[ms[j].match_end as int],
                ) == x,
    )
}

/// The first label byte that is neither used yet nor blocked once lower-cased.
pub open spec fn first_free_label(labels: Seq<u8>, used: Set<u8>, blocked: Set<u8>) -> Option<u8>
    decreases labels.len(),
{
    if labels.len() == 0 {
        None
    } else if !used.contains(labels[0]) && !blocked.contains(lower_byte(labels[0])) {
        Some(labels[0])
    } else {
        first_free_label(labels.drop_first(), used, blocked)
    }
}

/// The label bytes that the matches before `j` carry.
pub open spec fn labels_used_before(ms: Seq<SearchMatch>, j: int) -> Set<u8> {
    Set::new(|b: u8| exists|k: int| 0 <= k < j && ms[k].label == Some(b as char))
}

/// The bytes that no label of match `j` may equal once lower-cased: those of
/// the query, those that follow any match, and those of the match's token.
pub open spec fn blocked_bytes(ms: Seq<SearchMatch>, q: Seq<char>, j: int) -> Set<u8> {
    lowered_bytes(encode_utf8(q)).union(next_byte_set(ms)).union(
        lowered_bytes(encode_utf8(ms[j].text@)),
    )
}

/// The label that match `j` receives.
pub open spec fn label_rule(ms: Seq<SearchMatch>, q: Seq<char>, label_chars: Seq<char>, j: int) -> Option<
    char,
> {
    match first_free_label(
        encode_utf8(label_chars),
        labels_used_before(ms, j),
        blocked_bytes(ms, q, j),
    ) {
        Some(b) => Some(b as char),
        None => None,
    }
}

/// Every match carries the label that the labelling rule gives it.
pub open spec fn labels_assigned(ms: Seq<SearchMatch>, q: Seq<char>, label_chars: Seq<char>) -> bool {
    forall|j: int| 0 <= j < ms.len() ==> #[trigger] ms[j].label == label_rule(ms, q, label_chars, j)
}

pub open spec fn same_but_label(m1: SearchMatch, m2: SearchMatch) -> bool {
    &&& m1.text@ == m2.text@
    &&& m1.line == m2.line
    &&& m1.col == m2.col
    &&& m1.match_start == m2.match_start
    &&& m1.match_end == m2.match_end
}

/// `t` is a table of 256 flags that holds exactly the bytes of `s`.
pub open spec fn table_is(t: Seq<bool>, s: Set<u8>) -> bool {
    &&& t.len() == 256
    &&& forall|x: u8| #[trigger] t[x as int] == s.contains(x)
}

/// The first match of `ms` that carries `label`.
pub open spec fn first_with_label(ms: Seq<SearchMatch>, label: char) -> Option<SearchMatch>
    decreases ms.len(),
{
    if ms.len() == 0 {
        None
    } else if ms[0].label == Some(label) {
        Some(ms[0])
    } else {
        first_with_label(ms.drop_first(), label)
    }
}

/// The first match of `ms` on one of the first `max_lines` lines.
pub open spec fn first_visible(ms: Seq<SearchMatch>, max_lines: usize) -> Option<SearchMatch>
    decreases ms.len(),
{
    if ms.len() == 0 {
        None
    } else if ms[0].line < max_lines {
        Some(ms[0])
    } else {
        first_visible(ms.drop_first(), max_lines)
    }
}

/// The matches of `ms` on line `line_num`, in order.
pub open spec fn matches_on_line(ms: Seq<SearchMatch>, line_num: usize) -> Seq<SearchMatch> {
    ms.filter(|m: SearchMatch| m.line == line_num)
}

proof fn lemma_on_line_step(ms: Seq<SearchMatch>, line_num: usize, j: int)
    requires
        0 <= j < ms.len(),
    ensures
        matches_on_line(ms.take(j + 1), line_num) == if ms[j].line == line_num {
            matches_on_line(ms.take(j), line_num).push(ms[j])
        } else {
            matches_on_line(ms.take(j), line_num)
        },
{
    reveal(Seq::filter);
    assert(ms.take(j + 1).drop_last() =~= ms.take(j));
}

/// Whether `line[start..start + q.len()]` equals `q` up to ASCII case.
fn ascii_case_insensitive_eq(line: &Vec<char>, start: usize, q: &Vec<char>) -> (r: bool)
    requires
        start + q@.len() <= line@.len(),
    ensures
        r == (lower_seq(line@.subrange(start as int, start + q@.len())) == lower_seq(q@)),
{
    let m = q.len();
    let mut k: usize = 0;
    while k < m
        invariant
            k <= m == q@.len(),
            start + m <= line@.len(),
            line@.len() == line.len(),
            forall|i: int|
                0 <= i < k ==> ascii_lower(#[trigger] line@[start + i]) == ascii_lower(q@[i]),
        decreases m - k,
    {
        if to_ascii_lower(line[start + k]) != to_ascii_lower(q[k]) {
            proof {
                let l = lower_seq(line@.subrange(start as int, start + m));
                assert(l[k as int] != lower_seq(q@)[k as int]);
            }
            return false;
        }
        k = k + 1;
    }
    proof {
        let l = lower_seq(line@.subrange(start as int, start + m));
        assert forall|i: int| 0 <= i < m implies l[i] == lower_seq(q@)[i] by {
            assert(ascii_lower(line@[start + i]) == ascii_lower(q@[i]));
        }
        assert(l =~= lower_seq(q@));
    }
    true
}

/// Appends, in increasing order of position, the occurrences of `q` in the
/// token `line[a..b]`.
fn scan_token(
    line: &Vec<char>,
    a: usize,
    b: usize,
    col: usize,
    line_idx: usize,
    q: &Vec<char>,
    out: &mut Vec<SearchMatch>,
)
    requires
        is_token(line@, a as int, b as int),
        col == blen(line@.take(a as int)),
        q@.len() > 0,
        blen(line@) <= usize::MAX,
    ensures
        final(out)@.len() >= old(out)@.len(),
        final(out)@.take(old(out)@.len() as int) == old(out)@,
        forall|k: int|
            old(out)@.len() <= k < final(out)@.len() ==> {
                &&& (#[trigger] final(out)@[k]).line == line_idx
                &&& final(out)@[k].label is None
                &&& exists|p: int|
                    match_in_line(final(out)@[k], line@, q@, a as int, b as int, p)
            },
        forall|p: int|
            #[trigger] ci_match_at(line@.subrange(a as int, b as int), q@, p) ==> exists|k: int|
                old(out)@.len() <= k < final(out)@.len() && #[trigger] final(out)@[k].match_start
                    == blen(line@.subrange(a as int, b as int).take(p)),
        forall|k1: int, k2: int|
            old(out)@.len() <= k1 < k2 < final(out)@.len() ==> #[trigger] final(out)@[k1].match_start
                < #[trigger] final(out)@[k2].match_start,
{
    let ghost t = line@.subrange(a as int, b as int);
    let ghost start_len = out@.len();
    let text = string_from_range(line, a, b);
    let tlen = b - a;
    let m = q.len();
    let mut p: usize = 0;
    let mut ms: usize = 0;
    proof {
        lemma_blen_split(line@, a as int, b as int);
        assert(t.take(0) =~= Seq::<char>::empty());
    }
    while m <= tlen - p
        invariant
            is_token(line@, a as int, b as int),
            t == line@.subrange(a as int, b as int),
            text@ == t,
            tlen == b - a,
            m == q@.len() > 0,
            col == blen(line@.take(a as int)),
            blen(line@) <= usize::MAX,
            blen(t) <= usize::MAX,
            p <= tlen,
            ms == blen(t.take(p as int)),
            out@.len() >= start_len,
            out@.take(start_len as int) == old(out)@,
            forall|k: int|
                start_len <= k < out@.len() ==> {
                    &&& (#[trigger] out@[k]).line == line_idx
                    &&& out@[k].label is None
                    &&& out@[k].match_start < ms
                    &&& exists|pp: int| match_in_line(out@[k], line@, q@, a as int, b as int, pp)
                },
            forall|pp: int|
                0 <= pp < p && #[trigger] ci_match_at(t, q@, pp) ==> exists|k: int|
                    start_len <= k < out@.len() && #[trigger] out@[k].match_start == blen(
                        t.take(pp),
                    ),
            forall|k1: int, k2: int|
                start_len <= k1 < k2 < out@.len() ==> #[trigger] out@[k1].match_start
                    < #[trigger] out@[k2].match_start,
        decreases tlen - p,
    {
        let ghost prev = out@;
        if ascii_case_insensitive_eq(line, a + p, q) {
            proof {
                assert(t.subrange(p as int, p + m) =~= line@.subrange(a + p, a + p + m));
                lemma_blen_split(t, p as int, p + m);
                lemma_blen_split(line@, a + p, a + p + m);
                lemma_blen_split(line@, 0, a + p + m);
                assert(line@.take(0) =~= Seq::<char>::empty());
            }
            let me = ms + blen_range(line, a + p, a + p + m);
            let item = SearchMatch {
                text: text.clone(),
                line: line_idx,
                col,
                label: None,
                match_start: ms,
                match_end: me,
            };
            proof {
                assert(ci_match_at(t, q@, p as int));
                assert(match_in_line(item, line@, q@, a as int, b as int, p as int));
            }
            out.push(item);
            proof {
                assert(out@.take(start_len as int) =~= prev.take(start_len as int));
                assert forall|k: int| start_len <= k < out@.len() implies {
                    &&& (#[trigger] out@[k]).line == line_idx
                    &&& out@[k].label is None
                    &&& out@[k].match_start <= ms
                    &&& exists|pp: int| match_in_line(out@[k], line@, q@, a as int, b as int, pp)
                } by {
                    if k < prev.len() {
                        assert(out@[k] == prev[k]);
                    } else {
                        assert(match_in_line(out@[k], line@, q@, a as int, b as int, p as int));
                    }
                }
                assert forall|pp: int|
                    0 <= pp < p + 1 && #[trigger] ci_match_at(t, q@, pp) implies exists|k: int|
                        start_len <= k < out@.len() && #[trigger] out@[k].match_start == blen(
                            t.take(pp),
                        ) by {
                    if pp < p {
                        let k = choose|k: int|
                            start_len <= k < prev.len() && #[trigger] prev[k].match_start == blen(
                                t.take(pp),
                            );
                        assert(out@[k] == prev[k]);
                    } else {
                        assert(out@[prev.len() as int].match_start == blen(t.take(pp)));
                    }
                }
            }
        } else {
            proof {
                assert(t.subrange(p as int, p + m) =~= line@.subrange(a + p, a + p + m));
                assert(!ci_match_at(t, q@, p as int));
            }
        }
        proof {
            lemma_blen_push(t.take(p as int), t[p as int]);
            assert(t.take(p as int).push(t[p as int]) =~= t.take(p + 1));
            lemma_blen_split(t, 0, p + 1);
            assert(t.take(0) =~= Seq::<char>::empty());
            assert(line@[a + p] == t[p as int]);
        }
        ms = ms + utf8_len(line[a + p]);
        p = p + 1;
    }
}

/// `new` is `old` followed by the occurrences of `q` in `line`, tagged with
/// line number `line_idx`, in increasing (column, match start) order.
#[verifier::opaque]
spec fn line_scanned(
    line: Seq<char>,
    line_idx: usize,
    q: Seq<char>,
    old: Seq<SearchMatch>,
    new: Seq<SearchMatch>,
) -> bool {
    &&& new.len() >= old.len()
    &&& new.take(old.len() as int) == old
    &&& forall|k: int|
        old.len() <= k < new.len() ==> {
            &&& (#[trigger] new[k]).line == line_idx
            &&& new[k].label is None
            &&& exists|a: int, b: int, p: int| match_in_line(new[k], line, q, a, b, p)
        }
    &&& forall|a: int, b: int, p: int|
        is_token(line, a, b) && #[trigger] ci_match_at(line.subrange(a, b), q, p) ==> exists|k: int|
            old.len() <= k < new.len() && #[trigger] new[k].col == blen(line.take(a))
                && new[k].match_start == blen(line.subrange(a, b).take(p))
    &&& forall|k1: int, k2: int|
        old.len() <= k1 < k2 < new.len() ==> key_lt(#[trigger] new[k1], #[trigger] new[k2])
}

#[verifier::spinoff_prover]
#[verifier::rlimit(40)]
proof fn lemma_gen_step(
    lines: Seq<Seq<char>>,
    q: Seq<char>,
    i: usize,
    prev: Seq<SearchMatch>,
    gen: Seq<SearchMatch>,
)
    requires
        i < lines.len(),
        line_scanned(lines[i as int], i, q, prev, gen),
        forall|k: int| 0 <= k < prev.len() ==> (#[trigger] prev[k]).line < i,
        all_occurrences(lines, q, prev),
        occurrences_recorded(lines, q, prev, i as int),
        forall|j: int, k: int| 0 <= j < k < prev.len() ==> key_lt(#[trigger] prev[j], #[trigger] prev[k]),
    ensures
        forall|k: int| 0 <= k < gen.len() ==> (#[trigger] gen[k]).line < i + 1,
        all_occurrences(lines, q, gen),
        occurrences_recorded(lines, q, gen, i + 1),
        forall|j: int, k: int| 0 <= j < k < gen.len() ==> key_lt(#[trigger] gen[j], #[trigger] gen[k]),
{
    reveal(line_scanned);
    let chars = lines[i as int];
    assert forall|k: int| 0 <= k < gen.len() implies (#[trigger] gen[k]).line < i + 1 by {
        if k < prev.len() {
            assert(gen[k] == prev[k]);
        }
    }
    assert forall|k: int| 0 <= k < gen.len() implies records_occurrence(#[trigger] gen[k], lines, q) by {
        if k < prev.len() {
            assert(gen[k] == prev[k]);
        } else {
            let (a, b, p) = choose|a: int, b: int, p: int| match_in_line(gen[k], chars, q, a, b, p);
            assert(match_of(gen[k], lines, q, a, b, p));
        }
    }
    assert forall|ii: int, a: int, b: int, p: int|
        ii < i + 1 && #[trigger] occurs(lines, q, ii, a, b, p) implies exists|j: int|
        0 <= j < gen.len() && #[trigger] gen[j].line == ii && gen[j].col == blen(lines[ii].take(a))
            && gen[j].match_start == blen(lines[ii].subrange(a, b).take(p)) by {
        if ii < i {
            let j = choose|j: int|
                0 <= j < prev.len() && #[trigger] prev[j].line == ii && prev[j].col == blen(
                    lines[ii].take(a),
                ) && prev[j].match_start == blen(lines[ii].subrange(a, b).take(p));
            assert(gen[j] == prev[j]);
        } else {
            assert(ci_match_at(chars.subrange(a, b), q, p));
            let j = choose|j: int|
                prev.len() <= j < gen.len() && #[trigger] gen[j].col == blen(chars.take(a))
                    && gen[j].match_start == blen(chars.subrange(a, b).take(p));
            assert(gen[j].line == ii);
        }
    }
    assert forall|j: int, k: int| 0 <= j < k < gen.len() implies key_lt(
        #[trigger] gen[j],
        #[trigger] gen[k],
    ) by {
        if k < prev.len() {
            assert(gen[j] == prev[j]);
            assert(gen[k] == prev[k]);
        } else if j < prev.len() {
            assert(gen[j] == prev[j]);
            assert(gen[k].line == i);
        }
    }
}

/// Appends, in increasing (column, match start) order, the occurrences of `q`
/// in the tokens of `line`.
#[verifier::spinoff_prover]
#[verifier::rlimit(40)]
fn scan_line(line: &Vec<char>, line_idx: usize, q: &Vec<char>, out: &mut Vec<SearchMatch>)
    requires
        q@.len() > 0,
        blen(line@) <= usize::MAX,
    ensures
        line_scanned(line@, line_idx, q@, old(out)@, final(out)@),
{
    reveal(line_scanned);
    let ghost start_len = out@.len();
    let n = line.len();
    let mut j: usize = 0;
    let mut off: usize = 0;
    proof {
        assert(line@.take(0) =~= Seq::<char>::empty());
    }
    while j < n
        invariant
            n == line@.len(),
            q@.len() > 0,
            blen(line@) <= usize::MAX,
            j <= n,
            off == blen(line@.take(j as int)),
            j == 0 || j == n || is_white_space(line@[j - 1]) || is_white_space(line@[j as int]),
            out@.len() >= start_len,
            out@.take(start_len as int) == old(out)@,
            forall|k: int|
                start_len <= k < out@.len() ==> {
                    &&& (#[trigger] out@[k]).line == line_idx
                    &&& out@[k].label is None
                    &&& out@[k].col < off
                    &&& exists|a: int, b: int, p: int| match_in_line(out@[k], line@, q@, a, b, p)
                },
            forall|a: int, b: int, p: int|
                a < j && is_token(line@, a, b) && #[trigger] ci_match_at(
                    line@.subrange(a, b),
                    q@,
                    p,
                ) ==> exists|k: int|
                    start_len <= k < out@.len() && #[trigger] out@[k].col == blen(line@.take(a))
                        && out@[k].match_start == blen(line@.subrange(a, b).take(p)),
            forall|k1: int, k2: int|
                start_len <= k1 < k2 < out@.len() ==> key_lt(
                    #[trigger] out@[k1],
                    #[trigger] out@[k2],
                ),
        decreases n - j,
    {
        if is_whitespace(line[j]) {
            proof {
                lemma_blen_push(line@.take(j as int), line@[j as int]);
                assert(line@.take(j as int).push(line@[j as int]) =~= line@.take(j + 1));
                lemma_blen_split(line@, 0, j + 1);
                assert(line@.take(0) =~= Seq::<char>::empty());
                assert forall|a: int, b: int, p: int|
                    a < j + 1 && is_token(line@, a, b) && #[trigger] ci_match_at(
                        line@.subrange(a, b),
                        q@,
                        p,
                    ) implies a < j by {
                    if a == j {
                        assert(!is_white_space(line@[a]));
                    }
                }
            }
            off = off + utf8_len(line[j]);
            j = j + 1;
        } else {
            let a = j;
            let col = off;
            while j < n && !is_whitespace(line[j])
                invariant
                    n == line@.len(),
                    blen(line@) <= usize::MAX,
                    a <= j <= n,
                    off == blen(line@.take(j as int)),
                    forall|i: int| a <= i < j ==> !is_white_space(#[trigger] line@[i]),
                decreases n - j,
            {
                proof {
                    lemma_blen_push(line@.take(j as int), line@[j as int]);
                    assert(line@.take(j as int).push(line@[j as int]) =~= line@.take(j + 1));
                    lemma_blen_split(line@, 0, j + 1);
                    assert(line@.take(0) =~= Seq::<char>::empty());
                }
                off = off + utf8_len(line[j]);
                j = j + 1;
            }
            let b = j;
            let ghost prev = out@;
            proof {
                assert(!is_white_space(line@[a as int]));
                assert(is_token(line@, a as int, b as int));
                lemma_blen_take_mono(line@, a as int, b as int);
            }
            scan_token(line, a, b, col, line_idx, q, out);
            proof {
                assert(out@.take(start_len as int) =~= prev.take(start_len as int));
                assert forall|k: int| start_len <= k < out@.len() implies {
                    &&& (#[trigger] out@[k]).line == line_idx
                    &&& out@[k].label is None
                    &&& out@[k].col < off
                    &&& exists|a: int, b: int, p: int| match_in_line(out@[k], line@, q@, a, b, p)
                } by {
                    if k < prev.len() {
                        assert(out@[k] == prev[k]);
                    } else {
                        let p = choose|p: int|
                            match_in_line(out@[k], line@, q@, a as int, b as int, p);
                        assert(match_in_line(out@[k], line@, q@, a as int, b as int, p));
                    }
                }
                assert forall|k1: int, k2: int|
                    start_len <= k1 < k2 < out@.len() implies key_lt(
                    #[trigger] out@[k1],
                    #[trigger] out@[k2],
                ) by {
                    if k2 < prev.len() {
                        assert(out@[k1] == prev[k1]);
                        assert(out@[k2] == prev[k2]);
                    } else if k1 < prev.len() {
                        assert(out@[k1] == prev[k1]);
                        let p = choose|p: int|
                            match_in_line(out@[k2], line@, q@, a as int, b as int, p);
                        assert(out@[k2].col == col);
                    } else {
                        let p1 = choose|p: int|
                            match_in_line(out@[k1], line@, q@, a as int, b as int, p);
                        let p2 = choose|p: int|
                            match_in_line(out@[k2], line@, q@, a as int, b as int, p);
                        assert(out@[k1].match_start < out@[k2].match_start);
                    }
                }
                assert forall|aa: int, bb: int, p: int|
                    aa < j && is_token(line@, aa, bb) && #[trigger] ci_match_at(
                        line@.subrange(aa, bb),
                        q@,
                        p,
                    ) implies exists|k: int|
                    start_len <= k < out@.len() && #[trigger] out@[k].col == blen(line@.take(aa))
                        && out@[k].match_start == blen(line@.subrange(aa, bb).take(p)) by {
                    if aa < a {
                        let k = choose|k: int|
                            start_len <= k < prev.len() && #[trigger] prev[k].col == blen(
                                line@.take(aa),
                            ) && prev[k].match_start == blen(line@.subrange(aa, bb).take(p));
                        assert(out@[k] == prev[k]);
                    } else {
                        if aa > a {
                            assert(!is_white_space(line@[aa - 1]));
                        }
                        assert(aa == a);
                        if bb < b {
                            assert(!is_white_space(line@[bb]));
                        }
                        if bb > b {
                            assert(!is_white_space(line@[b as int]));
                        }
                        assert(bb == b);
                        let k = choose|k: int|
                            prev.len() <= k < out@.len() && #[trigger] out@[k].match_start
                                == blen(line@.subrange(a as int, b as int).take(p));
                        let pk = choose|pp: int|
                            match_in_line(out@[k], line@, q@, a as int, b as int, pp);
                        assert(out@[k].col == blen(line@.take(aa)));
                    }
                }
            }
        }
    }
}

fn lowered_byte_table(bs: &[u8]) -> (t: Vec<bool>)
    ensures
        table_is(t@, lowered_bytes(bs@)),
{
    let mut t: Vec<bool> = vec![false; 256];
    let n = bs.len();
    for i in 0..n
        invariant
            n == bs@.len(),
            t@.len() == 256,
            forall|x: u8|
                #[trigger] t@[x as int] == exists|k: int| 0 <= k < i && lower_byte(bs@[k]) == x,
    {
        let lb = to_ascii_lower_byte(bs[i]);
        t.set(lb as usize, true);
        proof {
            assert forall|x: u8|
                #[trigger] t@[x as int] == exists|k: int|
                    0 <= k < i + 1 && lower_byte(bs@[k]) == x by {
                if x == lb {
                    assert(lower_byte(bs@[i as int]) == x);
                }
            }
        }
    }
    proof {
        assert forall|x: u8| #[trigger] t@[x as int] == lowered_bytes(bs@).contains(x) by {
        }
    }
    t
}

fn next_byte_table(ms: &Vec<SearchMatch>) -> (t: Vec<bool>)
    ensures
        table_is(t@, next_byte_set(ms@)),
{
    let mut t: Vec<bool> = vec![false; 256];
    let n = ms.len();
    for j in 0..n
        invariant
            n == ms@.len(),
            t@.len() == 256,
            forall|x: u8|
                #[trigger] t@[x as int] == exists|k: int|
                    0 <= k < j && ms@[k].match_end < encode_utf8(ms@[k].text@).len() && lower_byte(
                        encode_utf8(ms@[k].text@)[ms@[k].match_end as int],
                    ) == x,
    {
        let tb = ms[j].text.as_str().as_bytes();
        let me = ms[j].match_end;
        if me < tb.len() {
            let lb = to_ascii_lower_byte(tb[me]);
            t.set(lb as usize, true);
            proof {
                assert forall|x: u8|
                    #[trigger] t@[x as int] == exists|k: int|
                        0 <= k < j + 1 && ms@[k].match_end < encode_utf8(ms@[k].text@).len()
                            && lower_byte(encode_utf8(ms@[k].text@)[ms@[k].match_end as int]) == x by {
                    if x == lb {
                        assert(lower_byte(encode_utf8(ms@[j as int].text@)[ms@[j as int].match_end as int]) == x);
                    }
                }
            }
        } else {
            proof {
                assert forall|x: u8|
                    #[trigger] t@[x as int] == exists|k: int|
                        0 <= k < j + 1 && ms@[k].match_end < encode_utf8(ms@[k].text@).len()
                            && lower_byte(encode_utf8(ms@[k].text@)[ms@[k].match_end as int]) == x by {
                    if exists|k: int|
                        0 <= k < j + 1 && ms@[k].match_end < encode_utf8(ms@[k].text@).len()
                            && lower_byte(encode_utf8(ms@[k].text@)[ms@[k].match_end as int]) == x {
                        let k = choose|k: int|
                            0 <= k < j + 1 && ms@[k].match_end < encode_utf8(ms@[k].text@).len()
                                && lower_byte(encode_utf8(ms@[k].text@)[ms@[k].match_end as int])
                                == x;
                        assert(k != j);
                    }
                }
            }
        }
    }
    proof {
        assert forall|x: u8| #[trigger] t@[x as int] == next_byte_set(ms@).contains(x) by {
        }
    }
    t
}

/// The first byte of `labels` not in `used` whose lower-cased value is in none
/// of the three blocked tables.
fn pick_label(
    labels: &[u8],
    used: &Vec<bool>,
    query_set: &Vec<bool>,
    next_set: &Vec<bool>,
    token_set: &Vec<bool>,
    Ghost(used_s): Ghost<Set<u8>>,
    Ghost(blocked): Ghost<Set<u8>>,
) -> (r: Option<u8>)
    requires
        used@.len() == 256,
        query_set@.len() == 256,
        next_set@.len() == 256,
        token_set@.len() == 256,
        forall|x: u8| #[trigger] used@[x as int] == used_s.contains(x),
        forall|x: u8|
            blocked.contains(x) == (#[trigger] query_set@[x as int] || next_set@[x as int]
                || token_set@[x as int]),
    ensures
        r == first_free_label(labels@, used_s, blocked),
{
    let n = labels.len();
    let mut i: usize = 0;
    assert(labels@.skip(0) =~= labels@);
    while i < n
        invariant
            n == labels@.len(),
            i <= n,
            used@.len() == 256,
            query_set@.len() == 256,
            next_set@.len() == 256,
            token_set@.len() == 256,
            forall|x: u8| #[trigger] used@[x as int] == used_s.contains(x),
            forall|x: u8|
                blocked.contains(x) == (#[trigger] query_set@[x as int] || next_set@[x as int]
                    || token_set@[x as int]),
            first_free_label(labels@, used_s, blocked) == first_free_label(
                labels@.skip(i as int),
                used_s,
                blocked,
            ),
        decreases n - i,
    {
        let b = labels[i];
        let lb = to_ascii_lower_byte(b);
        proof {
            assert(labels@.skip(i as int)[0] == b);
            assert(labels@.skip(i as int).drop_first() =~= labels@.skip(i + 1));
            assert(used@[b as int] == used_s.contains(b));
            assert(blocked.contains(lb) == (query_set@[lb as int] || next_set@[lb as int]
                || token_set@[lb as int]));
        }
        if !used[b as usize] && !query_set[lb as usize] && !next_set[lb as usize]
            && !token_set[lb as usize] {
            return Some(b);
        }
        i = i + 1;
    }
    proof {
        assert(labels@.skip(i as int).len() == 0);
    }
    None
}

/// Gives each match, in order, the first label character that is unused and
/// that appears (ASCII case aside) neither in the query, nor right after any
/// match, nor in the match's own token.
fn assign_labels(matches: &mut Vec<SearchMatch>, query: &str, label_chars: &str)
    ensures
        final(matches)@.len() == old(matches)@.len(),
        forall|j: int|
            0 <= j < final(matches)@.len() ==> same_but_label(
                #[trigger] final(matches)@[j],
                old(matches)@[j],
            ),
        labels_assigned(final(matches)@, query@, label_chars@),
{
    let ghost orig = matches@;
    let query_set = lowered_byte_table(query.as_bytes());
    let next_set = next_byte_table(matches);
    let labels = label_chars.as_bytes();
    let mut used: Vec<bool> = vec![false; 256];
    let n = matches.len();
    proof {
        assert forall|x: u8| #[trigger] used@[x as int] == labels_used_before(matches@, 0).contains(
            x,
        ) by {
            assert(cloned(false, used@[x as int]));
        }
    }
    for j in 0..n
        invariant
            n == matches@.len() == orig.len(),
            used@.len() == 256,
            labels@ == encode_utf8(label_chars@),
            table_is(query_set@, lowered_bytes(encode_utf8(query@))),
            table_is(next_set@, next_byte_set(orig)),
            forall|k: int| 0 <= k < n ==> same_but_label(#[trigger] matches@[k], orig[k]),
            forall|x: u8| #[trigger] used@[x as int] == labels_used_before(matches@, j as int).contains(x),
            forall|k: int|
                0 <= k < j ==> #[trigger] matches@[k].label == label_rule(
                    matches@,
                    query@,
                    label_chars@,
                    k,
                ),
    {
        let token_set = lowered_byte_table(matches[j].text.as_str().as_bytes());
        let ghost before = matches@;
        proof {
            assert(next_byte_set(before) =~= next_byte_set(orig)) by {
                assert forall|x: u8| next_byte_set(before).contains(x) == next_byte_set(orig).contains(x) by {
                    if next_byte_set(orig).contains(x) {
                        let k = choose|k: int|
                            0 <= k < orig.len() && orig[k].match_end < encode_utf8(orig[k].text@).len()
                                && lower_byte(encode_utf8(orig[k].text@)[orig[k].match_end as int]) == x;
                        assert(same_but_label(before[k], orig[k]));
                    }
                    if next_byte_set(before).contains(x) {
                        let k = choose|k: int|
                            0 <= k < before.len() && before[k].match_end < encode_utf8(before[k].text@).len()
                                && lower_byte(encode_utf8(before[k].text@)[before[k].match_end as int]) == x;
                        assert(same_but_label(before[k], orig[k]));
                    }
                }
            }
        }
        let picked = pick_label(
            labels,
            &used,
            &query_set,
            &next_set,
            &token_set,
            Ghost(labels_used_before(before, j as int)),
            Ghost(blocked_bytes(before, query@, j as int)),
        );
        let label = match picked {
            Some(b) => Some(b as char),
            None => None,
        };
        matches[j].label = label;
        if let Some(b) = picked {
            used.set(b as usize, true);
        }
        proof {
            let after = matches@;
            assert(after =~= before.update(j as int, after[j as int]));
            assert(next_byte_set(after) =~= next_byte_set(before)) by {
                assert forall|x: u8| next_byte_set(after).contains(x) == next_byte_set(before).contains(x) by {
                    if next_byte_set(before).contains(x) {
                        let k = choose|k: int|
                            0 <= k < before.len() && before[k].match_end < encode_utf8(before[k].text@).len()
                                && lower_byte(encode_utf8(before[k].text@)[before[k].match_end as int]) == x;
                        assert(same_but_label(after[k], before[k]));
                    }
                    if next_byte_set(after).contains(x) {
                        let k = choose|k: int|
                            0 <= k < after.len() && after[k].match_end < encode_utf8(after[k].text@).len()
                                && lower_byte(encode_utf8(after[k].text@)[after[k].match_end as int]) == x;
                        assert(same_but_label(after[k], before[k]));
                    }
                }
            }
            assert forall|k: int| 0 <= k <= j implies labels_used_before(after, k) =~= labels_used_before(before, k) by {
                assert forall|b: u8| labels_used_before(after, k).contains(b) == labels_used_before(before, k).contains(b) by {
                    if labels_used_before(before, k).contains(b) {
                        let kk = choose|kk: int| 0 <= kk < k && before[kk].label == Some(b as char);
                        assert(after[kk] == before[kk]);
                    }
                    if labels_used_before(after, k).contains(b) {
                        let kk = choose|kk: int| 0 <= kk < k && after[kk].label == Some(b as char);
                        assert(after[kk] == before[kk]);
                    }
                }
            }
            assert forall|k: int| 0 <= k <= j implies blocked_bytes(after, query@, k) =~= blocked_bytes(before, query@, k) by {
                assert(after[k].text@ == before[k].text@);
            }
            assert forall|k: int| 0 <= k < j + 1 implies #[trigger] after[k].label == label_rule(
                after,
                query@,
                label_chars@,
                k,
            ) by {
                if k < j {
                    assert(after[k] == before[k]);
                }
            }
            assert forall|x: u8| #[trigger] used@[x as int] == labels_used_before(after, j + 1).contains(x) by {
                if labels_used_before(after, j + 1).contains(x) {
                    let kk = choose|kk: int| 0 <= kk < j + 1 && after[kk].label == Some(x as char);
                    if kk < j {
                        assert(labels_used_before(after, j as int).contains(x));
                    } else {
                        assert(picked == Some(x));
                    }
                }
                if used@[x as int] {
                    if labels_used_before(before, j as int).contains(x) {
                        let kk = choose|kk: int| 0 <= kk < j && before[kk].label == Some(x as char);
                        assert(after[kk].label == Some(x as char));
                    } else {
                        assert(picked == Some(x));
                        assert(after[j as int].label == Some(x as char));
                    }
                }
            }
            assert forall|k: int| 0 <= k < n implies same_but_label(#[trigger] after[k], orig[k]) by {
                if k != j {
                    assert(after[k] == before[k]);
                }
            }
        }
    }
}

proof fn lemma_match_of_same(
    m1: SearchMatch,
    m2: SearchMatch,
    lines: Seq<Seq<char>>,
    q: Seq<char>,
    a: int,
    b: int,
    p: int,
)
    requires
        match_of(m1, lines, q, a, b, p),
        same_but_label(m2, m1),
    ensures
        match_of(m2, lines, q, a, b, p),
{
}

proof fn lemma_relabel_keeps_found(
    lines: Seq<Seq<char>>,
    q: Seq<char>,
    ms1: Seq<SearchMatch>,
    ms2: Seq<SearchMatch>,
)
    requires
        found_matches(lines, q, ms1),
        ms2.len() == ms1.len(),
        forall|j: int| 0 <= j < ms2.len() ==> same_but_label(#[trigger] ms2[j], ms1[j]),
    ensures
        found_matches(lines, q, ms2),
{
    lemma_relabel_keeps_occurrences(lines, q, ms1, ms2);
    lemma_relabel_keeps_recorded(lines, q, ms1, ms2);
    assert forall|j: int, k: int| 0 <= j < k < ms2.len() implies #[trigger] key_lt(ms2[k], ms2[j]) by {
        assert(same_but_label(ms2[j], ms1[j]));
        assert(same_but_label(ms2[k], ms1[k]));
        assert(key_lt(ms1[k], ms1[j]));
    }
}

proof fn lemma_relabel_keeps_occurrences(
    lines: Seq<Seq<char>>,
    q: Seq<char>,
    ms1: Seq<SearchMatch>,
    ms2: Seq<SearchMatch>,
)
    requires
        all_occurrences(lines, q, ms1),
        ms2.len() == ms1.len(),
        forall|j: int| 0 <= j < ms2.len() ==> same_but_label(#[trigger] ms2[j], ms1[j]),
    ensures
        all_occurrences(lines, q, ms2),
{
    assert forall|j: int| 0 <= j < ms2.len() implies records_occurrence(
        #[trigger] ms2[j],
        lines,
        q,
    ) by {
        assert(same_but_label(ms2[j], ms1[j]));
        let (a, b, p) = choose|a: int, b: int, p: int| match_of(ms1[j], lines, q, a, b, p);
        lemma_match_of_same(ms1[j], ms2[j], lines, q, a, b, p);
    }
}

proof fn lemma_relabel_keeps_recorded(
    lines: Seq<Seq<char>>,
    q: Seq<char>,
    ms1: Seq<SearchMatch>,
    ms2: Seq<SearchMatch>,
)
    requires
        occurrences_recorded(lines, q, ms1, lines.len() as int),
        ms2.len() == ms1.len(),
        forall|j: int| 0 <= j < ms2.len() ==> same_but_label(#[trigger] ms2[j], ms1[j]),
    ensures
        occurrences_recorded(lines, q, ms2, lines.len() as int),
{
    assert forall|i: int, a: int, b: int, p: int|
        i < lines.len() && #[trigger] occurs(lines, q, i, a, b, p) implies exists|j: int|
        0 <= j < ms2.len() && #[trigger] ms2[j].line == i && ms2[j].col == blen(lines[i].take(a))
            && ms2[j].match_start == blen(lines[i].subrange(a, b).take(p)) by {
        let j = choose|j: int|
            0 <= j < ms1.len() && #[trigger] ms1[j].line == i && ms1[j].col == blen(
                lines[i].take(a),
            ) && ms1[j].match_start == blen(lines[i].subrange(a, b).take(p));
        assert(same_but_label(ms2[j], ms1[j]));
    }
}

proof fn lemma_reverse_found(
    lines: Seq<Seq<char>>,
    q: Seq<char>,
    gen: Seq<SearchMatch>,
    ms: Seq<SearchMatch>,
)
    requires
        all_occurrences(lines, q, gen),
        occurrences_recorded(lines, q, gen, lines.len() as int),
        forall|j: int, k: int| 0 <= j < k < gen.len() ==> key_lt(#[trigger] gen[j], #[trigger] gen[k]),
        ms == gen.reverse(),
    ensures
        found_matches(lines, q, ms),
{
    assert forall|j: int| 0 <= j < ms.len() implies records_occurrence(#[trigger] ms[j], lines, q) by {
        assert(ms[j] == gen[gen.len() - 1 - j]);
    }
    assert forall|i: int, a: int, b: int, p: int|
        i < lines.len() && #[trigger] occurs(lines, q, i, a, b, p) implies exists|j: int|
        0 <= j < ms.len() && #[trigger] ms[j].line == i && ms[j].col == blen(lines[i].take(a))
            && ms[j].match_start == blen(lines[i].subrange(a, b).take(p)) by {
        let g = choose|g: int|
            0 <= g < gen.len() && #[trigger] gen[g].line == i && gen[g].col == blen(
                lines[i].take(a),
            ) && gen[g].match_start == blen(lines[i].subrange(a, b).take(p));
        let j = gen.len() - 1 - g;
        assert(ms[j] == gen[g]);
    }
    assert forall|j: int, k: int| 0 <= j < k < ms.len() implies #[trigger] key_lt(ms[k], ms[j]) by {
        assert(ms[j] == gen[gen.len() - 1 - j]);
        assert(ms[k] == gen[gen.len() - 1 - k]);
        assert(key_lt(gen[gen.len() - 1 - k], gen[gen.len() - 1 - j]));
    }
}

proof fn lemma_join_blen(lines: Seq<Seq<char>>, i: int)
    requires
        0 <= i < lines.len(),
    ensures
        blen(lines[i]) <= blen(join_lines(lines)),
    decreases lines.len(),
{
    if lines.len() > 1 {
        let init = lines.drop_last();
        lemma_encode_concat(join_lines(init) + seq!['\n'], lines.last());
        lemma_encode_concat(join_lines(init), seq!['\n']);
        if i < lines.len() - 1 {
            lemma_join_blen(init, i);
        }
    }
}

impl SearchInterface {
    /// Every line's UTF-8 encoding has a length that `usize` can hold.
    pub open spec fn wf(&self) -> bool {
        forall|i: int| 0 <= i < self.lines_view().len() ==> blen(#[trigger] self.lines_view()[i]) <= usize::MAX
    }

    /// Runs `query` over the pane: every case-insensitive occurrence of it in a
    /// whitespace-delimited token becomes a match, the matches are ordered from
    /// the bottom right of the pane to the top left, and labels are handed out
    /// in that order.  An empty query finds nothing.
    pub fn search(&mut self, query: &str) -> (res: &[SearchMatch])
        ensures
            final(self).lines_view() == old(self).lines_view(),
            final(self).spec_label_chars() == old(self).spec_label_chars(),
            query@.len() == 0 ==> final(self).spec_matches().len() == 0,
            query@.len() > 0 ==> found_matches(
                old(self).lines_view(),
                query@,
                final(self).spec_matches(),
            ),
            labels_assigned(final(self).spec_matches(), query@, old(self).spec_label_chars()),
            res@ == final(self).spec_matches(),
    {
        let ghost lines = self.lines_view();
        self.matches = Vec::new();
        if query.is_empty() {
            return self.matches.as_slice();
        }
        let q = chars_of(query);
        let mut gen: Vec<SearchMatch> = Vec::new();
        let nl = self.lines.len();
        for i in 0..nl
            invariant
                nl == lines.len(),
                lines == self.lines_view(),
                q@ == query@,
                q@.len() > 0,
                forall|k: int| 0 <= k < gen@.len() ==> (#[trigger] gen@[k]).line < i,
                all_occurrences(lines, q@, gen@),
                occurrences_recorded(lines, q@, gen@, i as int),
                forall|j: int, k: int|
                    0 <= j < k < gen@.len() ==> key_lt(#[trigger] gen@[j], #[trigger] gen@[k]),
        {
            let _ = str_blen(self.lines[i].as_str());
            let chars = chars_of(self.lines[i].as_str());
            let ghost prev = gen@;
            proof {
                assert(chars@ == lines[i as int]);
            }
            scan_line(&chars, i, &q, &mut gen);
            proof {
                lemma_gen_step(lines, q@, i, prev, gen@);
            }
        }
        let ghost all = gen@;
        let mut sorted: Vec<SearchMatch> = Vec::new();
        while gen.len() > 0
            invariant
                gen@ == all.take(gen@.len() as int),
                sorted@.len() + gen@.len() == all.len(),
                forall|k: int| 0 <= k < sorted@.len() ==> #[trigger] sorted@[k] == all[all.len() - 1 - k],
            decreases gen@.len(),
        {
            let ghost before = gen@;
            match gen.pop() {
                Some(m) => {
                    proof {
                        assert(m == all[gen@.len() as int]);
                    }
                    sorted.push(m);
                    proof {
                        assert(gen@ =~= all.take(gen@.len() as int));
                    }
                },
                None => {},
            }
        }
        proof {
            assert(sorted@ =~= all.reverse());
            lemma_reverse_found(lines, q@, all, sorted@);
        }
        let ghost unlabeled = sorted@;
        assign_labels(&mut sorted, query, self.label_chars.as_str());
        proof {
            lemma_relabel_keeps_found(lines, q@, unlabeled, sorted@);
        }
        self.matches = sorted;
        self.matches.as_slice()
    }

    /// The number of lines of the pane.
    pub(crate) fn line_count(&self) -> (n: usize)
        ensures
            n == self.lines_view().len(),
    {
        self.lines.len()
    }

    /// Line `i` of the pane.
    pub(crate) fn line(&self, i: usize) -> (l: &str)
        requires
            i < self.lines_view().len(),
        ensures
            l@ == self.lines_view()[i as int],
    {
        self.lines[i].as_str()
    }

    /// The first match, in search order, that carries `label`.
    pub fn get_match_by_label(&self, label: char) -> (r: Option<&SearchMatch>)
        ensures
            match (r, first_with_label(self.spec_matches(), label)) {
                (Some(m), Some(n)) => *m == n,
                (None, None) => true,
                _ => false,
            },
    {
        let ghost ms = self.spec_matches();
        let n = self.matches.len();
        let mut j: usize = 0;
        proof {
            assert(ms.skip(0) =~= ms);
        }
        while j < n
            invariant
                n == ms.len(),
                ms == self.spec_matches(),
                j <= n,
                first_with_label(ms, label) == first_with_label(ms.skip(j as int), label),
            decreases n - j,
        {
            proof {
                assert(ms.skip(j as int)[0] == ms[j as int]);
                assert(ms.skip(j as int).drop_first() =~= ms.skip(j + 1));
            }
            if self.matches[j].label == Some(label) {
                return Some(&self.matches[j]);
            }
            j = j + 1;
        }
        None
    }

    /// The first match, in search order, on one of the first `max_lines` lines.
    pub fn first_visible_match(&self, max_lines: usize) -> (r: Option<&SearchMatch>)
        ensures
            match (r, first_visible(self.spec_matches(), max_lines)) {
                (Some(m), Some(n)) => *m == n,
                (None, None) => true,
                _ => false,
            },
    {
        let ghost ms = self.spec_matches();
        let n = self.matches.len();
        let mut j: usize = 0;
        proof {
            assert(ms.skip(0) =~= ms);
        }
        while j < n
            invariant
                n == ms.len(),
                ms == self.spec_matches(),
                j <= n,
                first_visible(ms, max_lines) == first_visible(ms.skip(j as int), max_lines),
            decreases n - j,
        {
            proof {
                assert(ms.skip(j as int)[0] == ms[j as int]);
                assert(ms.skip(j as int).drop_first() =~= ms.skip(j + 1));
            }
            if self.matches[j].line < max_lines {
                return Some(&self.matches[j]);
            }
            j = j + 1;
        }
        None
    }

    /// The matches on line `line_num`, in search order.
    pub fn get_matches_at_line(&self, line_num: usize) -> (r: Vec<&SearchMatch>)
        ensures
            r@.len() == matches_on_line(self.spec_matches(), line_num).len(),
            forall|i: int|
                0 <= i < r@.len() ==> *r@[i] == #[trigger] matches_on_line(
                    self.spec_matches(),
                    line_num,
                )[i],
    {
        let ghost ms = self.spec_matches();
        let mut r: Vec<&SearchMatch> = Vec::new();
        let n = self.matches.len();
        let mut j: usize = 0;
        while j < n
            invariant
                n == ms.len(),
                j <= n,
                ms == self.spec_matches(),
                r@.len() == matches_on_line(ms.take(j as int), line_num).len(),
                forall|i: int|
                    0 <= i < r@.len() ==> *r@[i] == #[trigger] matches_on_line(
                        ms.take(j as int),
                        line_num,
                    )[i],
            decreases n - j,
        {
            proof {
                lemma_on_line_step(ms, line_num, j as int);
            }
            let ghost old_r = r@;
            let ghost acc = matches_on_line(ms.take(j as int), line_num);
            if self.matches[j].line == line_num {
                r.push(&self.matches[j]);
                proof {
                    assert forall|i: int| 0 <= i < r@.len() implies *r@[i] == #[trigger] matches_on_line(
                        ms.take(j + 1),
                        line_num,
                    )[i] by {
                        if i < old_r.len() {
                            assert(r@[i] == old_r[i]);
                            assert(acc[i] == acc.push(ms[j as int])[i]);
                        }
                    }
                }
            }
            j = j + 1;
        }
        proof {
            assert(ms.take(n as int) =~= ms);
        }
        r
    }

    /// The pane's lines, as character sequences.
    pub closed spec fn lines_view(&self) -> Seq<Seq<char>> {
        strings_view(self.lines@)
    }

    pub closed spec fn spec_matches(&self) -> Seq<SearchMatch> {
        self.matches@
    }

    pub closed spec fn spec_label_chars(&self) -> Seq<char> {
        self.label_chars@
    }

    /// Splits the pane content into lines; no search has run yet.
    pub fn new(pane_content: &str, label_chars: String) -> (s: Self)
        ensures
            is_line_split(pane_content@, s.lines_view()),
            s.spec_matches().len() == 0,
            s.spec_label_chars() == label_chars@,
            s.wf(),
    {
        let _ = str_blen(pane_content);
        let chars = chars_of(pane_content);
        let mut lines: Vec<String> = Vec::new();
        let mut cur: Vec<char> = Vec::new();
        for i in 0..chars.len()
            invariant
                chars@ == pane_content@,
                join_lines(strings_view(lines@).push(cur@)) == chars@.take(i as int),
                forall|j: int, k: int|
                    0 <= j < lines.len() && 0 <= k < lines@[j]@.len() ==> #[trigger] lines@[j]@[k]
                        != '\n',
                forall|k: int| 0 <= k < cur@.len() ==> #[trigger] cur@[k] != '\n',
        {
            let c = chars[i];
            let ghost old_lines = strings_view(lines@);
            let ghost old_cur = cur@;
            if c == '\n' {
                let s = string_from_chars(&cur);
                lines.push(s);
                cur = Vec::new();
                proof {
                    assert(strings_view(lines@) =~= old_lines.push(old_cur));
                    let nl = strings_view(lines@).push(cur@);
                    assert(nl.drop_last() =~= old_lines.push(old_cur));
                    assert(join_lines(nl) == join_lines(old_lines.push(old_cur)) + seq!['\n']
                        + Seq::<char>::empty());
                    assert(chars@.take(i + 1) =~= chars@.take(i as int).push(c));
                    assert(join_lines(nl) =~= chars@.take(i + 1));
                }
            } else {
                cur.push(c);
                proof {
                    let ol = old_lines.push(old_cur);
                    let nl = old_lines.push(cur@);
                    assert(strings_view(lines@).push(cur@) =~= nl);
                    assert(chars@.take(i + 1) =~= chars@.take(i as int).push(c));
                    if old_lines.len() == 0 {
                        assert(nl =~= seq![cur@]);
                        assert(ol =~= seq![old_cur]);
                    } else {
                        assert(nl.drop_last() =~= old_lines);
                        assert(ol.drop_last() =~= old_lines);
                    }
                    assert(join_lines(nl) =~= join_lines(ol).push(c));
                }
            }
        }
        let last = string_from_chars(&cur);
        let ghost before = strings_view(lines@);
        lines.push(last);
        proof {
            assert(strings_view(lines@) =~= before.push(cur@));
            assert(chars@.take(chars@.len() as int) =~= chars@);
            assert forall|i: int| 0 <= i < strings_view(lines@).len() implies blen(
                #[trigger] strings_view(lines@)[i],
            ) <= blen(pane_content@) by {
                lemma_join_blen(strings_view(lines@), i);
            }
        }
        SearchInterface { lines, matches: Vec::new(), label_chars }
    }
}

} // verus!

verus! {

/// The ASCII punctuation at which deleting the previous word stops.
pub open spec fn is_word_delimiter(c: char) -> bool {
    ||| c == '-'
    ||| c == '_'
    ||| c == '.'
    ||| c == ','
    ||| c == ';'
    ||| c == ':'
    ||| c == '!'
    ||| c == '?'
    ||| c == '/'
    ||| c == '\\'
    ||| c == '('
    ||| c == ')'
    ||| c == '['
    ||| c == ']'
    ||| c == '{'
    ||| c == '}'
}

fn is_ascii_delimiter(ch: char) -> (b: bool)
    ensures
        b == is_word_delimiter(ch),
{
    ch == '-' || ch == '_' || ch == '.' || ch == ',' || ch == ';' || ch == ':' || ch == '!' || ch
        == '?' || ch == '/' || ch == '\\' || ch == '(' || ch == ')' || ch == '[' || ch == ']' || ch
        == '{' || ch == '}'
}

/// What is left of `s` once trailing whitespace, then the word before it, then
/// the delimiters before that word are removed.
pub open spec fn delete_prev_word_spec(s: Seq<char>) -> Seq<char> {
    let e1 = skip_back(s, s.len() as int, |c: char| is_white_space(c));
    let e2 = skip_back(s, e1, |c: char| !is_white_space(c) && !is_word_delimiter(c));
    let e3 = skip_back(s, e2, |c: char| is_word_delimiter(c));
    s.take(e3)
}

/// Deletes the word before the end of `input`, as readline's Ctrl-W does.
pub fn delete_prev_word(input: &str) -> (r: String)
    ensures
        r@ == delete_prev_word_spec(input@),
{
    let chars = chars_of(input);
    let ghost s = chars@;
    let ghost ws = |c: char| is_white_space(c);
    let ghost word = |c: char| !is_white_space(c) && !is_word_delimiter(c);
    let ghost delim = |c: char| is_word_delimiter(c);
    let mut end = chars.len();
    while end > 0 && is_whitespace(chars[end - 1])
        invariant
            s == chars@,
            ws == (|c: char| is_white_space(c)),
            end <= s.len(),
            skip_back(s, end as int, ws) == skip_back(s, s.len() as int, ws),
        decreases end,
    {
        assert(ws(s[end - 1]));
        assert(skip_back(s, end as int, ws) == skip_back(s, end - 1, ws));
        end = end - 1;
    }
    let ghost e1 = end;
    while end > 0 && !is_whitespace(chars[end - 1]) && !is_ascii_delimiter(chars[end - 1])
        invariant
            s == chars@,
            ws == (|c: char| is_white_space(c)),
            word == (|c: char| !is_white_space(c) && !is_word_delimiter(c)),
            end <= e1 <= s.len(),
            e1 == skip_back(s, s.len() as int, ws),
            skip_back(s, end as int, word) == skip_back(s, e1 as int, word),
        decreases end,
    {
        assert(word(s[end - 1]));
        assert(skip_back(s, end as int, word) == skip_back(s, end - 1, word));
        end = end - 1;
    }
    let ghost e2 = end;
    while end > 0 && is_ascii_delimiter(chars[end - 1])
        invariant
            s == chars@,
            ws == (|c: char| is_white_space(c)),
            word == (|c: char| !is_white_space(c) && !is_word_delimiter(c)),
            delim == (|c: char| is_word_delimiter(c)),
            end <= e2 <= s.len(),
            e2 == skip_back(s, e1 as int, word),
            e1 == skip_back(s, s.len() as int, ws),
            skip_back(s, end as int, delim) == skip_back(s, e2 as int, delim),
        decreases end,
    {
        assert(delim(s[end - 1]));
        assert(skip_back(s, end as int, delim) == skip_back(s, end - 1, delim));
        end = end - 1;
    }
    let mut kept: Vec<char> = Vec::new();
    for i in 0..end
        invariant
            s == chars@,
            end <= s.len(),
            kept@ == s.take(i as int),
    {
        kept.push(chars[i]);
    }
    proof {
        assert(s.take(end as int) == delete_prev_word_spec(input@));
    }
    string_from_chars(&kept)
}

} // verus!

verus! {

fn contains_char(s: &Vec<char>, c: char) -> (b: bool)
    ensures
        b == s@.contains(c),
{
    let n = s.len();
    for i in 0..n
        invariant
            n == s@.len(),
            forall|k: int| 0 <= k < i ==> s@[k] != c,
    {
        if s[i] == c {
            return true;
        }
    }
    false
}

/// A character that may be trimmed off the front of a token: any trimmable
/// character but `'.'`, so that hidden files keep their leading dot.
pub open spec fn leading_trimmable(c: char, trimmable: Seq<char>) -> bool {
    c != '.' && trimmable.contains(c)
}

fn is_leading_trimmable(ch: char, trimmable: &Vec<char>) -> (b: bool)
    ensures
        b == leading_trimmable(ch, trimmable@),
{
    ch != '.' && contains_char(trimmable, ch)
}

/// The number of leading characters of `t` to drop: characters that start
/// before byte `match_start` and are leading-trimmable.
pub open spec fn trim_start(t: Seq<char>, match_start: int, trimmable: Seq<char>, i: int) -> int
    decreases t.len() - i,
{
    if 0 <= i < t.len() && blen(t.take(i)) < match_start && leading_trimmable(t[i], trimmable) {
        trim_start(t, match_start, trimmable, i + 1)
    } else {
        i
    }
}

/// The number of characters of `t` to keep at the end: trimmable characters
/// that start at or after byte `match_end` are dropped.
pub open spec fn trim_end(t: Seq<char>, match_end: int, trimmable: Seq<char>, j: int) -> int
    decreases j,
{
    if 0 < j <= t.len() && blen(t.take(j)) > match_end && blen(t.take(j - 1)) >= match_end
        && trimmable.contains(t[j - 1]) {
        trim_end(t, match_end, trimmable, j - 1)
    } else {
        j
    }
}

/// The token with the wrapping punctuation around the match removed; the whole
/// token when nothing would be left.
pub open spec fn trim_wrapping_spec(
    t: Seq<char>,
    match_start: int,
    match_end: int,
    trimmable: Seq<char>,
) -> Seq<char> {
    let k = trim_start(t, match_start, trimmable, 0);
    let j = trim_end(t, match_end, trimmable, t.len() as int);
    if k >= j {
        t
    } else {
        t.subrange(k, j)
    }
}

proof fn lemma_trim_start_bounds(t: Seq<char>, ms: int, tr: Seq<char>, i: int)
    requires
        0 <= i <= t.len(),
    ensures
        i <= trim_start(t, ms, tr, i) <= t.len(),
    decreases t.len() - i,
{
    if 0 <= i < t.len() && blen(t.take(i)) < ms && leading_trimmable(t[i], tr) {
        lemma_trim_start_bounds(t, ms, tr, i + 1);
    }
}

proof fn lemma_trim_end_bounds(t: Seq<char>, me: int, tr: Seq<char>, j: int)
    requires
        0 <= j <= t.len(),
    ensures
        0 <= trim_end(t, me, tr, j) <= j,
    decreases j,
{
    if 0 < j <= t.len() && blen(t.take(j)) > me && blen(t.take(j - 1)) >= me && tr.contains(
        t[j - 1],
    ) {
        lemma_trim_end_bounds(t, me, tr, j - 1);
    }
}

/// Strips the brackets, quotes and punctuation that wrap a match inside its
/// token: leading ones before `match_start` (but never a leading `'.'`) and
/// trailing ones from `match_end` on.  Offsets are in bytes.
pub fn trim_wrapping_token(
    token: &str,
    match_start: usize,
    match_end: usize,
    trimmable_chars: &str,
) -> (r: String)
    ensures
        r@ == trim_wrapping_spec(token@, match_start as int, match_end as int, trimmable_chars@),
{
    let total = str_blen(token);
    let t = chars_of(token);
    let tr = chars_of(trimmable_chars);
    let n = t.len();
    let mut i: usize = 0;
    let mut off: usize = 0;
    proof {
        assert(t@.take(0) =~= Seq::<char>::empty());
    }
    while i < n && off < match_start && is_leading_trimmable(t[i], &tr)
        invariant
            t@ == token@,
            tr@ == trimmable_chars@,
            n == t@.len(),
            blen(t@) <= usize::MAX,
            i <= n,
            off == blen(t@.take(i as int)),
            trim_start(t@, match_start as int, tr@, i as int) == trim_start(
                t@,
                match_start as int,
                tr@,
                0,
            ),
        decreases n - i,
    {
        proof {
            lemma_blen_push(t@.take(i as int), t@[i as int]);
            assert(t@.take(i as int).push(t@[i as int]) =~= t@.take(i + 1));
            lemma_blen_split(t@, 0, i + 1);
            assert(t@.take(0) =~= Seq::<char>::empty());
        }
        off = off + utf8_len(t[i]);
        i = i + 1;
    }
    let k = i;
    let mut j: usize = n;
    let mut end_off = total;
    proof {
        assert(t@.take(n as int) =~= t@);
        lemma_trim_start_bounds(t@, match_start as int, tr@, 0);
    }
    while j > 0 && end_off > match_end
        invariant
            t@ == token@,
            tr@ == trimmable_chars@,
            n == t@.len(),
            blen(t@) <= usize::MAX,
            j <= n,
            end_off == blen(t@.take(j as int)),
            trim_end(t@, match_end as int, tr@, j as int) == trim_end(
                t@,
                match_end as int,
                tr@,
                n as int,
            ),
        ensures
            trim_end(t@, match_end as int, tr@, j as int) == j,
        decreases j,
    {
        proof {
            lemma_blen_push(t@.take(j - 1), t@[j - 1]);
            assert(t@.take(j - 1).push(t@[j - 1]) =~= t@.take(j as int));
        }
        let prev_off = end_off - utf8_len(t[j - 1]);
        if prev_off < match_end {
            break;
        }
        if contains_char(&tr, t[j - 1]) {
            end_off = prev_off;
            j = j - 1;
        } else {
            break;
        }
    }
    proof {
        lemma_trim_end_bounds(t@, match_end as int, tr@, n as int);
        assert(trim_end(t@, match_end as int, tr@, j as int) == j);
        assert(trim_start(t@, match_start as int, tr@, k as int) == k);
    }
    if k >= j {
        proof {
            assert(t@ == trim_wrapping_spec(token@, match_start as int, match_end as int, trimmable_chars@));
        }
        string_from_chars(&t)
    } else {
        string_from_range(&t, k, j)
    }
}

} // verus!

verus! {

proof fn lemma_first_free_label(labels: Seq<u8>, used: Set<u8>, blocked: Set<u8>)
    ensures
        first_free_label(labels, used, blocked) matches Some(b) ==> {
            &&& labels.contains(b)
            &&& !used.contains(b)
            &&& !blocked.contains(lower_byte(b))
        },
    decreases labels.len(),
{
    if labels.len() > 0 {
        lemma_first_free_label(labels.drop_first(), used, blocked);
        if let Some(b) = first_free_label(labels.drop_first(), used, blocked) {
            if labels.drop_first().contains(b) {
                let i = choose|i: int| 0 <= i < labels.drop_first().len() && labels.drop_first()[i] == b;
                assert(labels[i + 1] == b);
            }
        }
        assert(labels[0] == labels[0]);
    }
}

/// A label, once given, is given to no other match: two distinct matches never
/// share a label.
pub proof fn lemma_labels_distinct(ms: Seq<SearchMatch>, q: Seq<char>, label_chars: Seq<char>)
    requires
        labels_assigned(ms, q, label_chars),
    ensures
        forall|j: int, k: int|
            0 <= j < k < ms.len() && (#[trigger] ms[k]).label is Some ==> (#[trigger] ms[j]).label
                != ms[k].label,
{
    assert forall|j: int, k: int|
        0 <= j < k < ms.len() && (#[trigger] ms[k]).label is Some implies (#[trigger] ms[j]).label
        != ms[k].label by {
        assert(ms[k].label == label_rule(ms, q, label_chars, k));
        let used = labels_used_before(ms, k);
        let blocked = blocked_bytes(ms, q, k);
        lemma_first_free_label(encode_utf8(label_chars), used, blocked);
        let b = first_free_label(encode_utf8(label_chars), used, blocked).unwrap();
        if ms[j].label == ms[k].label {
            assert(ms[j].label == Some(b as char));
            assert(used.contains(b));
        }
    }
}

/// A label is one of the label characters, and once ASCII-lower-cased it is
/// none of the query's bytes, none of its own token's bytes, and no byte that
/// follows a match.
pub proof fn lemma_label_avoids_text(
    ms: Seq<SearchMatch>,
    q: Seq<char>,
    label_chars: Seq<char>,
    j: int,
)
    requires
        labels_assigned(ms, q, label_chars),
        0 <= j < ms.len(),
        ms[j].label is Some,
    ensures
        exists|b: u8|
            {
                &&& ms[j].label == Some(b as char)
                &&& encode_utf8(label_chars).contains(b)
                &&& !lowered_bytes(encode_utf8(q)).contains(lower_byte(b))
                &&& !lowered_bytes(encode_utf8(ms[j].text@)).contains(lower_byte(b))
                &&& !next_byte_set(ms).contains(lower_byte(b))
            },
{
    assert(ms[j].label == label_rule(ms, q, label_chars, j));
    let used = labels_used_before(ms, j);
    let blocked = blocked_bytes(ms, q, j);
    lemma_first_free_label(encode_utf8(label_chars), used, blocked);
    let b = first_free_label(encode_utf8(label_chars), used, blocked).unwrap();
    assert(ms[j].label == Some(b as char));
}

} // verus!

verus! {

/// The match's offsets, added to its column, and its token's length fit in
/// `usize`, and the match starts no later than it ends.
pub open spec fn match_bounded(m: SearchMatch) -> bool {
    &&& m.col + m.match_end <= usize::MAX
    &&& m.match_start <= m.match_end
    &&& blen(m.text@) <= usize::MAX
}

/// Every match that a search records lies inside its line, so its offsets are
/// bounded by the line's length.
pub proof fn lemma_found_bounded(lines: Seq<Seq<char>>, q: Seq<char>, ms: Seq<SearchMatch>)
    requires
        all_occurrences(lines, q, ms),
        forall|i: int| 0 <= i < lines.len() ==> blen(#[trigger] lines[i]) <= usize::MAX,
    ensures
        forall|j: int| 0 <= j < ms.len() ==> match_bounded(#[trigger] ms[j]),
{
    assert forall|j: int| 0 <= j < ms.len() implies match_bounded(#[trigger] ms[j]) by {
        assert(records_occurrence(ms[j], lines, q));
        let (a, b, p) = choose|a: int, b: int, p: int| match_of(ms[j], lines, q, a, b, p);
        let line = lines[ms[j].line as int];
        let t = line.subrange(a, b);
        assert(blen(line) <= usize::MAX);
        lemma_blen_split(line, a, b);
        lemma_blen_split(t, p + q.len(), t.len() as int);
        assert(t.take(t.len() as int) =~= t);
        lemma_blen_take_mono(t, p, p + q.len());
        lemma_blen_split(line, 0, b);
        assert(line.take(0) =~= Seq::<char>::empty());
    }
}

} // verus!

verus! {

/// `m1` and `m2` sit at the same line, column and match start.
pub open spec fn same_key(m1: SearchMatch, m2: SearchMatch) -> bool {
    &&& m1.line == m2.line
    &&& m1.col == m2.col
    &&& m1.match_start == m2.match_start
}

/// `m1` and `m2` agree in every field, the text by its characters.
pub open spec fn same_match(m1: SearchMatch, m2: SearchMatch) -> bool {
    same_but_label(m1, m2) && m1.label == m2.label
}

/// Two recorded occurrences at the same key are the same occurrence.
proof fn lemma_same_key_same_match(lines: Seq<Seq<char>>, q: Seq<char>, m1: SearchMatch, m2: SearchMatch)
    requires
        records_occurrence(m1, lines, q),
        records_occurrence(m2, lines, q),
        same_key(m1, m2),
    ensures
        same_but_label(m1, m2),
{
    let (a1, b1, p1) = choose|a: int, b: int, p: int| match_of(m1, lines, q, a, b, p);
    let (a2, b2, p2) = choose|a: int, b: int, p: int| match_of(m2, lines, q, a, b, p);
    let line = lines[m1.line as int];
    if a1 < a2 {
        lemma_blen_take_mono(line, a1, a2);
    } else if a2 < a1 {
        lemma_blen_take_mono(line, a2, a1);
    }
    assert(a1 == a2);
    if b1 < b2 {
        assert(is_white_space(line[b1]));
        assert(!is_white_space(line[b1]));
    } else if b2 < b1 {
        assert(is_white_space(line[b2]));
        assert(!is_white_space(line[b2]));
    }
    assert(b1 == b2);
    let t = line.subrange(a1, b1);
    if p1 < p2 {
        lemma_blen_take_mono(t, p1, p2);
    } else if p2 < p1 {
        lemma_blen_take_mono(t, p2, p1);
    }
    assert(p1 == p2);
}

/// Some match of `ms` sits at the key of `m`.
pub open spec fn has_key(ms: Seq<SearchMatch>, m: SearchMatch) -> bool {
    exists|k: int| 0 <= k < ms.len() && #[trigger] same_key(m, ms[k])
}

/// Two lists in strictly decreasing key order that hold the same keys hold
/// them at the same places.
proof fn lemma_sorted_same_keys(s1: Seq<SearchMatch>, s2: Seq<SearchMatch>)
    requires
        descending(s1),
        descending(s2),
        forall|j: int| 0 <= j < s1.len() ==> has_key(s2, #[trigger] s1[j]),
        forall|k: int| 0 <= k < s2.len() ==> has_key(s1, #[trigger] s2[k]),
    ensures
        s1.len() == s2.len(),
        forall|j: int| 0 <= j < s1.len() ==> same_key(#[trigger] s1[j], s2[j]),
    decreases s1.len() + s2.len(),
{
    if s1.len() == 0 {
        if s2.len() > 0 {
            assert(has_key(s1, s2[0]));
        }
    } else if s2.len() == 0 {
        assert(has_key(s2, s1[0]));
    } else {
        assert(has_key(s2, s1[0]));
        assert(has_key(s1, s2[0]));
        let k = choose|k: int| 0 <= k < s2.len() && #[trigger] same_key(s1[0], s2[k]);
        let j = choose|j: int| 0 <= j < s1.len() && #[trigger] same_key(s2[0], s1[j]);
        if k > 0 {
            assert(key_lt(s2[k], s2[0]));
            if j > 0 {
                assert(key_lt(s1[j], s1[0]));
            }
        }
        assert(k == 0);
        let t1 = s1.drop_first();
        let t2 = s2.drop_first();
        assert forall|j: int, k: int| 0 <= j < k < t1.len() implies #[trigger] key_lt(t1[k], t1[j]) by {
            assert(key_lt(s1[k + 1], s1[j + 1]));
        }
        assert forall|j: int, k: int| 0 <= j < k < t2.len() implies #[trigger] key_lt(t2[k], t2[j]) by {
            assert(key_lt(s2[k + 1], s2[j + 1]));
        }
        assert forall|j: int| 0 <= j < t1.len() implies has_key(t2, #[trigger] t1[j]) by {
            assert(s1[j + 1] == t1[j]);
            assert(has_key(s2, s1[j + 1]));
            let kk = choose|kk: int| 0 <= kk < s2.len() && #[trigger] same_key(s1[j + 1], s2[kk]);
            assert(key_lt(s1[j + 1], s1[0]));
            assert(kk != 0);
            assert(t2[kk - 1] == s2[kk]);
            assert(same_key(t1[j], t2[kk - 1]));
        }
        assert forall|k: int| 0 <= k < t2.len() implies has_key(t1, #[trigger] t2[k]) by {
            assert(s2[k + 1] == t2[k]);
            assert(has_key(s1, s2[k + 1]));
            let jj = choose|jj: int| 0 <= jj < s1.len() && #[trigger] same_key(s2[k + 1], s1[jj]);
            assert(key_lt(s2[k + 1], s2[0]));
            assert(jj != 0);
            assert(t1[jj - 1] == s1[jj]);
            assert(same_key(t2[k], t1[jj - 1]));
        }
        lemma_sorted_same_keys(t1, t2);
        assert forall|j: int| 0 <= j < s1.len() implies same_key(#[trigger] s1[j], s2[j]) by {
            if j > 0 {
                assert(same_key(t1[j - 1], t2[j - 1]));
            }
        }
    }
}

/// Lists that agree but for their labels and both follow the labelling rule
/// agree in their first `n` labels.
proof fn lemma_labels_agree(
    ms1: Seq<SearchMatch>,
    ms2: Seq<SearchMatch>,
    q: Seq<char>,
    label_chars: Seq<char>,
    n: int,
)
    requires
        ms1.len() == ms2.len(),
        0 <= n <= ms1.len(),
        forall|j: int| 0 <= j < ms1.len() ==> same_but_label(#[trigger] ms1[j], ms2[j]),
        labels_assigned(ms1, q, label_chars),
        labels_assigned(ms2, q, label_chars),
    ensures
        forall|j: int| 0 <= j < n ==> (#[trigger] ms1[j]).label == ms2[j].label,
    decreases n,
{
    if n > 0 {
        lemma_labels_agree(ms1, ms2, q, label_chars, n - 1);
        let j = n - 1;
        assert(labels_used_before(ms1, j) =~= labels_used_before(ms2, j)) by {
            assert forall|b: u8| labels_used_before(ms1, j).contains(b) == labels_used_before(ms2, j).contains(b) by {
                if labels_used_before(ms1, j).contains(b) {
                    let k = choose|k: int| 0 <= k < j && ms1[k].label == Some(b as char);
                    assert(ms2[k].label == ms1[k].label);
                }
                if labels_used_before(ms2, j).contains(b) {
                    let k = choose|k: int| 0 <= k < j && ms2[k].label == Some(b as char);
                    assert(ms2[k].label == ms1[k].label);
                }
            }
        }
        assert(next_byte_set(ms1) =~= next_byte_set(ms2)) by {
            assert forall|x: u8| next_byte_set(ms1).contains(x) == next_byte_set(ms2).contains(x) by {
                if next_byte_set(ms1).contains(x) {
                    let k = choose|k: int|
                        0 <= k < ms1.len() && ms1[k].match_end < encode_utf8(ms1[k].text@).len()
                            && lower_byte(encode_utf8(ms1[k].text@)[ms1[k].match_end as int]) == x;
                    assert(same_but_label(ms1[k], ms2[k]));
                }
                if next_byte_set(ms2).contains(x) {
                    let k = choose|k: int|
                        0 <= k < ms2.len() && ms2[k].match_end < encode_utf8(ms2[k].text@).len()
                            && lower_byte(encode_utf8(ms2[k].text@)[ms2[k].match_end as int]) == x;
                    assert(same_but_label(ms1[k], ms2[k]));
                }
            }
        }
        assert(same_but_label(ms1[j], ms2[j]));
        assert(blocked_bytes(ms1, q, j) =~= blocked_bytes(ms2, q, j));
        assert(ms1[j].label == label_rule(ms1, q, label_chars, j));
        assert(ms2[j].label == label_rule(ms2, q, label_chars, j));
    }
}

/// Every match of `ms1` has its key in `ms2`, when `ms2` records every
/// occurrence.
proof fn lemma_keys_found(lines: Seq<Seq<char>>, q: Seq<char>, ms1: Seq<SearchMatch>, ms2: Seq<SearchMatch>)
    requires
        all_occurrences(lines, q, ms1),
        occurrences_recorded(lines, q, ms2, lines.len() as int),
    ensures
        forall|j: int| 0 <= j < ms1.len() ==> has_key(ms2, #[trigger] ms1[j]),
{
    assert forall|j: int| 0 <= j < ms1.len() implies has_key(ms2, #[trigger] ms1[j]) by {
        assert(records_occurrence(ms1[j], lines, q));
        let (a, b, p) = choose|a: int, b: int, p: int| match_of(ms1[j], lines, q, a, b, p);
        let i = ms1[j].line as int;
        assert(occurs(lines, q, i, a, b, p));
        let k = choose|k: int|
            0 <= k < ms2.len() && #[trigger] ms2[k].line == i && ms2[k].col == blen(lines[i].take(a))
                && ms2[k].match_start == blen(lines[i].subrange(a, b).take(p));
        assert(same_key(ms1[j], ms2[k]));
    }
}

/// A search's result depends on the pane's lines, the query and the label
/// characters alone, and not on any earlier search: two lists of matches that
/// both meet `search`'s contract for the same lines, query and label
/// characters agree in every field.
pub proof fn lemma_search_result_unique(
    lines: Seq<Seq<char>>,
    q: Seq<char>,
    label_chars: Seq<char>,
    ms1: Seq<SearchMatch>,
    ms2: Seq<SearchMatch>,
)
    requires
        q.len() == 0 ==> ms1.len() == 0 && ms2.len() == 0,
        q.len() > 0 ==> found_matches(lines, q, ms1) && found_matches(lines, q, ms2),
        labels_assigned(ms1, q, label_chars),
        labels_assigned(ms2, q, label_chars),
    ensures
        ms1.len() == ms2.len(),
        forall|j: int| 0 <= j < ms1.len() ==> same_match(#[trigger] ms1[j], ms2[j]),
{
    if q.len() > 0 {
        lemma_keys_found(lines, q, ms1, ms2);
        lemma_keys_found(lines, q, ms2, ms1);
        lemma_sorted_same_keys(ms1, ms2);
        assert forall|j: int| 0 <= j < ms1.len() implies same_but_label(#[trigger] ms1[j], ms2[j]) by {
            lemma_same_key_same_match(lines, q, ms1[j], ms2[j]);
        }
        lemma_labels_agree(ms1, ms2, q, label_chars, ms1.len() as int);
    }
}

} // verus!

verus! {

/// ASCII lower-casing the bytes of a character's UTF-8 encoding gives the
/// encoding of the character lower-cased.
proof fn lemma_lower_scalar(c: char)
    ensures
        encode_scalar(c as u32).map_values(|b: u8| lower_byte(b)) == encode_scalar(
            ascii_lower(c) as u32,
        ),
{
    let u = c as u32;
    let e = encode_scalar(u);
    if u <= 0x7F {
        assert((u & 0x7F) as u8 == u) by (bit_vector)
            requires
                u <= 0x7F,
        ;
        if 'A' <= c <= 'Z' {
            let v = (u + 32) as u32;
            assert(ascii_lower(c) as u32 == v);
            assert((v & 0x7F) as u8 == v) by (bit_vector)
                requires
                    v <= 0x7F,
            ;
        }
        assert(e.map_values(|b: u8| lower_byte(b)) =~= encode_scalar(ascii_lower(c) as u32));
    } else {
        assert forall|x: u8| (0x80u8 | x) >= 0x80u8 by {
            assert((0x80u8 | x) >= 0x80u8) by (bit_vector);
        }
        assert forall|x: u8| (0xC0u8 | x) >= 0x80u8 by {
            assert((0xC0u8 | x) >= 0x80u8) by (bit_vector);
        }
        assert forall|x: u8| (0xE0u8 | x) >= 0x80u8 by {
            assert((0xE0u8 | x) >= 0x80u8) by (bit_vector);
        }
        assert forall|x: u8| (0xF0u8 | x) >= 0x80u8 by {
            assert((0xF0u8 | x) >= 0x80u8) by (bit_vector);
        }
        assert forall|i: int| 0 <= i < e.len() implies e[i] >= 0x80 by {}
        assert(e.map_values(|b: u8| lower_byte(b)) =~= e);
    }
}

/// ASCII lower-casing the bytes of a UTF-8 encoding gives the encoding of the
/// text lower-cased.
proof fn lemma_lower_encode(q: Seq<char>)
    ensures
        encode_utf8(q).map_values(|b: u8| lower_byte(b)) == encode_utf8(lower_seq(q)),
    decreases q.len(),
{
    if q.len() > 0 {
        let rest = q.drop_first();
        lemma_lower_encode(rest);
        lemma_lower_scalar(q[0]);
        assert(lower_seq(q).drop_first() =~= lower_seq(rest));
        assert(lower_seq(q)[0] == ascii_lower(q[0]));
        let a = encode_scalar(q[0] as u32);
        let b = encode_utf8(rest);
        assert((a + b).map_values(|x: u8| lower_byte(x)) =~= a.map_values(|x: u8| lower_byte(x))
            + b.map_values(|x: u8| lower_byte(x)));
    } else {
        assert(encode_utf8(q).map_values(|b: u8| lower_byte(b)) =~= Seq::<u8>::empty());
        assert(lower_seq(q) =~= Seq::<char>::empty());
    }
}

/// The lower-cased bytes of two texts that are equal up to ASCII case are the
/// same.
proof fn lemma_lowered_bytes_case(q1: Seq<char>, q2: Seq<char>)
    requires
        lower_seq(q1) == lower_seq(q2),
    ensures
        lowered_bytes(encode_utf8(q1)) == lowered_bytes(encode_utf8(q2)),
{
    lemma_lower_encode(q1);
    lemma_lower_encode(q2);
    let m1 = encode_utf8(q1).map_values(|b: u8| lower_byte(b));
    let m2 = encode_utf8(q2).map_values(|b: u8| lower_byte(b));
    assert(m1 == m2);
    assert(m1.len() == encode_utf8(q1).len());
    assert(m2.len() == encode_utf8(q2).len());
    assert forall|x: u8| lowered_bytes(encode_utf8(q1)).contains(x) == lowered_bytes(
        encode_utf8(q2),
    ).contains(x) by {
        if lowered_bytes(encode_utf8(q1)).contains(x) {
            let i = choose|i: int|
                0 <= i < encode_utf8(q1).len() && lower_byte(encode_utf8(q1)[i]) == x;
            assert(m1[i] == x);
            assert(m2[i] == lower_byte(encode_utf8(q2)[i]));
        }
        if lowered_bytes(encode_utf8(q2)).contains(x) {
            let i = choose|i: int|
                0 <= i < encode_utf8(q2).len() && lower_byte(encode_utf8(q2)[i]) == x;
            assert(m2[i] == x);
            assert(m1[i] == lower_byte(encode_utf8(q1)[i]));
        }
    }
    assert(lowered_bytes(encode_utf8(q1)) =~= lowered_bytes(encode_utf8(q2)));
}

/// Queries that are equal up to ASCII case search alike: a list of matches
/// meets `search`'s contract for one exactly when it meets it for the other,
/// labels included.  With `lemma_search_result_unique`, the two searches give
/// the same matches.
pub proof fn lemma_search_ignores_query_case(
    lines: Seq<Seq<char>>,
    q1: Seq<char>,
    q2: Seq<char>,
    label_chars: Seq<char>,
    ms: Seq<SearchMatch>,
)
    requires
        lower_seq(q1) == lower_seq(q2),
    ensures
        q1.len() == q2.len(),
        found_matches(lines, q1, ms) == found_matches(lines, q2, ms),
        labels_assigned(ms, q1, label_chars) == labels_assigned(ms, q2, label_chars),
{
    assert(q1.len() == lower_seq(q1).len());
    assert(q2.len() == lower_seq(q2).len());
    assert forall|t: Seq<char>, p: int| ci_match_at(t, q1, p) == ci_match_at(t, q2, p) by {}
    assert forall|m: SearchMatch, a: int, b: int, p: int|
        match_of(m, lines, q1, a, b, p) == match_of(m, lines, q2, a, b, p) by {
        assert(ci_match_at(lines[m.line as int].subrange(a, b), q1, p) == ci_match_at(
            lines[m.line as int].subrange(a, b),
            q2,
            p,
        ));
    }
    assert forall|m: SearchMatch| records_occurrence(m, lines, q1) == records_occurrence(m, lines, q2) by {
        if records_occurrence(m, lines, q1) {
            let (a, b, p) = choose|a: int, b: int, p: int| match_of(m, lines, q1, a, b, p);
            assert(match_of(m, lines, q2, a, b, p));
        }
        if records_occurrence(m, lines, q2) {
            let (a, b, p) = choose|a: int, b: int, p: int| match_of(m, lines, q2, a, b, p);
            assert(match_of(m, lines, q1, a, b, p));
        }
    }
    assert forall|i: int, a: int, b: int, p: int| occurs(lines, q1, i, a, b, p) == occurs(lines, q2, i, a, b, p) by {
        if 0 <= i < lines.len() {
            assert(ci_match_at(lines[i].subrange(a, b), q1, p) == ci_match_at(lines[i].subrange(a, b), q2, p));
        }
    }
    assert(all_occurrences(lines, q1, ms) == all_occurrences(lines, q2, ms));
    assert(occurrences_recorded(lines, q1, ms, lines.len() as int) == occurrences_recorded(
        lines,
        q2,
        ms,
        lines.len() as int,
    ));
    lemma_lowered_bytes_case(q1, q2);
    assert forall|j: int| 0 <= j < ms.len() implies label_rule(ms, q1, label_chars, j) == label_rule(
        ms,
        q2,
        label_chars,
        j,
    ) by {
        assert(blocked_bytes(ms, q1, j) == blocked_bytes(ms, q2, j));
    }
    assert(labels_assigned(ms, q1, label_chars) == labels_assigned(ms, q2, label_chars));
}

} // verus!

verus! {

/// The characters at which deleting the previous word stops.
pub open spec fn ctrl_w_delimiters() -> Seq<char> {
    seq!['-', '_', '.', ',', ';', ':', '!', '?', '/', '\\', '(', ')', '[', ']', '{', '}']
}

proof fn lemma_ctrl_w_delimiters(c: char)
    ensures
        is_word_delimiter(c) <==> ctrl_w_delimiters().contains(c),
{
    let d = ctrl_w_delimiters();
    if is_word_delimiter(c) {
        if c == '-' { assert(d[0] == c); }
        else if c == '_' { assert(d[1] == c); }
        else if c == '.' { assert(d[2] == c); }
        else if c == ',' { assert(d[3] == c); }
        else if c == ';' { assert(d[4] == c); }
        else if c == ':' { assert(d[5] == c); }
        else if c == '!' { assert(d[6] == c); }
        else if c == '?' { assert(d[7] == c); }
        else if c == '/' { assert(d[8] == c); }
        else if c == '\\' { assert(d[9] == c); }
        else if c == '(' { assert(d[10] == c); }
        else if c == ')' { assert(d[11] == c); }
        else if c == '[' { assert(d[12] == c); }
        else if c == ']' { assert(d[13] == c); }
        else if c == '{' { assert(d[14] == c); }
        else { assert(d[15] == c); }
    }
    if d.contains(c) {
        let i = choose|i: int| 0 <= i < d.len() && d[i] == c;
        assert(is_word_delimiter(d[i]));
    }
}

/// Deleting the previous word cuts `s` at `r.2`, found by walking back from
/// the end: over trailing whitespace (back to `r.0`), then over the word, the
/// characters that are neither whitespace nor one of `- _ . , ; : ! ? / \ ( )
/// [ ] { }` (back to `r.1`), then over the delimiters of that set just before
/// it (back to `r.2`).  Each walk goes as far as it can, so the deletion
/// never crosses a delimiter into the word before it.
pub proof fn lemma_delete_prev_word_cut(s: Seq<char>) -> (r: (int, int, int))
    ensures
        0 <= r.2 <= r.1 <= r.0 <= s.len(),
        delete_prev_word_spec(s) == s.take(r.2),
        forall|i: int| r.0 <= i < s.len() ==> is_white_space(#[trigger] s[i]),
        r.0 == 0 || !is_white_space(s[r.0 - 1]),
        forall|i: int|
            r.1 <= i < r.0 ==> !is_white_space(#[trigger] s[i]) && !ctrl_w_delimiters().contains(
                s[i],
            ),
        r.1 == 0 || is_white_space(s[r.1 - 1]) || ctrl_w_delimiters().contains(s[r.1 - 1]),
        forall|i: int| r.2 <= i < r.1 ==> ctrl_w_delimiters().contains(#[trigger] s[i]),
        r.2 == 0 || !ctrl_w_delimiters().contains(s[r.2 - 1]),
{
    let ws = |c: char| is_white_space(c);
    let word = |c: char| !is_white_space(c) && !is_word_delimiter(c);
    let delim = |c: char| is_word_delimiter(c);
    let e1 = skip_back(s, s.len() as int, ws);
    lemma_skip_back_run(s, s.len() as int, ws);
    let e2 = skip_back(s, e1, word);
    lemma_skip_back_run(s, e1, word);
    let e3 = skip_back(s, e2, delim);
    lemma_skip_back_run(s, e2, delim);
    assert forall|c: char| is_word_delimiter(c) <==> ctrl_w_delimiters().contains(c) by {
        lemma_ctrl_w_delimiters(c);
    }
    assert forall|i: int| e2 <= i < e1 implies !is_white_space(#[trigger] s[i])
        && !ctrl_w_delimiters().contains(s[i]) by {
        assert(word(s[i]));
    }
    assert forall|i: int| e3 <= i < e2 implies ctrl_w_delimiters().contains(#[trigger] s[i]) by {
        assert(delim(s[i]));
    }
    if e2 > 0 {
        assert(!word(s[e2 - 1]));
    }
    if e3 > 0 {
        assert(!delim(s[e3 - 1]));
    }
    (e1, e2, e3)
}

} // verus!

verus! {

/// Character `m` of `t` starts before byte `match_start` and is a trimmable
/// character other than `'.'`.
pub open spec fn front_trimmable(t: Seq<char>, match_start: int, tr: Seq<char>, m: int) -> bool {
    blen(t.take(m)) < match_start && t[m] != '.' && tr.contains(t[m])
}

proof fn lemma_trim_start_run(t: Seq<char>, match_start: int, tr: Seq<char>, i: int)
    requires
        0 <= i <= t.len(),
    ensures
        i <= trim_start(t, match_start, tr, i) <= t.len(),
        forall|m: int|
            i <= m < trim_start(t, match_start, tr, i) ==> #[trigger] front_trimmable(t, match_start, tr, m),
        ({
            let k = trim_start(t, match_start, tr, i);
            k == t.len() || !front_trimmable(t, match_start, tr, k)
        }),
    decreases t.len() - i,
{
    if i < t.len() && blen(t.take(i)) < match_start && leading_trimmable(t[i], tr) {
        lemma_trim_start_run(t, match_start, tr, i + 1);
        assert(front_trimmable(t, match_start, tr, i));
    }
}

/// Character `m` of `t` starts at or after byte `match_end` and is trimmable.
pub open spec fn back_trimmable(t: Seq<char>, match_end: int, tr: Seq<char>, m: int) -> bool {
    blen(t.take(m)) >= match_end && tr.contains(t[m])
}

proof fn lemma_trim_end_run(t: Seq<char>, match_end: int, tr: Seq<char>, j: int)
    requires
        0 <= j <= t.len(),
    ensures
        0 <= trim_end(t, match_end, tr, j) <= j,
        forall|m: int|
            trim_end(t, match_end, tr, j) <= m < j ==> #[trigger] back_trimmable(t, match_end, tr, m),
        ({
            let e = trim_end(t, match_end, tr, j);
            e == 0 || !back_trimmable(t, match_end, tr, e - 1)
        }),
    decreases j,
{
    if j > 0 {
        lemma_blen_take_mono(t, j - 1, j);
    }
    if 0 < j <= t.len() && blen(t.take(j)) > match_end && blen(t.take(j - 1)) >= match_end
        && tr.contains(t[j - 1]) {
        lemma_trim_end_run(t, match_end, tr, j - 1);
        assert(back_trimmable(t, match_end, tr, j - 1));
    }
}

/// Trimming a picked token keeps `t[r.0..r.1]`.  The walk from the front
/// drops every character before `r.0`, each of which starts before byte
/// `match_start` and is a trimmable character other than `'.'`, and it stops
/// at the first character that is not.  The walk from the back drops every
/// character from `r.1` on, each of which starts at or after byte `match_end`
/// and is trimmable, and it stops at the first that is not.  The whole token
/// comes back only when the two walks meet, and then every character of the
/// token is trimmable.
pub proof fn lemma_trim_wrapping_cut(
    t: Seq<char>,
    match_start: int,
    match_end: int,
    tr: Seq<char>,
) -> (r: (int, int))
    ensures
        0 <= r.0 <= t.len(),
        0 <= r.1 <= t.len(),
        forall|m: int| 0 <= m < r.0 ==> #[trigger] front_trimmable(t, match_start, tr, m),
        r.0 == t.len() || !front_trimmable(t, match_start, tr, r.0),
        forall|m: int| r.1 <= m < t.len() ==> #[trigger] back_trimmable(t, match_end, tr, m),
        r.1 == 0 || !back_trimmable(t, match_end, tr, r.1 - 1),
        trim_wrapping_spec(t, match_start, match_end, tr) == if r.0 < r.1 {
            t.subrange(r.0, r.1)
        } else {
            t
        },
        r.0 >= r.1 ==> forall|i: int| 0 <= i < t.len() ==> tr.contains(#[trigger] t[i]),
{
    let k = trim_start(t, match_start, tr, 0);
    let j = trim_end(t, match_end, tr, t.len() as int);
    lemma_trim_start_run(t, match_start, tr, 0);
    lemma_trim_end_run(t, match_end, tr, t.len() as int);
    if k >= j {
        assert forall|i: int| 0 <= i < t.len() implies tr.contains(#[trigger] t[i]) by {
            if i < k {
                assert(front_trimmable(t, match_start, tr, i));
            } else {
                assert(back_trimmable(t, match_end, tr, i));
            }
        }
    }
    (k, j)
}

} // verus!
