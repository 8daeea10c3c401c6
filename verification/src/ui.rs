use vstd::prelude::*;

use crate::config::Config;
use crate::search::{
    delete_prev_word, delete_prev_word_spec, first_visible, first_with_label, found_matches,
    is_line_split, is_word_delimiter, labels_assigned, lemma_found_bounded, match_bounded,
    matches_on_line, trim_wrapping_spec, trim_wrapping_token, SearchInterface, SearchMatch,
};
use crate::text::{
    ascii_lower, blen, chars_of, is_white_space, lemma_blen_push, lemma_blen_split,
    lemma_blen_take_mono, lemma_skip_back_bounds, push_char, push_str, skip_back, str_blen,
    string_from_chars, string_from_range, to_ascii_lower, utf8_len,
};
use crate::tmux::ExitAction;

verus! {

/// How a byte of a rendered line is styled; a higher priority wins.
#[derive(Copy, Clone, Debug, PartialEq, Eq, Structural)]
pub enum StyleKind {
    Base,
    Highlight,
    Current,
}

impl StyleKind {
    pub open spec fn rank(self) -> u8 {
        match self {
            StyleKind::Base => 0,
            StyleKind::Highlight => 1,
            StyleKind::Current => 2,
        }
    }

    fn priority(self) -> (p: u8)
        ensures
            p == self.rank(),
    {
        match self {
            StyleKind::Base => 0,
            StyleKind::Highlight => 1,
            StyleKind::Current => 2,
        }
    }
}

/// The byte position right after a match, where its label is drawn.
pub open spec fn label_pos(m: SearchMatch) -> int {
    m.col + m.match_end
}

/// The label of the first labelled match whose label goes at byte `q`.
pub open spec fn first_label_at(ms: Seq<SearchMatch>, q: int) -> Option<char>
    decreases ms.len(),
{
    if ms.len() == 0 {
        None
    } else if ms[0].label is Some && label_pos(ms[0]) == q {
        ms[0].label
    } else {
        first_label_at(ms.drop_first(), q)
    }
}

/// Byte `q` of `line` is the first byte of a character.
pub open spec fn is_char_start(line: Seq<char>, q: int) -> bool {
    exists|k: int| 0 <= k < line.len() && blen(line.take(k)) == q
}

/// Some labelled match puts its label at byte `q`, within the line.
pub open spec fn is_label_pos(line: Seq<char>, ms: Seq<SearchMatch>, q: int) -> bool {
    exists|j: int|
        0 <= j < ms.len() && ms[j].label is Some && label_pos(#[trigger] ms[j]) == q && q <= blen(
            line,
        )
}

/// Every label position before byte `q` starts a character.
pub open spec fn labels_unblocked(line: Seq<char>, ms: Seq<SearchMatch>, q: int) -> bool {
    forall|p: int| 0 <= p < q && #[trigger] is_label_pos(line, ms, p) ==> is_char_start(line, p)
}

/// Labels are drawn in position order and the drawing stops at the first
/// label position that falls inside a character: the label at `q` is drawn
/// only when every label position before `q` starts a character.
pub open spec fn shown_label(line: Seq<char>, ms: Seq<SearchMatch>, q: int) -> Option<char> {
    if labels_unblocked(line, ms, q) {
        first_label_at(ms, q)
    } else {
        None
    }
}

/// The match covers byte `q` of a line of `nb` bytes.
pub open spec fn covers(m: SearchMatch, q: int, nb: int) -> bool {
    let start = m.col + m.match_start;
    let end = m.col + m.match_end;
    &&& start < end
    &&& (if start < nb {
        start
    } else {
        nb
    }) <= q
    &&& q < (if end < nb {
        end
    } else {
        nb
    })
}

pub open spec fn is_current(m: SearchMatch, current: Option<(usize, usize, usize)>) -> bool {
    current == Some((m.col, m.match_start, m.match_end))
}

/// The style of byte `q`: current-match style if the current match covers it,
/// highlight if another match does, base otherwise.
pub open spec fn style_at(
    ms: Seq<SearchMatch>,
    current: Option<(usize, usize, usize)>,
    q: int,
    nb: int,
) -> StyleKind {
    if exists|j: int| 0 <= j < ms.len() && covers(#[trigger] ms[j], q, nb) && is_current(ms[j], current) {
        StyleKind::Current
    } else if exists|j: int| 0 <= j < ms.len() && covers(#[trigger] ms[j], q, nb) {
        StyleKind::Highlight
    } else {
        StyleKind::Base
    }
}

/// A run of text in a style: base text as it is, styled text wrapped in
/// reset and base sequences.
pub open spec fn styled_run(cfg: Config, kind: StyleKind, run: Seq<char>) -> Seq<char> {
    if run.len() == 0 {
        Seq::empty()
    } else {
        match kind {
            StyleKind::Base => run,
            StyleKind::Highlight => cfg.style_sequences.reset@ + cfg.highlight_style.styled(run)
                + cfg.style_sequences.reset@ + cfg.style_sequences.base@,
            StyleKind::Current => cfg.style_sequences.reset@ + cfg.current_style.styled(run)
                + cfg.style_sequences.reset@ + cfg.style_sequences.base@,
        }
    }
}

/// A label drawn in the label style, between reset and base sequences.
pub open spec fn label_piece(cfg: Config, c: char) -> Seq<char> {
    cfg.style_sequences.reset@ + cfg.label_style.styled(seq![c])
        + cfg.style_sequences.reset@ + cfg.style_sequences.base@
}

/// The rendering of characters `i..` of the line, given the style and text of
/// the run in progress.  A drawn label replaces the character it falls on.
pub open spec fn render_from(
    line: Seq<char>,
    ms: Seq<SearchMatch>,
    current: Option<(usize, usize, usize)>,
    cfg: Config,
    i: int,
    kind: StyleKind,
    run: Seq<char>,
) -> Seq<char>
    decreases line.len() - i,
{
    if i < 0 || i >= line.len() {
        styled_run(cfg, kind, run) + match shown_label(line, ms, blen(line) as int) {
            Some(c) => label_piece(cfg, c),
            None => Seq::empty(),
        }
    } else {
        let q = blen(line.take(i)) as int;
        match shown_label(line, ms, q) {
            Some(c) => styled_run(cfg, kind, run) + label_piece(cfg, c) + render_from(
                line,
                ms,
                current,
                cfg,
                i + 1,
                kind,
                Seq::empty(),
            ),
            None => {
                let k = style_at(ms, current, q, blen(line) as int);
                if k == kind {
                    render_from(line, ms, current, cfg, i + 1, kind, run.push(line[i]))
                } else {
                    styled_run(cfg, kind, run) + render_from(
                        line,
                        ms,
                        current,
                        cfg,
                        i + 1,
                        k,
                        seq![line[i]],
                    )
                }
            },
        }
    }
}

pub open spec fn ends_with(s: Seq<char>, suffix: Seq<char>) -> bool {
    s.len() >= suffix.len() && s.subrange(s.len() - suffix.len(), s.len() as int) == suffix
}

/// A pane line with its matches highlighted (the current match in its own
/// style) and their labels drawn right after them, framed by the base and
/// reset sequences.
pub open spec fn render_line_spec(
    line: Seq<char>,
    ms: Seq<SearchMatch>,
    cfg: Config,
    current: Option<(usize, usize, usize)>,
) -> Seq<char> {
    let base = cfg.style_sequences.base@;
    let reset = cfg.style_sequences.reset@;
    if line.len() == 0 {
        base + reset
    } else if ms.len() == 0 {
        base + line + reset
    } else {
        let body = base + render_from(line, ms, current, cfg, 0, StyleKind::Base, Seq::empty());
        if ends_with(body, reset) {
            body
        } else {
            body + reset
        }
    }
}

pub open spec fn deref_matches(matches: Seq<&SearchMatch>) -> Seq<SearchMatch> {
    matches.map_values(|m: &SearchMatch| *m)
}

} // verus!

verus! {

/// Every match's byte offsets, added to its column, fit in `usize`.
pub open spec fn offsets_fit(ms: Seq<SearchMatch>) -> bool {
    forall|j: int|
        0 <= j < ms.len() ==> #[trigger] ms[j].col + ms[j].match_start <= usize::MAX && ms[j].col
            + ms[j].match_end <= usize::MAX
}

fn first_label_at_exec(matches: &[&SearchMatch], q: usize) -> (r: Option<char>)
    requires
        offsets_fit(deref_matches(matches@)),
    ensures
        r == first_label_at(deref_matches(matches@), q as int),
{
    let ghost ms = deref_matches(matches@);
    let n = matches.len();
    let mut j: usize = 0;
    proof {
        assert(ms.skip(0) =~= ms);
    }
    while j < n
        invariant
            n == ms.len() == matches@.len(),
            ms == deref_matches(matches@),
            offsets_fit(ms),
            j <= n,
            first_label_at(ms, q as int) == first_label_at(ms.skip(j as int), q as int),
        decreases n - j,
    {
        let m = matches[j];
        proof {
            assert(ms[j as int] == *m);
            assert(ms.skip(j as int)[0] == ms[j as int]);
            assert(ms.skip(j as int).drop_first() =~= ms.skip(j + 1));
        }
        if m.label.is_some() && m.col + m.match_end == q {
            return m.label;
        }
        j = j + 1;
    }
    None
}

/// Whether a labelled match puts its label strictly between bytes `lo` and
/// `hi`, within the line's `nb` bytes.
fn label_inside(matches: &[&SearchMatch], lo: usize, hi: usize, nb: usize) -> (r: bool)
    requires
        offsets_fit(deref_matches(matches@)),
    ensures
        r == exists|j: int|
            0 <= j < matches@.len() && (#[trigger] deref_matches(matches@)[j]).label is Some && lo
                < label_pos(deref_matches(matches@)[j]) < hi && label_pos(
                deref_matches(matches@)[j],
            ) <= nb,
{
    let ghost ms = deref_matches(matches@);
    let n = matches.len();
    for j in 0..n
        invariant
            n == ms.len() == matches@.len(),
            ms == deref_matches(matches@),
            offsets_fit(ms),
            forall|k: int|
                0 <= k < j ==> !((#[trigger] ms[k]).label is Some && lo < label_pos(ms[k]) < hi
                    && label_pos(ms[k]) <= nb),
    {
        let m = matches[j];
        proof {
            assert(ms[j as int] == *m);
        }
        if m.label.is_some() {
            let p = m.col + m.match_end;
            if lo < p && p < hi && p <= nb {
                return true;
            }
        }
    }
    false
}

fn style_at_exec(
    matches: &[&SearchMatch],
    current: Option<(usize, usize, usize)>,
    q: usize,
    nb: usize,
) -> (k: StyleKind)
    requires
        offsets_fit(deref_matches(matches@)),
    ensures
        k == style_at(deref_matches(matches@), current, q as int, nb as int),
{
    let ghost ms = deref_matches(matches@);
    let n = matches.len();
    let mut best = StyleKind::Base;
    for j in 0..n
        invariant
            n == ms.len() == matches@.len(),
            ms == deref_matches(matches@),
            offsets_fit(ms),
            best == style_at(ms.take(j as int), current, q as int, nb as int),
    {
        let m = matches[j];
        proof {
            assert(ms[j as int] == *m);
            let t = ms.take(j + 1);
            assert forall|k: int| 0 <= k < j + 1 implies t[k] == ms[k] by {}
            assert forall|k: int| 0 <= k < j implies ms.take(j as int)[k] == ms[k] by {}
        }
        let start = m.col + m.match_start;
        let end = m.col + m.match_end;
        if start < end {
            let s = if start < nb {
                start
            } else {
                nb
            };
            let e = if end < nb {
                end
            } else {
                nb
            };
            if s <= q && q < e {
                let kind = if current == Some((m.col, m.match_start, m.match_end)) {
                    StyleKind::Current
                } else {
                    StyleKind::Highlight
                };
                if kind.priority() > best.priority() {
                    best = kind;
                }
            }
        }
        proof {
            let t = ms.take(j + 1);
            let t0 = ms.take(j as int);
            if exists|k: int| 0 <= k < t.len() && covers(#[trigger] t[k], q as int, nb as int) && is_current(t[k], current) {
                let k = choose|k: int| 0 <= k < t.len() && covers(#[trigger] t[k], q as int, nb as int) && is_current(t[k], current);
                if k < j {
                    assert(t0[k] == t[k]);
                }
            }
            if exists|k: int| 0 <= k < t.len() && covers(#[trigger] t[k], q as int, nb as int) {
                let k = choose|k: int| 0 <= k < t.len() && covers(#[trigger] t[k], q as int, nb as int);
                if k < j {
                    assert(t0[k] == t[k]);
                }
            }
            if exists|k: int| 0 <= k < t0.len() && covers(#[trigger] t0[k], q as int, nb as int) && is_current(t0[k], current) {
                let k = choose|k: int| 0 <= k < t0.len() && covers(#[trigger] t0[k], q as int, nb as int) && is_current(t0[k], current);
                assert(t0[k] == t[k]);
            }
            if exists|k: int| 0 <= k < t0.len() && covers(#[trigger] t0[k], q as int, nb as int) {
                let k = choose|k: int| 0 <= k < t0.len() && covers(#[trigger] t0[k], q as int, nb as int);
                assert(t0[k] == t[k]);
            }
            if covers(ms[j as int], q as int, nb as int) {
                assert(t[j as int] == ms[j as int]);
            }
        }
    }
    proof {
        assert(ms.take(n as int) =~= ms);
    }
    best
}

/// Appends the buffered run to `out` in its style and empties the buffer.
fn flush_segment(out: &mut String, buffer: &mut String, style: StyleKind, config: &Config)
    ensures
        final(out)@ == old(out)@ + styled_run(*config, style, old(buffer)@),
        final(buffer)@.len() == 0,
{
    if buffer.as_str().is_empty() {
        proof {
            assert(old(out)@ + styled_run(*config, style, old(buffer)@) =~= old(out)@);
        }
        return;
    }
    match style {
        StyleKind::Base => push_str(out, buffer.as_str()),
        StyleKind::Highlight => {
            push_str(out, config.style_sequences.reset.as_str());
            push_str(out, config.highlight_style.apply(buffer.as_str()).as_str());
            push_str(out, config.style_sequences.reset.as_str());
            push_str(out, config.style_sequences.base.as_str());
        },
        StyleKind::Current => {
            push_str(out, config.style_sequences.reset.as_str());
            push_str(out, config.current_style.apply(buffer.as_str()).as_str());
            push_str(out, config.style_sequences.reset.as_str());
            push_str(out, config.style_sequences.base.as_str());
        },
    }
    proof {
        assert(final(out)@ =~= old(out)@ + styled_run(*config, style, old(buffer)@));
    }
    *buffer = String::new();
}

/// Appends a label in the label style.
fn push_label(out: &mut String, label: char, config: &Config)
    ensures
        final(out)@ == old(out)@ + label_piece(*config, label),
{
    let mut l = String::new();
    push_char(&mut l, label);
    proof {
        assert(l@ =~= seq![label]);
    }
    push_str(out, config.style_sequences.reset.as_str());
    push_str(out, config.label_style.apply(l.as_str()).as_str());
    push_str(out, config.style_sequences.reset.as_str());
    push_str(out, config.style_sequences.base.as_str());
    proof {
        assert(final(out)@ =~= old(out)@ + label_piece(*config, label));
    }
}

fn ends_with_str(s: &str, suffix: &str) -> (r: bool)
    ensures
        r == ends_with(s@, suffix@),
{
    let a = chars_of(s);
    let b = chars_of(suffix);
    if a.len() < b.len() {
        return false;
    }
    let d = a.len() - b.len();
    let m = b.len();
    for k in 0..m
        invariant
            m == b@.len(),
            d + m == a@.len(),
            a@.len() == a.len(),
            a@ == s@,
            b@ == suffix@,
            forall|i: int| 0 <= i < k ==> a@[d + i] == b@[i],
    {
        if a[d + k] != b[k] {
            proof {
                assert(a@.subrange(d as int, a@.len() as int)[k as int] != b@[k as int]);
            }
            return false;
        }
    }
    proof {
        assert(a@.subrange(d as int, a@.len() as int) =~= b@);
    }
    true
}

} // verus!

verus! {

proof fn lemma_no_start_inside(line: Seq<char>, i: int, p: int)
    requires
        0 <= i < line.len(),
        blen(line.take(i)) < p < blen(line.take(i + 1)),
    ensures
        !is_char_start(line, p),
{
    assert forall|k: int| 0 <= k < line.len() implies blen(line.take(k)) != p by {
        if k <= i {
            lemma_blen_take_mono(line, k, i);
        } else {
            lemma_blen_take_mono(line, i + 1, k);
        }
    }
}

proof fn lemma_unblocked_step(line: Seq<char>, ms: Seq<SearchMatch>, i: int)
    requires
        0 <= i < line.len(),
    ensures
        labels_unblocked(line, ms, blen(line.take(i + 1)) as int) == (labels_unblocked(
            line,
            ms,
            blen(line.take(i)) as int,
        ) && !exists|j: int|
            0 <= j < ms.len() && (#[trigger] ms[j]).label is Some && blen(line.take(i)) < label_pos(
                ms[j],
            ) < blen(line.take(i + 1)) && label_pos(ms[j]) <= blen(line)),
{
    let lo = blen(line.take(i)) as int;
    let hi = blen(line.take(i + 1)) as int;
    lemma_blen_take_mono(line, i, i + 1);
    assert(is_char_start(line, lo)) by {
        assert(blen(line.take(i)) == lo);
    }
    if labels_unblocked(line, ms, hi) {
        assert forall|p: int| 0 <= p < lo && #[trigger] is_label_pos(line, ms, p) implies is_char_start(line, p) by {
        }
        if exists|j: int|
            0 <= j < ms.len() && (#[trigger] ms[j]).label is Some && lo < label_pos(ms[j]) < hi
                && label_pos(ms[j]) <= blen(line) {
            let j = choose|j: int|
                0 <= j < ms.len() && (#[trigger] ms[j]).label is Some && lo < label_pos(ms[j]) < hi
                    && label_pos(ms[j]) <= blen(line);
            let p = label_pos(ms[j]);
            assert(is_label_pos(line, ms, p));
            lemma_no_start_inside(line, i, p);
        }
    }
    if labels_unblocked(line, ms, lo) && !exists|j: int|
        0 <= j < ms.len() && (#[trigger] ms[j]).label is Some && lo < label_pos(ms[j]) < hi
            && label_pos(ms[j]) <= blen(line) {
        assert forall|p: int| 0 <= p < hi && #[trigger] is_label_pos(line, ms, p) implies is_char_start(line, p) by {
            if p > lo {
                let j = choose|j: int|
                    0 <= j < ms.len() && ms[j].label is Some && label_pos(#[trigger] ms[j]) == p && p <= blen(line);
                assert(ms[j].label is Some && lo < label_pos(ms[j]) < hi && label_pos(ms[j]) <= blen(line));
            }
        }
    }
}

/// Renders one pane line: base-coloured text, the matches highlighted (the
/// current one in its own style, which wins where matches overlap), and each
/// match's label drawn over the character right after the match.  Offsets are
/// in bytes.
pub fn render_line_with_matches(
    line: &str,
    matches: &[&SearchMatch],
    config: &Config,
    current_match: Option<(usize, usize, usize)>,
) -> (r: String)
    requires
        offsets_fit(deref_matches(matches@)),
    ensures
        r@ == render_line_spec(line@, deref_matches(matches@), *config, current_match),
{
    let ghost ms = deref_matches(matches@);
    let ghost cfg = *config;
    let ghost lv = line@;
    let mut out = String::new();
    if line.is_empty() {
        push_str(&mut out, config.style_sequences.base.as_str());
        push_str(&mut out, config.style_sequences.reset.as_str());
        return out;
    }
    if matches.len() == 0 {
        push_str(&mut out, config.style_sequences.base.as_str());
        push_str(&mut out, line);
        push_str(&mut out, config.style_sequences.reset.as_str());
        return out;
    }
    let chars = chars_of(line);
    let n = chars.len();
    let nb = str_blen(line);
    proof {
        assert(chars@.take(0) =~= Seq::<char>::empty());
    }
    push_str(&mut out, config.style_sequences.base.as_str());
    let mut active = StyleKind::Base;
    let mut buffer = String::new();
    let mut blocked = false;
    let mut off: usize = 0;
    let mut i: usize = 0;
    proof {
        assert(labels_unblocked(lv, ms, 0));
    }
    while i < n
        invariant
            chars@ == lv,
            lv == line@,
            ms == deref_matches(matches@),
            cfg == *config,
            offsets_fit(ms),
            n == lv.len(),
            nb == blen(lv),
            i <= n,
            off == blen(lv.take(i as int)),
            blocked == !labels_unblocked(lv, ms, off as int),
            out@ + render_from(lv, ms, current_match, cfg, i as int, active, buffer@)
                == cfg.style_sequences.base@ + render_from(
                lv,
                ms,
                current_match,
                cfg,
                0,
                StyleKind::Base,
                Seq::empty(),
            ),
        decreases n - i,
    {
        let ch = chars[i];
        proof {
            lemma_blen_push(lv.take(i as int), lv[i as int]);
            assert(lv.take(i as int).push(lv[i as int]) =~= lv.take(i + 1));
            lemma_blen_split(lv, 0, i + 1);
            assert(lv.take(0) =~= Seq::<char>::empty());
        }
        let next_off = off + utf8_len(ch);
        let lbl = if blocked {
            None
        } else {
            first_label_at_exec(matches, off)
        };
        let ghost before_out = out@;
        let ghost before_buf = buffer@;
        let ghost before_active = active;
        proof {
            assert(shown_label(lv, ms, off as int) == lbl);
        }
        match lbl {
            Some(c) => {
                flush_segment(&mut out, &mut buffer, active, config);
                push_label(&mut out, c, config);
                proof {
                    assert(buffer@ =~= Seq::<char>::empty());
                    assert(out@ + render_from(lv, ms, current_match, cfg, i + 1, active, buffer@)
                        =~= before_out + render_from(
                        lv,
                        ms,
                        current_match,
                        cfg,
                        i as int,
                        before_active,
                        before_buf,
                    ));
                }
            },
            None => {
                let k = style_at_exec(matches, current_match, off, nb);
                if k != active {
                    flush_segment(&mut out, &mut buffer, active, config);
                    active = k;
                    push_char(&mut buffer, ch);
                    proof {
                        assert(buffer@ =~= seq![ch]);
                        assert(out@ + render_from(lv, ms, current_match, cfg, i + 1, active, buffer@)
                            =~= before_out + render_from(
                            lv,
                            ms,
                            current_match,
                            cfg,
                            i as int,
                            before_active,
                            before_buf,
                        ));
                    }
                } else {
                    push_char(&mut buffer, ch);
                }
            },
        }
        proof {
            lemma_unblocked_step(lv, ms, i as int);
        }
        if !blocked && label_inside(matches, off, next_off, nb) {
            blocked = true;
        }
        off = next_off;
        i = i + 1;
    }
    proof {
        assert(lv.take(n as int) =~= lv);
    }
    let lbl = if blocked {
        None
    } else {
        first_label_at_exec(matches, nb)
    };
    if let Some(c) = lbl {
        flush_segment(&mut out, &mut buffer, active, config);
        push_label(&mut out, c, config);
    }
    let ghost before_out = out@;
    flush_segment(&mut out, &mut buffer, active, config);
    proof {
        assert(out@ =~= cfg.style_sequences.base@ + render_from(
            lv,
            ms,
            current_match,
            cfg,
            0,
            StyleKind::Base,
            Seq::empty(),
        ));
    }
    if !ends_with_str(out.as_str(), config.style_sequences.reset.as_str()) {
        push_str(&mut out, config.style_sequences.reset.as_str());
    }
    out
}

} // verus!

verus! {

/// The display width in terminal columns that unicode-width gives `s`.
pub uninterp spec fn text_width(s: Seq<char>) -> usize;

/// Calls `UnicodeWidthStr::width`.  Trusted: the result is the crate's width
/// of `s`, a function of the characters alone.
#[verifier::external_body]
fn display_width(s: &str) -> (w: usize)
    ensures
        w == text_width(s@),
{
    unicode_width::UnicodeWidthStr::width(s)
}

/// A key of the picker's keyboard.
#[derive(Copy, Clone, Debug, PartialEq, Eq, Structural)]
pub enum KeyInput {
    Char(char),
    Esc,
    Home,
    End,
    Left,
    Right,
    Backspace,
    Enter,
    Tab,
    Other,
}

/// What the terminal reported.
#[derive(Copy, Clone, Debug, PartialEq, Eq, Structural)]
pub enum UiEvent {
    Key { code: KeyInput, ctrl: bool, release: bool },
    Resize,
    Other,
}

/// What the event loop does next.
pub enum UiStep {
    /// Nothing changed.
    Ignore,
    /// The screen must be drawn again.
    Redraw,
    /// The picker ends: `text` goes to the result buffer and the process exits
    /// with `action`'s exit code.
    Finish { text: String, action: ExitAction },
}

/// `text` in the base style.
fn base_text(text: &str, config: &Config) -> (s: String)
    ensures
        s@ == config.base_style.styled(text@),
{
    config.base_style.apply(text)
}

} // verus!

verus! {

/// Every character of `s` is ASCII graphic, as every character typed into the
/// query is.
pub open spec fn is_graphic_seq(s: Seq<char>) -> bool {
    forall|i: int| 0 <= i < s.len() ==> is_ascii_graphic_char(#[trigger] s[i])
}

pub open spec fn is_ascii_graphic_char(c: char) -> bool {
    '!' <= c <= '~'
}

pub open spec fn is_ascii_lowercase_char(c: char) -> bool {
    'a' <= c <= 'z'
}

/// What a key press does to the prompt, given the query, the cursor, the
/// matches of the last search and the number of visible lines.
pub enum KeyOutcome {
    Ignore,
    Cancel,
    /// The cursor moves.
    Move(nat),
    /// The query becomes the first field and is searched again; the cursor
    /// goes to the second.
    Requery(Seq<char>, nat),
    /// The match is picked with this action.
    Pick(SearchMatch, ExitAction),
}

pub open spec fn key_outcome(
    q: Seq<char>,
    c: nat,
    code: KeyInput,
    ctrl: bool,
    ms: Seq<SearchMatch>,
    max_lines: usize,
) -> KeyOutcome {
    if (ctrl && (code == KeyInput::Char('c') || code == KeyInput::Char('d'))) || code is Esc {
        KeyOutcome::Cancel
    } else if (ctrl && code == KeyInput::Char('a')) || code is Home {
        KeyOutcome::Move(0)
    } else if (ctrl && code == KeyInput::Char('e')) || code is End {
        KeyOutcome::Move(q.len())
    } else if code is Left {
        KeyOutcome::Move(if c > 0 {
            (c - 1) as nat
        } else {
            0
        })
    } else if code is Right {
        if c < q.len() {
            KeyOutcome::Move(c + 1)
        } else {
            KeyOutcome::Ignore
        }
    } else if ctrl && code == KeyInput::Char('u') {
        KeyOutcome::Requery(Seq::empty(), 0)
    } else if ctrl && code == KeyInput::Char('w') {
        let head = delete_prev_word_spec(q.take(c as int));
        KeyOutcome::Requery(head + q.skip(c as int), head.len())
    } else if code is Backspace {
        if c > 0 {
            KeyOutcome::Requery(q.remove(c - 1), (c - 1) as nat)
        } else {
            KeyOutcome::Ignore
        }
    } else if !ctrl && (code is Enter || code == KeyInput::Char(' ') || code is Tab) {
        match first_visible(ms, max_lines) {
            Some(m) => KeyOutcome::Pick(
                m,
                if code is Enter {
                    ExitAction::PasteAndEnter
                } else if code is Char {
                    ExitAction::PasteAndSpace
                } else {
                    ExitAction::Paste
                },
            ),
            None => KeyOutcome::Ignore,
        }
    } else if !ctrl && code is Char {
        let ch = code->Char_0;
        if q.len() > 0 && first_with_label(ms, ascii_lower(ch)) is Some {
            KeyOutcome::Pick(
                first_with_label(ms, ascii_lower(ch)).unwrap(),
                if is_ascii_lowercase_char(ch) {
                    ExitAction::Paste
                } else {
                    ExitAction::CopyOnly
                },
            )
        } else if is_ascii_graphic_char(ch) || ch == ' ' {
            KeyOutcome::Requery(q.insert(c as int, ch), c + 1)
        } else {
            KeyOutcome::Ignore
        }
    } else {
        KeyOutcome::Ignore
    }
}

/// The step ends the picker with this text and action.
pub open spec fn finishes_with(step: UiStep, text: Seq<char>, action: ExitAction) -> bool {
    match step {
        UiStep::Finish { text: t, action: a } => t@ == text && a == action,
        _ => false,
    }
}

/// `after` is `before` searched again for `q`.
pub open spec fn searched_for(before: SearchInterface, after: SearchInterface, q: Seq<char>) -> bool {
    &&& after.wf()
    &&& after.lines_view() == before.lines_view()
    &&& after.spec_label_chars() == before.spec_label_chars()
    &&& q.len() == 0 ==> after.spec_matches().len() == 0
    &&& q.len() > 0 ==> found_matches(before.lines_view(), q, after.spec_matches())
    &&& labels_assigned(after.spec_matches(), q, before.spec_label_chars())
}

/// The matches of `s` are those of a search for `q` over its lines: none for
/// an empty query, otherwise every occurrence in search order, labelled by the
/// labelling rule.
pub open spec fn search_result(s: SearchInterface, q: Seq<char>) -> bool {
    &&& q.len() == 0 ==> s.spec_matches().len() == 0
    &&& q.len() > 0 ==> found_matches(s.lines_view(), q, s.spec_matches())
    &&& labels_assigned(s.spec_matches(), q, s.spec_label_chars())
}

/// The interactive picker: the pane's text, its search, and the prompt.
pub struct InteractiveUI {
    pane_id: String,
    config: Config,
    search: SearchInterface,
    search_query: String,
    cursor_pos: usize,
}

impl InteractiveUI {
    pub closed spec fn query(&self) -> Seq<char> {
        self.search_query@
    }

    pub closed spec fn cursor(&self) -> nat {
        self.cursor_pos as nat
    }

    pub closed spec fn searcher(&self) -> SearchInterface {
        self.search
    }

    pub closed spec fn cfg(&self) -> Config {
        self.config
    }

    pub closed spec fn pane(&self) -> Seq<char> {
        self.pane_id@
    }

    /// The picker's state as the prompt shows it: the query is ASCII graphic,
    /// the cursor lies within it, and the matches are those of a search for
    /// the query over the pane's lines.  `new` establishes it and every event
    /// keeps it, so it holds after any sequence of events.
    pub open spec fn shows_search_of_query(&self) -> bool {
        &&& is_graphic_seq(self.query())
        &&& self.cursor() <= self.query().len()
        &&& search_result(self.searcher(), self.query())
    }

    /// The state that `shows_search_of_query` describes, with the pane's lines
    /// and the matches' offsets within the bounds of `usize`.
    pub closed spec fn wf(&self) -> bool {
        &&& self.search.wf()
        &&& is_graphic_seq(self.search_query@)
        &&& search_result(self.search, self.search_query@)
        &&& self.cursor_pos <= self.search_query@.len()
        &&& forall|j: int|
            0 <= j < self.search.spec_matches().len() ==> match_bounded(
                #[trigger] self.search.spec_matches()[j],
            )
    }

    /// A picker over `pane_content` with an empty query.
    pub fn new(pane_id: String, pane_content: &str, config: Config) -> (ui: Self)
        ensures
            ui.wf(),
            ui.shows_search_of_query(),
            ui.query().len() == 0,
            ui.cursor() == 0,
            is_line_split(pane_content@, ui.searcher().lines_view()),
            ui.searcher().spec_matches().len() == 0,
            ui.searcher().spec_label_chars() == config.label_characters@,
            ui.cfg() == config,
            ui.pane() == pane_id@,
    {
        let label_chars = config.label_characters.clone();
        let search = SearchInterface::new(pane_content, label_chars);
        InteractiveUI { pane_id, config, search, search_query: String::new(), cursor_pos: 0 }
    }

    /// The prompt line: the indicator, a space, then the query, or the
    /// placeholder in the base style while the query is empty.
    pub fn build_search_bar_output(&self) -> (s: String)
        ensures
            s@ == self.cfg().prompt_style.styled(self.cfg().prompt_indicator@) + seq![' ']
                + if self.query().len() == 0 {
                self.cfg().base_style.styled(self.cfg().prompt_placeholder_text@)
            } else {
                self.query()
            },
    {
        let mut base = String::new();
        push_str(&mut base, self.config.prompt_style.apply(self.config.prompt_indicator.as_str()).as_str());
        push_char(&mut base, ' ');
        if self.search_query.as_str().is_empty() {
            push_str(&mut base, base_text(self.config.prompt_placeholder_text.as_str(), &self.config).as_str());
        } else {
            push_str(&mut base, self.search_query.as_str());
        }
        base
    }

    /// Replaces the query, keeps the cursor within it, and searches again.
    fn update_search(&mut self, new_query: String)
        requires
            old(self).wf(),
            is_graphic_seq(new_query@),
        ensures
            final(self).wf(),
            final(self).query() == new_query@,
            final(self).cursor() == if old(self).cursor() <= new_query@.len() {
                old(self).cursor()
            } else {
                new_query@.len()
            },
            searched_for(old(self).searcher(), final(self).searcher(), new_query@),
            final(self).cfg() == old(self).cfg(),
            final(self).pane() == old(self).pane(),
    {
        let ghost before = self.search;
        let qlen = chars_of(new_query.as_str()).len();
        self.search_query = new_query;
        if self.cursor_pos > qlen {
            self.cursor_pos = qlen;
        }
        self.search.search(self.search_query.as_str());
        proof {
            if self.search_query@.len() > 0 {
                lemma_found_bounded(before.lines_view(), self.search_query@, self.search.spec_matches());
            }
        }
    }
}

impl InteractiveUI {
    /// Applies one terminal event to the picker.  Key releases and other
    /// events are ignored and a resize asks for a redraw; a key press does what
    /// `key_outcome` says, with `max_lines` the number of pane lines on screen.
    pub fn handle_event(&mut self, event: UiEvent, max_lines: usize) -> (step: UiStep)
        requires
            old(self).wf(),
        ensures
            final(self).wf(),
            final(self).shows_search_of_query(),
            final(self).cfg() == old(self).cfg(),
            final(self).pane() == old(self).pane(),
            match event {
                UiEvent::Key { code, ctrl, release } => if release {
                    step is Ignore && *final(self) == *old(self)
                } else {
                    match key_outcome(
                        old(self).query(),
                        old(self).cursor(),
                        code,
                        ctrl,
                        old(self).searcher().spec_matches(),
                        max_lines,
                    ) {
                        KeyOutcome::Ignore => step is Ignore && *final(self) == *old(self),
                        KeyOutcome::Cancel => *final(self) == *old(self)
                            && finishes_with(step, Seq::empty(), ExitAction::Cancel),
                        KeyOutcome::Move(n) => step is Redraw && final(self).cursor() == n
                            && final(self).query() == old(self).query()
                            && final(self).searcher() == old(self).searcher(),
                        KeyOutcome::Requery(q, n) => step is Redraw && final(self).query() == q
                            && final(self).cursor() == n
                            && searched_for(old(self).searcher(), final(self).searcher(), q),
                        KeyOutcome::Pick(m, a) => *final(self) == *old(self) && finishes_with(
                            step,
                            trim_wrapping_spec(
                                m.text@,
                                m.match_start as int,
                                m.match_end as int,
                                old(self).cfg().trimmable_chars@,
                            ),
                            a,
                        ),
                    }
                },
                UiEvent::Resize => step is Redraw && *final(self) == *old(self),
                UiEvent::Other => step is Ignore && *final(self) == *old(self),
            },
    {
        match event {
            UiEvent::Key { code, ctrl, release } => {
                if release {
                    UiStep::Ignore
                } else {
                    self.handle_key(code, ctrl, max_lines)
                }
            },
            UiEvent::Resize => UiStep::Redraw,
            UiEvent::Other => UiStep::Ignore,
        }
    }

    fn pick(&self, m: &SearchMatch, action: ExitAction) -> (step: UiStep)
        requires
            match_bounded(*m),
        ensures
            finishes_with(
                step,
                trim_wrapping_spec(
                    m.text@,
                    m.match_start as int,
                    m.match_end as int,
                    self.cfg().trimmable_chars@,
                ),
                action,
            ),
    {
        let text = trim_wrapping_token(
            m.text.as_str(),
            m.match_start,
            m.match_end,
            self.config.trimmable_chars.as_str(),
        );
        UiStep::Finish { text, action }
    }

    fn handle_key(&mut self, code: KeyInput, ctrl: bool, max_lines: usize) -> (step: UiStep)
        requires
            old(self).wf(),
        ensures
            final(self).wf(),
            final(self).cfg() == old(self).cfg(),
            final(self).pane() == old(self).pane(),
            match key_outcome(
                old(self).query(),
                old(self).cursor(),
                code,
                ctrl,
                old(self).searcher().spec_matches(),
                max_lines,
            ) {
                KeyOutcome::Ignore => step is Ignore && *final(self) == *old(self),
                KeyOutcome::Cancel => *final(self) == *old(self)
                    && finishes_with(step, Seq::empty(), ExitAction::Cancel),
                KeyOutcome::Move(n) => step is Redraw && final(self).cursor() == n
                    && final(self).query() == old(self).query()
                    && final(self).searcher() == old(self).searcher(),
                KeyOutcome::Requery(q, n) => step is Redraw && final(self).query() == q
                    && final(self).cursor() == n
                    && searched_for(old(self).searcher(), final(self).searcher(), q),
                KeyOutcome::Pick(m, a) => *final(self) == *old(self) && finishes_with(
                    step,
                    trim_wrapping_spec(
                        m.text@,
                        m.match_start as int,
                        m.match_end as int,
                        old(self).cfg().trimmable_chars@,
                    ),
                    a,
                ),
            },
    {
        let ghost ms = self.search.spec_matches();
        let qv = chars_of(self.search_query.as_str());
        let qlen = qv.len();
        let is_char = match code {
            KeyInput::Char(_) => true,
            _ => false,
        };
        if (ctrl && (code == KeyInput::Char('c') || code == KeyInput::Char('d'))) || code
            == KeyInput::Esc {
            return UiStep::Finish { text: String::new(), action: ExitAction::Cancel };
        }
        if (ctrl && code == KeyInput::Char('a')) || code == KeyInput::Home {
            self.cursor_pos = 0;
            return UiStep::Redraw;
        }
        if (ctrl && code == KeyInput::Char('e')) || code == KeyInput::End {
            self.cursor_pos = qlen;
            return UiStep::Redraw;
        }
        if code == KeyInput::Left {
            if self.cursor_pos > 0 {
                self.cursor_pos = self.cursor_pos - 1;
            }
            return UiStep::Redraw;
        }
        if code == KeyInput::Right {
            if self.cursor_pos < qlen {
                self.cursor_pos = self.cursor_pos + 1;
                return UiStep::Redraw;
            }
            return UiStep::Ignore;
        }
        if ctrl && code == KeyInput::Char('u') {
            self.cursor_pos = 0;
            self.update_search(String::new());
            return UiStep::Redraw;
        }
        if ctrl && code == KeyInput::Char('w') {
            let c = self.cursor_pos;
            let head = string_from_range(&qv, 0, c);
            let new_head = delete_prev_word(head.as_str());
            let new_cursor = chars_of(new_head.as_str()).len();
            let tail = string_from_range(&qv, c, qlen);
            let mut new_query = String::new();
            push_str(&mut new_query, new_head.as_str());
            push_str(&mut new_query, tail.as_str());
            proof {
                assert(head@ =~= qv@.take(c as int));
                assert(tail@ =~= qv@.skip(c as int));
                let nh = delete_prev_word_spec(qv@.take(c as int));
                lemma_delete_prev_word_prefix(qv@.take(c as int));
                assert forall|i: int| 0 <= i < new_query@.len() implies is_ascii_graphic_char(#[trigger] new_query@[i]) by {
                    if i < nh.len() {
                        assert(new_query@[i] == qv@[i]);
                    } else {
                        assert(new_query@[i] == qv@[c + i - nh.len()]);
                    }
                }
            }
            self.cursor_pos = new_cursor;
            self.update_search(new_query);
            return UiStep::Redraw;
        }
        if code == KeyInput::Backspace {
            if self.cursor_pos > 0 {
                let mut nv = qv.clone();
                nv.remove(self.cursor_pos - 1);
                let new_query = string_from_chars(&nv);
                proof {
                    assert forall|i: int| 0 <= i < new_query@.len() implies is_ascii_graphic_char(#[trigger] new_query@[i]) by {
                        if i < self.cursor_pos - 1 {
                            assert(new_query@[i] == qv@[i]);
                        } else {
                            assert(new_query@[i] == qv@[i + 1]);
                        }
                    }
                }
                self.cursor_pos = self.cursor_pos - 1;
                self.update_search(new_query);
                return UiStep::Redraw;
            }
            return UiStep::Ignore;
        }
        if !ctrl && (code == KeyInput::Enter || code == KeyInput::Char(' ') || code
            == KeyInput::Tab) {
            match self.search.first_visible_match(max_lines) {
                Some(first) => {
                    let action = if code == KeyInput::Enter {
                        ExitAction::PasteAndEnter
                    } else if is_char {
                        ExitAction::PasteAndSpace
                    } else {
                        ExitAction::Paste
                    };
                    proof {
                        lemma_first_visible_in(ms, max_lines);
                    }
                    return self.pick(first, action);
                },
                None => {
                    return UiStep::Ignore;
                },
            }
        }
        if !ctrl && is_char {
            let ch = match code {
                KeyInput::Char(c) => c,
                _ => ' ',
            };
            let lookup = to_ascii_lower(ch);
            if qlen > 0 {
                match self.search.get_match_by_label(lookup) {
                    Some(m) => {
                        let action = if 'a' <= ch && ch <= 'z' {
                            ExitAction::Paste
                        } else {
                            ExitAction::CopyOnly
                        };
                        proof {
                            lemma_first_with_label_in(ms, lookup);
                        }
                        return self.pick(m, action);
                    },
                    None => {},
                }
            }
            if ('!' <= ch && ch <= '~') || ch == ' ' {
                let c = self.cursor_pos;
                let mut nv = qv.clone();
                nv.insert(c, ch);
                let new_len = nv.len();
                let new_query = string_from_chars(&nv);
                proof {
                    assert forall|i: int| 0 <= i < new_query@.len() implies is_ascii_graphic_char(#[trigger] new_query@[i]) by {
                        if i < c {
                            assert(new_query@[i] == qv@[i]);
                        } else if i > c {
                            assert(new_query@[i] == qv@[i - 1]);
                        }
                    }
                }
                self.update_search(new_query);
                assert(c < new_len);
                self.cursor_pos = c + 1;
                return UiStep::Redraw;
            }
            return UiStep::Ignore;
        }
        UiStep::Ignore
    }
}

proof fn lemma_first_visible_in(ms: Seq<SearchMatch>, max_lines: usize)
    ensures
        first_visible(ms, max_lines) matches Some(m) ==> exists|j: int| 0 <= j < ms.len() && ms[j] == m,
    decreases ms.len(),
{
    if ms.len() > 0 && ms[0].line >= max_lines {
        lemma_first_visible_in(ms.drop_first(), max_lines);
        if let Some(m) = first_visible(ms, max_lines) {
            let j = choose|j: int| 0 <= j < ms.drop_first().len() && ms.drop_first()[j] == m;
            assert(ms[j + 1] == m);
        }
    }
}

proof fn lemma_first_with_label_in(ms: Seq<SearchMatch>, label: char)
    ensures
        first_with_label(ms, label) matches Some(m) ==> exists|j: int| 0 <= j < ms.len() && ms[j] == m,
    decreases ms.len(),
{
    if ms.len() > 0 && ms[0].label != Some(label) {
        lemma_first_with_label_in(ms.drop_first(), label);
        if let Some(m) = first_with_label(ms, label) {
            let j = choose|j: int| 0 <= j < ms.drop_first().len() && ms.drop_first()[j] == m;
            assert(ms[j + 1] == m);
        }
    }
}

proof fn lemma_delete_prev_word_prefix(s: Seq<char>)
    ensures
        delete_prev_word_spec(s).len() <= s.len(),
        delete_prev_word_spec(s) == s.take(delete_prev_word_spec(s).len() as int),
{
    let ws = |c: char| is_white_space(c);
    let word = |c: char| !is_white_space(c) && !is_word_delimiter(c);
    let delim = |c: char| is_word_delimiter(c);
    let e1 = skip_back(s, s.len() as int, ws);
    lemma_skip_back_bounds(s, s.len() as int, ws);
    let e2 = skip_back(s, e1, word);
    lemma_skip_back_bounds(s, e1, word);
    lemma_skip_back_bounds(s, e2, delim);
}

/// The column just after the cursor in the prompt: the indicator's width, a
/// space and one more column, and the width of the query before the cursor.
pub open spec fn prompt_column_spec(indicator: Seq<char>, q: Seq<char>, cursor: nat) -> int {
    text_width(indicator) + 2 + if cursor > 0 {
        text_width(q.take(cursor as int)) as int
    } else {
        0
    }
}

impl InteractiveUI {
    fn prompt_cursor_column(&self) -> (col: usize)
        requires
            self.wf(),
            prompt_column_spec(self.cfg().prompt_indicator@, self.query(), self.cursor())
                <= usize::MAX,
        ensures
            col == prompt_column_spec(self.cfg().prompt_indicator@, self.query(), self.cursor()),
    {
        let mut col = display_width(self.config.prompt_indicator.as_str()) + 2;
        if self.cursor_pos > 0 {
            let qv = chars_of(self.search_query.as_str());
            let prefix = string_from_range(&qv, 0, self.cursor_pos);
            proof {
                assert(prefix@ =~= self.query().take(self.cursor() as int));
            }
            col = col + display_width(prefix.as_str());
        }
        col
    }

    /// The terminal column (from 0) where the cursor goes on the prompt line,
    /// capped at `u16::MAX`; `None` when the column does not fit in `usize`.
    pub fn cursor_column(&self) -> (r: Option<u16>)
        requires
            self.wf(),
        ensures
            ({
                let col = prompt_column_spec(self.cfg().prompt_indicator@, self.query(), self.cursor());
                if col <= usize::MAX {
                    r == Some(
                        if col - 1 <= u16::MAX {
                            (col - 1) as u16
                        } else {
                            u16::MAX
                        },
                    )
                } else {
                    r is None
                }
            }),
    {
        let iw = display_width(self.config.prompt_indicator.as_str());
        let mut pw: usize = 0;
        if self.cursor_pos > 0 {
            let qv = chars_of(self.search_query.as_str());
            let prefix = string_from_range(&qv, 0, self.cursor_pos);
            proof {
                assert(prefix@ =~= self.query().take(self.cursor() as int));
            }
            pw = display_width(prefix.as_str());
        }
        if iw > usize::MAX - 2 || pw > usize::MAX - 2 - iw {
            return None;
        }
        let col = self.prompt_cursor_column();
        let shown = col - 1;
        if shown <= 65535 {
            Some(shown as u16)
        } else {
            Some(u16::MAX)
        }
    }
}

/// The current match's key when it lies on line `i`: the first match on one of
/// the `total` visible lines.
pub open spec fn current_on_line(ms: Seq<SearchMatch>, total: usize, i: int) -> Option<
    (usize, usize, usize),
> {
    match first_visible(ms, total) {
        Some(m) => if m.line == i {
            Some((m.col, m.match_start, m.match_end))
        } else {
            None
        },
        None => None,
    }
}

/// The first `k` rendered pane lines, separated by `"\r\n"`.
pub open spec fn pane_rows(
    lines: Seq<Seq<char>>,
    ms: Seq<SearchMatch>,
    cfg: Config,
    total: usize,
    k: int,
) -> Seq<char>
    decreases k,
{
    if k <= 0 {
        Seq::empty()
    } else {
        let row = render_line_spec(
            lines[k - 1],
            matches_on_line(ms, (k - 1) as usize),
            cfg,
            current_on_line(ms, total, k - 1),
        );
        if k == 1 {
            row
        } else {
            pane_rows(lines, ms, cfg, total, k - 1) + "\r\n"@ + row
        }
    }
}

proof fn lemma_on_line_bounded(ms: Seq<SearchMatch>, line: usize)
    requires
        forall|j: int| 0 <= j < ms.len() ==> match_bounded(#[trigger] ms[j]),
    ensures
        forall|j: int|
            0 <= j < matches_on_line(ms, line).len() ==> match_bounded(
                #[trigger] matches_on_line(ms, line)[j],
            ),
    decreases ms.len(),
{
    if ms.len() > 0 {
        let init = ms.drop_last();
        assert forall|j: int| 0 <= j < init.len() implies match_bounded(#[trigger] init[j]) by {
            assert(init[j] == ms[j]);
        }
        lemma_on_line_bounded(init, line);
        reveal(Seq::filter);
        let f = matches_on_line(ms, line);
        let g = matches_on_line(init, line);
        assert(f == if ms.last().line == line {
            g.push(ms.last())
        } else {
            g
        });
        assert forall|j: int| 0 <= j < f.len() implies match_bounded(#[trigger] f[j]) by {
            if j < g.len() {
                assert(f[j] == g[j]);
            }
        }
    }
}

impl InteractiveUI {
    /// The number of pane lines on a terminal of `terminal_height` rows (40
    /// when the height is unknown): every row but the prompt's.
    pub fn visible_line_limit(terminal_height: Option<u16>) -> (n: usize)
        ensures
            n == match terminal_height {
                Some(h) => if h > 0 {
                    h - 1
                } else {
                    0
                },
                None => 39,
            },
    {
        let height: u16 = match terminal_height {
            Some(h) => h,
            None => 40,
        };
        if height > 0 {
            (height - 1) as usize
        } else {
            0
        }
    }

    /// The terminal row of the prompt, right below `available_height` pane
    /// lines, capped at `u16::MAX`.
    pub fn prompt_row(available_height: usize) -> (r: u16)
        ensures
            r == if available_height <= u16::MAX {
                available_height as u16
            } else {
                u16::MAX
            },
    {
        if available_height <= 65535 {
            available_height as u16
        } else {
            u16::MAX
        }
    }

    /// The pane lines that fit in `available_height` rows, each rendered with
    /// its matches, joined by `"\r\n"`.  The current match is the first match
    /// on a visible line.
    pub fn render_pane(&self, available_height: usize) -> (s: String)
        requires
            self.wf(),
        ensures
            ({
                let lines = self.searcher().lines_view();
                let total = if lines.len() < available_height {
                    lines.len() as usize
                } else {
                    available_height
                };
                s@ == pane_rows(lines, self.searcher().spec_matches(), self.cfg(), total, total as int)
            }),
    {
        let ghost lines = self.search.lines_view();
        let ghost ms = self.search.spec_matches();
        let nlines = self.search.line_count();
        let total = if nlines < available_height {
            nlines
        } else {
            available_height
        };
        let current_match = self.search.first_visible_match(total);
        let mut out = String::new();
        let mut i: usize = 0;
        while i < total
            invariant
                self.wf(),
                lines == self.search.lines_view(),
                ms == self.search.spec_matches(),
                nlines == lines.len(),
                total <= nlines,
                i <= total,
                match (current_match, first_visible(ms, total)) {
                    (Some(m), Some(n)) => *m == n,
                    (None, None) => true,
                    _ => false,
                },
                out@ == pane_rows(lines, ms, self.cfg(), total, i as int),
            decreases total - i,
        {
            let matches = self.search.get_matches_at_line(i);
            let cur = match current_match {
                Some(m) => if m.line == i {
                    Some((m.col, m.match_start, m.match_end))
                } else {
                    None
                },
                None => None,
            };
            proof {
                lemma_on_line_bounded(ms, i);
                let d = deref_matches(matches@);
                assert(d =~= matches_on_line(ms, i));
            }
            let row = render_line_with_matches(
                self.search.line(i),
                matches.as_slice(),
                &self.config,
                cur,
            );
            if i > 0 {
                push_str(&mut out, "\r\n");
            }
            push_str(&mut out, row.as_str());
            proof {
                if i == 0 {
                    assert(out@ =~= pane_rows(lines, ms, self.cfg(), total, 1));
                } else {
                    assert(out@ =~= pane_rows(lines, ms, self.cfg(), total, i + 1));
                }
            }
            i = i + 1;
        }
        out
    }
}

} // verus!

verus! {

/// Ctrl-W edits only the text before the cursor: it removes a stretch that
/// ends at the cursor, keeps everything after the cursor, and leaves the
/// cursor where the stretch began.  The text left before the cursor is the old
/// text before the cursor with its previous word deleted.
pub proof fn lemma_ctrl_w_edits_before_cursor(
    q: Seq<char>,
    c: nat,
    ms: Seq<SearchMatch>,
    max_lines: usize,
)
    requires
        c <= q.len(),
    ensures
        key_outcome(q, c, KeyInput::Char('w'), true, ms, max_lines) matches KeyOutcome::Requery(
            nq,
            nc,
        ) && nc <= c && nq == q.take(nc as int) + q.skip(c as int) && nq.skip(nc as int) == q.skip(
            c as int,
        ) && q.take(nc as int) == delete_prev_word_spec(q.take(c as int)),
{
    let head = delete_prev_word_spec(q.take(c as int));
    lemma_delete_prev_word_prefix(q.take(c as int));
    assert(head == q.take(head.len() as int));
    let nq = head + q.skip(c as int);
    assert(nq.skip(head.len() as int) =~= q.skip(c as int));
    assert(nq =~= q.take(head.len() as int) + q.skip(c as int));
}

} // verus!

verus! {

proof fn lemma_first_with_label_found(ms: Seq<SearchMatch>, label: char, j: int)
    requires
        0 <= j < ms.len(),
        ms[j].label == Some(label),
    ensures
        first_with_label(ms, label) matches Some(m) && m.label == Some(label),
    decreases ms.len(),
{
    if ms[0].label != Some(label) {
        assert(ms.drop_first()[j - 1] == ms[j]);
        lemma_first_with_label_found(ms.drop_first(), label, j - 1);
    }
}

proof fn lemma_first_with_label_label(ms: Seq<SearchMatch>, label: char)
    ensures
        first_with_label(ms, label) matches Some(m) ==> m.label == Some(label),
    decreases ms.len(),
{
    if ms.len() > 0 && ms[0].label != Some(label) {
        lemma_first_with_label_label(ms.drop_first(), label);
    }
}

/// Backspace removes the character just before the cursor and moves the
/// cursor back over it; the rest of the query stays.
pub proof fn lemma_backspace_edits_before_cursor(
    q: Seq<char>,
    c: nat,
    ctrl: bool,
    ms: Seq<SearchMatch>,
    max_lines: usize,
)
    requires
        0 < c <= q.len(),
    ensures
        key_outcome(q, c, KeyInput::Backspace, ctrl, ms, max_lines) matches KeyOutcome::Requery(
            nq,
            nc,
        ) && nc == c - 1 && nq == q.take(c - 1) + q.skip(c as int),
{
    assert(q.remove(c - 1) =~= q.take(c - 1) + q.skip(c as int));
}

/// A printable key that is no label of the current matches, or any printable
/// key while the query is empty, is typed: it goes in at the cursor, and the
/// cursor moves past it.
pub proof fn lemma_typing_inserts_at_cursor(
    q: Seq<char>,
    c: nat,
    ch: char,
    ms: Seq<SearchMatch>,
    max_lines: usize,
)
    requires
        c <= q.len(),
        '!' <= ch <= '~',
        q.len() > 0 ==> forall|j: int| 0 <= j < ms.len() ==> (#[trigger] ms[j]).label != Some(
            ascii_lower(ch),
        ),
    ensures
        key_outcome(q, c, KeyInput::Char(ch), false, ms, max_lines) matches KeyOutcome::Requery(
            nq,
            nc,
        ) && nc == c + 1 && nq == q.take(c as int) + seq![ch] + q.skip(c as int),
{
    lemma_first_with_label_in(ms, ascii_lower(ch));
    lemma_first_with_label_label(ms, ascii_lower(ch));
    assert(q.insert(c as int, ch) =~= q.take(c as int) + seq![ch] + q.skip(c as int));
}

/// Once something is typed, a key that is some match's label (lower-cased)
/// picks the first match, in search order, that carries it: copied and pasted
/// for a lower-case letter, copied only otherwise.
pub proof fn lemma_label_key_picks(
    q: Seq<char>,
    c: nat,
    ch: char,
    ms: Seq<SearchMatch>,
    max_lines: usize,
    j: int,
)
    requires
        q.len() > 0,
        ch != ' ',
        0 <= j < ms.len(),
        ms[j].label == Some(ascii_lower(ch)),
    ensures
        key_outcome(q, c, KeyInput::Char(ch), false, ms, max_lines) matches KeyOutcome::Pick(m, a)
            && m.label == Some(ascii_lower(ch)) && (exists|k: int| 0 <= k < ms.len() && ms[k] == m)
            && (a == ExitAction::Paste <==> 'a' <= ch <= 'z') && (a is Paste || a is CopyOnly),
{
    lemma_first_with_label_found(ms, ascii_lower(ch), j);
    lemma_first_with_label_in(ms, ascii_lower(ch));
}

} // verus!
