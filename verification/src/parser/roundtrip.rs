//! Reading a file again after an injection: the grammar reads each piece of
//! a text from what stands at and shortly after it, so that new content in
//! one region leaves the reading of every other piece as it was.
use vstd::prelude::*;
use crate::errors::{GrammarError, GrammarErrorKind};
use crate::parser::grammar::{
    arrow, close_mark, closer_end, closes_at, crlf, doc_leader, hash_leader, html_leader,
    leader_end, lemma_closer_end, lemma_leader_end, lemma_mark_lengths, lemma_spaces_end,
    lemma_text_end, lex_from, line_break_len, marker_len, open_mark, opens_at, prepend,
    lemma_tokens_text_concat, lemma_tokens_text_one, slash_leader, spaces_end, text_end,
    tokens_text, TokenView,
};
use crate::parser::grammar::lemma_lex_covers;
use crate::parser::tree::{build_from, lemma_build_from_bounds, prepend_regions, RegionView};
use crate::text::contains;
use crate::text::{has_prefix_at, index_of, lemma_index_of_bounds};

verus! {

/// From `lo` to `hi`, `s` holds what `t` holds `d` places further on.
pub open spec fn same(s: Seq<char>, t: Seq<char>, d: int, lo: int, hi: int) -> bool {
    &&& 0 <= lo <= hi <= s.len()
    &&& 0 <= lo + d
    &&& hi + d <= t.len()
    &&& forall|k: int| lo <= k < hi ==> s[k] == t[k + d]
}

/// What is looked at up to `x` lies in the part that `s` and `t` share:
/// before `hi`, or anywhere where both texts end together.
pub open spec fn within(s: Seq<char>, t: Seq<char>, d: int, hi: int, x: int) -> bool {
    x <= hi || (hi == s.len() && hi + d == t.len())
}

pub proof fn lemma_subrange_same(
    s: Seq<char>,
    t: Seq<char>,
    d: int,
    lo: int,
    hi: int,
    a: int,
    b: int,
)
    requires
        same(s, t, d, lo, hi),
        lo <= a <= b <= hi,
    ensures
        t.subrange(a + d, b + d) == s.subrange(a, b),
{
    assert forall|k: int| 0 <= k < b - a implies #[trigger] t.subrange(a + d, b + d)[k]
        == s.subrange(a, b)[k] by {
        assert(s[a + k] == t[a + k + d]);
    }
    assert(t.subrange(a + d, b + d) =~= s.subrange(a, b));
}

pub proof fn lemma_spaces_same(s: Seq<char>, t: Seq<char>, d: int, lo: int, hi: int, i: int)
    requires
        same(s, t, d, lo, hi),
        lo <= i <= hi,
        within(s, t, d, hi, spaces_end(s, i) + 1),
    ensures
        spaces_end(t, i + d) == spaces_end(s, i) + d,
    decreases s.len() - i,
{
    lemma_spaces_end(s, i);
    if i < s.len() && s[i] == ' ' {
        lemma_spaces_end(s, i + 1);
        assert(i < hi);
        assert(s[i] == t[i + d]);
        lemma_spaces_same(s, t, d, lo, hi, i + 1);
    } else {
        if i < hi {
            assert(s[i] == t[i + d]);
        }
    }
}

pub proof fn lemma_prefix_same(
    s: Seq<char>,
    t: Seq<char>,
    d: int,
    lo: int,
    hi: int,
    j: int,
    lit: Seq<char>,
)
    requires
        same(s, t, d, lo, hi),
        lo <= j <= hi,
        within(s, t, d, hi, j + lit.len()),
    ensures
        has_prefix_at(t, j + d, lit) == has_prefix_at(s, j, lit),
{
    if has_prefix_at(s, j, lit) {
        assert forall|k: int| 0 <= k < lit.len() implies t[j + d + k] == #[trigger] lit[k] by {
            assert(s[j + k] == t[j + k + d]);
        }
    }
    if has_prefix_at(t, j + d, lit) {
        assert forall|k: int| 0 <= k < lit.len() implies s[j + k] == #[trigger] lit[k] by {
            assert(s[j + k] == t[j + k + d]);
        }
    }
}

pub proof fn lemma_marker_same(s: Seq<char>, t: Seq<char>, d: int, lo: int, hi: int, i: int)
    requires
        same(s, t, d, lo, hi),
        lo <= i <= hi,
        within(s, t, d, hi, i + 4),
    ensures
        marker_len(t, i + d) == marker_len(s, i),
{
    lemma_mark_lengths();
    lemma_prefix_same(s, t, d, lo, hi, i, html_leader());
    lemma_prefix_same(s, t, d, lo, hi, i, doc_leader());
    lemma_prefix_same(s, t, d, lo, hi, i, slash_leader());
    lemma_prefix_same(s, t, d, lo, hi, i, hash_leader());
}

pub proof fn lemma_leader_same(s: Seq<char>, t: Seq<char>, d: int, lo: int, hi: int, i: int)
    requires
        same(s, t, d, lo, hi),
        lo <= i <= hi,
        within(s, t, d, hi, i + 4),
        within(s, t, d, hi, leader_end(s, i) + 1),
    ensures
        leader_end(t, i + d) == leader_end(s, i) + d,
{
    lemma_mark_lengths();
    lemma_marker_same(s, t, d, lo, hi, i);
    if i <= s.len() {
        lemma_leader_end(s, i);
    }
    let m = i + marker_len(s, i);
    if marker_len(s, i) > 0 {
        assert(m <= s.len());
    }
    lemma_spaces_end(s, m);
    lemma_spaces_same(s, t, d, lo, hi, m);
}

pub proof fn lemma_tag_start_same(s: Seq<char>, t: Seq<char>, d: int, lo: int, hi: int, i: int)
    requires
        same(s, t, d, lo, hi),
        lo <= i <= hi,
        within(s, t, d, hi, i + 4),
        within(s, t, d, hi, leader_end(s, i) + 6),
    ensures
        leader_end(t, i + d) == leader_end(s, i) + d,
        opens_at(t, i + d) == opens_at(s, i),
        closes_at(t, i + d) == closes_at(s, i),
{
    lemma_mark_lengths();
    lemma_leader_end(s, i);
    lemma_leader_same(s, t, d, lo, hi, i);
    let le = leader_end(s, i);
    if le <= hi {
        lemma_prefix_same(s, t, d, lo, hi, le, open_mark());
        lemma_prefix_same(s, t, d, lo, hi, le, close_mark());
    }
}

pub proof fn lemma_index_same(
    s: Seq<char>,
    t: Seq<char>,
    d: int,
    lo: int,
    hi: int,
    c: char,
    i: int,
)
    requires
        same(s, t, d, lo, hi),
        lo <= i <= hi,
        within(s, t, d, hi, index_of(s, c, i) + 1),
    ensures
        index_of(t, c, i + d) == index_of(s, c, i) + d,
    decreases s.len() - i,
{
    lemma_index_of_bounds(s, c, i);
    if i < s.len() && s[i] != c {
        lemma_index_of_bounds(s, c, i + 1);
        assert(s[i] == t[i + d]);
        lemma_index_same(s, t, d, lo, hi, c, i + 1);
    } else {
        if i < hi {
            assert(s[i] == t[i + d]);
        }
    }
}

pub proof fn lemma_line_break_same(s: Seq<char>, t: Seq<char>, d: int, lo: int, hi: int, i: int)
    requires
        same(s, t, d, lo, hi),
        lo <= i <= hi,
        within(s, t, d, hi, i + 2),
    ensures
        line_break_len(t, i + d) == line_break_len(s, i),
{
    lemma_mark_lengths();
    lemma_prefix_same(s, t, d, lo, hi, i, crlf());
    if i < hi {
        assert(s[i] == t[i + d]);
    }
}

pub proof fn lemma_closer_same(s: Seq<char>, t: Seq<char>, d: int, lo: int, hi: int, i: int)
    requires
        same(s, t, d, lo, hi),
        lo <= i <= hi,
        within(s, t, d, hi, closer_end(s, i) + 3),
    ensures
        closer_end(t, i + d) == closer_end(s, i) + d,
{
    lemma_mark_lengths();
    lemma_closer_end(s, i);
    lemma_spaces_end(s, i);
    let a = spaces_end(s, i);
    if has_prefix_at(s, a, arrow()) {
        lemma_spaces_end(s, a + 3);
    }
    lemma_spaces_same(s, t, d, lo, hi, i);
    lemma_prefix_same(s, t, d, lo, hi, a, arrow());
    let b = if has_prefix_at(s, a, arrow()) {
        spaces_end(s, a + 3)
    } else {
        a
    };
    if has_prefix_at(s, a, arrow()) {
        lemma_spaces_same(s, t, d, lo, hi, a + 3);
    }
    lemma_line_break_same(s, t, d, lo, hi, b);
}

pub proof fn lemma_closer_same_line(s: Seq<char>, t: Seq<char>, d: int, lo: int, hi: int, i: int)
    requires
        same(s, t, d, lo, hi),
        lo <= i <= hi,
        i < closer_end(s, i) <= hi,
        s[closer_end(s, i) - 1] == '\n',
    ensures
        closer_end(t, i + d) == closer_end(s, i) + d,
{
    lemma_mark_lengths();
    lemma_closer_end(s, i);
    lemma_spaces_end(s, i);
    let a = spaces_end(s, i);
    let ce = closer_end(s, i);
    if has_prefix_at(s, a, arrow()) {
        lemma_spaces_end(s, a + 3);
        assert(s[a + 2] == arrow()[2]);
        let b = spaces_end(s, a + 3);
        assert(line_break_len(s, b) > 0) by {
            if line_break_len(s, b) == 0 {
                if b > a + 3 {
                    assert(s[b - 1] == ' ');
                }
            }
        }
        lemma_spaces_same(s, t, d, lo, hi, i);
        lemma_prefix_same(s, t, d, lo, hi, a, arrow());
        lemma_spaces_same(s, t, d, lo, hi, a + 3);
        lemma_line_break_same_line(s, t, d, lo, hi, b);
    } else {
        assert(line_break_len(s, a) > 0) by {
            if line_break_len(s, a) == 0 {
                if a > i {
                    assert(s[a - 1] == ' ');
                }
            }
        }
        lemma_spaces_same(s, t, d, lo, hi, i);
        assert(s[a] == t[a + d]);
        assert(!has_prefix_at(t, a + d, arrow())) by {
            if has_prefix_at(t, a + d, arrow()) {
                assert(t[a + d + 0] == arrow()[0]);
                if has_prefix_at(s, a, crlf()) {
                    assert(s[a + 0] == crlf()[0]);
                }
            }
        }
        lemma_line_break_same_line(s, t, d, lo, hi, a);
    }
}

/// A line break that lies in the shared part is read as it was.
pub proof fn lemma_line_break_same_line(
    s: Seq<char>,
    t: Seq<char>,
    d: int,
    lo: int,
    hi: int,
    i: int,
)
    requires
        same(s, t, d, lo, hi),
        lo <= i,
        line_break_len(s, i) > 0,
        i + line_break_len(s, i) <= hi,
    ensures
        line_break_len(t, i + d) == line_break_len(s, i),
{
    lemma_mark_lengths();
    if has_prefix_at(s, i, crlf()) {
        lemma_prefix_same(s, t, d, lo, hi, i, crlf());
    } else {
        assert(s[i] == t[i + d]);
        assert(!has_prefix_at(t, i + d, crlf())) by {
            if has_prefix_at(t, i + d, crlf()) {
                assert(t[i + d + 0] == crlf()[0]);
            }
        }
    }
}

/// A leader does not reach past the leader of a tag that begins after it.
pub proof fn lemma_leader_before_tag(s: Seq<char>, p: int, e: int)
    requires
        0 <= p < e < s.len(),
        opens_at(s, e) || closes_at(s, e),
    ensures
        leader_end(s, p) <= leader_end(s, e),
{
    lemma_mark_lengths();
    lemma_leader_end(s, p);
    lemma_leader_end(s, e);
    let j = leader_end(s, p);
    let le = leader_end(s, e);
    let ml = marker_len(s, p);
    lemma_spaces_end(s, p + ml);
    assert(s[le] == '<') by {
        if opens_at(s, e) {
            assert(s[le + 0] == open_mark()[0]);
        } else {
            assert(s[le + 0] == close_mark()[0]);
        }
    }
    if j > le {
        if le >= p + ml {
            assert(s[le] == ' ');
        } else {
            let k = le - p;
            if has_prefix_at(s, p, html_leader()) {
                assert(s[p + k] == html_leader()[k]);
            } else if has_prefix_at(s, p, doc_leader()) {
                assert(s[p + k] == doc_leader()[k]);
            } else if has_prefix_at(s, p, slash_leader()) {
                assert(s[p + k] == slash_leader()[k]);
            } else if has_prefix_at(s, p, hash_leader()) {
                assert(s[p + k] == hash_leader()[k]);
            }
        }
    }
}

pub proof fn lemma_text_end_same(s: Seq<char>, t: Seq<char>, d: int, lo: int, hi: int, i: int)
    requires
        same(s, t, d, lo, hi),
        lo <= i <= hi,
        (hi == s.len() && hi + d == t.len()) || (text_end(s, i) < s.len() && leader_end(
            s,
            text_end(s, i),
        ) + 6 <= hi),
    ensures
        text_end(t, i + d) == text_end(s, i) + d,
    decreases s.len() - i,
{
    lemma_text_end(s, i);
    let e = text_end(s, i);
    if i < s.len() && !opens_at(s, i) && !closes_at(s, i) {
        if !(hi == s.len() && hi + d == t.len()) {
            lemma_leader_end(s, e);
            lemma_leader_before_tag(s, i, e);
        }
        lemma_leader_end(s, i);
        lemma_tag_start_same(s, t, d, lo, hi, i);
        assert(i + 1 <= hi);
        lemma_text_end_same(s, t, d, lo, hi, i + 1);
    } else if i < s.len() {
        lemma_leader_end(s, i);
        lemma_tag_start_same(s, t, d, lo, hi, i);
    }
}

/// The piece of `s` that begins at `i`, and where it ends.
pub open spec fn step(s: Seq<char>, i: int) -> Result<(TokenView, int), GrammarError> {
    let le = leader_end(s, i);
    if opens_at(s, i) {
        let g = index_of(s, '>', le + 5);
        if g >= s.len() {
            Err(GrammarError { kind: GrammarErrorKind::UnterminatedOpenTag, offset: i as usize })
        } else {
            let ce = closer_end(s, g + 1);
            Ok(
                (
                    TokenView::Open {
                        leader: s.subrange(i, le),
                        tag: s.subrange(le, g + 1),
                        closer: s.subrange(g + 1, ce),
                    },
                    ce,
                ),
            )
        }
    } else if closes_at(s, i) {
        if le + 6 < s.len() && s[le + 6] == '>' {
            let ce = closer_end(s, le + 7);
            Ok((TokenView::Close { text: s.subrange(i, ce) }, ce))
        } else {
            Err(GrammarError { kind: GrammarErrorKind::MalformedCloseTag, offset: i as usize })
        }
    } else {
        let te = text_end(s, i + 1);
        Ok((TokenView::Text { text: s.subrange(i, te) }, te))
    }
}

pub proof fn lemma_lex_step(s: Seq<char>, i: int)
    requires
        0 <= i < s.len(),
    ensures
        lex_from(s, i) == match step(s, i) {
            Err(e) => Err::<Seq<TokenView>, GrammarError>(e),
            Ok((token, next)) => prepend(seq![token], lex_from(s, next)),
        },
{
}

/// The piece that begins at `i` ends after `i`, and spans what lies between.
pub proof fn lemma_step_bounds(s: Seq<char>, i: int)
    requires
        0 <= i < s.len(),
        step(s, i) is Ok,
    ensures
        i < step(s, i)->Ok_0.1 <= s.len(),
        step(s, i)->Ok_0.0.text() == s.subrange(i, step(s, i)->Ok_0.1),
        step(s, i)->Ok_0.0 is Open ==> leader_end(s, i) + 6 <= i + step(
            s,
            i,
        )->Ok_0.0->leader.len() + step(s, i)->Ok_0.0->tag.len() && step(s, i)->Ok_0.0->leader.len()
            == leader_end(s, i) - i && step(s, i)->Ok_0.0->closer.len() == step(s, i)->Ok_0.1 - i
            - step(s, i)->Ok_0.0->leader.len() - step(s, i)->Ok_0.0->tag.len() && opens_at(s, i),
        step(s, i)->Ok_0.0 is Close ==> leader_end(s, i) + 7 <= step(s, i)->Ok_0.1 && closes_at(
            s,
            i,
        ) && !opens_at(s, i),
        step(s, i)->Ok_0.0 is Text ==> !opens_at(s, i) && !closes_at(s, i) && (step(s, i)->Ok_0.1
            < s.len() ==> opens_at(s, step(s, i)->Ok_0.1) || closes_at(s, step(s, i)->Ok_0.1)),
{
    lemma_mark_lengths();
    lemma_leader_end(s, i);
    let le = leader_end(s, i);
    if opens_at(s, i) {
        lemma_index_of_bounds(s, '>', le + 5);
        let g = index_of(s, '>', le + 5);
        lemma_closer_end(s, g + 1);
        let ce = closer_end(s, g + 1);
        assert(s.subrange(i, le) + s.subrange(le, g + 1) + s.subrange(g + 1, ce) =~= s.subrange(
            i,
            ce,
        ));
    } else if closes_at(s, i) {
        lemma_closer_end(s, le + 7);
    } else {
        lemma_text_end(s, i + 1);
    }
}

/// A piece is read as it was where the texts share it and what is looked
/// at after it: three characters, and for text the beginning of the tag
/// that follows it.
pub proof fn lemma_step_same(s: Seq<char>, t: Seq<char>, d: int, lo: int, hi: int, i: int)
    requires
        same(s, t, d, lo, hi),
        lo <= i < hi,
        step(s, i) is Ok,
        (hi == s.len() && hi + d == t.len()) || (step(s, i)->Ok_0.1 + 3 <= hi && (step(
            s,
            i,
        )->Ok_0.0 is Text ==> leader_end(s, step(s, i)->Ok_0.1) + 6 <= hi)),
    ensures
        step(t, i + d) == Ok::<(TokenView, int), GrammarError>(
            (step(s, i)->Ok_0.0, step(s, i)->Ok_0.1 + d),
        ),
{
    lemma_mark_lengths();
    lemma_step_bounds(s, i);
    lemma_leader_end(s, i);
    let le = leader_end(s, i);
    let j = step(s, i)->Ok_0.1;
    let bounded = !(hi == s.len() && hi + d == t.len());
    if step(s, i)->Ok_0.0 is Text {
        if bounded {
            lemma_leader_end(s, j);
            lemma_leader_before_tag(s, i, j);
        }
        lemma_tag_start_same(s, t, d, lo, hi, i);
        lemma_text_end(s, i + 1);
        lemma_text_end_same(s, t, d, lo, hi, i + 1);
        lemma_subrange_same(s, t, d, lo, hi, i, j);
    } else {
        lemma_tag_start_same(s, t, d, lo, hi, i);
        if opens_at(s, i) {
            lemma_index_of_bounds(s, '>', le + 5);
            let g = index_of(s, '>', le + 5);
            lemma_closer_end(s, g + 1);
            lemma_index_same(s, t, d, lo, hi, '>', le + 5);
            lemma_closer_same(s, t, d, lo, hi, g + 1);
            lemma_subrange_same(s, t, d, lo, hi, i, le);
            lemma_subrange_same(s, t, d, lo, hi, le, g + 1);
            lemma_subrange_same(s, t, d, lo, hi, g + 1, j);
        } else {
            lemma_closer_end(s, le + 7);
            assert(s[le + 6] == t[le + 6 + d]);
            lemma_closer_same(s, t, d, lo, hi, le + 7);
            lemma_subrange_same(s, t, d, lo, hi, i, j);
        }
    }
}

/// The closer of an open tag ends where it ended when `body` follows it.
pub open spec fn closer_stays(closer: Seq<char>, body: Seq<char>) -> bool {
    closer_end(closer + body, 0) == closer.len()
}

/// Where a closer ends before the end of a text that ends with a line feed,
/// it ends there whatever follows that text.
pub proof fn lemma_closer_stays(u: Seq<char>, t: Seq<char>, d: int)
    requires
        u.len() > 0,
        u.last() == '\n',
        closer_end(u, 0) < u.len(),
        same(u, t, d, 0, u.len() as int),
    ensures
        closer_end(t, d) == closer_end(u, 0) + d,
{
    lemma_mark_lengths();
    lemma_closer_end(u, 0);
    lemma_spaces_end(u, 0);
    let hi = u.len() as int;
    let q = hi - 1;
    let a = spaces_end(u, 0);
    assert(u[q] == t[q + d]);
    lemma_spaces_same(u, t, d, 0, hi, 0);
    if has_prefix_at(u, a, arrow()) {
        lemma_spaces_end(u, a + 3);
        lemma_prefix_same(u, t, d, 0, hi, a, arrow());
        lemma_spaces_same(u, t, d, 0, hi, a + 3);
    } else if a + 3 <= hi {
        lemma_prefix_same(u, t, d, 0, hi, a, arrow());
    } else {
        if has_prefix_at(t, a + d, arrow()) {
            assert(t[a + d + (q - a)] == arrow()[q - a]);
        }
    }
    let b = if has_prefix_at(u, a, arrow()) {
        spaces_end(u, a + 3)
    } else {
        a
    };
    assert(u[b] == t[b + d]);
    if b + 2 <= hi {
        lemma_prefix_same(u, t, d, 0, hi, b, crlf());
    } else {
        if has_prefix_at(t, b + d, crlf()) {
            assert(t[b + d + 0] == crlf()[0]);
        }
    }
}

/// An open tag is read as it was where the texts share it, and what
/// follows it in the other text lets its closer end where it ended.
pub proof fn lemma_open_step_stays(s: Seq<char>, t: Seq<char>, i: int, body: Seq<char>)
    requires
        0 <= i < s.len(),
        step(s, i) is Ok,
        step(s, i)->Ok_0.0 is Open,
        same(s, t, 0, 0, step(s, i)->Ok_0.1),
        body.len() > 0,
        body.last() == '\n',
        step(s, i)->Ok_0.1 + body.len() <= t.len(),
        t.subrange(step(s, i)->Ok_0.1, step(s, i)->Ok_0.1 + body.len()) == body,
        closer_stays(step(s, i)->Ok_0.0->closer, body),
    ensures
        step(t, i) == step(s, i),
{
    lemma_mark_lengths();
    lemma_step_bounds(s, i);
    lemma_leader_end(s, i);
    let le = leader_end(s, i);
    let j = step(s, i)->Ok_0.1;
    lemma_index_of_bounds(s, '>', le + 5);
    let g = index_of(s, '>', le + 5);
    lemma_closer_end(s, g + 1);
    lemma_tag_start_same(s, t, 0, 0, j, i);
    lemma_index_same(s, t, 0, 0, j, '>', le + 5);
    let closer = s.subrange(g + 1, j);
    let u = closer + body;
    assert(same(u, t, g + 1, 0, u.len() as int)) by {
        assert forall|k: int| 0 <= k < u.len() implies u[k] == t[k + g + 1] by {
            if k < closer.len() {
                assert(s[g + 1 + k] == t[g + 1 + k]);
            } else {
                assert(t.subrange(j, j + body.len())[k - closer.len()] == t[j + k - closer.len()]);
            }
        }
    }
    assert(u.last() == body.last());
    lemma_closer_stays(u, t, g + 1);
    lemma_subrange_same(s, t, 0, 0, j, i, le);
    lemma_subrange_same(s, t, 0, 0, j, le, g + 1);
    lemma_subrange_same(s, t, 0, 0, j, g + 1, j);
}

/// What follows a place is read in the same way in two texts that hold the
/// same from that place to their ends.
pub proof fn lemma_lex_same_to_end(s: Seq<char>, t: Seq<char>, d: int, lo: int, i: int)
    requires
        same(s, t, d, lo, s.len() as int),
        s.len() + d == t.len(),
        lo <= i <= s.len(),
        lex_from(s, i) is Ok,
    ensures
        lex_from(t, i + d) == lex_from(s, i),
    decreases s.len() - i,
{
    if i < s.len() {
        lemma_lex_step(s, i);
        lemma_lex_step(t, i + d);
        lemma_step_bounds(s, i);
        lemma_step_same(s, t, d, lo, s.len() as int, i);
        lemma_lex_same_to_end(s, t, d, lo, step(s, i)->Ok_0.1);
    }
}

pub proof fn lemma_tokens_text_first(ts: Seq<TokenView>)
    requires
        ts.len() > 0,
    ensures
        tokens_text(ts) == ts[0].text() + tokens_text(ts.drop_first()),
        tokens_text(ts).len() == ts[0].text().len() + tokens_text(ts.drop_first()).len(),
{
}

/// After the first pieces of a text come the pieces of the rest.
pub proof fn lemma_lex_rest(s: Seq<char>, i: int, first: Seq<TokenView>, rest: Seq<TokenView>)
    requires
        0 <= i <= s.len(),
        lex_from(s, i) == Ok::<Seq<TokenView>, GrammarError>(first + rest),
    ensures
        i + tokens_text(first).len() <= s.len(),
        lex_from(s, i + tokens_text(first).len()) == Ok::<Seq<TokenView>, GrammarError>(rest),
    decreases first.len(),
{
    if first.len() == 0 {
        assert(first + rest =~= rest);
    } else {
        if i >= s.len() {
            assert((first + rest).len() == 0);
        }
        lemma_lex_step(s, i);
        lemma_step_bounds(s, i);
        let next = step(s, i)->Ok_0.1;
        let tail = lex_from(s, next)->Ok_0;
        assert((seq![step(s, i)->Ok_0.0] + tail)[0] == step(s, i)->Ok_0.0);
        assert((first + rest)[0] == first[0]);
        assert((seq![step(s, i)->Ok_0.0] + tail).drop_first() =~= tail);
        assert((first + rest).drop_first() =~= first.drop_first() + rest);
        lemma_tokens_text_first(first);
        lemma_lex_rest(s, next, first.drop_first(), rest);
    }
}

/// The first piece that a text is cut into is what stands at its start.
pub proof fn lemma_lex_first(s: Seq<char>, i: int)
    requires
        0 <= i < s.len(),
        lex_from(s, i) is Ok,
    ensures
        step(s, i) is Ok,
        lex_from(s, i)->Ok_0.len() > 0,
        lex_from(s, i)->Ok_0[0] == step(s, i)->Ok_0.0,
        lex_from(s, step(s, i)->Ok_0.1) == Ok::<Seq<TokenView>, GrammarError>(
            lex_from(s, i)->Ok_0.drop_first(),
        ),
{
    lemma_lex_step(s, i);
    let tail = lex_from(s, step(s, i)->Ok_0.1)->Ok_0;
    assert((seq![step(s, i)->Ok_0.0] + tail)[0] == step(s, i)->Ok_0.0);
    assert((seq![step(s, i)->Ok_0.0] + tail).drop_first() =~= tail);
}

/// An open tag as the grammar reads one: its tag holds at least `<snip>`.
pub open spec fn opens_region(token: TokenView) -> bool {
    token is Open && token->tag.len() >= 6
}

/// The pieces take at least the characters of the last of them.
pub proof fn lemma_tokens_text_last(ts: Seq<TokenView>)
    requires
        ts.len() > 0,
    ensures
        tokens_text(ts).len() >= ts.last().text().len(),
    decreases ts.len(),
{
    if ts.len() == 1 {
        lemma_tokens_text_one(ts[0]);
        assert(ts =~= seq![ts[0]]);
    } else {
        assert(ts.drop_first().last() == ts.last());
        lemma_tokens_text_last(ts.drop_first());
    }
}

/// What is looked at to read the first of several pieces lies before the
/// end of the last of them, where that is an open tag.
pub proof fn lemma_prefix_window(
    s: Seq<char>,
    i: int,
    first: Seq<TokenView>,
    rest: Seq<TokenView>,
    m: int,
)
    requires
        0 <= i < s.len(),
        m <= s.len(),
        lex_from(s, i) == Ok::<Seq<TokenView>, GrammarError>(first + rest),
        i + tokens_text(first).len() == m,
        first.len() >= 2,
        opens_region(first.last()),
    ensures
        step(s, i) is Ok,
        step(s, i)->Ok_0.0 == first[0],
        step(s, i)->Ok_0.1 + 3 <= m,
        step(s, i)->Ok_0.0 is Text ==> leader_end(s, step(s, i)->Ok_0.1) + 6 <= m,
        lex_from(s, step(s, i)->Ok_0.1) == Ok::<Seq<TokenView>, GrammarError>(
            first.drop_first() + rest,
        ),
        step(s, i)->Ok_0.1 + tokens_text(first.drop_first()).len() == m,
{
    lemma_lex_first(s, i);
    lemma_step_bounds(s, i);
    lemma_tokens_text_first(first);
    let token = step(s, i)->Ok_0.0;
    let next = step(s, i)->Ok_0.1;
    let others = first.drop_first();
    assert((first + rest)[0] == first[0]);
    assert((first + rest).drop_first() =~= others + rest);
    assert(token.text().len() == next - i);
    assert(others.last() == first.last());
    lemma_tokens_text_last(others);
    assert(others.last().text().len() >= 6);
    if token is Text {
        lemma_lex_first(s, next);
        lemma_step_bounds(s, next);
        lemma_tokens_text_first(others);
        assert((others + rest)[0] == others[0]);
        let following = step(s, next)->Ok_0.0;
        assert(following == others[0]);
        assert(following.text().len() == step(s, next)->Ok_0.1 - next);
        lemma_leader_end(s, next);
    }
}

proof fn lemma_prefix_last(
    s: Seq<char>,
    t: Seq<char>,
    m: int,
    i: int,
    first: Seq<TokenView>,
    rest: Seq<TokenView>,
    body: Seq<char>,
)
    requires
        same(s, t, 0, 0, m),
        0 <= i <= m,
        lex_from(s, i) == Ok::<Seq<TokenView>, GrammarError>(first + rest),
        i + tokens_text(first).len() == m,
        first.len() == 1,
        opens_region(first.last()),
        body.len() > 0,
        body.last() == '\n',
        m + body.len() <= t.len(),
        t.subrange(m, m + body.len()) == body,
        closer_stays(first.last()->closer, body),
    ensures
        lex_from(t, i) == prepend(first, lex_from(t, m)),
{
    if i >= s.len() {
        assert((first + rest).len() == 0);
    }
    lemma_tokens_text_first(first);
    lemma_lex_first(s, i);
    lemma_step_bounds(s, i);
    assert((first + rest)[0] == first[0]);
    assert(first.drop_first() =~= Seq::<TokenView>::empty());
    assert(tokens_text(first.drop_first()).len() == 0);
    lemma_open_step_stays(s, t, i, body);
    lemma_lex_step(t, i);
    assert(first =~= seq![first[0]]);
}

proof fn lemma_prefix_next(
    s: Seq<char>,
    t: Seq<char>,
    m: int,
    i: int,
    first: Seq<TokenView>,
    rest: Seq<TokenView>,
)
    requires
        same(s, t, 0, 0, m),
        0 <= i <= m,
        lex_from(s, i) == Ok::<Seq<TokenView>, GrammarError>(first + rest),
        i + tokens_text(first).len() == m,
        first.len() >= 2,
        opens_region(first.last()),
    ensures
        step(s, i) is Ok,
        i < step(s, i)->Ok_0.1 <= m,
        lex_from(t, i) == prepend(seq![first[0]], lex_from(t, step(s, i)->Ok_0.1)),
        lex_from(s, step(s, i)->Ok_0.1) == Ok::<Seq<TokenView>, GrammarError>(
            first.drop_first() + rest,
        ),
        step(s, i)->Ok_0.1 + tokens_text(first.drop_first()).len() == m,
{
    if i >= s.len() {
        assert((first + rest).len() == 0);
    }
    lemma_prefix_window(s, i, first, rest, m);
    lemma_step_bounds(s, i);
    lemma_step_same(s, t, 0, 0, m, i);
    lemma_lex_step(t, i);
}

proof fn lemma_prepend_twice(
    one: TokenView,
    others: Seq<TokenView>,
    all: Seq<TokenView>,
    tail: Result<Seq<TokenView>, GrammarError>,
)
    requires
        all.len() > 0,
        all[0] == one,
        all.drop_first() == others,
    ensures
        prepend(seq![one], prepend(others, tail)) == prepend(all, tail),
{
    match tail {
        Ok(ts) => {
            assert(seq![one] + (others + ts) =~= all + ts);
        },
        Err(_) => {},
    }
}

/// The first pieces of a text are read as they were where another text
/// holds the same up to their end, the last of them is an open tag, and what
/// follows in the other text lets the closer of that tag end where it ended.
pub proof fn lemma_lex_prefix_same(
    s: Seq<char>,
    t: Seq<char>,
    m: int,
    i: int,
    first: Seq<TokenView>,
    rest: Seq<TokenView>,
    body: Seq<char>,
)
    requires
        same(s, t, 0, 0, m),
        0 <= i <= m,
        lex_from(s, i) == Ok::<Seq<TokenView>, GrammarError>(first + rest),
        i + tokens_text(first).len() == m,
        first.len() > 0,
        opens_region(first.last()),
        body.len() > 0,
        body.last() == '\n',
        m + body.len() <= t.len(),
        t.subrange(m, m + body.len()) == body,
        closer_stays(first.last()->closer, body),
    ensures
        lex_from(t, i) == prepend(first, lex_from(t, m)),
    decreases first.len(),
{
    if first.len() == 1 {
        lemma_prefix_last(s, t, m, i, first, rest, body);
    } else {
        lemma_prefix_next(s, t, m, i, first, rest);
        let next = step(s, i)->Ok_0.1;
        assert(first.drop_first().last() == first.last());
        lemma_lex_prefix_same(s, t, m, next, first.drop_first(), rest, body);
        lemma_prepend_twice(first[0], first.drop_first(), first, lex_from(t, m));
    }
}

/// Neither `<snip` nor `</snip` begins at `j`.
pub open spec fn no_mark_at(s: Seq<char>, j: int) -> bool {
    !has_prefix_at(s, j, open_mark()) && !has_prefix_at(s, j, close_mark())
}

/// No tag begins at a place from which no mark begins up to the next line
/// feed: a leader does not reach over a line feed.
pub proof fn lemma_no_tag_before_line_feed(s: Seq<char>, p: int, q: int)
    requires
        0 <= p <= q < s.len(),
        s[q] == '\n',
        forall|j: int| p <= j <= q ==> no_mark_at(s, j),
    ensures
        !opens_at(s, p),
        !closes_at(s, p),
{
    lemma_mark_lengths();
    lemma_leader_end(s, p);
    let le = leader_end(s, p);
    let ml = marker_len(s, p);
    lemma_spaces_end(s, p + ml);
    if le > q {
        if q >= p + ml {
            assert(s[q] == ' ');
        } else {
            let k = q - p;
            if has_prefix_at(s, p, html_leader()) {
                assert(s[p + k] == html_leader()[k]);
            } else if has_prefix_at(s, p, doc_leader()) {
                assert(s[p + k] == doc_leader()[k]);
            } else if has_prefix_at(s, p, slash_leader()) {
                assert(s[p + k] == slash_leader()[k]);
            } else if has_prefix_at(s, p, hash_leader()) {
                assert(s[p + k] == hash_leader()[k]);
            }
        }
    }
    assert(no_mark_at(s, le));
}

pub proof fn lemma_text_end_is(s: Seq<char>, i: int, e: int)
    requires
        0 <= i <= e <= s.len(),
        forall|p: int| i <= p < e ==> !opens_at(s, p) && !closes_at(s, p),
        e < s.len() ==> opens_at(s, e) || closes_at(s, e),
    ensures
        text_end(s, i) == e,
    decreases e - i,
{
    if i < e {
        lemma_text_end_is(s, i + 1, e);
    }
}

/// A text without marks.
pub open spec fn mark_free(text: Seq<char>) -> bool {
    !contains(text, open_mark()) && !contains(text, close_mark())
}

/// Where `body`, a text without marks and a line feed after it, stands in
/// `s` from `a` on, no mark begins in it.
pub proof fn lemma_no_mark_in_body(s: Seq<char>, a: int, body: Seq<char>, j: int)
    requires
        0 <= a,
        a + body.len() <= s.len(),
        s.subrange(a, a + body.len()) == body,
        body.len() > 0,
        body.last() == '\n',
        mark_free(body.drop_last()),
        a <= j < a + body.len(),
    ensures
        no_mark_at(s, j),
{
    lemma_mark_lengths();
    let q = a + body.len() - 1;
    assert(s[q] == body[body.len() - 1]) by {
        assert(s.subrange(a, a + body.len())[body.len() - 1] == s[q]);
    }
    let inner = body.drop_last();
    assert forall|k: int| 0 <= k < inner.len() implies inner[k] == s[a + k] by {
        assert(s.subrange(a, a + body.len())[k] == s[a + k]);
    }
    if has_prefix_at(s, j, open_mark()) {
        if j + 5 <= q {
            assert(has_prefix_at(inner, j - a, open_mark())) by {
                assert forall|k: int| 0 <= k < 5 implies inner[j - a + k] == #[trigger] open_mark()[k] by {
                    assert(s[j + k] == open_mark()[k]);
                }
            }
        } else {
            assert(s[j + (q - j)] == open_mark()[q - j]);
        }
    }
    if has_prefix_at(s, j, close_mark()) {
        if j + 6 <= q {
            assert(has_prefix_at(inner, j - a, close_mark())) by {
                assert forall|k: int| 0 <= k < 6 implies inner[j - a + k] == #[trigger] close_mark()[k] by {
                    assert(s[j + k] == close_mark()[k]);
                }
            }
        } else {
            assert(s[j + (q - j)] == close_mark()[q - j]);
        }
    }
}

/// A text without marks and a line feed after it, before a close tag, is
/// read as one piece of text.
pub proof fn lemma_body_step(s: Seq<char>, a: int, body: Seq<char>)
    requires
        0 <= a,
        a + body.len() < s.len(),
        s.subrange(a, a + body.len()) == body,
        body.len() > 0,
        body.last() == '\n',
        mark_free(body.drop_last()),
        closes_at(s, a + body.len()),
    ensures
        step(s, a) == Ok::<(TokenView, int), GrammarError>(
            (TokenView::Text { text: body }, a + body.len()),
        ),
{
    let e = a + body.len();
    let q = e - 1;
    assert(s[q] == '\n') by {
        assert(s.subrange(a, a + body.len())[body.len() - 1] == s[q]);
    }
    assert forall|p: int| a <= p < e implies !opens_at(s, p) && !closes_at(s, p) by {
        assert forall|j: int| p <= j <= q implies no_mark_at(s, j) by {
            lemma_no_mark_in_body(s, a, body, j);
        }
        lemma_no_tag_before_line_feed(s, p, q);
    }
    lemma_text_end_is(s, a + 1, e);
}

pub proof fn lemma_tokens_text_three(a: Seq<TokenView>, b: Seq<TokenView>, c: Seq<TokenView>)
    ensures
        tokens_text(a + b + c) == tokens_text(a) + tokens_text(b) + tokens_text(c),
{
    lemma_tokens_text_concat(a + b, c);
    lemma_tokens_text_concat(a, b);
}

/// Two texts that differ in their middle parts hold the same before and
/// after them.
pub proof fn lemma_replace_strings(x: Seq<char>, y: Seq<char>, y2: Seq<char>, z: Seq<char>)
    ensures
        same(x + y + z, x + y2 + z, 0, 0, x.len() as int),
        same(
            x + y + z,
            x + y2 + z,
            y2.len() - y.len(),
            (x.len() + y.len()) as int,
            (x + y + z).len() as int,
        ),
        (x + y + z).len() + (y2.len() - y.len()) == (x + y2 + z).len(),
        (x + y2 + z).subrange(x.len() as int, (x.len() + y2.len()) as int) == y2,
{
    let s = x + y + z;
    let t = x + y2 + z;
    let b = (x.len() + y.len()) as int;
    let d = y2.len() - y.len();
    assert forall|k: int| b <= k < s.len() implies s[k] == t[k + d] by {
        assert(s[k] == z[k - b]);
        assert(t[k + d] == z[k - b]);
    }
    assert(t.subrange(x.len() as int, (x.len() + y2.len()) as int) =~= y2);
}


proof fn lemma_replace_texts(
    s: Seq<char>,
    head: Seq<TokenView>,
    inner: Seq<TokenView>,
    tail: Seq<TokenView>,
    body: Seq<char>,
)
    requires
        lex_from(s, 0) == Ok::<Seq<TokenView>, GrammarError>(head + inner + tail),
    ensures
        s == tokens_text(head) + tokens_text(inner) + tokens_text(tail),
        tokens_text(head + seq![TokenView::Text { text: body }] + tail) == tokens_text(head) + body
            + tokens_text(tail),
        tokens_text(head + inner).len() == tokens_text(head).len() + tokens_text(inner).len(),
{
    let piece = TokenView::Text { text: body };
    lemma_lex_covers(s, 0);
    assert(s.subrange(0, s.len() as int) =~= s);
    lemma_tokens_text_three(head, inner, tail);
    lemma_tokens_text_three(head, seq![piece], tail);
    lemma_tokens_text_one(piece);
    lemma_tokens_text_concat(head, inner);
}

proof fn lemma_replace_before(
    x: Seq<char>,
    y: Seq<char>,
    body: Seq<char>,
    z: Seq<char>,
    head: Seq<TokenView>,
    inner: Seq<TokenView>,
    tail: Seq<TokenView>,
)
    requires
        lex_from(x + y + z, 0) == Ok::<Seq<TokenView>, GrammarError>(head + inner + tail),
        tokens_text(head) == x,
        head.len() > 0,
        opens_region(head.last()),
        body.len() > 0,
        body.last() == '\n',
        closer_stays(head.last()->closer, body),
    ensures
        lex_from(x + body + z, 0) == prepend(head, lex_from(x + body + z, x.len() as int)),
{
    lemma_replace_strings(x, y, body, z);
    assert(head + inner + tail =~= head + (inner + tail));
    lemma_lex_prefix_same(x + y + z, x + body + z, x.len() as int, 0, head, inner + tail, body);
}

proof fn lemma_replace_after(
    x: Seq<char>,
    y: Seq<char>,
    body: Seq<char>,
    z: Seq<char>,
    first: Seq<TokenView>,
    tail: Seq<TokenView>,
)
    requires
        lex_from(x + y + z, 0) == Ok::<Seq<TokenView>, GrammarError>(first + tail),
        tokens_text(first).len() == x.len() + y.len(),
        tail.len() > 0,
        tail[0] is Close,
    ensures
        x.len() + body.len() < (x + body + z).len(),
        closes_at(x + body + z, (x.len() + body.len()) as int),
        lex_from(x + body + z, (x.len() + body.len()) as int) == Ok::<
            Seq<TokenView>,
            GrammarError,
        >(tail),
{
    let s = x + y + z;
    let t = x + body + z;
    let b = (x.len() + y.len()) as int;
    let d = body.len() - y.len();
    lemma_replace_strings(x, y, body, z);
    lemma_lex_rest(s, 0, first, tail);
    lemma_lex_same_to_end(s, t, d, b, b);
    if b >= s.len() {
        assert(lex_from(s, b)->Ok_0.len() == 0);
    }
    lemma_lex_first(s, b);
    lemma_step_bounds(s, b);
    lemma_leader_end(s, b);
    lemma_tag_start_same(s, t, d, b, s.len() as int, b);
}

proof fn lemma_replace_between(x: Seq<char>, body: Seq<char>, z: Seq<char>)
    requires
        x.len() + body.len() < (x + body + z).len(),
        body.len() > 0,
        body.last() == '\n',
        mark_free(body.drop_last()),
        closes_at(x + body + z, (x.len() + body.len()) as int),
    ensures
        lex_from(x + body + z, x.len() as int) == prepend(
            seq![TokenView::Text { text: body }],
            lex_from(x + body + z, (x.len() + body.len()) as int),
        ),
{
    let t = x + body + z;
    let a = x.len() as int;
    assert(t.subrange(a, a + body.len()) =~= body);
    lemma_body_step(t, a, body);
    lemma_lex_step(t, a);
}

proof fn lemma_replace_joined(
    t: Seq<char>,
    a: int,
    n: int,
    head: Seq<TokenView>,
    piece: TokenView,
    tail: Seq<TokenView>,
)
    requires
        lex_from(t, 0) == prepend(head, lex_from(t, a)),
        lex_from(t, a) == prepend(seq![piece], lex_from(t, a + n)),
        lex_from(t, a + n) == Ok::<Seq<TokenView>, GrammarError>(tail),
    ensures
        lex_from(t, 0) == Ok::<Seq<TokenView>, GrammarError>(head + seq![piece] + tail),
{
    assert(head + (seq![piece] + tail) =~= head + seq![piece] + tail);
}

proof fn lemma_replace_parts(
    x: Seq<char>,
    y: Seq<char>,
    body: Seq<char>,
    z: Seq<char>,
    head: Seq<TokenView>,
    inner: Seq<TokenView>,
    tail: Seq<TokenView>,
)
    requires
        lex_from(x + y + z, 0) == Ok::<Seq<TokenView>, GrammarError>(head + inner + tail),
        tokens_text(head) == x,
        tokens_text(head + inner).len() == x.len() + y.len(),
        head.len() > 0,
        opens_region(head.last()),
        closer_stays(head.last()->closer, body),
        tail.len() > 0,
        tail[0] is Close,
        body.len() > 0,
        body.last() == '\n',
        mark_free(body.drop_last()),
    ensures
        lex_from(x + body + z, 0) == Ok::<Seq<TokenView>, GrammarError>(
            head + seq![TokenView::Text { text: body }] + tail,
        ),
{
    lemma_replace_before(x, y, body, z, head, inner, tail);
    lemma_replace_after(x, y, body, z, head + inner, tail);
    lemma_replace_between(x, body, z);
    lemma_replace_joined(
        x + body + z,
        x.len() as int,
        body.len() as int,
        head,
        TokenView::Text { text: body },
        tail,
    );
}

/// Where a text is cut into pieces, and what stands between an open tag
/// and a close tag gives way to a text without marks and a line feed that
/// lets the closer of the open tag end where it ended, the new text is cut
/// into the same pieces before and after, and the new text between the tags
/// is one piece.
pub proof fn lemma_replace_inner(
    s: Seq<char>,
    head: Seq<TokenView>,
    inner: Seq<TokenView>,
    tail: Seq<TokenView>,
    body: Seq<char>,
)
    requires
        lex_from(s, 0) == Ok::<Seq<TokenView>, GrammarError>(head + inner + tail),
        head.len() > 0,
        opens_region(head.last()),
        closer_stays(head.last()->closer, body),
        tail.len() > 0,
        tail[0] is Close,
        body.len() > 0,
        body.last() == '\n',
        mark_free(body.drop_last()),
    ensures
        lex_from(tokens_text(head + seq![TokenView::Text { text: body }] + tail), 0) == Ok::<
            Seq<TokenView>,
            GrammarError,
        >(head + seq![TokenView::Text { text: body }] + tail),
{
    lemma_replace_texts(s, head, inner, tail, body);
    lemma_replace_parts(
        tokens_text(head),
        tokens_text(inner),
        body,
        tokens_text(tail),
        head,
        inner,
        tail,
    );
}

/// The pieces that a region is made of.
pub open spec fn region_tokens(r: RegionView) -> Seq<TokenView>
    decreases r,
{
    match r {
        RegionView::Plain { text } => seq![TokenView::Text { text }],
        RegionView::Tagged { leader, tag_open, closer, children, tag_close } => seq![
            TokenView::Open { leader, tag: tag_open, closer },
        ] + regions_tokens(children) + seq![TokenView::Close { text: tag_close }],
    }
}

/// The pieces that the regions are made of, in their order.
pub open spec fn regions_tokens(rs: Seq<RegionView>) -> Seq<TokenView>
    decreases rs,
{
    if rs.len() == 0 {
        Seq::empty()
    } else {
        region_tokens(rs[0]) + regions_tokens(rs.drop_first())
    }
}

pub proof fn lemma_regions_tokens_concat(a: Seq<RegionView>, b: Seq<RegionView>)
    ensures
        regions_tokens(a + b) == regions_tokens(a) + regions_tokens(b),
    decreases a.len(),
{
    if a.len() == 0 {
        assert(a + b =~= b);
        assert(regions_tokens(a) + regions_tokens(b) =~= regions_tokens(b));
    } else {
        assert((a + b).drop_first() =~= a.drop_first() + b);
        assert((a + b)[0] == a[0]);
        lemma_regions_tokens_concat(a.drop_first(), b);
        assert(region_tokens(a[0]) + (regions_tokens(a.drop_first()) + regions_tokens(b))
            =~= region_tokens(a[0]) + regions_tokens(a.drop_first()) + regions_tokens(b));
    }
}

pub proof fn lemma_regions_tokens_one(r: RegionView)
    ensures
        regions_tokens(seq![r]) == region_tokens(r),
{
    let one = seq![r];
    assert(one[0] == r);
    assert(one.drop_first() =~= Seq::<RegionView>::empty());
    assert(regions_tokens(one.drop_first()) =~= Seq::<TokenView>::empty());
    assert(region_tokens(r) + Seq::<TokenView>::empty() =~= region_tokens(r));
}

/// The regions that are made of a run of pieces are made of those pieces.
pub proof fn lemma_build_tokens(ts: Seq<TokenView>, i: int)
    requires
        0 <= i <= ts.len(),
        build_from(ts, i) is Ok,
    ensures
        i <= build_from(ts, i)->Ok_0.1 <= ts.len(),
        regions_tokens(build_from(ts, i)->Ok_0.0) == ts.subrange(i, build_from(ts, i)->Ok_0.1),
    decreases ts.len() - i,
{
    lemma_build_from_bounds(ts, i);
    let (rs, end) = build_from(ts, i)->Ok_0;
    if i >= ts.len() {
        assert(ts.subrange(i, end) =~= Seq::<TokenView>::empty());
    } else {
        match ts[i] {
            TokenView::Text { text } => {
                lemma_build_tokens(ts, i + 1);
                let rest = build_from(ts, i + 1)->Ok_0.0;
                let one = RegionView::Plain { text };
                assert(rs == seq![one] + rest);
                lemma_regions_tokens_concat(seq![one], rest);
                lemma_regions_tokens_one(one);
                assert(seq![ts[i]] + ts.subrange(i + 1, end) =~= ts.subrange(i, end));
            },
            TokenView::Close { text } => {
                assert(ts.subrange(i, end) =~= Seq::<TokenView>::empty());
            },
            TokenView::Open { leader, tag, closer } => {
                lemma_build_from_bounds(ts, i + 1);
                lemma_build_tokens(ts, i + 1);
                let (children, j) = build_from(ts, i + 1)->Ok_0;
                lemma_build_tokens(ts, j + 1);
                let rest = build_from(ts, j + 1)->Ok_0.0;
                let one = RegionView::Tagged {
                    leader,
                    tag_open: tag,
                    closer,
                    children,
                    tag_close: ts[j]->Close_text,
                };
                assert(rs == seq![one] + rest);
                lemma_regions_tokens_concat(seq![one], rest);
                lemma_regions_tokens_one(one);
                assert(seq![ts[i]] + ts.subrange(i + 1, j) + seq![ts[j]] + ts.subrange(j + 1, end)
                    =~= ts.subrange(i, end));
            },
        }
    }
}

/// The pieces of regions, before the end or a close tag, make those
/// regions.
pub proof fn lemma_tokens_build(before: Seq<TokenView>, rs: Seq<RegionView>, after: Seq<TokenView>)
    requires
        after.len() == 0 || after[0] is Close,
    ensures
        build_from(before + regions_tokens(rs) + after, before.len() as int) == Ok::<
            (Seq<RegionView>, int),
            int,
        >((rs, (before.len() + regions_tokens(rs).len()) as int)),
    decreases rs,
{
    let ts = before + regions_tokens(rs) + after;
    let i = before.len() as int;
    if rs.len() == 0 {
        assert(regions_tokens(rs) =~= Seq::<TokenView>::empty());
        assert(rs =~= Seq::<RegionView>::empty());
        if after.len() > 0 {
            assert(ts[i] == after[0]);
        }
        assert(build_from(ts, i) == Ok::<(Seq<RegionView>, int), int>((rs, i)));
    } else {
        let first = rs[0];
        let others = rs.drop_first();
        assert(rs =~= seq![first] + others);
        assert(regions_tokens(rs) == region_tokens(first) + regions_tokens(others));
        match first {
            RegionView::Plain { text } => {
                let piece = TokenView::Text { text };
                assert(region_tokens(first) == seq![piece]);
                let ts2 = (before + seq![piece]) + regions_tokens(others) + after;
                assert(ts =~= ts2);
                assert(ts[i] == piece);
                lemma_tokens_build(before + seq![piece], others, after);
                assert(build_from(ts, i + 1) == build_from(ts2, i + 1));
                assert(seq![first] + others =~= rs);
                assert(regions_tokens(rs).len() == 1 + regions_tokens(others).len());
                assert(build_from(ts, i) == prepend_regions(seq![first], build_from(ts, i + 1)));
            },
            RegionView::Tagged { leader, tag_open, closer, children, tag_close } => {
                let open = TokenView::Open { leader, tag: tag_open, closer };
                let close = TokenView::Close { text: tag_close };
                let inner = regions_tokens(children);
                assert(region_tokens(first) == seq![open] + inner + seq![close]);
                let following = seq![close] + regions_tokens(others) + after;
                let ts2 = (before + seq![open]) + inner + following;
                assert(ts =~= ts2);
                assert(ts[i] == open);
                assert(following[0] == close);
                lemma_tokens_build(before + seq![open], children, following);
                assert(build_from(ts, i + 1) == build_from(ts2, i + 1));
                let j = i + 1 + inner.len();
                assert(ts[j] == close);
                let ts3 = (before + seq![open] + inner + seq![close]) + regions_tokens(others)
                    + after;
                assert(ts =~= ts3);
                lemma_tokens_build(before + seq![open] + inner + seq![close], others, after);
                assert(build_from(ts, j + 1) == build_from(ts3, j + 1));
                assert(seq![first] + others =~= rs);
                assert(regions_tokens(rs).len() == inner.len() + 2 + regions_tokens(others).len());
                assert(build_from(ts, i + 1) == Ok::<(Seq<RegionView>, int), int>((children, j)));
                assert(build_from(ts, i) == prepend_regions(seq![first], build_from(ts, j + 1)));
            },
        }
    }
}

/// Every open tag among the pieces of a text holds at least `<snip>`.
pub proof fn lemma_lex_tags(s: Seq<char>, i: int, k: int)
    requires
        0 <= i <= s.len(),
        lex_from(s, i) is Ok,
        0 <= k < lex_from(s, i)->Ok_0.len(),
        lex_from(s, i)->Ok_0[k] is Open,
    ensures
        lex_from(s, i)->Ok_0[k]->tag.len() >= 6,
    decreases k,
{
    lemma_lex_first(s, i);
    lemma_step_bounds(s, i);
    if k > 0 {
        let next = step(s, i)->Ok_0.1;
        assert(lex_from(s, i)->Ok_0.drop_first()[k - 1] == lex_from(s, i)->Ok_0[k]);
        lemma_lex_tags(s, next, k - 1);
    }
}

pub proof fn lemma_spaces_cut(s: Seq<char>, i: int, m: int, k: int)
    requires
        0 <= i <= i + k <= m <= s.len(),
        spaces_end(s, i + k) <= m,
    ensures
        spaces_end(s.subrange(i, m), k) == spaces_end(s, i + k) - i,
    decreases m - i - k,
{
    let c = s.subrange(i, m);
    lemma_spaces_end(s, i + k);
    if i + k < s.len() && s[i + k] == ' ' {
        lemma_spaces_end(s, i + k + 1);
        assert(c[k] == s[i + k]);
        lemma_spaces_cut(s, i, m, k + 1);
    } else {
        if k < c.len() {
            assert(c[k] == s[i + k]);
        }
    }
}

pub proof fn lemma_prefix_cut(s: Seq<char>, i: int, m: int, k: int, lit: Seq<char>)
    requires
        0 <= i <= i + k <= m <= s.len(),
    ensures
        has_prefix_at(s.subrange(i, m), k, lit) == (has_prefix_at(s, i + k, lit) && i + k
            + lit.len() <= m),
{
    let c = s.subrange(i, m);
    if has_prefix_at(c, k, lit) {
        assert forall|j: int| 0 <= j < lit.len() implies s[i + k + j] == #[trigger] lit[j] by {
            assert(c[k + j] == s[i + k + j]);
        }
    }
    if has_prefix_at(s, i + k, lit) && i + k + lit.len() <= m {
        assert forall|j: int| 0 <= j < lit.len() implies c[k + j] == #[trigger] lit[j] by {
            assert(c[k + j] == s[i + k + j]);
        }
    }
}

/// A closer, taken by itself, is read as a closer to its end.
pub proof fn lemma_closer_cut(s: Seq<char>, i: int)
    requires
        0 <= i <= s.len(),
    ensures
        i <= closer_end(s, i) <= s.len(),
        closer_end(s.subrange(i, closer_end(s, i)), 0) == closer_end(s, i) - i,
{
    lemma_mark_lengths();
    lemma_closer_end(s, i);
    lemma_spaces_end(s, i);
    let ce = closer_end(s, i);
    let c = s.subrange(i, ce);
    let a = spaces_end(s, i);
    if has_prefix_at(s, a, arrow()) {
        lemma_spaces_end(s, a + 3);
    }
    let b = if has_prefix_at(s, a, arrow()) {
        spaces_end(s, a + 3)
    } else {
        a
    };
    lemma_spaces_cut(s, i, ce, 0);
    lemma_prefix_cut(s, i, ce, a - i, arrow());
    if has_prefix_at(s, a, arrow()) {
        lemma_spaces_cut(s, i, ce, a + 3 - i);
    }
    lemma_prefix_cut(s, i, ce, b - i, crlf());
    if b < ce {
        assert(c[b - i] == s[b]);
    }
}

/// The closer of every open tag among the pieces of a text, taken by
/// itself, is read as a closer to its end.
pub proof fn lemma_lex_closers(s: Seq<char>, i: int, k: int)
    requires
        0 <= i <= s.len(),
        lex_from(s, i) is Ok,
        0 <= k < lex_from(s, i)->Ok_0.len(),
        lex_from(s, i)->Ok_0[k] is Open,
    ensures
        closer_end(lex_from(s, i)->Ok_0[k]->closer, 0) == lex_from(s, i)->Ok_0[k]->closer.len(),
    decreases k,
{
    lemma_lex_first(s, i);
    lemma_step_bounds(s, i);
    if k > 0 {
        let next = step(s, i)->Ok_0.1;
        assert(lex_from(s, i)->Ok_0.drop_first()[k - 1] == lex_from(s, i)->Ok_0[k]);
        lemma_lex_closers(s, next, k - 1);
    } else {
        let le = leader_end(s, i);
        lemma_leader_end(s, i);
        lemma_index_of_bounds(s, '>', le + 5);
        let g = index_of(s, '>', le + 5);
        lemma_closer_cut(s, g + 1);
    }
}

} // verus!
