//! What holds of the functions of this crate taken together.
use vstd::prelude::*;
use crate::parser::injector::{asked_of, inject_all, inject_one, InjectStatusView};
use crate::parser::synth::{
    add_prefix_line, expand_with_spec, gap, has_mark, indent_lines, line_ending, prefixed,
    shape_line, shape_lines, shape_spec, strip_prefix_line, unescape, unescape_from, weave,
};
use crate::errors::GrammarError;
use crate::parser::grammar::{
    closer_end, lemma_lex_covers, lemma_tokens_text_concat, lemma_tokens_text_one, lex_from, lex_spec,
    tokens_text, TokenView,
};
use crate::parser::roundtrip::{
    closer_stays, lemma_build_tokens, lemma_closer_same_line, lemma_lex_closers, same, lemma_lex_tags, lemma_regions_tokens_concat,
    lemma_regions_tokens_one, lemma_replace_inner, lemma_tokens_build, mark_free, opens_region, region_tokens,
    regions_tokens,
};
use crate::parser::tree::{build_from, build_spec};
use crate::parser::tree::{
    lemma_parse_covers, lemma_regions_text_concat, lemma_regions_text_one, parse_spec,
    region_text, regions_text, RegionView,
};
use crate::parser::injector::{attribute, template_source, ActionView, InjectAction};
use crate::parser::synth::{expand_spec, placeholder_pattern};
use crate::pattern::{regex_captures, regex_split};
use crate::db::code::{load_file, load_files};
use crate::db::yaml::{yaml_snippets, YamlSnippet};
use crate::parser::collector::CollectSnippet;
use crate::parser::{create_content_spec, Snippet, SnippetKind, SnippetView};
use crate::parser::grammar::{close_mark, lemma_mark_lengths, open_mark};
use crate::text::{
    contains, has_prefix_at, index_of, join, lemma_index_of_bounds, lines, lines_from, strip_cr,
};

verus! {

/// A text whose lines come back when it is cut into lines and joined again:
/// it holds no carriage return and does not end with a line feed.
pub open spec fn plain_lines(t: Seq<char>) -> bool {
    &&& forall|i: int| 0 <= i < t.len() ==> t[i] != '\r'
    &&& t.len() > 0 ==> t.last() != '\n'
}

/// A text without a backslash.
pub open spec fn no_backslash(t: Seq<char>) -> bool {
    forall|i: int| 0 <= i < t.len() ==> t[i] != '\\'
}

/// None of the lines holds the beginning of a tag.
pub open spec fn no_marks(ls: Seq<Seq<char>>) -> bool {
    forall|i: int| 0 <= i < ls.len() ==> !has_mark(#[trigger] ls[i])
}

pub proof fn lemma_join_cons(a: Seq<char>, rest: Seq<Seq<char>>, sep: Seq<char>)
    requires
        rest.len() > 0,
    ensures
        join(seq![a] + rest, sep) == a + sep + join(rest, sep),
    decreases rest.len(),
{
    let all = seq![a] + rest;
    assert(all.drop_last() =~= seq![a] + rest.drop_last());
    assert(all.last() == rest.last());
    if rest.len() == 1 {
        assert(all.drop_last() =~= seq![a]);
        assert(join(all.drop_last(), sep) == a);
        assert(join(rest, sep) == rest[0]);
    } else {
        lemma_join_cons(a, rest.drop_last(), sep);
        assert(a + sep + join(rest.drop_last(), sep) + sep + rest.last() =~= a + sep + (join(
            rest.drop_last(),
            sep,
        ) + sep + rest.last()));
    }
}

pub proof fn lemma_lines_join(t: Seq<char>, i: int)
    requires
        plain_lines(t),
        0 <= i <= t.len(),
    ensures
        join(lines_from(t, i), line_ending()) == t.subrange(i, t.len() as int),
        i < t.len() ==> lines_from(t, i).len() > 0,
    decreases t.len() - i,
{
    if i >= t.len() {
        assert(t.subrange(i, t.len() as int) =~= Seq::<char>::empty());
    } else {
        let e = index_of(t, '\n', i);
        lemma_index_of_bounds(t, '\n', i);
        if e >= t.len() {
            assert(lines_from(t, i) =~= seq![t.subrange(i, t.len() as int)]);
        } else {
            let first = t.subrange(i, e);
            assert(strip_cr(first) == first) by {
                if first.len() > 0 {
                    assert(first.last() == t[e - 1]);
                }
            }
            lemma_lines_join(t, e + 1);
            let rest = lines_from(t, e + 1);
            lemma_join_cons(first, rest, line_ending());
            assert(first + line_ending() + t.subrange(e + 1, t.len() as int) =~= t.subrange(
                i,
                t.len() as int,
            ));
        }
    }
}

/// Cutting a text into lines and joining them by line feeds gives the text
/// back, where the text holds no carriage return and does not end with a
/// line feed.
pub proof fn law_lines_join(t: Seq<char>)
    requires
        plain_lines(t),
    ensures
        join(lines(t), line_ending()) == t,
{
    lemma_lines_join(t, 0);
    assert(t.subrange(0, t.len() as int) =~= t);
}

/// Taking a prefix from a line that starts with it and putting it back
/// gives the line.
pub proof fn law_strip_then_add_prefix(line: Seq<char>, prefix: Seq<char>)
    requires
        has_prefix_at(line, 0, prefix),
    ensures
        add_prefix_line(strip_prefix_line(line, prefix), prefix) == line,
{
    assert(prefix + line.skip(prefix.len() as int) =~= line);
}

/// Putting a prefix before a line changes nothing of the line: what follows
/// the prefix is the line, and taking the prefix away gives the line back.
pub proof fn law_add_prefix_is_prepend(line: Seq<char>, prefix: Seq<char>)
    ensures
        add_prefix_line(line, prefix).len() == prefix.len() + line.len(),
        has_prefix_at(add_prefix_line(line, prefix), 0, prefix),
        add_prefix_line(line, prefix).skip(prefix.len() as int) == line,
        strip_prefix_line(add_prefix_line(line, prefix), prefix) == line,
{
    assert((prefix + line).skip(prefix.len() as int) =~= line);
}

/// Where every line that is injected starts with a prefix, taking the prefix
/// from each line and putting it before each line gives what is injected
/// without either.
pub proof fn law_strip_then_add_prefix_lines(ls: Seq<Seq<char>>, prefix: Seq<char>)
    requires
        forall|i: int| 0 <= i < ls.len() && !has_mark(ls[i]) ==> has_prefix_at(
            #[trigger] ls[i],
            0,
            prefix,
        ),
    ensures
        shape_lines(ls, Some(prefix), Some(prefix)) == shape_lines(ls, None, None),
    decreases ls.len(),
{
    if ls.len() > 0 {
        assert forall|i: int| 0 <= i < ls.drop_last().len() && !has_mark(
            ls.drop_last()[i],
        ) implies has_prefix_at(#[trigger] ls.drop_last()[i], 0, prefix) by {
            assert(ls.drop_last()[i] == ls[i]);
        }
        law_strip_then_add_prefix_lines(ls.drop_last(), prefix);
        if !has_mark(ls.last()) {
            assert(has_prefix_at(ls[ls.len() - 1], 0, prefix));
            law_strip_then_add_prefix(ls.last(), prefix);
        }
    }
}

/// With an added prefix and nothing else, each line that is injected is the
/// prefix and then the line as it would be injected without it.
pub proof fn law_add_prefix_lines(ls: Seq<Seq<char>>, prefix: Seq<char>)
    ensures
        shape_lines(ls, None, Some(prefix)) == prefixed(shape_lines(ls, None, None), prefix),
    decreases ls.len(),
{
    if ls.len() == 0 {
        assert(prefixed(Seq::<Seq<char>>::empty(), prefix) =~= Seq::<Seq<char>>::empty());
    } else {
        law_add_prefix_lines(ls.drop_last(), prefix);
        let before = shape_lines(ls.drop_last(), None, None);
        if !has_mark(ls.last()) {
            assert(prefixed(before.push(ls.last()), prefix) =~= prefixed(before, prefix).push(
                prefix + ls.last(),
            ));
        }
    }
}

/// Lines without the beginning of a tag are injected as they are, where
/// nothing is taken from them or put before them.
pub proof fn law_shape_keeps_lines_without_marks(ls: Seq<Seq<char>>)
    requires
        no_marks(ls),
    ensures
        shape_lines(ls, None, None) == ls,
    decreases ls.len(),
{
    if ls.len() > 0 {
        assert forall|i: int| 0 <= i < ls.drop_last().len() implies !has_mark(
            #[trigger] ls.drop_last()[i],
        ) by {
            assert(ls.drop_last()[i] == ls[i]);
        }
        law_shape_keeps_lines_without_marks(ls.drop_last());
        assert(!has_mark(ls[ls.len() - 1]));
        assert(ls.drop_last().push(ls.last()) =~= ls);
    }
}

pub proof fn lemma_unescape_without_backslash(t: Seq<char>, i: int)
    requires
        no_backslash(t),
        0 <= i <= t.len(),
    ensures
        unescape_from(t, i) == t.subrange(i, t.len() as int),
    decreases t.len() - i,
{
    if i >= t.len() {
        assert(t.subrange(i, t.len() as int) =~= Seq::<char>::empty());
    } else {
        lemma_unescape_without_backslash(t, i + 1);
        assert(seq![t[i]] + t.subrange(i + 1, t.len() as int) =~= t.subrange(i, t.len() as int));
    }
}

/// A template with one placeholder, `x` before it and `y` after it, filled
/// with a content, is `x`, then the lines of the content, each after the
/// indent of the placeholder, then `y`; `x` and `y` with their escapes
/// turned into line feeds.
pub proof fn law_one_placeholder(x: Seq<char>, indent: Seq<char>, y: Seq<char>, content: Seq<char>)
    ensures
        expand_with_spec(seq![x, y], seq![Some(indent)], content) == unescape(x) + indent_lines(
            indent,
            content,
        ) + unescape(y),
{
    let pieces = seq![x, y];
    let groups = seq![Some(indent)];
    assert(weave(pieces, groups, content, 0) =~= Seq::<char>::empty());
    assert(gap(pieces, groups, content, 0) == indent_lines(indent, content));
    assert(gap(pieces, groups, content, 1) =~= Seq::<char>::empty());
    assert(weave(pieces, groups, content, 1) =~= unescape(x) + indent_lines(indent, content));
    assert(weave(pieces, groups, content, 2) =~= unescape(x) + indent_lines(indent, content)
        + unescape(y));
}

/// The template `x{snippet}y`, cut at its placeholder, gives for a content
/// `c` exactly `x`, `c` and `y`, one after the other, as what is injected:
/// where `x` and `y` hold no backslash, the whole holds no carriage return
/// and does not end with a line feed, no line of it holds the beginning of
/// a tag, and the content does not end with a line feed.
pub proof fn law_template_placeholder(x: Seq<char>, y: Seq<char>, c: Seq<char>)
    requires
        no_backslash(x),
        no_backslash(y),
        plain_lines(c),
        plain_lines(x + c + y),
        no_marks(lines(x + c + y)),
    ensures
        shape_spec(expand_with_spec(seq![x, y], seq![Some(Seq::empty())], c), None, None) == x + c
            + y,
{
    law_one_placeholder(x, Seq::empty(), y, c);
    lemma_unescape_without_backslash(x, 0);
    lemma_unescape_without_backslash(y, 0);
    assert(x.subrange(0, x.len() as int) =~= x);
    assert(y.subrange(0, y.len() as int) =~= y);
    assert(prefixed(lines(c), Seq::empty()) =~= lines(c)) by {
        assert forall|i: int| 0 <= i < lines(c).len() implies Seq::<char>::empty() + lines(c)[i]
            == lines(c)[i] by {
            assert(Seq::<char>::empty() + lines(c)[i] =~= lines(c)[i]);
        }
    }
    law_lines_join(c);
    law_shape_keeps_lines_without_marks(lines(x + c + y));
    law_lines_join(x + c + y);
}

/// Where every line of a text that is injected starts with a prefix, the
/// text that is injected is the same whether that prefix is taken from each
/// line and put before it again, or nothing is done to the lines.
pub proof fn law_strip_then_add_prefix_text(text: Seq<char>, prefix: Seq<char>)
    requires
        forall|i: int|
            0 <= i < lines(text).len() && !has_mark(lines(text)[i]) ==> has_prefix_at(
                #[trigger] lines(text)[i],
                0,
                prefix,
            ),
    ensures
        shape_spec(text, Some(prefix), Some(prefix)) == shape_spec(text, None, None),
{
    law_strip_then_add_prefix_lines(lines(text), prefix);
}

/// A region that asks for a copy of a snippet with a template that holds
/// one placeholder, `x` before it and `y` after it, and for no prefix, gets
/// exactly `x`, the content of the snippet and `y`, one after the other:
/// where `x` and `y` hold no backslash, the whole holds no carriage return
/// and does not end with a line feed, no line of it holds the beginning of
/// a tag, and the content does not end with a line feed.
pub proof fn law_template_placeholder_content(
    source: Seq<char>,
    x: Seq<char>,
    y: Seq<char>,
    c: Seq<char>,
    action: ActionView,
    templates: Map<Seq<char>, Seq<char>>,
)
    requires
        action.kind == InjectAction::Copy,
        action.strip_prefix is None,
        action.add_prefix is None,
        template_source(action.template, templates) == Some(source),
        regex_split(placeholder_pattern(), source) == Some(seq![x, y]),
        regex_captures(placeholder_pattern(), source, 1) == Some(seq![Some(Seq::<char>::empty())]),
        no_backslash(x),
        no_backslash(y),
        plain_lines(c),
        plain_lines(x + c + y),
        no_marks(lines(x + c + y)),
    ensures
        create_content_spec(c, None, action, templates) == x + c + y,
{
    law_template_placeholder(x, y, c);
}

/// The region asks for an injection and gets one: its tag names a snippet
/// that exists and is of the kind that the tag asks for.
pub open spec fn resolves(r: RegionView, snippets: Map<Seq<char>, Snippet>) -> bool {
    match r {
        RegionView::Plain { .. } => false,
        RegionView::Tagged { tag_open, .. } => match asked_of(tag_open) {
            None => false,
            Some(action) => snippets.contains_key(action.snippet_id) && (action.inject_from
                == SnippetKind::Any || action.inject_from == snippets[action.snippet_id].kind),
        },
    }
}

/// A region that gets no injection stays as it is, with all that is in it.
pub proof fn law_unresolved_region_stays(
    r: RegionView,
    snippets: Map<Seq<char>, Snippet>,
    templates: Map<Seq<char>, Seq<char>>,
    outputs: Map<Seq<char>, Seq<char>>,
)
    requires
        !resolves(r, snippets),
    ensures
        inject_one(r, snippets, templates, outputs).0 == region_text(r),
{
}

/// A region that asks for a snippet of one kind, where the snippet of that
/// id is of another kind, stays as it is and is not reported: neither as
/// injected nor as not found.
pub proof fn law_kind_filtering(
    r: RegionView,
    snippets: Map<Seq<char>, Snippet>,
    templates: Map<Seq<char>, Seq<char>>,
    outputs: Map<Seq<char>, Seq<char>>,
)
    requires
        r is Tagged,
        asked_of(r->tag_open) is Some,
        snippets.contains_key(asked_of(r->tag_open)->Some_0.snippet_id),
        asked_of(r->tag_open)->Some_0.inject_from != SnippetKind::Any,
        asked_of(r->tag_open)->Some_0.inject_from != snippets[asked_of(r->tag_open)->Some_0.snippet_id].kind,
    ensures
        inject_one(r, snippets, templates, outputs) == (
            region_text(r),
            Seq::<InjectStatusView>::empty(),
        ),
{
}

/// A region that asks for a snippet that does not exist stays as it is and
/// is reported as not found, with its id and the kind it asks for.
pub proof fn law_not_found_leaves_text(
    r: RegionView,
    snippets: Map<Seq<char>, Snippet>,
    templates: Map<Seq<char>, Seq<char>>,
    outputs: Map<Seq<char>, Seq<char>>,
)
    requires
        r is Tagged,
        asked_of(r->tag_open) is Some,
        !snippets.contains_key(asked_of(r->tag_open)->Some_0.snippet_id),
    ensures
        inject_one(r, snippets, templates, outputs) == (
            region_text(r),
            seq![
                InjectStatusView::NotFound {
                    snippet_id: asked_of(r->tag_open)->Some_0.snippet_id,
                    snippet_kind: asked_of(r->tag_open)->Some_0.inject_from,
                },
            ],
        ),
{
}

pub proof fn lemma_regions_text_drop_last(rs: Seq<RegionView>)
    requires
        rs.len() > 0,
    ensures
        regions_text(rs) == regions_text(rs.drop_last()) + region_text(rs.last()),
{
    assert(rs =~= rs.drop_last() + seq![rs.last()]);
    lemma_regions_text_concat(rs.drop_last(), seq![rs.last()]);
    lemma_regions_text_one(rs.last());
}

pub proof fn lemma_unresolved_regions_stay(
    rs: Seq<RegionView>,
    snippets: Map<Seq<char>, Snippet>,
    templates: Map<Seq<char>, Seq<char>>,
    outputs: Map<Seq<char>, Seq<char>>,
)
    requires
        forall|i: int| 0 <= i < rs.len() ==> !resolves(#[trigger] rs[i], snippets),
    ensures
        inject_all(rs, snippets, templates, outputs).0 == regions_text(rs),
    decreases rs.len(),
{
    if rs.len() > 0 {
        assert forall|i: int| 0 <= i < rs.drop_last().len() implies !resolves(
            #[trigger] rs.drop_last()[i],
            snippets,
        ) by {
            assert(rs.drop_last()[i] == rs[i]);
        }
        lemma_unresolved_regions_stay(rs.drop_last(), snippets, templates, outputs);
        assert(!resolves(rs[rs.len() - 1], snippets));
        lemma_regions_text_drop_last(rs);
    }
}

/// Where no region of a file gets an injection, the file comes out as it
/// went in, whatever is nested in its regions.
pub proof fn law_nesting_preserved(
    input: Seq<char>,
    snippets: Map<Seq<char>, Snippet>,
    templates: Map<Seq<char>, Seq<char>>,
    outputs: Map<Seq<char>, Seq<char>>,
)
    requires
        parse_spec(input) is Ok,
        forall|i: int|
            0 <= i < parse_spec(input)->Ok_0.len() ==> !resolves(
                #[trigger] parse_spec(input)->Ok_0[i],
                snippets,
            ),
    ensures
        inject_all(parse_spec(input)->Ok_0, snippets, templates, outputs).0 == input,
{
    lemma_unresolved_regions_stay(parse_spec(input)->Ok_0, snippets, templates, outputs);
    lemma_parse_covers(input);
}

/// The content that is made for a region that gets an injection.
pub open spec fn content_for(
    r: RegionView,
    snippets: Map<Seq<char>, Snippet>,
    templates: Map<Seq<char>, Seq<char>>,
    outputs: Map<Seq<char>, Seq<char>>,
) -> Seq<char>
    recommends
        resolves(r, snippets),
{
    let action = asked_of(r->tag_open)->Some_0;
    let snippet = snippets[action.snippet_id];
    create_content_spec(snippet.content@, attribute(outputs, snippet.content@), action, templates)
}

/// A region after the injection: where it gets one, its tags as they stood,
/// around the content and a line feed; else the region as it is.
pub open spec fn rewrite_one(
    r: RegionView,
    snippets: Map<Seq<char>, Snippet>,
    templates: Map<Seq<char>, Seq<char>>,
    outputs: Map<Seq<char>, Seq<char>>,
) -> RegionView {
    if resolves(r, snippets) {
        RegionView::Tagged {
            leader: r->leader,
            tag_open: r->tag_open,
            closer: r->closer,
            children: seq![
                RegionView::Plain {
                    text: content_for(r, snippets, templates, outputs) + line_ending(),
                },
            ],
            tag_close: r->tag_close,
        }
    } else {
        r
    }
}

/// The regions after the injection.
pub open spec fn rewrite_all(
    rs: Seq<RegionView>,
    snippets: Map<Seq<char>, Snippet>,
    templates: Map<Seq<char>, Seq<char>>,
    outputs: Map<Seq<char>, Seq<char>>,
) -> Seq<RegionView> {
    Seq::new(rs.len(), |i: int| rewrite_one(rs[i], snippets, templates, outputs))
}

/// Every status says that the region held its snippet already, or that
/// there is no snippet of its id.
pub open spec fn all_settled(statuses: Seq<InjectStatusView>) -> bool {
    forall|i: int| 0 <= i < statuses.len() ==> !(#[trigger] statuses[i] is Injected)
}

/// The text that the injection gives for a region is the text of the region
/// after the injection; and injecting into that region again gives the same
/// text, and finds the region equal.
pub proof fn law_inject_region_again(
    r: RegionView,
    snippets: Map<Seq<char>, Snippet>,
    templates: Map<Seq<char>, Seq<char>>,
    outputs: Map<Seq<char>, Seq<char>>,
)
    ensures
        region_text(rewrite_one(r, snippets, templates, outputs)) == inject_one(
            r,
            snippets,
            templates,
            outputs,
        ).0,
        inject_one(rewrite_one(r, snippets, templates, outputs), snippets, templates, outputs).0
            == inject_one(r, snippets, templates, outputs).0,
        all_settled(
            inject_one(rewrite_one(r, snippets, templates, outputs), snippets, templates, outputs).1,
        ),
{
    if resolves(r, snippets) {
        let after = rewrite_one(r, snippets, templates, outputs);
        let body = content_for(r, snippets, templates, outputs) + line_ending();
        let kids = seq![RegionView::Plain { text: body }];
        lemma_regions_text_one(RegionView::Plain { text: body });
        assert(region_text(after) =~= r->leader + r->tag_open + r->closer + content_for(
            r,
            snippets,
            templates,
            outputs,
        ) + line_ending() + r->tag_close);
        assert(resolves(after, snippets));
        assert(content_for(after, snippets, templates, outputs) == content_for(
            r,
            snippets,
            templates,
            outputs,
        ));
    }
}

/// Injecting into the regions after an injection changes nothing: the text
/// is the same, and no region gets new content.
pub proof fn law_inject_regions_again(
    rs: Seq<RegionView>,
    snippets: Map<Seq<char>, Snippet>,
    templates: Map<Seq<char>, Seq<char>>,
    outputs: Map<Seq<char>, Seq<char>>,
)
    ensures
        regions_text(rewrite_all(rs, snippets, templates, outputs)) == inject_all(
            rs,
            snippets,
            templates,
            outputs,
        ).0,
        inject_all(rewrite_all(rs, snippets, templates, outputs), snippets, templates, outputs).0
            == inject_all(rs, snippets, templates, outputs).0,
        all_settled(
            inject_all(rewrite_all(rs, snippets, templates, outputs), snippets, templates, outputs).1,
        ),
    decreases rs.len(),
{
    let after = rewrite_all(rs, snippets, templates, outputs);
    if rs.len() > 0 {
        law_inject_regions_again(rs.drop_last(), snippets, templates, outputs);
        law_inject_region_again(rs.last(), snippets, templates, outputs);
        assert(after.drop_last() =~= rewrite_all(rs.drop_last(), snippets, templates, outputs));
        assert(after.last() == rewrite_one(rs.last(), snippets, templates, outputs));
        lemma_regions_text_drop_last(after);
        let before = inject_all(after.drop_last(), snippets, templates, outputs).1;
        let last = inject_one(after.last(), snippets, templates, outputs).1;
        assert forall|i: int| 0 <= i < (before + last).len() implies !(#[trigger] (before
            + last)[i] is Injected) by {
            if i < before.len() {
                assert((before + last)[i] == before[i]);
            } else {
                assert((before + last)[i] == last[i - before.len()]);
            }
        }
    } else {
        assert(after =~= Seq::<RegionView>::empty());
    }
}

pub proof fn lemma_tokens_of_regions_text(rs: Seq<RegionView>)
    ensures
        tokens_text(regions_tokens(rs)) == regions_text(rs),
    decreases rs,
{
    if rs.len() == 0 {
    } else {
        lemma_tokens_of_region_text(rs[0]);
        lemma_tokens_of_regions_text(rs.drop_first());
        lemma_tokens_text_concat(region_tokens(rs[0]), regions_tokens(rs.drop_first()));
    }
}

pub proof fn lemma_tokens_of_region_text(r: RegionView)
    ensures
        tokens_text(region_tokens(r)) == region_text(r),
    decreases r,
{
    match r {
        RegionView::Plain { text } => {
            lemma_tokens_text_one(TokenView::Text { text });
        },
        RegionView::Tagged { leader, tag_open, closer, children, tag_close } => {
            let open = TokenView::Open { leader, tag: tag_open, closer };
            let close = TokenView::Close { text: tag_close };
            lemma_tokens_of_regions_text(children);
            lemma_tokens_text_concat(seq![open] + regions_tokens(children), seq![close]);
            lemma_tokens_text_concat(seq![open], regions_tokens(children));
            lemma_tokens_text_one(open);
            lemma_tokens_text_one(close);
        },
    }
}

/// The region can be read again after its injection: the content that is
/// made for it holds neither `<snip` nor `</snip`, and the closer of its open
/// tag ends where it ended when that content follows it.
pub open spec fn reads_again(
    r: RegionView,
    snippets: Map<Seq<char>, Snippet>,
    templates: Map<Seq<char>, Seq<char>>,
    outputs: Map<Seq<char>, Seq<char>>,
) -> bool {
    &&& r is Tagged
    &&& mark_free(content_for(r, snippets, templates, outputs))
    &&& closer_stays(r->closer, content_for(r, snippets, templates, outputs) + line_ending())
}

/// A closer that ends with a line feed ends there whatever follows it.
pub proof fn law_closer_with_line_feed_stays(closer: Seq<char>, body: Seq<char>)
    requires
        closer.len() > 0,
        closer.last() == '\n',
        closer_end(closer, 0) == closer.len(),
    ensures
        closer_stays(closer, body),
{
    assert(same(closer, closer + body, 0, 0, closer.len() as int));
    lemma_closer_same_line(closer, closer + body, 0, 0, closer.len() as int, 0);
}

/// The regions, the first `j` of them after the injection.
pub open spec fn partly_rewritten(
    rs: Seq<RegionView>,
    j: int,
    snippets: Map<Seq<char>, Snippet>,
    templates: Map<Seq<char>, Seq<char>>,
    outputs: Map<Seq<char>, Seq<char>>,
) -> Seq<RegionView> {
    rewrite_all(rs, snippets, templates, outputs).take(j) + rs.skip(j)
}

/// The regions are what their own text is cut into.
pub open spec fn lexes_to_itself(rs: Seq<RegionView>) -> bool {
    lex_from(tokens_text(regions_tokens(rs)), 0) == Ok::<Seq<TokenView>, GrammarError>(
        regions_tokens(rs),
    )
}

proof fn lemma_rewrite_one_lexes(
    before: Seq<RegionView>,
    r: RegionView,
    after: Seq<RegionView>,
    snippets: Map<Seq<char>, Snippet>,
    templates: Map<Seq<char>, Seq<char>>,
    outputs: Map<Seq<char>, Seq<char>>,
)
    requires
        lexes_to_itself(before + seq![r] + after),
        resolves(r, snippets) ==> reads_again(r, snippets, templates, outputs),
    ensures
        lexes_to_itself(before + seq![rewrite_one(r, snippets, templates, outputs)] + after),
{
    if resolves(r, snippets) {
        let content = content_for(r, snippets, templates, outputs);
        let body = content + line_ending();
        let open = TokenView::Open { leader: r->leader, tag: r->tag_open, closer: r->closer };
        let close = TokenView::Close { text: r->tag_close };
        let piece = TokenView::Text { text: body };
        let inner = regions_tokens(r->children);
        let head = regions_tokens(before) + seq![open];
        let tail = seq![close] + regions_tokens(after);
        let after_r = rewrite_one(r, snippets, templates, outputs);
        let s = tokens_text(regions_tokens(before + seq![r] + after));
        assert(regions_tokens(before + seq![r] + after) =~= head + inner + tail) by {
            lemma_regions_tokens_concat(before + seq![r], after);
            lemma_regions_tokens_concat(before, seq![r]);
            lemma_regions_tokens_one(r);
        }
        assert(regions_tokens(before + seq![after_r] + after) =~= head + seq![piece] + tail) by {
            lemma_regions_tokens_concat(before + seq![after_r], after);
            lemma_regions_tokens_concat(before, seq![after_r]);
            lemma_regions_tokens_one(after_r);
            lemma_regions_tokens_one(RegionView::Plain { text: body });
        }
        assert(opens_region(head.last())) by {
            let k = regions_tokens(before).len() as int;
            assert((head + inner + tail)[k] == open);
            lemma_lex_tags(s, 0, k);
        }
        assert(body.drop_last() =~= content);
        assert(tail[0] == close);
        lemma_replace_inner(s, head, inner, tail, body);
    }
}

proof fn lemma_partly_rewritten_lexes(
    rs: Seq<RegionView>,
    j: int,
    snippets: Map<Seq<char>, Snippet>,
    templates: Map<Seq<char>, Seq<char>>,
    outputs: Map<Seq<char>, Seq<char>>,
)
    requires
        0 <= j <= rs.len(),
        lexes_to_itself(rs),
        forall|i: int|
            0 <= i < rs.len() && resolves(#[trigger] rs[i], snippets) ==> reads_again(
                rs[i],
                snippets,
                templates,
                outputs,
            ),
    ensures
        lexes_to_itself(partly_rewritten(rs, j, snippets, templates, outputs)),
    decreases j,
{
    let after = rewrite_all(rs, snippets, templates, outputs);
    if j == 0 {
        assert(partly_rewritten(rs, 0, snippets, templates, outputs) =~= rs);
    } else {
        lemma_partly_rewritten_lexes(rs, j - 1, snippets, templates, outputs);
        let r = rs[j - 1];
        assert(partly_rewritten(rs, j - 1, snippets, templates, outputs) =~= after.take(j - 1)
            + seq![r] + rs.skip(j));
        assert(partly_rewritten(rs, j, snippets, templates, outputs) =~= after.take(j - 1) + seq![
            rewrite_one(r, snippets, templates, outputs),
        ] + rs.skip(j));
        lemma_rewrite_one_lexes(after.take(j - 1), r, rs.skip(j), snippets, templates, outputs);
    }
}

/// A file after an injection is read as the file that the injection made,
/// region by region, and a second injection leaves it as it is: where each
/// region that got an injection got a content that holds neither `<snip` nor
/// `</snip`, and that lets the closer of its open tag end where it ended.
pub proof fn law_inject_twice(
    input: Seq<char>,
    snippets: Map<Seq<char>, Snippet>,
    templates: Map<Seq<char>, Seq<char>>,
    outputs: Map<Seq<char>, Seq<char>>,
)
    requires
        parse_spec(input) is Ok,
        forall|i: int|
            0 <= i < parse_spec(input)->Ok_0.len() && resolves(
                #[trigger] parse_spec(input)->Ok_0[i],
                snippets,
            ) ==> reads_again(parse_spec(input)->Ok_0[i], snippets, templates, outputs),
    ensures
        parse_spec(inject_all(parse_spec(input)->Ok_0, snippets, templates, outputs).0) == Ok::<
            Seq<RegionView>,
            GrammarError,
        >(rewrite_all(parse_spec(input)->Ok_0, snippets, templates, outputs)),
        inject_all(
            parse_spec(
                inject_all(parse_spec(input)->Ok_0, snippets, templates, outputs).0,
            )->Ok_0,
            snippets,
            templates,
            outputs,
        ).0 == inject_all(parse_spec(input)->Ok_0, snippets, templates, outputs).0,
        all_settled(
            inject_all(
                parse_spec(
                    inject_all(parse_spec(input)->Ok_0, snippets, templates, outputs).0,
                )->Ok_0,
                snippets,
                templates,
                outputs,
            ).1,
        ),
{
    let rs = parse_spec(input)->Ok_0;
    let ts = lex_spec(input)->Ok_0;
    let after = rewrite_all(rs, snippets, templates, outputs);
    let text = inject_all(rs, snippets, templates, outputs).0;
    // the regions of the file are what the file is cut into
    assert(lexes_to_itself(rs)) by {
        lemma_build_tokens(ts, 0);
        assert(ts.subrange(0, ts.len() as int) =~= ts);
        lemma_lex_covers(input, 0);
        assert(input.subrange(0, input.len() as int) =~= input);
    }
    lemma_partly_rewritten_lexes(rs, rs.len() as int, snippets, templates, outputs);
    assert(partly_rewritten(rs, rs.len() as int, snippets, templates, outputs) =~= after);
    law_inject_regions_again(rs, snippets, templates, outputs);
    lemma_tokens_of_regions_text(after);
    assert(lex_spec(text) == Ok::<Seq<TokenView>, GrammarError>(regions_tokens(after)));
    lemma_tokens_build(Seq::empty(), after, Seq::empty());
    assert(Seq::<TokenView>::empty() + regions_tokens(after) + Seq::<TokenView>::empty()
        =~= regions_tokens(after));
    assert(build_spec(regions_tokens(after)) == Ok::<Seq<RegionView>, GrammarError>(after));
}

/// A literal without a line feed.
pub open spec fn one_line(lit: Seq<char>) -> bool {
    lit.len() > 0 && forall|k: int| 0 <= k < lit.len() ==> lit[k] != '\n'
}

pub proof fn lemma_contains_across_line_feed(x: Seq<char>, y: Seq<char>, lit: Seq<char>)
    requires
        one_line(lit),
        !contains(x, lit),
        !contains(y, lit),
    ensures
        !contains(x + line_ending() + y, lit),
{
    let all = x + line_ending() + y;
    if contains(all, lit) {
        let j = choose|j: int| has_prefix_at(all, j, lit);
        if j + lit.len() <= x.len() {
            assert(has_prefix_at(x, j, lit)) by {
                assert forall|k: int| 0 <= k < lit.len() implies x[j + k] == #[trigger] lit[k] by {
                    assert(all[j + k] == x[j + k]);
                }
            }
        } else if j > x.len() {
            let i = j - x.len() - 1;
            assert(has_prefix_at(y, i, lit)) by {
                assert forall|k: int| 0 <= k < lit.len() implies y[i + k] == #[trigger] lit[k] by {
                    assert(all[j + k] == y[i + k]);
                }
            }
        } else {
            let k = x.len() - j;
            assert(all[j + k] == lit[k]);
            assert(all[x.len() as int] == '\n');
        }
    }
}

pub proof fn lemma_contains_in_joined(ls: Seq<Seq<char>>, lit: Seq<char>)
    requires
        one_line(lit),
        forall|i: int| 0 <= i < ls.len() ==> !contains(#[trigger] ls[i], lit),
    ensures
        !contains(join(ls, line_ending()), lit),
    decreases ls.len(),
{
    if ls.len() == 0 {
        if contains(join(ls, line_ending()), lit) {
            let j = choose|j: int| has_prefix_at(join(ls, line_ending()), j, lit);
        }
    } else if ls.len() == 1 {
        assert(!contains(ls[0], lit));
    } else {
        assert forall|i: int| 0 <= i < ls.drop_last().len() implies !contains(
            #[trigger] ls.drop_last()[i],
            lit,
        ) by {
            assert(ls.drop_last()[i] == ls[i]);
        }
        lemma_contains_in_joined(ls.drop_last(), lit);
        assert(!contains(ls[ls.len() - 1], lit));
        lemma_contains_across_line_feed(join(ls.drop_last(), line_ending()), ls.last(), lit);
    }
}

pub proof fn lemma_contains_in_rest(line: Seq<char>, k: int, lit: Seq<char>)
    requires
        0 <= k <= line.len(),
        !contains(line, lit),
    ensures
        !contains(line.skip(k), lit),
{
    if contains(line.skip(k), lit) {
        let j = choose|j: int| has_prefix_at(line.skip(k), j, lit);
        assert(has_prefix_at(line, j + k, lit)) by {
            assert forall|i: int| 0 <= i < lit.len() implies line[j + k + i] == #[trigger] lit[i] by {
                assert(line.skip(k)[j + i] == line[j + k + i]);
            }
        }
    }
}

pub proof fn lemma_shaped_lines_hold_no_mark(ls: Seq<Seq<char>>, strip: Option<Seq<char>>)
    ensures
        forall|i: int|
            0 <= i < shape_lines(ls, strip, None).len() ==> !has_mark(
                #[trigger] shape_lines(ls, strip, None)[i],
            ),
    decreases ls.len(),
{
    if ls.len() > 0 {
        lemma_shaped_lines_hold_no_mark(ls.drop_last(), strip);
        let before = shape_lines(ls.drop_last(), strip, None);
        if !has_mark(ls.last()) {
            let line = ls.last();
            let shaped = shape_line(line, strip, None);
            assert(!has_mark(shaped)) by {
                match strip {
                    Some(p) => {
                        if has_prefix_at(line, 0, p) {
                            lemma_contains_in_rest(line, p.len() as int, open_mark());
                            lemma_contains_in_rest(line, p.len() as int, close_mark());
                        }
                    },
                    None => {},
                }
            }
            assert forall|i: int| 0 <= i < before.push(shaped).len() implies !has_mark(
                #[trigger] before.push(shaped)[i],
            ) by {
                if i < before.len() {
                    assert(before.push(shaped)[i] == before[i]);
                }
            }
        }
    }
}

/// What is injected where no prefix is put before its lines holds neither
/// `<snip` nor `</snip`.
pub proof fn law_content_without_added_prefix_holds_no_mark(
    text: Seq<char>,
    strip: Option<Seq<char>>,
)
    ensures
        mark_free(shape_spec(text, strip, None)),
{
    lemma_mark_lengths();
    let shaped = shape_lines(lines(text), strip, None);
    lemma_shaped_lines_hold_no_mark(lines(text), strip);
    assert(one_line(open_mark()));
    assert(one_line(close_mark()));
    assert forall|i: int| 0 <= i < shaped.len() implies !contains(
        #[trigger] shaped[i],
        open_mark(),
    ) by {
        assert(!has_mark(shaped[i]));
    }
    assert forall|i: int| 0 <= i < shaped.len() implies !contains(
        #[trigger] shaped[i],
        close_mark(),
    ) by {
        assert(!has_mark(shaped[i]));
    }
    lemma_contains_in_joined(shaped, open_mark());
    lemma_contains_in_joined(shaped, close_mark());
}

/// The closer of the open tag of each region of a file, taken by itself, is
/// read as a closer to its end.
pub proof fn lemma_parsed_closers(input: Seq<char>, j: int)
    requires
        parse_spec(input) is Ok,
        0 <= j < parse_spec(input)->Ok_0.len(),
        parse_spec(input)->Ok_0[j] is Tagged,
    ensures
        closer_end(parse_spec(input)->Ok_0[j]->closer, 0) == parse_spec(
            input,
        )->Ok_0[j]->closer.len(),
{
    let rs = parse_spec(input)->Ok_0;
    let ts = lex_spec(input)->Ok_0;
    let r = rs[j];
    lemma_build_tokens(ts, 0);
    assert(ts.subrange(0, ts.len() as int) =~= ts);
    assert(rs =~= rs.take(j) + seq![r] + rs.skip(j + 1));
    lemma_regions_tokens_concat(rs.take(j) + seq![r], rs.skip(j + 1));
    lemma_regions_tokens_concat(rs.take(j), seq![r]);
    lemma_regions_tokens_one(r);
    let k = regions_tokens(rs.take(j)).len() as int;
    let open = TokenView::Open { leader: r->leader, tag: r->tag_open, closer: r->closer };
    assert(region_tokens(r)[0] == open);
    assert(ts[k] == open);
    lemma_lex_closers(input, 0, k);
}

/// A file after an injection is read as the file that the injection made,
/// region by region, and a second injection leaves it as it is: where each
/// region that got an injection has its open tag end its line, and got a
/// content that holds neither `<snip` nor `</snip`.
pub proof fn law_inject_twice_into_lines(
    input: Seq<char>,
    snippets: Map<Seq<char>, Snippet>,
    templates: Map<Seq<char>, Seq<char>>,
    outputs: Map<Seq<char>, Seq<char>>,
)
    requires
        parse_spec(input) is Ok,
        forall|i: int|
            0 <= i < parse_spec(input)->Ok_0.len() && resolves(
                #[trigger] parse_spec(input)->Ok_0[i],
                snippets,
            ) ==> parse_spec(input)->Ok_0[i]->closer.len() > 0 && parse_spec(
                input,
            )->Ok_0[i]->closer.last() == '\n' && mark_free(
                content_for(parse_spec(input)->Ok_0[i], snippets, templates, outputs),
            ),
    ensures
        parse_spec(inject_all(parse_spec(input)->Ok_0, snippets, templates, outputs).0) == Ok::<
            Seq<RegionView>,
            GrammarError,
        >(rewrite_all(parse_spec(input)->Ok_0, snippets, templates, outputs)),
        inject_all(
            parse_spec(
                inject_all(parse_spec(input)->Ok_0, snippets, templates, outputs).0,
            )->Ok_0,
            snippets,
            templates,
            outputs,
        ).0 == inject_all(parse_spec(input)->Ok_0, snippets, templates, outputs).0,
        all_settled(
            inject_all(
                parse_spec(
                    inject_all(parse_spec(input)->Ok_0, snippets, templates, outputs).0,
                )->Ok_0,
                snippets,
                templates,
                outputs,
            ).1,
        ),
{
    let rs = parse_spec(input)->Ok_0;
    assert forall|i: int| 0 <= i < rs.len() && resolves(#[trigger] rs[i], snippets) implies reads_again(
        rs[i],
        snippets,
        templates,
        outputs,
    ) by {
        lemma_parsed_closers(input, i);
        law_closer_with_line_feed_stays(
            rs[i]->closer,
            content_for(rs[i], snippets, templates, outputs) + line_ending(),
        );
    }
    law_inject_twice(input, snippets, templates, outputs);
}

/// The region puts no prefix before the lines of its content.
pub open spec fn adds_no_prefix(r: RegionView) -> bool {
    r is Tagged && asked_of(r->tag_open) is Some && asked_of(r->tag_open)->Some_0.add_prefix
        is None
}

/// A file after an injection is read as the file that the injection made,
/// region by region, and a second injection leaves it as it is: where each
/// region that got an injection has its open tag end its line, and asks
/// for no prefix before the lines of its content.
pub proof fn law_inject_twice_without_added_prefix(
    input: Seq<char>,
    snippets: Map<Seq<char>, Snippet>,
    templates: Map<Seq<char>, Seq<char>>,
    outputs: Map<Seq<char>, Seq<char>>,
)
    requires
        parse_spec(input) is Ok,
        forall|i: int|
            0 <= i < parse_spec(input)->Ok_0.len() && resolves(
                #[trigger] parse_spec(input)->Ok_0[i],
                snippets,
            ) ==> parse_spec(input)->Ok_0[i]->closer.len() > 0 && parse_spec(
                input,
            )->Ok_0[i]->closer.last() == '\n' && adds_no_prefix(parse_spec(input)->Ok_0[i]),
    ensures
        parse_spec(inject_all(parse_spec(input)->Ok_0, snippets, templates, outputs).0) == Ok::<
            Seq<RegionView>,
            GrammarError,
        >(rewrite_all(parse_spec(input)->Ok_0, snippets, templates, outputs)),
        inject_all(
            parse_spec(
                inject_all(parse_spec(input)->Ok_0, snippets, templates, outputs).0,
            )->Ok_0,
            snippets,
            templates,
            outputs,
        ).0 == inject_all(parse_spec(input)->Ok_0, snippets, templates, outputs).0,
        all_settled(
            inject_all(
                parse_spec(
                    inject_all(parse_spec(input)->Ok_0, snippets, templates, outputs).0,
                )->Ok_0,
                snippets,
                templates,
                outputs,
            ).1,
        ),
{
    let rs = parse_spec(input)->Ok_0;
    assert forall|i: int| 0 <= i < rs.len() && resolves(#[trigger] rs[i], snippets) implies mark_free(
        content_for(rs[i], snippets, templates, outputs),
    ) by {
        let action = asked_of(rs[i]->tag_open)->Some_0;
        let snippet = snippets[action.snippet_id];
        let working = if action.kind == InjectAction::Exec && attribute(
            outputs,
            snippet.content@,
        ) is Some {
            attribute(outputs, snippet.content@)->Some_0
        } else {
            snippet.content@
        };
        let templated = match template_source(action.template, templates) {
            Some(source) => expand_spec(source, working),
            None => working,
        };
        law_content_without_added_prefix_holds_no_mark(templated, action.strip_prefix);
    }
    law_inject_twice_into_lines(input, snippets, templates, outputs);
}

/// Every snippet of `table` stands under its own id and comes from a source
/// file.
pub open spec fn all_from_code(table: Map<Seq<char>, SnippetView>) -> bool {
    forall|id: Seq<char>| #[trigger]
        table.contains_key(id) ==> table[id].id == id && table[id].kind == SnippetKind::Code
}

pub proof fn lemma_load_file_from_code(
    table: Map<Seq<char>, SnippetView>,
    path: Seq<char>,
    found: Seq<CollectSnippet>,
)
    requires
        all_from_code(table),
    ensures
        all_from_code(load_file(table, path, found)),
    decreases found.len(),
{
    if found.len() > 0 {
        lemma_load_file_from_code(table, path, found.drop_last());
    }
}

/// The snippets that are loaded from what was collected stand under their
/// own ids and come from source files.
pub proof fn law_loaded_from_code(files: Seq<(String, Vec<CollectSnippet>)>)
    ensures
        all_from_code(load_files(files)),
    decreases files.len(),
{
    if files.len() > 0 {
        law_loaded_from_code(files.drop_last());
        lemma_load_file_from_code(load_files(files.drop_last()), files.last().0@, files.last().1@);
    }
}

pub proof fn lemma_load_file_places(
    table: Map<Seq<char>, SnippetView>,
    path: Seq<char>,
    found: Seq<CollectSnippet>,
    id: Seq<char>,
)
    requires
        !table.contains_key(id),
        forall|j: int| 0 <= j < found.len() && (#[trigger] found[j]).id@ == id ==> found[j].inject_from is Some,
    ensures
        !load_file(table, path, found).contains_key(id),
    decreases found.len(),
{
    if found.len() > 0 {
        assert forall|j: int| 0 <= j < found.drop_last().len() && (#[trigger] found.drop_last()[j]).id@
            == id implies found.drop_last()[j].inject_from is Some by {
            assert(found.drop_last()[j] == found[j]);
        }
        lemma_load_file_places(table, path, found.drop_last(), id);
        assert(found.last() == found[found.len() - 1]);
    }
}

/// An id under which only places for an injection were collected has no
/// snippet among those that are loaded.
pub proof fn law_places_are_not_loaded(files: Seq<(String, Vec<CollectSnippet>)>, id: Seq<char>)
    requires
        forall|i: int, j: int|
            0 <= i < files.len() && 0 <= j < files[i].1@.len() && (#[trigger] files[i].1@[j]).id@
                == id ==> files[i].1@[j].inject_from is Some,
    ensures
        !load_files(files).contains_key(id),
    decreases files.len(),
{
    if files.len() > 0 {
        let last = files.len() - 1;
        assert forall|i: int, j: int|
            0 <= i < files.drop_last().len() && 0 <= j < files.drop_last()[i].1@.len() && (
            #[trigger] files.drop_last()[i].1@[j]).id@ == id implies files.drop_last()[i].1@[j].inject_from is Some by {
            assert(files.drop_last()[i] == files[i]);
        }
        law_places_are_not_loaded(files.drop_last(), id);
        assert forall|j: int| 0 <= j < files[last].1@.len() && (#[trigger] files[last].1@[j]).id@
            == id implies files[last].1@[j].inject_from is Some by {}
        lemma_load_file_places(load_files(files.drop_last()), files.last().0@, files.last().1@, id);
    }
}

/// The snippets of a snippet file stand under their own ids and come from
/// the snippet file.
pub proof fn law_loaded_from_yaml(entries: Seq<(String, YamlSnippet)>)
    ensures
        forall|id: Seq<char>| #[trigger]
            yaml_snippets(entries).contains_key(id) ==> yaml_snippets(entries)[id].id == id
                && yaml_snippets(entries)[id].kind == SnippetKind::Yaml,
    decreases entries.len(),
{
    if entries.len() > 0 {
        law_loaded_from_yaml(entries.drop_last());
    }
}

} // verus!
