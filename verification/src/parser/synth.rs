//! The text that is put into a region: a template filled with the content of
//! a snippet, then cut into lines, each line checked for tags and given its
//! prefix.
use vstd::prelude::*;
use crate::parser::grammar::{close_mark, open_mark, Marks};
use crate::pattern::{captures, optional_texts, regex_captures, regex_split, split};
use crate::text::{
    append, contains, has_prefix_at, includes, join, join_lines, lines, rows, slice, split_lines,
    starts_with_at, texts, to_chars, to_text,
};

verus! {

/// A line feed, which joins the lines of what is injected.
pub open spec fn line_ending() -> Seq<char> {
    seq!['\n']
}

/// The pattern of the placeholder of a template: `{snippet}`, with the white
/// space before it where nothing else stands before it on its line. That
/// white space is its first capture group.
pub open spec fn placeholder_pattern() -> Seq<char> {
    "(?m)(^\\s*|)\\{\\s*snippet\\}"@
}

/// `s` from index `i` on, with each backslash followed by `n` turned into a
/// line feed.
pub open spec fn unescape_from(s: Seq<char>, i: int) -> Seq<char>
    decreases s.len() - i,
{
    if i < 0 || i >= s.len() {
        Seq::empty()
    } else if s[i] == '\\' && i + 1 < s.len() && s[i + 1] == 'n' {
        seq!['\n'] + unescape_from(s, i + 2)
    } else {
        seq![s[i]] + unescape_from(s, i + 1)
    }
}

/// `s` with each backslash followed by `n` turned into a line feed.
pub open spec fn unescape(s: Seq<char>) -> Seq<char> {
    unescape_from(s, 0)
}

/// Each line with `prefix` before it.
pub open spec fn prefixed(ls: Seq<Seq<char>>, prefix: Seq<char>) -> Seq<Seq<char>> {
    Seq::new(ls.len(), |i: int| prefix + ls[i])
}

/// The lines of `content`, each with `indent` before it, joined by line
/// feeds.
pub open spec fn indent_lines(indent: Seq<char>, content: Seq<char>) -> Seq<char> {
    join(prefixed(lines(content), indent), line_ending())
}

/// What stands in place of the placeholder of index `i`: the content,
/// indented as that placeholder is; nothing where the template has no such
/// placeholder.
pub open spec fn gap(
    pieces: Seq<Seq<char>>,
    groups: Seq<Option<Seq<char>>>,
    content: Seq<char>,
    i: int,
) -> Seq<char> {
    if 0 <= i && i + 1 < pieces.len() && i < groups.len() {
        match groups[i] {
            Some(indent) => indent_lines(indent, content),
            None => indent_lines(Seq::empty(), content),
        }
    } else {
        Seq::empty()
    }
}

/// The first `n` pieces of a template, each unescaped and followed by what
/// fills the placeholder after it.
pub open spec fn weave(
    pieces: Seq<Seq<char>>,
    groups: Seq<Option<Seq<char>>>,
    content: Seq<char>,
    n: int,
) -> Seq<char>
    decreases n,
{
    if n <= 0 || n > pieces.len() {
        Seq::empty()
    } else {
        weave(pieces, groups, content, n - 1) + unescape(pieces[n - 1]) + gap(
            pieces,
            groups,
            content,
            n - 1,
        )
    }
}

/// A template filled with `content`, given the pieces of the template
/// between its placeholders and the indent of each placeholder.
pub open spec fn expand_with_spec(
    pieces: Seq<Seq<char>>,
    groups: Seq<Option<Seq<char>>>,
    content: Seq<char>,
) -> Seq<char> {
    weave(pieces, groups, content, pieces.len() as int)
}

/// `template` filled with `content`: each placeholder gives way to the lines
/// of the content, and each backslash followed by `n` in the template to a
/// line feed. The content itself is taken as it is.
pub open spec fn expand_spec(template: Seq<char>, content: Seq<char>) -> Seq<char> {
    match (
        regex_split(placeholder_pattern(), template),
        regex_captures(placeholder_pattern(), template, 1),
    ) {
        (Some(pieces), Some(groups)) => expand_with_spec(pieces, groups, content),
        _ => unescape(template),
    }
}

/// The line holds the beginning of an open tag or of a close tag.
pub open spec fn has_mark(line: Seq<char>) -> bool {
    contains(line, open_mark()) || contains(line, close_mark())
}

/// `line` without `prefix` at its start, where it starts with it.
pub open spec fn strip_prefix_line(line: Seq<char>, prefix: Seq<char>) -> Seq<char> {
    if has_prefix_at(line, 0, prefix) {
        line.skip(prefix.len() as int)
    } else {
        line
    }
}

/// `line` with `prefix` before it.
pub open spec fn add_prefix_line(line: Seq<char>, prefix: Seq<char>) -> Seq<char> {
    prefix + line
}

/// One line of what is injected: first `strip` is taken from its start, then
/// `add` is put before it.
pub open spec fn shape_line(line: Seq<char>, strip: Option<Seq<char>>, add: Option<Seq<char>>) -> Seq<
    char,
> {
    let stripped = match strip {
        Some(p) => strip_prefix_line(line, p),
        None => line,
    };
    match add {
        Some(p) => add_prefix_line(stripped, p),
        None => stripped,
    }
}

/// The lines that are injected: those that hold no beginning of a tag, each
/// shaped.
pub open spec fn shape_lines(ls: Seq<Seq<char>>, strip: Option<Seq<char>>, add: Option<Seq<char>>) -> Seq<
    Seq<char>,
>
    decreases ls.len(),
{
    if ls.len() == 0 {
        Seq::empty()
    } else if has_mark(ls.last()) {
        shape_lines(ls.drop_last(), strip, add)
    } else {
        shape_lines(ls.drop_last(), strip, add).push(shape_line(ls.last(), strip, add))
    }
}

/// The text that is injected for `text`: its lines without those that hold
/// the beginning of a tag, each shaped, joined by line feeds.
pub open spec fn shape_spec(text: Seq<char>, strip: Option<Seq<char>>, add: Option<Seq<char>>) -> Seq<
    char,
> {
    join(shape_lines(lines(text), strip, add), line_ending())
}

/// The characters of an optional string.
pub open spec fn optional_text(o: Option<String>) -> Option<Seq<char>> {
    match o {
        Some(s) => Some(s@),
        None => None,
    }
}

fn unescape_chars(s: &Vec<char>) -> (r: Vec<char>)
    ensures
        r@ == unescape(s@),
{
    let mut r: Vec<char> = Vec::new();
    let mut i: usize = 0;
    assert(r@ + unescape_from(s@, 0) =~= unescape(s@));
    while i < s.len()
        invariant
            i <= s@.len(),
            r@ + unescape_from(s@, i as int) == unescape(s@),
        decreases s@.len() - i,
    {
        let ghost before = r@;
        if s[i] == '\\' && i + 1 < s.len() && s[i + 1] == 'n' {
            r.push('\n');
            assert(before + (seq!['\n'] + unescape_from(s@, i + 2)) =~= r@ + unescape_from(
                s@,
                i + 2,
            ));
            i += 2;
        } else {
            r.push(s[i]);
            assert(before + (seq![s@[i as int]] + unescape_from(s@, i + 1)) =~= r@ + unescape_from(
                s@,
                i + 1,
            ));
            i += 1;
        }
    }
    assert(r@ + Seq::<char>::empty() =~= r@);
    r
}

fn prefix_all(ls: &Vec<Vec<char>>, prefix: &Vec<char>) -> (r: Vec<Vec<char>>)
    ensures
        rows(r@) == prefixed(rows(ls@), prefix@),
{
    let mut r: Vec<Vec<char>> = Vec::new();
    let mut i: usize = 0;
    while i < ls.len()
        invariant
            i <= ls@.len(),
            r@.len() == i,
            forall|k: int| 0 <= k < i ==> (#[trigger] r@[k])@ == prefix@ + ls@[k]@,
        decreases ls@.len() - i,
    {
        let mut line: Vec<char> = Vec::new();
        append(&mut line, prefix);
        append(&mut line, &ls[i]);
        assert(line@ =~= prefix@ + ls@[i as int]@);
        r.push(line);
        i += 1;
    }
    assert(rows(r@) =~= prefixed(rows(ls@), prefix@));
    r
}

fn indent_chars(indent: &Vec<char>, content: &Vec<char>) -> (r: Vec<char>)
    ensures
        r@ == indent_lines(indent@, content@),
{
    let ls = split_lines(content);
    let indented = prefix_all(&ls, indent);
    let nl: Vec<char> = vec!['\n'];
    assert(nl@ =~= line_ending());
    join_lines(&indented, &nl)
}

/// A template filled with `content`: `pieces` are the parts of the template
/// between its placeholders, `groups` the indent of each placeholder. Each
/// piece is unescaped; between a piece and the next stand the lines of the
/// content, each with the indent of that placeholder before it.
pub fn expand_with(pieces: &Vec<String>, groups: &Vec<Option<String>>, content: &str) -> (r: String)
    ensures
        r@ == expand_with_spec(texts(pieces@), optional_texts(groups@), content@),
{
    let ghost ps = texts(pieces@);
    let ghost gs = optional_texts(groups@);
    let body = to_chars(content);
    let mut out: Vec<char> = Vec::new();
    let mut i: usize = 0;
    assert(out@ =~= weave(ps, gs, content@, 0));
    while i < pieces.len()
        invariant
            i <= pieces@.len(),
            ps == texts(pieces@),
            gs == optional_texts(groups@),
            body@ == content@,
            out@ == weave(ps, gs, content@, i as int),
        decreases pieces@.len() - i,
    {
        let piece = to_chars(pieces[i].as_str());
        let plain = unescape_chars(&piece);
        append(&mut out, &plain);
        if i + 1 < pieces.len() && i < groups.len() {
            let indent: Vec<char> = match &groups[i] {
                Some(s) => to_chars(s.as_str()),
                None => Vec::new(),
            };
            let fill = indent_chars(&indent, &body);
            proof {
                match groups@[i as int] {
                    Some(s) => {
                        assert(indent@ == s@);
                    },
                    None => {
                        assert(indent@ =~= Seq::<char>::empty());
                    },
                }
                assert(fill@ == gap(ps, gs, content@, i as int));
            }
            append(&mut out, &fill);
        } else {
            assert(out@ + Seq::<char>::empty() =~= out@);
        }
        i += 1;
    }
    to_text(&out)
}

/// `template` filled with `content`.
pub fn expand(template: &str, content: &str) -> (r: String)
    ensures
        r@ == expand_spec(template@, content@),
{
    let pattern = "(?m)(^\\s*|)\\{\\s*snippet\\}";
    match split(pattern, template) {
        Some(pieces) => match captures(pattern, template, 1) {
            Some(groups) => expand_with(&pieces, &groups, content),
            None => to_text(&unescape_chars(&to_chars(template))),
        },
        None => to_text(&unescape_chars(&to_chars(template))),
    }
}

/// The text that is injected for `text`: its lines without those that hold
/// `<snip` or `</snip`; of each line that stays, `strip` is taken from its
/// start where it starts with it, and `add` is put before it; the lines are
/// joined by line feeds.
pub fn shape(text: &str, strip: &Option<String>, add: &Option<String>) -> (r: String)
    ensures
        r@ == shape_spec(text@, optional_text(*strip), optional_text(*add)),
{
    let marks = Marks::new();
    let ghost strip_text = optional_text(*strip);
    let ghost add_text = optional_text(*add);
    let strip_chars: Option<Vec<char>> = match strip {
        Some(p) => Some(to_chars(p.as_str())),
        None => None,
    };
    let add_chars: Option<Vec<char>> = match add {
        Some(p) => Some(to_chars(p.as_str())),
        None => None,
    };
    let chars = to_chars(text);
    let ls = split_lines(&chars);
    let mut kept: Vec<Vec<char>> = Vec::new();
    let mut i: usize = 0;
    assert(rows(ls@).take(0) =~= Seq::<Seq<char>>::empty());
    assert(rows(kept@) =~= Seq::<Seq<char>>::empty());
    while i < ls.len()
        invariant
            i <= ls@.len(),
            marks.wf(),
            strip_text == optional_text(*strip),
            add_text == optional_text(*add),
            match strip_chars {
                Some(p) => strip_text == Some(p@),
                None => strip_text is None,
            },
            match add_chars {
                Some(p) => add_text == Some(p@),
                None => add_text is None,
            },
            rows(kept@) == shape_lines(rows(ls@).take(i as int), strip_text, add_text),
        decreases ls@.len() - i,
    {
        let ghost upto = rows(ls@).take(i + 1);
        let ghost before = rows(kept@);
        proof {
            assert(upto.drop_last() =~= rows(ls@).take(i as int));
            assert(upto.last() == ls@[i as int]@);
        }
        let line = &ls[i];
        if !includes(line, &marks.open) && !includes(line, &marks.close) {
            let start: usize = match &strip_chars {
                Some(p) => if starts_with_at(line, 0, p) {
                    p.len()
                } else {
                    0
                },
                None => 0,
            };
            let mut shaped: Vec<char> = Vec::new();
            match &add_chars {
                Some(p) => {
                    append(&mut shaped, p);
                },
                None => {},
            }
            let rest = slice(line, start, line.len());
            append(&mut shaped, &rest);
            proof {
                assert(line@.subrange(0, line@.len() as int) =~= line@);
                assert(line@.subrange(start as int, line@.len() as int) =~= line@.skip(
                    start as int,
                ));
                assert(line@.skip(0) =~= line@);
                assert(shaped@ =~= shape_line(line@, strip_text, add_text));
            }
            kept.push(shaped);
            assert(rows(kept@) =~= before.push(shape_line(line@, strip_text, add_text)));
        }
        i += 1;
    }
    assert(rows(ls@).take(ls@.len() as int) =~= rows(ls@));
    let nl: Vec<char> = vec!['\n'];
    assert(nl@ =~= line_ending());
    to_text(&join_lines(&kept, &nl))
}

} // verus!
