//! The tag grammar: a file is cut into open tags, close tags and the text
//! between them.
//!
//! An open tag is a leader (one of `<!--`, `///`, `//`, `#`, or nothing, then
//! spaces), the tag itself (`<snip` up to the next `>`), and a closer (spaces,
//! an optional `-->` with spaces after it, an optional line break). A close
//! tag is a leader, `</snip>` and a closer. Everything else is text.
use vstd::prelude::*;
use crate::errors::{GrammarError, GrammarErrorKind};
use crate::text::{has_prefix_at, index_of, lemma_index_of_bounds, starts_with_at, substring, find};

verus! {

/// `<snip`, with which the tag of an open tag begins.
pub open spec fn open_mark() -> Seq<char> {
    seq!['<', 's', 'n', 'i', 'p']
}

/// `</snip`, with which the tag of a close tag begins.
pub open spec fn close_mark() -> Seq<char> {
    seq!['<', '/', 's', 'n', 'i', 'p']
}

/// `-->`, which ends an HTML comment.
pub open spec fn arrow() -> Seq<char> {
    seq!['-', '-', '>']
}

/// `<!--`, which begins an HTML comment.
pub open spec fn html_leader() -> Seq<char> {
    seq!['<', '!', '-', '-']
}

/// `///`.
pub open spec fn doc_leader() -> Seq<char> {
    seq!['/', '/', '/']
}

/// `//`.
pub open spec fn slash_leader() -> Seq<char> {
    seq!['/', '/']
}

/// `#`.
pub open spec fn hash_leader() -> Seq<char> {
    seq!['#']
}

/// A carriage return and a line feed.
pub open spec fn crlf() -> Seq<char> {
    seq!['\r', '\n']
}

/// The first index at or after `i` that holds no space.
pub open spec fn spaces_end(s: Seq<char>, i: int) -> int
    decreases s.len() - i,
{
    if 0 <= i < s.len() && s[i] == ' ' {
        spaces_end(s, i + 1)
    } else {
        i
    }
}

/// The length of the comment marker at `i`: the first of `<!--`, `///`, `//`
/// and `#` that stands there, or nothing.
pub open spec fn marker_len(s: Seq<char>, i: int) -> int {
    if has_prefix_at(s, i, html_leader()) {
        4
    } else if has_prefix_at(s, i, doc_leader()) {
        3
    } else if has_prefix_at(s, i, slash_leader()) {
        2
    } else if has_prefix_at(s, i, hash_leader()) {
        1
    } else {
        0
    }
}

/// Where the leader that begins at `i` ends.
pub open spec fn leader_end(s: Seq<char>, i: int) -> int {
    spaces_end(s, i + marker_len(s, i))
}

/// An open tag begins at `i`.
pub open spec fn opens_at(s: Seq<char>, i: int) -> bool {
    has_prefix_at(s, leader_end(s, i), open_mark())
}

/// A close tag begins at `i`.
pub open spec fn closes_at(s: Seq<char>, i: int) -> bool {
    has_prefix_at(s, leader_end(s, i), close_mark())
}

/// The length of the line break at `i`, 0 where there is none.
pub open spec fn line_break_len(s: Seq<char>, i: int) -> int {
    if has_prefix_at(s, i, crlf()) {
        2
    } else if 0 <= i < s.len() && s[i] == '\n' {
        1
    } else {
        0
    }
}

/// Where the closer that begins at `i` ends.
pub open spec fn closer_end(s: Seq<char>, i: int) -> int {
    let a = spaces_end(s, i);
    let b = if has_prefix_at(s, a, arrow()) {
        spaces_end(s, a + 3)
    } else {
        a
    };
    b + line_break_len(s, b)
}

/// The first index at or after `i` at which a tag begins, or the length of
/// `s`.
pub open spec fn text_end(s: Seq<char>, i: int) -> int
    decreases s.len() - i,
{
    if 0 <= i < s.len() && !opens_at(s, i) && !closes_at(s, i) {
        text_end(s, i + 1)
    } else {
        i
    }
}

/// A piece of a file.
pub enum TokenView {
    /// Text that holds no beginning of a tag.
    Text { text: Seq<char> },
    /// An open tag.
    Open { leader: Seq<char>, tag: Seq<char>, closer: Seq<char> },
    /// A close tag, with its leader and its closer.
    Close { text: Seq<char> },
}

impl TokenView {
    /// The characters of the piece.
    pub open spec fn text(self) -> Seq<char> {
        match self {
            TokenView::Text { text } => text,
            TokenView::Open { leader, tag, closer } => leader + tag + closer,
            TokenView::Close { text } => text,
        }
    }
}

/// The characters of all the pieces.
pub open spec fn tokens_text(ts: Seq<TokenView>) -> Seq<char>
    decreases ts.len(),
{
    if ts.len() == 0 {
        Seq::empty()
    } else {
        ts[0].text() + tokens_text(ts.drop_first())
    }
}

pub proof fn lemma_spaces_end(s: Seq<char>, i: int)
    requires
        0 <= i <= s.len(),
    ensures
        i <= spaces_end(s, i) <= s.len(),
        forall|k: int| i <= k < spaces_end(s, i) ==> s[k] == ' ',
        spaces_end(s, i) < s.len() ==> s[spaces_end(s, i)] != ' ',
    decreases s.len() - i,
{
    if i < s.len() && s[i] == ' ' {
        lemma_spaces_end(s, i + 1);
    }
}

pub proof fn lemma_leader_end(s: Seq<char>, i: int)
    requires
        0 <= i <= s.len(),
    ensures
        i <= i + marker_len(s, i) <= leader_end(s, i) <= s.len(),
{
    lemma_spaces_end(s, i + marker_len(s, i));
}

pub proof fn lemma_closer_end(s: Seq<char>, i: int)
    requires
        0 <= i <= s.len(),
    ensures
        i <= closer_end(s, i) <= s.len(),
{
    lemma_spaces_end(s, i);
    let a = spaces_end(s, i);
    if has_prefix_at(s, a, arrow()) {
        lemma_spaces_end(s, a + 3);
    }
}

pub proof fn lemma_text_end(s: Seq<char>, i: int)
    requires
        0 <= i <= s.len(),
    ensures
        i <= text_end(s, i) <= s.len(),
        forall|k: int| i <= k < text_end(s, i) ==> !opens_at(s, k) && !closes_at(s, k),
        text_end(s, i) < s.len() ==> opens_at(s, text_end(s, i)) || closes_at(s, text_end(s, i)),
    decreases s.len() - i,
{
    if i < s.len() && !opens_at(s, i) && !closes_at(s, i) {
        lemma_text_end(s, i + 1);
    }
}

/// The pieces of `s` from index `i` on, or the first tag that breaks the
/// grammar.
pub open spec fn lex_from(s: Seq<char>, i: int) -> Result<Seq<TokenView>, GrammarError>
    decreases s.len() - i,
{
    if i < 0 || i >= s.len() {
        Ok(Seq::empty())
    } else {
        let le = leader_end(s, i);
        if opens_at(s, i) {
            let g = index_of(s, '>', le + 5);
            if g >= s.len() {
                Err(GrammarError { kind: GrammarErrorKind::UnterminatedOpenTag, offset: i as usize })
            } else {
                let ce = closer_end(s, g + 1);
                proof {
                    lemma_leader_end(s, i);
                    lemma_index_of_bounds(s, '>', le + 5);
                    lemma_closer_end(s, g + 1);
                }
                match lex_from(s, ce) {
                    Ok(rest) => Ok(
                        seq![
                            TokenView::Open {
                                leader: s.subrange(i, le),
                                tag: s.subrange(le, g + 1),
                                closer: s.subrange(g + 1, ce),
                            },
                        ] + rest,
                    ),
                    Err(e) => Err(e),
                }
            }
        } else if closes_at(s, i) {
            if le + 6 < s.len() && s[le + 6] == '>' {
                let ce = closer_end(s, le + 7);
                proof {
                    lemma_leader_end(s, i);
                    lemma_closer_end(s, le + 7);
                }
                match lex_from(s, ce) {
                    Ok(rest) => Ok(seq![TokenView::Close { text: s.subrange(i, ce) }] + rest),
                    Err(e) => Err(e),
                }
            } else {
                Err(GrammarError { kind: GrammarErrorKind::MalformedCloseTag, offset: i as usize })
            }
        } else {
            let te = text_end(s, i + 1);
            proof {
                lemma_text_end(s, i + 1);
            }
            match lex_from(s, te) {
                Ok(rest) => Ok(seq![TokenView::Text { text: s.subrange(i, te) }] + rest),
                Err(e) => Err(e),
            }
        }
    }
}

/// The pieces of `s`, or the first tag that breaks the grammar.
pub open spec fn lex_spec(s: Seq<char>) -> Result<Seq<TokenView>, GrammarError> {
    lex_from(s, 0)
}

/// A piece of a file.
#[derive(Debug)]
pub enum Token {
    /// Text that holds no beginning of a tag.
    Text { text: String },
    /// An open tag.
    Open { leader: String, tag: String, closer: String },
    /// A close tag, with its leader and its closer.
    Close { text: String },
}

impl View for Token {
    type V = TokenView;

    open spec fn view(&self) -> TokenView {
        match self {
            Token::Text { text } => TokenView::Text { text: text@ },
            Token::Open { leader, tag, closer } => TokenView::Open {
                leader: leader@,
                tag: tag@,
                closer: closer@,
            },
            Token::Close { text } => TokenView::Close { text: text@ },
        }
    }
}

/// The pieces that a vector of tokens holds.
pub open spec fn token_views(ts: Seq<Token>) -> Seq<TokenView> {
    Seq::new(ts.len(), |i: int| ts[i]@)
}

/// The literals of the grammar, as characters.
pub struct Marks {
    pub open: Vec<char>,
    pub close: Vec<char>,
    pub arrow: Vec<char>,
    pub html: Vec<char>,
    pub doc: Vec<char>,
    pub slash: Vec<char>,
    pub hash: Vec<char>,
    pub crlf: Vec<char>,
}

impl Marks {
    /// Each field holds its literal.
    pub open spec fn wf(&self) -> bool {
        &&& self.open@ == open_mark()
        &&& self.close@ == close_mark()
        &&& self.arrow@ == arrow()
        &&& self.html@ == html_leader()
        &&& self.doc@ == doc_leader()
        &&& self.slash@ == slash_leader()
        &&& self.hash@ == hash_leader()
        &&& self.crlf@ == crlf()
    }

    pub fn new() -> (m: Marks)
        ensures
            m.wf(),
    {
        let m = Marks {
            open: vec!['<', 's', 'n', 'i', 'p'],
            close: vec!['<', '/', 's', 'n', 'i', 'p'],
            arrow: vec!['-', '-', '>'],
            html: vec!['<', '!', '-', '-'],
            doc: vec!['/', '/', '/'],
            slash: vec!['/', '/'],
            hash: vec!['#'],
            crlf: vec!['\r', '\n'],
        };
        assert(m.open@ =~= open_mark());
        assert(m.close@ =~= close_mark());
        assert(m.arrow@ =~= arrow());
        assert(m.html@ =~= html_leader());
        assert(m.doc@ =~= doc_leader());
        assert(m.slash@ =~= slash_leader());
        assert(m.hash@ =~= hash_leader());
        assert(m.crlf@ =~= crlf());
        m
    }
}

pub proof fn lemma_mark_lengths()
    ensures
        open_mark().len() == 5,
        close_mark().len() == 6,
        arrow().len() == 3,
        html_leader().len() == 4,
        doc_leader().len() == 3,
        slash_leader().len() == 2,
        hash_leader().len() == 1,
        crlf().len() == 2,
{
}

fn skip_spaces(s: &Vec<char>, i: usize) -> (e: usize)
    requires
        i <= s@.len(),
    ensures
        e == spaces_end(s@, i as int),
        i <= e <= s@.len(),
{
    let mut e: usize = i;
    while e < s.len() && s[e] == ' '
        invariant
            i <= e <= s@.len(),
            spaces_end(s@, i as int) == spaces_end(s@, e as int),
        decreases s@.len() - e,
    {
        e += 1;
    }
    e
}

fn leader(s: &Vec<char>, m: &Marks, i: usize) -> (e: usize)
    requires
        m.wf(),
        i <= s@.len(),
    ensures
        e == leader_end(s@, i as int),
        i <= e <= s@.len(),
{
    proof {
        lemma_mark_lengths();
    }
    let n: usize = if starts_with_at(s, i, &m.html) {
        4
    } else if starts_with_at(s, i, &m.doc) {
        3
    } else if starts_with_at(s, i, &m.slash) {
        2
    } else if starts_with_at(s, i, &m.hash) {
        1
    } else {
        0
    };
    skip_spaces(s, i + n)
}

fn closer(s: &Vec<char>, m: &Marks, i: usize) -> (e: usize)
    requires
        m.wf(),
        i <= s@.len(),
    ensures
        e == closer_end(s@, i as int),
        i <= e <= s@.len(),
{
    proof {
        lemma_mark_lengths();
    }
    let a = skip_spaces(s, i);
    let b = if starts_with_at(s, a, &m.arrow) {
        skip_spaces(s, a + 3)
    } else {
        a
    };
    if starts_with_at(s, b, &m.crlf) {
        b + 2
    } else if b < s.len() && s[b] == '\n' {
        b + 1
    } else {
        b
    }
}

fn text_run(s: &Vec<char>, m: &Marks, i: usize) -> (e: usize)
    requires
        m.wf(),
        i <= s@.len(),
    ensures
        e == text_end(s@, i as int),
        i <= e <= s@.len(),
{
    let mut e: usize = i;
    while e < s.len()
        invariant
            m.wf(),
            i <= e <= s@.len(),
            text_end(s@, i as int) == text_end(s@, e as int),
        decreases s@.len() - e,
    {
        let le = leader(s, m, e);
        if starts_with_at(s, le, &m.open) || starts_with_at(s, le, &m.close) {
            return e;
        }
        e += 1;
    }
    e
}

/// `first`, then what `rest` holds; the error of `rest` where it holds one.
pub open spec fn prepend(first: Seq<TokenView>, rest: Result<Seq<TokenView>, GrammarError>) -> Result<
    Seq<TokenView>,
    GrammarError,
> {
    match rest {
        Ok(ts) => Ok(first + ts),
        Err(e) => Err(e),
    }
}

/// Cuts `s` into its pieces. Fails at the first open tag that no `>` ends and
/// at the first `</snip` that no `>` follows, with the index at which that
/// tag begins.
pub fn lex(s: &Vec<char>) -> (r: Result<Vec<Token>, GrammarError>)
    ensures
        match r {
            Ok(ts) => lex_spec(s@) == Ok::<Seq<TokenView>, GrammarError>(token_views(ts@)),
            Err(e) => lex_spec(s@) == Err::<Seq<TokenView>, GrammarError>(e),
        },
{
    let m = Marks::new();
    let mut ts: Vec<Token> = Vec::new();
    let mut i: usize = 0;
    assert(token_views(ts@) =~= Seq::<TokenView>::empty());
    assert(prepend(token_views(ts@), lex_from(s@, 0)) == lex_from(s@, 0)) by {
        match lex_from(s@, 0) {
            Ok(rest) => {
                assert(token_views(ts@) + rest =~= rest);
            },
            Err(_) => {},
        }
    }
    while i < s.len()
        invariant
            m.wf(),
            i <= s@.len(),
            lex_spec(s@) == prepend(token_views(ts@), lex_from(s@, i as int)),
        decreases s@.len() - i,
    {
        let ghost before = token_views(ts@);
        let le = leader(s, &m, i);
        if starts_with_at(s, le, &m.open) {
            let g = find(s, '>', le + 5);
            if g >= s.len() {
                return Err(GrammarError { kind: GrammarErrorKind::UnterminatedOpenTag, offset: i });
            }
            let ce = closer(s, &m, g + 1);
            let token = Token::Open {
                leader: substring(s, i, le),
                tag: substring(s, le, g + 1),
                closer: substring(s, g + 1, ce),
            };
            ts.push(token);
            proof {
                lemma_prepend_step(before, token@, lex_from(s@, ce as int));
                assert(token_views(ts@) =~= before + seq![token@]);
            }
            i = ce;
        } else if starts_with_at(s, le, &m.close) {
            if le + 6 < s.len() && s[le + 6] == '>' {
                let ce = closer(s, &m, le + 7);
                let token = Token::Close { text: substring(s, i, ce) };
                ts.push(token);
                proof {
                    lemma_prepend_step(before, token@, lex_from(s@, ce as int));
                    assert(token_views(ts@) =~= before + seq![token@]);
                }
                i = ce;
            } else {
                return Err(GrammarError { kind: GrammarErrorKind::MalformedCloseTag, offset: i });
            }
        } else {
            let te = text_run(s, &m, i + 1);
            let token = Token::Text { text: substring(s, i, te) };
            ts.push(token);
            proof {
                lemma_prepend_step(before, token@, lex_from(s@, te as int));
                assert(token_views(ts@) =~= before + seq![token@]);
            }
            i = te;
        }
    }
    proof {
        assert(token_views(ts@) + Seq::<TokenView>::empty() =~= token_views(ts@));
    }
    Ok(ts)
}

proof fn lemma_prepend_step(
    before: Seq<TokenView>,
    token: TokenView,
    rest: Result<Seq<TokenView>, GrammarError>,
)
    ensures
        prepend(before, prepend(seq![token], rest)) == prepend(before + seq![token], rest),
{
    match rest {
        Ok(ts) => {
            assert(before + (seq![token] + ts) =~= before + seq![token] + ts);
        },
        Err(_) => {},
    }
}

pub proof fn lemma_tokens_text_concat(a: Seq<TokenView>, b: Seq<TokenView>)
    ensures
        tokens_text(a + b) == tokens_text(a) + tokens_text(b),
    decreases a.len(),
{
    if a.len() == 0 {
        assert(a + b =~= b);
        assert(tokens_text(a) + tokens_text(b) =~= tokens_text(b));
    } else {
        assert((a + b).drop_first() =~= a.drop_first() + b);
        lemma_tokens_text_concat(a.drop_first(), b);
        assert(a[0].text() + (tokens_text(a.drop_first()) + tokens_text(b)) =~= a[0].text()
            + tokens_text(a.drop_first()) + tokens_text(b));
    }
}

pub proof fn lemma_tokens_text_one(t: TokenView)
    ensures
        tokens_text(seq![t]) == t.text(),
{
    let one = seq![t];
    assert(one.len() == 1);
    assert(one[0] == t);
    assert(one.drop_first() =~= Seq::<TokenView>::empty());
    assert(tokens_text(one.drop_first()) =~= Seq::<char>::empty());
    assert(tokens_text(one) == t.text() + tokens_text(one.drop_first()));
    assert(t.text() + Seq::<char>::empty() =~= t.text());
}

/// The pieces of a text, one after the other, are the text.
pub proof fn lemma_lex_covers(s: Seq<char>, i: int)
    requires
        0 <= i <= s.len(),
        lex_from(s, i) is Ok,
    ensures
        tokens_text(lex_from(s, i)->Ok_0) == s.subrange(i, s.len() as int),
    decreases s.len() - i,
{
    if i >= s.len() {
        assert(s.subrange(i, s.len() as int) =~= Seq::<char>::empty());
    } else {
        let le = leader_end(s, i);
        lemma_leader_end(s, i);
        let next = if opens_at(s, i) {
            closer_end(s, index_of(s, '>', le + 5) + 1)
        } else if closes_at(s, i) {
            closer_end(s, le + 7)
        } else {
            text_end(s, i + 1)
        };
        if opens_at(s, i) {
            lemma_index_of_bounds(s, '>', le + 5);
            lemma_closer_end(s, index_of(s, '>', le + 5) + 1);
        } else if closes_at(s, i) {
            lemma_closer_end(s, le + 7);
        } else {
            lemma_text_end(s, i + 1);
        }
        lemma_lex_covers(s, next);
        let rest = lex_from(s, next)->Ok_0;
        let ts = lex_from(s, i)->Ok_0;
        let t = ts[0];
        assert(ts =~= seq![t] + rest);
        lemma_tokens_text_concat(seq![t], rest);
        lemma_tokens_text_one(t);
        assert(t.text() =~= s.subrange(i, next));
        assert(s.subrange(i, next) + s.subrange(next, s.len() as int) =~= s.subrange(
            i,
            s.len() as int,
        ));
    }
}

} // verus!
