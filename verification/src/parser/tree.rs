//! The region tree: the pieces of a file, with each open tag paired with its
//! close tag and what stands between them as its children.
use vstd::prelude::*;
use crate::errors::{GrammarError, GrammarErrorKind};
use crate::parser::grammar::{
    lemma_lex_covers, lemma_tokens_text_concat, lemma_tokens_text_one, lex, lex_spec, token_views,
    tokens_text, Token, TokenView,
};
use crate::text::to_chars;
use vstd::string::{StrSliceExecFns, StringExecFns};

verus! {

/// A node of the region tree, as mathematical value.
pub enum RegionView {
    /// Text outside every tag.
    Plain { text: Seq<char> },
    /// What an open tag and its close tag enclose.
    Tagged {
        leader: Seq<char>,
        tag_open: Seq<char>,
        closer: Seq<char>,
        children: Seq<RegionView>,
        tag_close: Seq<char>,
    },
}

/// A node of the region tree.
#[derive(Debug)]
pub enum Region {
    /// Text outside every tag.
    Plain { text: String },
    /// What an open tag and its close tag enclose.
    Tagged {
        /// The comment leader before the tag.
        leader: String,
        /// The tag itself, from `<snip` to `>`.
        tag_open: String,
        /// What closes the line of the open tag.
        closer: String,
        /// The regions between the two tags.
        children: Vec<Region>,
        /// The close tag, with its leader and its closer.
        tag_close: String,
    },
}

impl View for Region {
    type V = RegionView;

    open spec fn view(&self) -> RegionView
        decreases self,
    {
        match self {
            Region::Plain { text } => RegionView::Plain { text: text@ },
            Region::Tagged { leader, tag_open, closer, children, tag_close } => RegionView::Tagged {
                leader: leader@,
                tag_open: tag_open@,
                closer: closer@,
                children: Seq::new(
                    children@.len(),
                    |i: int|
                        if 0 <= i < children@.len() {
                            children@[i].view()
                        } else {
                            RegionView::Plain { text: Seq::empty() }
                        },
                ),
                tag_close: tag_close@,
            },
        }
    }
}

/// The nodes that a vector of regions holds.
pub open spec fn region_views(rs: Seq<Region>) -> Seq<RegionView> {
    Seq::new(rs.len(), |i: int| rs[i]@)
}

/// The characters that a region spans: its own tags and all that stands
/// between them.
pub open spec fn region_text(r: RegionView) -> Seq<char>
    decreases r,
{
    match r {
        RegionView::Plain { text } => text,
        RegionView::Tagged { leader, tag_open, closer, children, tag_close } => leader + tag_open
            + closer + regions_text(children) + tag_close,
    }
}

/// The characters that the regions span, one after the other.
pub open spec fn regions_text(rs: Seq<RegionView>) -> Seq<char>
    decreases rs,
{
    if rs.len() == 0 {
        Seq::empty()
    } else {
        region_text(rs[0]) + regions_text(rs.drop_first())
    }
}

/// `first`, then the regions that `rest` holds; the error of `rest` where it
/// holds one.
pub open spec fn prepend_regions(
    first: Seq<RegionView>,
    rest: Result<(Seq<RegionView>, int), int>,
) -> Result<(Seq<RegionView>, int), int> {
    match rest {
        Ok((rs, j)) => Ok((first + rs, j)),
        Err(e) => Err(e),
    }
}

/// The regions that the tokens from index `i` on make, up to the first close
/// tag that closes none of them or to the end, with the index reached. Where
/// an open tag has no close tag, the index of the first such open tag.
pub open spec fn build_from(ts: Seq<TokenView>, i: int) -> Result<(Seq<RegionView>, int), int>
    decreases ts.len() - i,
{
    if i < 0 || i >= ts.len() {
        Ok((Seq::empty(), i))
    } else {
        match ts[i] {
            TokenView::Text { text } => prepend_regions(
                seq![RegionView::Plain { text }],
                build_from(ts, i + 1),
            ),
            TokenView::Close { text } => Ok((Seq::empty(), i)),
            TokenView::Open { leader, tag, closer } => match build_from(ts, i + 1) {
                Err(e) => Err(e),
                Ok((children, j)) => if i < j < ts.len() && ts[j] is Close {
                    prepend_regions(
                        seq![
                            RegionView::Tagged {
                                leader,
                                tag_open: tag,
                                closer,
                                children,
                                tag_close: ts[j]->Close_text,
                            },
                        ],
                        build_from(ts, j + 1),
                    )
                } else {
                    Err(i)
                },
            },
        }
    }
}

/// The number of characters before the token of index `i`.
pub open spec fn offset_of(ts: Seq<TokenView>, i: int) -> int {
    tokens_text(ts.take(i)).len() as int
}

/// The region tree of the tokens. It fails at the first open tag that has no
/// close tag, and else at the first close tag that closes no open tag.
pub open spec fn build_spec(ts: Seq<TokenView>) -> Result<Seq<RegionView>, GrammarError> {
    match build_from(ts, 0) {
        Err(i) => Err(
            GrammarError {
                kind: GrammarErrorKind::MissingCloseTag,
                offset: offset_of(ts, i) as usize,
            },
        ),
        Ok((rs, j)) => if j >= ts.len() {
            Ok(rs)
        } else {
            Err(
                GrammarError {
                    kind: GrammarErrorKind::UnexpectedCloseTag,
                    offset: offset_of(ts, j) as usize,
                },
            )
        },
    }
}

pub proof fn lemma_prepend_regions(
    before: Seq<RegionView>,
    one: RegionView,
    rest: Result<(Seq<RegionView>, int), int>,
)
    ensures
        prepend_regions(before, prepend_regions(seq![one], rest)) == prepend_regions(
            before + seq![one],
            rest,
        ),
{
    match rest {
        Ok((rs, j)) => {
            assert(before + (seq![one] + rs) =~= before + seq![one] + rs);
        },
        Err(_) => {},
    }
}

pub proof fn lemma_build_from_bounds(ts: Seq<TokenView>, i: int)
    requires
        0 <= i <= ts.len(),
    ensures
        match build_from(ts, i) {
            Ok((rs, j)) => i <= j <= ts.len() && (j < ts.len() ==> ts[j] is Close),
            Err(e) => i <= e < ts.len() && ts[e] is Open,
        },
    decreases ts.len() - i,
{
    if i < ts.len() {
        match ts[i] {
            TokenView::Text { text } => {
                lemma_build_from_bounds(ts, i + 1);
            },
            TokenView::Close { text } => {},
            TokenView::Open { leader, tag, closer } => {
                lemma_build_from_bounds(ts, i + 1);
                match build_from(ts, i + 1) {
                    Err(e) => {},
                    Ok((children, j)) => {
                        if i < j < ts.len() && ts[j] is Close {
                            lemma_build_from_bounds(ts, j + 1);
                        }
                    },
                }
            },
        }
    }
}

/// The regions that the tokens from index `start` on make, and the index of
/// the close tag that ends them, or the number of tokens. Where an open tag
/// has no close tag, the index of the first such open tag.
pub fn build(tokens: &Vec<Token>, start: usize) -> (r: Result<(Vec<Region>, usize), usize>)
    requires
        start <= tokens@.len(),
    ensures
        match r {
            Ok((rs, j)) => build_from(token_views(tokens@), start as int) == Ok::<
                (Seq<RegionView>, int),
                int,
            >((region_views(rs@), j as int)) && start <= j <= tokens@.len(),
            Err(e) => build_from(token_views(tokens@), start as int) == Err::<
                (Seq<RegionView>, int),
                int,
            >(e as int) && e < tokens@.len(),
        },
    decreases tokens@.len() - start,
{
    let ghost tv = token_views(tokens@);
    let mut out: Vec<Region> = Vec::new();
    let mut i: usize = start;
    proof {
        assert(region_views(out@) =~= Seq::<RegionView>::empty());
        lemma_prepend_nothing(build_from(tv, start as int));
    }
    while i < tokens.len()
        invariant
            tv == token_views(tokens@),
            start <= i <= tokens@.len(),
            build_from(tv, start as int) == prepend_regions(
                region_views(out@),
                build_from(tv, i as int),
            ),
        decreases tokens@.len() - i,
    {
        let ghost before = region_views(out@);
        assert(tv[i as int] == tokens@[i as int]@);
        match &tokens[i] {
            Token::Text { text } => {
                let region = Region::Plain { text: text.clone() };
                proof {
                    lemma_prepend_regions(before, region@, build_from(tv, i + 1));
                }
                out.push(region);
                assert(region_views(out@) =~= before + seq![region@]);
                i += 1;
            },
            Token::Close { text } => {
                proof {
                    assert(before + Seq::<RegionView>::empty() =~= before);
                }
                return Ok((out, i));
            },
            Token::Open { leader, tag, closer } => {
                match build(tokens, i + 1) {
                    Err(e) => {
                        return Err(e);
                    },
                    Ok((children, j)) => {
                        if j >= tokens.len() {
                            return Err(i);
                        }
                        assert(tv[j as int] == tokens@[j as int]@);
                        match &tokens[j] {
                            Token::Close { text } => {
                                let ghost kids = region_views(children@);
                                let region = Region::Tagged {
                                    leader: leader.clone(),
                                    tag_open: tag.clone(),
                                    closer: closer.clone(),
                                    children,
                                    tag_close: text.clone(),
                                };
                                proof {
                                    assert(region@->Tagged_children =~= kids);
                                    lemma_prepend_regions(before, region@, build_from(tv, j + 1));
                                }
                                out.push(region);
                                assert(region_views(out@) =~= before + seq![region@]);
                                i = j + 1;
                            },
                            _ => {
                                return Err(i);
                            },
                        }
                    },
                }
            },
        }
    }
    proof {
        assert(region_views(out@) + Seq::<RegionView>::empty() =~= region_views(out@));
    }
    Ok((out, i))
}

proof fn lemma_prepend_nothing(rest: Result<(Seq<RegionView>, int), int>)
    ensures
        prepend_regions(Seq::empty(), rest) == rest,
{
    match rest {
        Ok((rs, j)) => {
            assert(Seq::<RegionView>::empty() + rs =~= rs);
        },
        Err(_) => {},
    }
}

pub proof fn lemma_regions_text_concat(a: Seq<RegionView>, b: Seq<RegionView>)
    ensures
        regions_text(a + b) == regions_text(a) + regions_text(b),
    decreases a.len(),
{
    if a.len() == 0 {
        assert(a + b =~= b);
        assert(regions_text(a) + regions_text(b) =~= regions_text(b));
    } else {
        assert((a + b).drop_first() =~= a.drop_first() + b);
        lemma_regions_text_concat(a.drop_first(), b);
        assert(region_text(a[0]) + (regions_text(a.drop_first()) + regions_text(b)) =~= region_text(
            a[0],
        ) + regions_text(a.drop_first()) + regions_text(b));
    }
}

pub proof fn lemma_regions_text_one(r: RegionView)
    ensures
        regions_text(seq![r]) == region_text(r),
{
    let one = seq![r];
    assert(one.len() == 1);
    assert(one[0] == r);
    assert(one.drop_first() =~= Seq::<RegionView>::empty());
    assert(regions_text(one.drop_first()) =~= Seq::<char>::empty());
    assert(regions_text(one) == region_text(r) + regions_text(one.drop_first()));
    assert(region_text(r) + Seq::<char>::empty() =~= region_text(r));
}

/// The regions made of a run of tokens span the characters of those tokens.
pub proof fn lemma_build_covers(ts: Seq<TokenView>, i: int)
    requires
        0 <= i <= ts.len(),
        build_from(ts, i) is Ok,
    ensures
        i <= build_from(ts, i)->Ok_0.1 <= ts.len(),
        regions_text(build_from(ts, i)->Ok_0.0) == tokens_text(
            ts.subrange(i, build_from(ts, i)->Ok_0.1),
        ),
    decreases ts.len() - i,
{
    lemma_build_from_bounds(ts, i);
    let (rs, end) = build_from(ts, i)->Ok_0;
    if i >= ts.len() {
        assert(ts.subrange(i, end) =~= Seq::<TokenView>::empty());
    } else {
        match ts[i] {
            TokenView::Text { text } => {
                lemma_build_covers(ts, i + 1);
                let rest = build_from(ts, i + 1)->Ok_0.0;
                let one = RegionView::Plain { text };
                assert(rs == seq![one] + rest);
                lemma_regions_text_concat(seq![one], rest);
                lemma_regions_text_one(one);
                assert(ts.subrange(i, end) =~= seq![ts[i]] + ts.subrange(i + 1, end));
                lemma_tokens_text_concat(seq![ts[i]], ts.subrange(i + 1, end));
                lemma_tokens_text_one(ts[i]);
            },
            TokenView::Close { text } => {
                assert(ts.subrange(i, end) =~= Seq::<TokenView>::empty());
            },
            TokenView::Open { leader, tag, closer } => {
                lemma_build_from_bounds(ts, i + 1);
                lemma_build_covers(ts, i + 1);
                let (children, j) = build_from(ts, i + 1)->Ok_0;
                lemma_build_covers(ts, j + 1);
                let rest = build_from(ts, j + 1)->Ok_0.0;
                let one = RegionView::Tagged {
                    leader,
                    tag_open: tag,
                    closer,
                    children,
                    tag_close: ts[j]->Close_text,
                };
                assert(rs == seq![one] + rest);
                lemma_regions_text_concat(seq![one], rest);
                lemma_regions_text_one(one);
                let inner = ts.subrange(i + 1, j);
                let tail = ts.subrange(j + 1, end);
                assert(ts.subrange(i, end) =~= seq![ts[i]] + inner + seq![ts[j]] + tail);
                lemma_tokens_text_concat(seq![ts[i]] + inner + seq![ts[j]], tail);
                lemma_tokens_text_concat(seq![ts[i]] + inner, seq![ts[j]]);
                lemma_tokens_text_concat(seq![ts[i]], inner);
                lemma_tokens_text_one(ts[i]);
                lemma_tokens_text_one(ts[j]);
                assert(region_text(one) =~= ts[i].text() + tokens_text(inner) + ts[j].text());
            },
        }
    }
}

/// The region tree of a text, or the first tag that breaks the grammar: an
/// open tag that no `>` ends, a `</snip` that no `>` follows, an open tag
/// without a close tag, or a close tag that closes nothing.
pub open spec fn parse_spec(s: Seq<char>) -> Result<Seq<RegionView>, GrammarError> {
    match lex_spec(s) {
        Err(e) => Err(e),
        Ok(ts) => build_spec(ts),
    }
}

/// The regions of a text, one after the other, are the text.
pub proof fn lemma_parse_covers(s: Seq<char>)
    requires
        parse_spec(s) is Ok,
    ensures
        regions_text(parse_spec(s)->Ok_0) == s,
{
    let ts = lex_spec(s)->Ok_0;
    lemma_lex_covers(s, 0);
    lemma_build_covers(ts, 0);
    assert(ts.subrange(0, ts.len() as int) =~= ts);
    assert(s.subrange(0, s.len() as int) =~= s);
}

/// The number of characters before the token of index `i`.
fn offset(tokens: &Vec<Token>, i: usize) -> (n: usize)
    requires
        i <= tokens@.len(),
        tokens_text(token_views(tokens@)).len() <= usize::MAX,
    ensures
        n == offset_of(token_views(tokens@), i as int),
{
    let ghost tv = token_views(tokens@);
    let mut n: usize = 0;
    let mut k: usize = 0;
    assert(tv.take(0) =~= Seq::<TokenView>::empty());
    while k < i
        invariant
            tv == token_views(tokens@),
            k <= i <= tokens@.len(),
            n == tokens_text(tv.take(k as int)).len(),
            tokens_text(tv).len() <= usize::MAX,
        decreases i - k,
    {
        proof {
            assert(tv.take(k + 1) =~= tv.take(k as int) + seq![tv[k as int]]);
            lemma_tokens_text_concat(tv.take(k as int), seq![tv[k as int]]);
            lemma_tokens_text_one(tv[k as int]);
            assert(tv =~= tv.take(k + 1) + tv.skip(k + 1));
            lemma_tokens_text_concat(tv.take(k + 1), tv.skip(k + 1));
            assert(tv[k as int] == tokens@[k as int]@);
        }
        let len: usize = match &tokens[k] {
            Token::Text { text } => text.as_str().unicode_len(),
            Token::Open { leader, tag, closer } => {
                let a = leader.as_str().unicode_len();
                let b = tag.as_str().unicode_len();
                let c = closer.as_str().unicode_len();
                a + b + c
            },
            Token::Close { text } => text.as_str().unicode_len(),
        };
        n = n + len;
        k += 1;
    }
    n
}

/// The parser of the tag grammar.
pub struct SnippetParse;

impl SnippetParse {
    /// The region tree of `input`. The regions, one after the other, are the
    /// input. It fails at the first tag that breaks the grammar, with the
    /// index of the character at which that tag begins.
    pub fn parse(input: &str) -> (r: Result<Vec<Region>, GrammarError>)
        ensures
            match r {
                Ok(rs) => parse_spec(input@) == Ok::<Seq<RegionView>, GrammarError>(
                    region_views(rs@),
                ) && regions_text(region_views(rs@)) == input@,
                Err(e) => parse_spec(input@) == Err::<Seq<RegionView>, GrammarError>(e),
            },
    {
        let chars = to_chars(input);
        let tokens = match lex(&chars) {
            Ok(tokens) => tokens,
            Err(e) => {
                return Err(e);
            },
        };
        proof {
            lemma_lex_covers(chars@, 0);
            assert(chars@.subrange(0, chars@.len() as int) =~= chars@);
        }
        match build(&tokens, 0) {
            Err(i) => Err(
                GrammarError { kind: GrammarErrorKind::MissingCloseTag, offset: offset(&tokens, i) },
            ),
            Ok((regions, j)) => {
                if j >= tokens.len() {
                    proof {
                        lemma_parse_covers(input@);
                    }
                    Ok(regions)
                } else {
                    Err(
                        GrammarError {
                            kind: GrammarErrorKind::UnexpectedCloseTag,
                            offset: offset(&tokens, j),
                        },
                    )
                }
            },
        }
    }
}

pub proof fn lemma_regions_text_push(rs: Seq<RegionView>, i: int)
    requires
        0 <= i < rs.len(),
    ensures
        regions_text(rs.take(i + 1)) == regions_text(rs.take(i)) + region_text(rs[i]),
{
    assert(rs.take(i + 1) =~= rs.take(i) + seq![rs[i]]);
    lemma_regions_text_concat(rs.take(i), seq![rs[i]]);
    lemma_regions_text_one(rs[i]);
}

impl Region {
    /// Appends the characters that the region spans to `out`.
    pub fn write_raw(&self, out: &mut String)
        ensures
            final(out)@ == old(out)@ + region_text(self@),
        decreases self,
    {
        match self {
            Region::Plain { text } => {
                out.append(text.as_str());
            },
            Region::Tagged { leader, tag_open, closer, children, tag_close } => {
                out.append(leader.as_str());
                out.append(tag_open.as_str());
                out.append(closer.as_str());
                let ghost start = out@;
                let ghost kids = region_views(children@);
                assert(self@->Tagged_children =~= kids);
                let mut i: usize = 0;
                assert(kids.take(0) =~= Seq::<RegionView>::empty());
                assert(out@ =~= start + regions_text(kids.take(0)));
                while i < children.len()
                    invariant
                        i <= children@.len(),
                        kids == region_views(children@),
                        out@ == start + regions_text(kids.take(i as int)),
                        forall|k: int|
                            0 <= k < children@.len() ==> decreases_to!(self => #[trigger] children@[k]),
                    decreases children@.len() - i,
                {
                    proof {
                        lemma_regions_text_push(kids, i as int);
                    }
                    children[i].write_raw(out);
                    assert(out@ =~= start + regions_text(kids.take(i + 1)));
                    i += 1;
                }
                assert(kids.take(children@.len() as int) =~= kids);
                out.append(tag_close.as_str());
                assert(out@ =~= old(out)@ + region_text(self@));
            },
        }
    }

    /// The characters that the region spans.
    pub fn raw(&self) -> (r: String)
        ensures
            r@ == region_text(self@),
    {
        let mut out = String::new();
        self.write_raw(&mut out);
        assert(Seq::<char>::empty() + region_text(self@) =~= region_text(self@));
        out
    }
}

} // verus!
