//! The errors of parsing a file.
use vstd::prelude::*;
use vstd::string::StringExecFns;
use scraper::error::SelectorErrorKind;

verus! {

/// What is wrong with the tags of a file.
#[derive(Debug, Clone, Copy, PartialEq, Eq, Structural)]
pub enum GrammarErrorKind {
    /// An open tag begins and no `>` follows it.
    UnterminatedOpenTag,
    /// `</snip` is not followed by `>`.
    MalformedCloseTag,
    /// An open tag has no close tag.
    MissingCloseTag,
    /// A close tag closes no open tag.
    UnexpectedCloseTag,
}

/// A tag that breaks the grammar, and the index of its first character.
#[derive(Debug, Clone, Copy, PartialEq, Eq, Structural)]
pub struct GrammarError {
    pub kind: GrammarErrorKind,
    pub offset: usize,
}

/// Why a file, or one tag of it, could not be read.
#[derive(Debug)]
pub enum ParseError {
    /// The tags of the file break the grammar.
    Grammar(GrammarError),
    /// The selector by which the tag is looked up is no selector.
    HtmlParsing(scraper::error::SelectorErrorKind),
    /// The markup of the tag holds no element that the selector matches.
    SelectorNotFound { selector: String, tag: String },
    /// The tag has no `id` attribute.
    MissingId { tag: String },
}

/// The character of a digit.
pub open spec fn digit(d: int) -> char {
    if d == 0 {
        '0'
    } else if d == 1 {
        '1'
    } else if d == 2 {
        '2'
    } else if d == 3 {
        '3'
    } else if d == 4 {
        '4'
    } else if d == 5 {
        '5'
    } else if d == 6 {
        '6'
    } else if d == 7 {
        '7'
    } else if d == 8 {
        '8'
    } else {
        '9'
    }
}

/// A number in decimal digits.
pub open spec fn decimal(n: nat) -> Seq<char>
    decreases n,
{
    if n < 10 {
        seq![digit(n as int)]
    } else {
        decimal(n / 10).push(digit((n % 10) as int))
    }
}

/// What is wrong with the tags, in words.
pub open spec fn kind_text(kind: GrammarErrorKind) -> Seq<char> {
    match kind {
        GrammarErrorKind::UnterminatedOpenTag => "open tag without `>`"@,
        GrammarErrorKind::MalformedCloseTag => "`</snip` without `>`"@,
        GrammarErrorKind::MissingCloseTag => "open tag without close tag"@,
        GrammarErrorKind::UnexpectedCloseTag => "close tag without open tag"@,
    }
}

/// A grammar error in words: what is wrong, and at which character.
pub open spec fn grammar_message(e: GrammarError) -> Seq<char> {
    kind_text(e.kind) + " at character "@ + decimal(e.offset as nat)
}

fn digit_char(d: usize) -> (c: char)
    requires
        d < 10,
    ensures
        c == digit(d as int),
{
    if d == 0 {
        '0'
    } else if d == 1 {
        '1'
    } else if d == 2 {
        '2'
    } else if d == 3 {
        '3'
    } else if d == 4 {
        '4'
    } else if d == 5 {
        '5'
    } else if d == 6 {
        '6'
    } else if d == 7 {
        '7'
    } else if d == 8 {
        '8'
    } else {
        '9'
    }
}

/// Appends the decimal digits of `n` to `out`.
pub fn push_decimal(out: &mut String, n: usize)
    ensures
        final(out)@ == old(out)@ + decimal(n as nat),
    decreases n,
{
    if n < 10 {
        out.push(digit_char(n));
        assert(out@ =~= old(out)@ + decimal(n as nat));
    } else {
        push_decimal(out, n / 10);
        out.push(digit_char(n % 10));
        assert(out@ =~= old(out)@ + decimal(n as nat));
    }
}

/// `Display` of `SelectorErrorKind`: what `scraper` says of a selector that
/// it could not read.
#[verifier::external_body]
fn selector_error_text(e: &SelectorErrorKind) -> String {
    e.to_string()
}

impl GrammarError {
    /// The error in words.
    pub fn message(&self) -> (r: String)
        ensures
            r@ == grammar_message(*self),
    {
        let mut out: String = match self.kind {
            GrammarErrorKind::UnterminatedOpenTag => "open tag without `>`".to_owned(),
            GrammarErrorKind::MalformedCloseTag => "`</snip` without `>`".to_owned(),
            GrammarErrorKind::MissingCloseTag => "open tag without close tag".to_owned(),
            GrammarErrorKind::UnexpectedCloseTag => "close tag without open tag".to_owned(),
        };
        out.append(" at character ");
        push_decimal(&mut out, self.offset);
        out
    }
}

/// A parse error in words, where the words are this crate's own: what
/// `scraper` says of a selector is not among them.
pub open spec fn parse_message(e: ParseError) -> Option<Seq<char>> {
    match e {
        ParseError::Grammar(e) => Some(grammar_message(e)),
        ParseError::HtmlParsing(_) => None,
        ParseError::SelectorNotFound { selector, tag } => Some(
            "Selector `"@ + selector@ + "` not found in tag: "@ + tag@,
        ),
        ParseError::MissingId { tag } => Some("attribute `id` not found in tag: "@ + tag@),
    }
}

impl ParseError {
    /// The error in words.
    pub fn message(&self) -> (r: String)
        ensures
            parse_message(*self) is Some ==> r@ == parse_message(*self)->Some_0,
    {
        match self {
            ParseError::Grammar(e) => e.message(),
            ParseError::HtmlParsing(e) => selector_error_text(e),
            ParseError::SelectorNotFound { selector, tag } => {
                let mut out = "Selector `".to_owned();
                out.append(selector.as_str());
                out.append("` not found in tag: ");
                out.append(tag.as_str());
                out
            },
            ParseError::MissingId { tag } => {
                let mut out = "attribute `id` not found in tag: ".to_owned();
                out.append(tag.as_str());
                out
            },
        }
    }
}

} // verus!
