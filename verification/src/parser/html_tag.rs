//! The parts of a tagged region, and the attributes of its open tag.
use vstd::prelude::*;
use vstd::pervasive::unreached;
use scraper::error::SelectorErrorKind;
use scraper::{Html, Selector};
use crate::errors::ParseError;
use crate::parser::tree::Region;
use crate::strmap::{pairs, StrMap};

verus! {

#[verifier::external_type_specification]
#[verifier::external_body]
pub struct ExSelectorErrorKind(SelectorErrorKind);

/// What `scraper` finds in an HTML fragment for a CSS selector: nothing at
/// all where the selector does not parse; else the attributes of the first
/// element that the selector matches, by name, or nothing where no element
/// matches.
pub uninterp spec fn html_first_attributes(fragment: Seq<char>, selector: Seq<char>) -> Option<
    Option<Map<Seq<char>, Seq<char>>>,
>;

/// The map that a sequence of names and values makes, a later pair replacing
/// an earlier one of the same name.
pub open spec fn pairs_map(ps: Seq<(Seq<char>, Seq<char>)>) -> Map<Seq<char>, Seq<char>>
    decreases ps.len(),
{
    if ps.len() == 0 {
        Map::empty()
    } else {
        pairs_map(ps.drop_last()).insert(ps.last().0, ps.last().1)
    }
}

/// A map of strings, with each value as its characters.
pub open spec fn values_text(m: Map<Seq<char>, String>) -> Map<Seq<char>, Seq<char>> {
    Map::new(|k: Seq<char>| m.contains_key(k), |k: Seq<char>| m[k]@)
}

/// The name of the element that carries the attributes of a region.
pub open spec fn snip() -> Seq<char> {
    "snip"@
}

/// The attributes of an open tag, where its markup holds a `snip` element.
pub open spec fn attributes_of(tag: Seq<char>) -> Option<Map<Seq<char>, Seq<char>>> {
    match html_first_attributes(tag, snip()) {
        Some(Some(attributes)) => Some(attributes),
        _ => None,
    }
}

/// Calls `scraper`: `Selector::parse` on `selector`, `Html::parse_fragment` on
/// `fragment`, `Html::select`, and on the first element that comes out
/// `Element::attrs`, which hands out names and values. The contract only
/// names the attributes that come back.
#[verifier::external_body]
fn select_first_attributes(fragment: &str, selector: &str) -> (r: Result<
    Option<Vec<(String, String)>>,
    SelectorErrorKind,
>)
    ensures
        match r {
            Ok(Some(attrs)) => html_first_attributes(fragment@, selector@) == Some(
                Some(pairs_map(pairs(attrs@))),
            ),
            Ok(None) => html_first_attributes(fragment@, selector@) == Some(
                None::<Map<Seq<char>, Seq<char>>>,
            ),
            Err(_) => html_first_attributes(fragment@, selector@) is None,
        },
{
    let selector = Selector::parse(selector)?;
    let html = Html::parse_fragment(fragment);
    Ok(
        html.select(&selector).next().map(
            |e| e.value().attrs().map(|(k, v)| (k.to_string(), v.to_string())).collect(),
        ),
    )
}

/// The attributes by name, given their names and values in the order in
/// which they were read: a later one replaces an earlier one of the same
/// name.
pub fn attributes_from(attrs: &Vec<(String, String)>) -> (m: StrMap<String>)
    ensures
        values_text(m@) == pairs_map(pairs(attrs@)),
{
    let mut m: StrMap<String> = StrMap::new();
    let mut i: usize = 0;
    assert(values_text(m@) =~= pairs_map(pairs(attrs@).take(0)));
    while i < attrs.len()
        invariant
            i <= attrs@.len(),
            values_text(m@) == pairs_map(pairs(attrs@).take(i as int)),
        decreases attrs@.len() - i,
    {
        let ghost before = m@;
        let key = attrs[i].0.clone();
        let value = attrs[i].1.clone();
        m.insert(key, value);
        proof {
            let upto = pairs(attrs@).take(i + 1);
            assert(upto.drop_last() =~= pairs(attrs@).take(i as int));
            assert(upto.last() == (attrs@[i as int].0@, attrs@[i as int].1@));
            assert(values_text(m@) =~= values_text(before).insert(key@, value@));
        }
        i += 1;
    }
    assert(pairs(attrs@).take(attrs@.len() as int) =~= pairs(attrs@));
    m
}

/// The attributes of the open tag `tag`, by name. It fails where the markup
/// of the tag holds no `snip` element.
pub fn get_tag_attributes(tag: &str) -> (r: Result<StrMap<String>, ParseError>)
    ensures
        match r {
            Ok(m) => attributes_of(tag@) == Some(values_text(m@)),
            Err(ParseError::HtmlParsing(_)) => html_first_attributes(tag@, snip()) is None,
            Err(ParseError::SelectorNotFound { selector, tag: t }) => html_first_attributes(
                tag@,
                snip(),
            ) == Some(None::<Map<Seq<char>, Seq<char>>>) && selector@ == snip() && t@ == tag@,
            Err(_) => false,
        },
{
    let selector_name = "snip";
    match select_first_attributes(tag, selector_name) {
        Err(e) => Err(ParseError::HtmlParsing(e)),
        Ok(None) => Err(
            ParseError::SelectorNotFound {
                selector: selector_name.to_owned(),
                tag: tag.to_owned(),
            },
        ),
        Ok(Some(attrs)) => Ok(attributes_from(&attrs)),
    }
}

/// The open tag of a region, from `<snip` to `>`.
pub fn get_tag_open(region: &Region) -> (r: &str)
    requires
        region is Tagged,
    ensures
        r@ == region->tag_open@,
{
    match region {
        Region::Tagged { tag_open, .. } => tag_open.as_str(),
        Region::Plain { .. } => unreached(),
    }
}

/// The close tag of a region, with its leader and its closer.
pub fn get_tag_close(region: &Region) -> (r: &str)
    requires
        region is Tagged,
    ensures
        r@ == region->tag_close@,
{
    match region {
        Region::Tagged { tag_close, .. } => tag_close.as_str(),
        Region::Plain { .. } => unreached(),
    }
}

/// The comment leader before the open tag of a region.
pub fn get_comment_tag_open(region: &Region) -> (r: &str)
    requires
        region is Tagged,
    ensures
        r@ == region->leader@,
{
    match region {
        Region::Tagged { leader, .. } => leader.as_str(),
        Region::Plain { .. } => unreached(),
    }
}

/// What closes the line of the open tag of a region, if anything does.
pub fn get_comment_tag_of_tag_open(region: &Region) -> (r: Option<&str>)
    requires
        region is Tagged,
    ensures
        match r {
            Some(s) => s@ == region->closer@ && s@.len() > 0,
            None => region->closer@.len() == 0,
        },
{
    match region {
        Region::Tagged { closer, .. } => {
            if closer.as_str().is_empty() {
                None
            } else {
                Some(closer.as_str())
            }
        },
        Region::Plain { .. } => unreached(),
    }
}

} // verus!
