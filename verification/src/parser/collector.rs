//! Collecting the snippets of a file: every tagged region, those inside
//! other regions too, with its id and the lines between its tags.
use vstd::prelude::*;
use crate::bypath::{ascending, insert_by_path, inserted};
use crate::errors::{GrammarError, ParseError};
use crate::parser::html_tag::{attributes_of, get_tag_attributes, values_text};
use crate::parser::injector::attribute;
use crate::parser::tree::{
    parse_spec, region_text, region_views, Region, RegionView, SnippetParse,
};
use crate::parser::{kind_of, SnippetKind};
use crate::strmap::StrMap;
use crate::text::{lines, split_lines, texts, to_chars, to_text};

verus! {

/// A snippet as it stands in a file, as mathematical value.
pub struct CollectSnippetView {
    pub id: Seq<char>,
    pub inject_from: Option<SnippetKind>,
    pub tag_open: Seq<char>,
    pub tag_close: Seq<char>,
    pub snippet: Seq<Seq<char>>,
}

/// A snippet as it stands in a file.
#[derive(Debug)]
pub struct CollectSnippet {
    /// The id of the snippet.
    pub id: String,
    /// The kind that the region asks for, where it asks for an injection.
    /// Such a region is a place for a snippet, not a snippet.
    pub inject_from: Option<SnippetKind>,
    /// The open tag, from `<snip` to `>`.
    pub tag_open: String,
    /// The close tag, with its leader and its closer.
    pub tag_close: String,
    /// The lines between the tags.
    pub snippet: Vec<String>,
}

impl View for CollectSnippet {
    type V = CollectSnippetView;

    open spec fn view(&self) -> CollectSnippetView {
        CollectSnippetView {
            id: self.id@,
            inject_from: self.inject_from,
            tag_open: self.tag_open@,
            tag_close: self.tag_close@,
            snippet: texts(self.snippet@),
        }
    }
}

/// What a vector of collected snippets holds.
pub open spec fn snippet_views(v: Seq<CollectSnippet>) -> Seq<CollectSnippetView> {
    Seq::new(v.len(), |i: int| v[i]@)
}

/// The lines between the tags of a region of text `raw`: its lines without
/// the first, which holds the open tag, and without the last, which holds
/// the close tag. The tags of regions in it are among them.
pub open spec fn body_lines(raw: Seq<char>) -> Seq<Seq<char>> {
    let all = lines(raw);
    if all.len() >= 2 {
        all.subrange(1, all.len() - 1)
    } else {
        Seq::empty()
    }
}

/// The kind that the `inject_from` attribute names, if the tag has that
/// attribute and it names one.
pub open spec fn inject_from_of(a: Map<Seq<char>, Seq<char>>) -> Option<SnippetKind> {
    match attribute(a, "inject_from"@) {
        Some(k) => kind_of(k),
        None => None,
    }
}

/// `first`, then what `rest` holds; the error of `rest` where it holds one.
pub open spec fn followed_by(
    first: Seq<CollectSnippetView>,
    rest: Result<Seq<CollectSnippetView>, Seq<char>>,
) -> Result<Seq<CollectSnippetView>, Seq<char>> {
    match rest {
        Ok(more) => Ok(first + more),
        Err(tag) => Err(tag),
    }
}

/// The snippet that a region with the attributes `a` holds: its id, the kind
/// that it asks for if it is a place for an injection, its tags and the
/// lines between them. A region without an `id` holds none; its open tag
/// is handed back.
pub open spec fn snippet_of(
    a: Map<Seq<char>, Seq<char>>,
    tag_open: Seq<char>,
    tag_close: Seq<char>,
    raw: Seq<char>,
) -> Result<CollectSnippetView, Seq<char>> {
    if !a.contains_key("id"@) {
        Err(tag_open)
    } else {
        Ok(
            CollectSnippetView {
                id: a["id"@],
                inject_from: inject_from_of(a),
                tag_open,
                tag_close,
                snippet: body_lines(raw),
            },
        )
    }
}

/// The snippets of a region: the region itself, then those of its children.
/// A region whose tag holds no `snip` element is passed over with all that
/// is in it. It fails at the first tag that has no `id`, with that tag.
pub open spec fn collect_one(r: RegionView) -> Result<Seq<CollectSnippetView>, Seq<char>>
    decreases r,
{
    match r {
        RegionView::Plain { text } => Ok(Seq::empty()),
        RegionView::Tagged { leader, tag_open, closer, children, tag_close } => match attributes_of(
            tag_open,
        ) {
            None => Ok(Seq::empty()),
            Some(a) => match snippet_of(a, tag_open, tag_close, region_text(r)) {
                Err(tag) => Err(tag),
                Ok(own) => followed_by(seq![own], collect_all(children)),
            },
        },
    }
}

/// The snippets of the regions, in the order of the regions.
pub open spec fn collect_all(rs: Seq<RegionView>) -> Result<Seq<CollectSnippetView>, Seq<char>>
    decreases rs,
{
    if rs.len() == 0 {
        Ok(Seq::empty())
    } else {
        match collect_one(rs[0]) {
            Err(tag) => Err(tag),
            Ok(first) => followed_by(first, collect_all(rs.drop_first())),
        }
    }
}

proof fn lemma_followed_by(
    a: Seq<CollectSnippetView>,
    b: Seq<CollectSnippetView>,
    rest: Result<Seq<CollectSnippetView>, Seq<char>>,
)
    ensures
        followed_by(a, followed_by(b, rest)) == followed_by(a + b, rest),
{
    match rest {
        Ok(more) => {
            assert(a + (b + more) =~= a + b + more);
        },
        Err(_) => {},
    }
}

/// The lines between the tags of a region of text `raw`.
pub fn body(raw: &str) -> (r: Vec<String>)
    ensures
        texts(r@) == body_lines(raw@),
{
    let chars = to_chars(raw);
    let all = split_lines(&chars);
    let mut r: Vec<String> = Vec::new();
    if all.len() < 2 {
        assert(texts(r@) =~= body_lines(raw@));
        return r;
    }
    let end: usize = all.len() - 1;
    let mut i: usize = 1;
    while i < end
        invariant
            1 <= i <= end < all@.len(),
            r@.len() == i - 1,
            forall|k: int| 0 <= k < r@.len() ==> (#[trigger] r@[k])@ == all@[k + 1]@,
        decreases end - i,
    {
        r.push(to_text(&all[i]));
        i += 1;
    }
    assert(texts(r@) =~= body_lines(raw@));
    r
}

/// The snippets of the files under a folder.
#[derive(Debug)]
pub struct CollectSnippetsResults {
    pub root_folder: String,
    /// Each file with its path and its snippets. The files are meant to
    /// stand in the order of their paths, each path once: see
    /// [`CollectSnippetsResults::wf`].
    pub snippets: Vec<(String, Vec<CollectSnippet>)>,
}

impl CollectSnippetsResults {
    /// The files stand in the order of their paths, each path once.
    pub open spec fn wf(&self) -> bool {
        ascending(self.snippets@)
    }

    /// No file yet.
    pub fn new(root_folder: String) -> (r: Self)
        ensures
            r.root_folder == root_folder,
            r.snippets@.len() == 0,
            r.wf(),
    {
        CollectSnippetsResults { root_folder, snippets: Vec::new() }
    }

    /// Sets the snippets of the file at `path`, at the place of that path
    /// among the files, replacing what was there for it.
    pub fn insert(&mut self, path: String, snippets: Vec<CollectSnippet>)
        ensures
            final(self).root_folder == old(self).root_folder,
            final(self).snippets@ == inserted(old(self).snippets@, (path, snippets)),
            old(self).wf() ==> final(self).wf(),
    {
        insert_by_path(&mut self.snippets, path, snippets);
    }
}

impl CollectSnippet {
    /// The snippet that a region holds, given the attributes of its open
    /// tag, its tags, and the text that it spans. It fails where the
    /// attributes hold no `id`.
    pub fn from_attributes(
        attributes: &StrMap<String>,
        tag_open: &str,
        tag_close: &str,
        raw: &str,
    ) -> (r: Result<Self, ParseError>)
        ensures
            match r {
                Ok(found) => snippet_of(values_text(attributes@), tag_open@, tag_close@, raw@)
                    == Ok::<CollectSnippetView, Seq<char>>(found@),
                Err(ParseError::MissingId { tag }) => snippet_of(
                    values_text(attributes@),
                    tag_open@,
                    tag_close@,
                    raw@,
                ) is Err && tag@ == tag_open@,
                Err(_) => false,
            },
    {
        let id = match attributes.get("id") {
            Some(id) => id.clone(),
            None => {
                return Err(ParseError::MissingId { tag: tag_open.to_owned() });
            },
        };
        let inject_from = match attributes.get("inject_from") {
            Some(kind) => match SnippetKind::from_str(kind.as_str()) {
                Ok(kind) => Some(kind),
                Err(_) => None,
            },
            None => None,
        };
        Ok(
            CollectSnippet {
                id,
                inject_from,
                tag_open: tag_open.to_owned(),
                tag_close: tag_close.to_owned(),
                snippet: body(raw),
            },
        )
    }
}

/// The collecting of the snippets of one file.
pub struct Collector<'a> {
    /// The text of the file.
    pub input: &'a str,
}

impl<'a> Collector<'a> {
    pub fn new(input: &'a str) -> (r: Self)
        ensures
            r.input == input,
    {
        Collector { input }
    }

    /// Adds the snippets of `region` to `snippets`: the region itself, then
    /// those of the regions in it.
    pub fn collect_region(region: &Region, snippets: &mut Vec<CollectSnippet>) -> (r: Result<
        (),
        ParseError,
    >)
        ensures
            match r {
                Ok(_) => collect_one(region@) is Ok && snippet_views(final(snippets)@)
                    == snippet_views(old(snippets)@) + collect_one(region@)->Ok_0,
                Err(ParseError::MissingId { tag }) => collect_one(region@) == Err::<
                    Seq<CollectSnippetView>,
                    Seq<char>,
                >(tag@),
                Err(_) => false,
            },
        decreases region,
    {
        let ghost before = snippet_views(snippets@);
        match region {
            Region::Plain { text } => {
                assert(before + Seq::<CollectSnippetView>::empty() =~= before);
                Ok(())
            },
            Region::Tagged { leader, tag_open, closer, children, tag_close } => {
                let attributes = match get_tag_attributes(tag_open.as_str()) {
                    Ok(attributes) => attributes,
                    Err(_) => {
                        assert(before + Seq::<CollectSnippetView>::empty() =~= before);
                        return Ok(());
                    },
                };
                let ghost a = values_text(attributes@);
                let raw = region.raw();
                let found = match CollectSnippet::from_attributes(
                    &attributes,
                    tag_open.as_str(),
                    tag_close.as_str(),
                    raw.as_str(),
                ) {
                    Ok(found) => found,
                    Err(e) => {
                        return Err(e);
                    },
                };
                let ghost own = found@;
                snippets.push(found);
                assert(snippet_views(snippets@) =~= before + seq![own]);
                let ghost kids = region_views(children@);
                assert(region@->Tagged_children =~= kids);
                let ghost mut added: Seq<CollectSnippetView> = Seq::empty();
                let mut i: usize = 0;
                proof {
                    assert(kids.skip(0) =~= kids);
                    assert(before + seq![own] + added =~= before + seq![own]);
                    match collect_all(kids) {
                        Ok(more) => {
                            assert(added + more =~= more);
                        },
                        Err(_) => {},
                    }
                }
                while i < children.len()
                    invariant
                        i <= children@.len(),
                        kids == region_views(children@),
                        region@ is Tagged,
                        region@->Tagged_children == kids,
                        attributes_of(region@->Tagged_tag_open) == Some(a),
                        snippet_of(
                            a,
                            region@->Tagged_tag_open,
                            region@->Tagged_tag_close,
                            region_text(region@),
                        ) == Ok::<CollectSnippetView, Seq<char>>(own),
                        collect_all(kids) == followed_by(added, collect_all(kids.skip(i as int))),
                        snippet_views(snippets@) == before + seq![own] + added,
                        forall|k: int|
                            0 <= k < children@.len() ==> decreases_to!(region => #[trigger] children@[k]),
                    decreases children@.len() - i,
                {
                    let ghost rest = kids.skip(i as int);
                    let ghost so_far = snippet_views(snippets@);
                    proof {
                        assert(rest[0] == children@[i as int]@);
                        assert(rest.drop_first() =~= kids.skip(i + 1));
                    }
                    match Self::collect_region(&children[i], snippets) {
                        Ok(_) => {
                            proof {
                                let first = collect_one(rest[0])->Ok_0;
                                lemma_followed_by(added, first, collect_all(kids.skip(i + 1)));
                                assert(so_far + first =~= before + seq![own] + (added + first));
                                added = added + first;
                            }
                        },
                        Err(e) => {
                            proof {
                                assert(collect_one(rest[0]) is Err);
                                assert(collect_all(rest) == collect_one(rest[0]));
                                assert(collect_all(kids) == collect_one(rest[0]));
                                assert(collect_one(region@) == collect_one(rest[0]));
                            }
                            return Err(e);
                        },
                    }
                    i += 1;
                }
                proof {
                    assert(kids.skip(children@.len() as int) =~= Seq::<RegionView>::empty());
                    assert(added + Seq::<CollectSnippetView>::empty() =~= added);
                    assert(before + seq![own] + added =~= before + (seq![own] + added));
                }
                Ok(())
            },
        }
    }

    /// The snippets of the regions, in the order of the regions.
    pub fn collect_snippets(regions: &Vec<Region>, snippets: &mut Vec<CollectSnippet>) -> (r:
        Result<(), ParseError>)
        ensures
            match r {
                Ok(_) => collect_all(region_views(regions@)) is Ok && snippet_views(
                    final(snippets)@,
                ) == snippet_views(old(snippets)@) + collect_all(region_views(regions@))->Ok_0,
                Err(ParseError::MissingId { tag }) => collect_all(region_views(regions@)) == Err::<
                    Seq<CollectSnippetView>,
                    Seq<char>,
                >(tag@),
                Err(_) => false,
            },
    {
        let ghost before = snippet_views(snippets@);
        let ghost rs = region_views(regions@);
        let ghost mut added: Seq<CollectSnippetView> = Seq::empty();
        let mut i: usize = 0;
        proof {
            assert(rs.skip(0) =~= rs);
            assert(before + added =~= before);
            match collect_all(rs) {
                Ok(more) => {
                    assert(added + more =~= more);
                },
                Err(_) => {},
            }
        }
        while i < regions.len()
            invariant
                i <= regions@.len(),
                rs == region_views(regions@),
                collect_all(rs) == followed_by(added, collect_all(rs.skip(i as int))),
                snippet_views(snippets@) == before + added,
            decreases regions@.len() - i,
        {
            let ghost rest = rs.skip(i as int);
            let ghost so_far = snippet_views(snippets@);
            proof {
                assert(rest[0] == regions@[i as int]@);
                assert(rest.drop_first() =~= rs.skip(i + 1));
            }
            match Self::collect_region(&regions[i], snippets) {
                Ok(_) => {
                    proof {
                        let first = collect_one(rest[0])->Ok_0;
                        lemma_followed_by(added, first, collect_all(rs.skip(i + 1)));
                        assert(so_far + first =~= before + (added + first));
                        added = added + first;
                    }
                },
                Err(e) => {
                    proof {
                        assert(collect_one(rest[0]) is Err);
                        assert(collect_all(rest) == collect_one(rest[0]));
                    }
                    return Err(e);
                },
            }
            i += 1;
        }
        proof {
            assert(rs.skip(regions@.len() as int) =~= Seq::<RegionView>::empty());
            assert(added + Seq::<CollectSnippetView>::empty() =~= added);
        }
        Ok(())
    }

    /// The snippets of the file, in the order in which their open tags
    /// stand. It fails where the tags of the file break the grammar, and at
    /// the first tag with a `snip` element that has no `id`.
    pub fn run(&self) -> (r: Result<Vec<CollectSnippet>, ParseError>)
        ensures
            collected_as(r, self.input@),
    {
        let regions = match SnippetParse::parse(self.input) {
            Ok(regions) => regions,
            Err(e) => {
                return Err(ParseError::Grammar(e));
            },
        };
        let mut findings: Vec<CollectSnippet> = Vec::new();
        assert(snippet_views(findings@) =~= Seq::<CollectSnippetView>::empty());
        match Self::collect_snippets(&regions, &mut findings) {
            Ok(_) => {
                assert(Seq::<CollectSnippetView>::empty() + collect_all(
                    region_views(regions@),
                )->Ok_0 =~= collect_all(region_views(regions@))->Ok_0);
                Ok(findings)
            },
            Err(e) => Err(e),
        }
    }
}

/// `r` is what collecting makes of a file of text `input`.
pub open spec fn collected_as(r: Result<Vec<CollectSnippet>, ParseError>, input: Seq<char>) -> bool {
    match parse_spec(input) {
        Err(e) => r == Err::<Vec<CollectSnippet>, ParseError>(ParseError::Grammar(e)),
        Ok(rs) => match collect_all(rs) {
            Err(tag) => r is Err && r->Err_0 is MissingId && r->Err_0->MissingId_tag@ == tag,
            Ok(found) => r is Ok && snippet_views(r->Ok_0@) == found,
        },
    }
}

} // verus!
