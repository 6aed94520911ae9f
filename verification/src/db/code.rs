//! The snippets that were collected from source files.
use vstd::prelude::*;
use crate::bypath::ascending;
use crate::db::{DBData, Db, Error};
use crate::parser::collector::CollectSnippet;
use crate::parser::synth::line_ending;
use crate::parser::{snippet_table, Snippet, SnippetKind, SnippetTemplate, SnippetView};
use crate::strmap::StrMap;
use crate::text::{join, join_strings, texts};

verus! {

/// The snippets that were collected, file by file.
#[derive(Debug)]
pub struct Code {
    /// Each file with its path and what was collected from it. The files are
    /// meant to stand in the order of their paths, each path once: see
    /// [`Code::wf`]. Of two snippets of one id the one of the later file
    /// counts, so that order decides which.
    pub snippets: Vec<(String, Vec<CollectSnippet>)>,
}

/// The snippet that a collected snippet of the file `path` becomes.
pub open spec fn code_snippet(path: Seq<char>, found: CollectSnippet) -> SnippetView {
    SnippetView {
        id: found.id@,
        content: join(texts(found.snippet@), line_ending()),
        kind: SnippetKind::Code,
        path,
    }
}

/// `table` with what was collected from the file `path`: each collected
/// snippet that is no place for an injection, under its id, replacing what
/// was there.
pub open spec fn load_file(
    table: Map<Seq<char>, SnippetView>,
    path: Seq<char>,
    found: Seq<CollectSnippet>,
) -> Map<Seq<char>, SnippetView>
    decreases found.len(),
{
    if found.len() == 0 {
        table
    } else {
        let before = load_file(table, path, found.drop_last());
        if found.last().inject_from is None {
            before.insert(found.last().id@, code_snippet(path, found.last()))
        } else {
            before
        }
    }
}

/// The snippets of the files by id, a later one replacing an earlier one of
/// the same id.
pub open spec fn load_files(files: Seq<(String, Vec<CollectSnippet>)>) -> Map<Seq<char>, SnippetView>
    decreases files.len(),
{
    if files.len() == 0 {
        Map::empty()
    } else {
        load_file(load_files(files.drop_last()), files.last().0@, files.last().1@)
    }
}

impl Code {
    /// The files stand in the order of their paths, each path once.
    pub open spec fn wf(&self) -> bool {
        ascending(self.snippets@)
    }

    pub fn new(snippets: Vec<(String, Vec<CollectSnippet>)>) -> (r: Self)
        ensures
            r.snippets == snippets,
            r.wf() == ascending(snippets@),
    {
        Code { snippets }
    }
}

impl Db for Code {
    /// The snippets that were collected, by id, without the regions that
    /// ask for an injection: file by file in the order in which the files
    /// stand, which is the order of their paths where `wf` holds. There are
    /// no templates.
    fn load(&self) -> (r: Result<DBData, Error>)
        ensures
            r is Ok,
            snippet_table(r->Ok_0.snippets@) == load_files(self.snippets@),
            r->Ok_0.templates@ == Map::<Seq<char>, SnippetTemplate>::empty(),
    {
        let mut data = DBData::default();
        let ghost files = self.snippets@;
        let mut i: usize = 0;
        assert(files.take(0) =~= Seq::<(String, Vec<CollectSnippet>)>::empty());
        assert(snippet_table(data.snippets@) =~= load_files(files.take(0)));
        while i < self.snippets.len()
            invariant
                i <= files.len(),
                files == self.snippets@,
                snippet_table(data.snippets@) == load_files(files.take(i as int)),
                data.templates@ == Map::<Seq<char>, SnippetTemplate>::empty(),
            decreases files.len() - i,
        {
            let path = &self.snippets[i].0;
            let found = &self.snippets[i].1;
            let ghost base = load_files(files.take(i as int));
            proof {
                assert(files.take(i + 1).drop_last() =~= files.take(i as int));
                assert(files.take(i + 1).last() == files[i as int]);
            }
            let mut j: usize = 0;
            assert(found@.take(0) =~= Seq::<CollectSnippet>::empty());
            while j < found.len()
                invariant
                    j <= found@.len(),
                    snippet_table(data.snippets@) == load_file(base, path@, found@.take(j as int)),
                    data.templates@ == Map::<Seq<char>, SnippetTemplate>::empty(),
                decreases found@.len() - j,
            {
                proof {
                    assert(found@.take(j + 1).drop_last() =~= found@.take(j as int));
                    assert(found@.take(j + 1).last() == found@[j as int]);
                }
                let snippet = &found[j];
                if snippet.inject_from.is_none() {
                    let ghost before = data.snippets@;
                    let entry = Snippet {
                        id: snippet.id.clone(),
                        content: join_strings(&snippet.snippet, "\n"),
                        kind: SnippetKind::Code,
                        path: path.clone(),
                    };
                    proof {
                        reveal_strlit("\n");
                        assert("\n"@ =~= line_ending());
                        assert(entry@ == code_snippet(path@, *snippet));
                    }
                    data.snippets.insert(snippet.id.clone(), entry);
                    assert(snippet_table(data.snippets@) =~= snippet_table(before).insert(
                        snippet.id@,
                        entry@,
                    ));
                }
                j += 1;
            }
            assert(found@.take(found@.len() as int) =~= found@);
            i += 1;
        }
        assert(files.take(files.len() as int) =~= files);
        Ok(data)
    }

    /// Collected snippets are not written anywhere.
    fn save(&self, snippets: &Vec<CollectSnippet>, templates: &StrMap<SnippetTemplate>) -> (r:
        Result<(), Error>)
        ensures
            r == Err::<(), Error>(Error::NotSupported),
    {
        Err(Error::NotSupported)
    }
}

} // verus!
