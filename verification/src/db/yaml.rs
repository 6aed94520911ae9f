//! The snippet file: snippets and templates that are kept beside the source
//! files.
use vstd::prelude::*;
use vstd::string::StringExecFns;
use crate::db::DBData;
use crate::parser::collector::CollectSnippet;
use crate::parser::synth::line_ending;
use crate::parser::{snippet_table, Snippet, SnippetKind, SnippetTemplate, SnippetView};
use crate::strmap::StrMap;
use crate::text::{join, join_strings, texts, to_chars};

verus! {

/// The name of the snippet file.
pub const DEFAULT_FILE_NAME: &'static str = "snipdoc.yml";

/// A snippet as the snippet file holds it under its id.
#[derive(Debug)]
pub struct YamlSnippet {
    pub content: String,
    pub path: String,
}

/// A snippet file.
#[derive(Debug)]
pub struct Yaml {
    /// Where the file is.
    pub path: String,
}

/// The path of the file `name` in the folder `folder`.
pub open spec fn join_path(folder: Seq<char>, name: Seq<char>) -> Seq<char> {
    if folder.len() == 0 || folder.last() == '/' {
        folder + name
    } else {
        folder + seq!['/'] + name
    }
}

/// The snippets of a snippet file by id: each entry of the file as a snippet
/// from the snippet file, a later entry replacing an earlier one of the same
/// id.
pub open spec fn yaml_snippets(entries: Seq<(String, YamlSnippet)>) -> Map<Seq<char>, SnippetView>
    decreases entries.len(),
{
    if entries.len() == 0 {
        Map::empty()
    } else {
        yaml_snippets(entries.drop_last()).insert(
            entries.last().0@,
            SnippetView {
                id: entries.last().0@,
                content: entries.last().1.content@,
                kind: SnippetKind::Yaml,
                path: entries.last().1.path@,
            },
        )
    }
}

/// What is written to the snippet file at `path` for the collected
/// snippets: the content of each that is no place for an injection, by id,
/// a later one replacing an earlier one of the same id.
pub open spec fn saved_snippets(path: Seq<char>, found: Seq<CollectSnippet>) -> Map<
    Seq<char>,
    (Seq<char>, Seq<char>),
>
    decreases found.len(),
{
    if found.len() == 0 {
        Map::empty()
    } else {
        let before = saved_snippets(path, found.drop_last());
        if found.last().inject_from is None {
            before.insert(
                found.last().id@,
                (join(texts(found.last().snippet@), line_ending()), path),
            )
        } else {
            before
        }
    }
}

/// A table of entries of a snippet file, each as its content and its path.
pub open spec fn entry_table(m: Map<Seq<char>, YamlSnippet>) -> Map<
    Seq<char>,
    (Seq<char>, Seq<char>),
> {
    Map::new(|k: Seq<char>| m.contains_key(k), |k: Seq<char>| (m[k].content@, m[k].path@))
}

impl Yaml {
    /// The snippet file at `path`.
    pub fn new(path: &str) -> (r: Self)
        ensures
            r.path@ == path@,
    {
        Yaml { path: path.to_owned() }
    }

    /// The snippet file of the folder `path`, where the folder has one:
    /// `exists` says whether a file of that name is there.
    pub fn try_from_default_file(path: &str, exists: bool) -> (r: Option<Self>)
        ensures
            match r {
                Some(yaml) => exists && yaml.path@ == join_path(path@, DEFAULT_FILE_NAME@),
                None => !exists,
            },
    {
        if !exists {
            return None;
        }
        Some(Yaml { path: Self::default_file(path) })
    }

    /// The path of the snippet file of the folder `path`.
    pub fn default_file(path: &str) -> (r: String)
        ensures
            r@ == join_path(path@, DEFAULT_FILE_NAME@),
    {
        let chars = to_chars(path);
        let mut joined = path.to_owned();
        if chars.len() > 0 && chars[chars.len() - 1] != '/' {
            joined.push('/');
        }
        joined.append(DEFAULT_FILE_NAME);
        assert(joined@ =~= join_path(path@, DEFAULT_FILE_NAME@));
        joined
    }

    /// The snippets and templates that a snippet file holds, given its
    /// entries by id and its templates.
    pub fn to_data(entries: Vec<(String, YamlSnippet)>, templates: StrMap<SnippetTemplate>) -> (r:
        DBData)
        ensures
            snippet_table(r.snippets@) == yaml_snippets(entries@),
            r.templates@ == templates@,
    {
        let mut snippets: StrMap<Snippet> = StrMap::new();
        let mut i: usize = 0;
        assert(entries@.take(0) =~= Seq::<(String, YamlSnippet)>::empty());
        assert(snippet_table(snippets@) =~= yaml_snippets(entries@.take(0)));
        while i < entries.len()
            invariant
                i <= entries@.len(),
                snippet_table(snippets@) == yaml_snippets(entries@.take(i as int)),
            decreases entries@.len() - i,
        {
            proof {
                assert(entries@.take(i + 1).drop_last() =~= entries@.take(i as int));
                assert(entries@.take(i + 1).last() == entries@[i as int]);
            }
            let ghost before = snippets@;
            let entry = Snippet {
                id: entries[i].0.clone(),
                content: entries[i].1.content.clone(),
                kind: SnippetKind::Yaml,
                path: entries[i].1.path.clone(),
            };
            snippets.insert(entries[i].0.clone(), entry);
            assert(snippet_table(snippets@) =~= snippet_table(before).insert(
                entries@[i as int].0@,
                entry@,
            ));
            i += 1;
        }
        assert(entries@.take(entries@.len() as int) =~= entries@);
        DBData { snippets, templates }
    }

    /// What is written to this snippet file for the collected snippets.
    pub fn to_save(&self, snippets: &Vec<CollectSnippet>) -> (r: StrMap<YamlSnippet>)
        ensures
            entry_table(r@) == saved_snippets(self.path@, snippets@),
    {
        let mut out: StrMap<YamlSnippet> = StrMap::new();
        let mut i: usize = 0;
        assert(snippets@.take(0) =~= Seq::<CollectSnippet>::empty());
        assert(entry_table(out@) =~= saved_snippets(self.path@, snippets@.take(0)));
        while i < snippets.len()
            invariant
                i <= snippets@.len(),
                entry_table(out@) == saved_snippets(self.path@, snippets@.take(i as int)),
            decreases snippets@.len() - i,
        {
            proof {
                assert(snippets@.take(i + 1).drop_last() =~= snippets@.take(i as int));
                assert(snippets@.take(i + 1).last() == snippets@[i as int]);
            }
            let snippet = &snippets[i];
            if snippet.inject_from.is_none() {
                let ghost before = out@;
                let entry = YamlSnippet {
                    content: join_strings(&snippet.snippet, "\n"),
                    path: self.path.clone(),
                };
                proof {
                    reveal_strlit("\n");
                    assert("\n"@ =~= line_ending());
                }
                out.insert(snippet.id.clone(), entry);
                assert(entry_table(out@) =~= entry_table(before).insert(
                    snippet.id@,
                    (entry.content@, entry.path@),
                ));
            }
            i += 1;
        }
        assert(snippets@.take(snippets@.len() as int) =~= snippets@);
        out
    }
}

} // verus!
