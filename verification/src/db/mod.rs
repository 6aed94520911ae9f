//! The snippets that can be injected, by id, and where they come from.
pub mod code;
pub mod yaml;

use vstd::prelude::*;
use crate::parser::collector::CollectSnippet;
use crate::parser::{Snippet, SnippetTemplate};
use crate::strmap::StrMap;

pub use crate::db::code::Code;
pub use crate::db::yaml::Yaml;

verus! {

/// Why a source of snippets could not be read or written.
#[derive(Debug)]
pub enum Error {
    /// A file could not be read or written.
    IO(String),
    /// A file does not hold what a snippet file holds.
    YAML(String),
    /// The source cannot do what was asked of it.
    NotSupported,
}

/// The snippets and the templates of a run.
#[derive(Debug)]
pub struct DBData {
    pub snippets: StrMap<Snippet>,
    pub templates: StrMap<SnippetTemplate>,
}

impl Default for DBData {
    fn default() -> (r: Self)
        ensures
            r.snippets@ == Map::<Seq<char>, Snippet>::empty(),
            r.templates@ == Map::<Seq<char>, SnippetTemplate>::empty(),
    {
        DBData { snippets: StrMap::new(), templates: StrMap::new() }
    }
}

impl DBData {
    /// Takes in what a later source holds: each of its snippets replaces the
    /// one of the same id, and its templates replace the templates.
    pub fn merge(&mut self, later: DBData)
        ensures
            final(self).snippets@ == old(self).snippets@.union_prefer_right(later.snippets@),
            final(self).templates@ == later.templates@,
    {
        self.snippets.extend(later.snippets);
        self.templates = later.templates;
    }
}

/// A source of snippets.
pub trait Db {
    /// The snippets and templates of the source.
    fn load(&self) -> Result<DBData, Error>;

    /// Writes snippets and templates to the source.
    fn save(&self, snippets: &Vec<CollectSnippet>, templates: &StrMap<SnippetTemplate>) -> Result<
        (),
        Error,
    >;
}

} // verus!
