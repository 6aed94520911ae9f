//! Which files of a folder are looked at: those that the include and exclude
//! patterns of the configuration let through.
use vstd::prelude::*;
use crate::config::WalkConfig;
use crate::pattern::{is_match, regex_is_match};
use crate::text::texts;

verus! {

/// A folder and the patterns for its files.
#[derive(Debug)]
pub struct Walk {
    /// The folder from which files are taken.
    pub folder: String,
    pub config: WalkConfig,
}

/// One of the patterns is a regular expression that matches `path`.
pub open spec fn any_match(patterns: Seq<Seq<char>>, path: Seq<char>) -> bool {
    exists|i: int|
        0 <= i < patterns.len() && regex_is_match(#[trigger] patterns[i], path) == Some(true)
}

/// The file at `path` is left out.
pub open spec fn excluded(excludes: Seq<Seq<char>>, path: Seq<char>) -> bool {
    any_match(excludes, path)
}

/// The file at `path` is not kept out by the include patterns: there are
/// none, or one of them matches.
pub open spec fn included(includes: Seq<Seq<char>>, path: Seq<char>) -> bool {
    includes.len() == 0 || any_match(includes, path)
}

/// The paths that are looked at, in their order.
pub open spec fn selected(
    includes: Seq<Seq<char>>,
    excludes: Seq<Seq<char>>,
    paths: Seq<Seq<char>>,
) -> Seq<Seq<char>>
    decreases paths.len(),
{
    if paths.len() == 0 {
        Seq::empty()
    } else {
        let before = selected(includes, excludes, paths.drop_last());
        if !excluded(excludes, paths.last()) && included(includes, paths.last()) {
            before.push(paths.last())
        } else {
            before
        }
    }
}

fn copy_strings(v: &Vec<String>) -> (r: Vec<String>)
    ensures
        texts(r@) == texts(v@),
{
    let mut r: Vec<String> = Vec::new();
    let mut i: usize = 0;
    while i < v.len()
        invariant
            i <= v@.len(),
            r@.len() == i,
            forall|k: int| 0 <= k < i ==> (#[trigger] r@[k])@ == v@[k]@,
        decreases v@.len() - i,
    {
        r.push(v[i].clone());
        i += 1;
    }
    assert(texts(r@) =~= texts(v@));
    r
}

fn matches_any(patterns: &Vec<String>, path: &str) -> (b: bool)
    ensures
        b == any_match(texts(patterns@), path@),
{
    let mut i: usize = 0;
    while i < patterns.len()
        invariant
            i <= patterns@.len(),
            forall|k: int|
                0 <= k < i ==> regex_is_match(#[trigger] texts(patterns@)[k], path@) != Some(true),
        decreases patterns@.len() - i,
    {
        match is_match(patterns[i].as_str(), path) {
            Some(true) => {
                assert(regex_is_match(texts(patterns@)[i as int], path@) == Some(true));
                return true;
            },
            _ => {},
        }
        i += 1;
    }
    false
}

impl Walk {
    /// The files of `folder`, all of them.
    pub fn new(folder: &str) -> (r: Self)
        ensures
            r.folder@ == folder@,
            r.config.includes@.len() == 0,
            r.config.excludes@.len() == 0,
    {
        Walk { folder: folder.to_owned(), config: WalkConfig::default() }
    }

    /// The files of `folder` that `config` lets through.
    pub fn from_config(folder: &str, config: &WalkConfig) -> (r: Self)
        ensures
            r.folder@ == folder@,
            texts(r.config.includes@) == texts(config.includes@),
            texts(r.config.excludes@) == texts(config.excludes@),
    {
        Walk {
            folder: folder.to_owned(),
            config: WalkConfig {
                includes: copy_strings(&config.includes),
                excludes: copy_strings(&config.excludes),
            },
        }
    }

    /// Whether an exclude pattern leaves out the file at `path`, a path from
    /// the folder on.
    pub fn should_exclude(&self, path: &str) -> (b: bool)
        ensures
            b == excluded(texts(self.config.excludes@), path@),
    {
        matches_any(&self.config.excludes, path)
    }

    /// Whether the include patterns let the file at `path` through, a path
    /// from the folder on.
    pub fn should_include(&self, path: &str) -> (b: bool)
        ensures
            b == included(texts(self.config.includes@), path@),
    {
        if self.config.includes.len() == 0 {
            return true;
        }
        matches_any(&self.config.includes, path)
    }

    /// Of the files found in the folder, those that are looked at. The paths
    /// are taken from the folder on.
    pub fn select(&self, paths: &Vec<String>) -> (r: Vec<String>)
        ensures
            texts(r@) == selected(
                texts(self.config.includes@),
                texts(self.config.excludes@),
                texts(paths@),
            ),
    {
        let ghost includes = texts(self.config.includes@);
        let ghost excludes = texts(self.config.excludes@);
        let mut r: Vec<String> = Vec::new();
        let mut i: usize = 0;
        assert(texts(paths@).take(0) =~= Seq::<Seq<char>>::empty());
        assert(texts(r@) =~= Seq::<Seq<char>>::empty());
        while i < paths.len()
            invariant
                i <= paths@.len(),
                includes == texts(self.config.includes@),
                excludes == texts(self.config.excludes@),
                texts(r@) == selected(includes, excludes, texts(paths@).take(i as int)),
            decreases paths@.len() - i,
        {
            proof {
                assert(texts(paths@).take(i + 1).drop_last() =~= texts(paths@).take(i as int));
                assert(texts(paths@).take(i + 1).last() == paths@[i as int]@);
            }
            let path = &paths[i];
            if !self.should_exclude(path.as_str()) && self.should_include(path.as_str()) {
                let ghost before = texts(r@);
                r.push(path.clone());
                assert(texts(r@) =~= before.push(path@));
            }
            i += 1;
        }
        assert(texts(paths@).take(paths@.len() as int) =~= texts(paths@));
        r
    }
}

} // verus!
