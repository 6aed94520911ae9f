//! Snippets, and the parsing, collecting and injecting of them.
pub mod actions;
pub mod collector;
pub mod grammar;
pub mod html_tag;
pub mod injector;
pub mod roundtrip;
pub mod synth;
pub mod tree;

use vstd::prelude::*;
use crate::parser::injector::{
    template_source, template_texts, ActionView, InjectAction, InjectContentAction,
};
use crate::parser::synth::{expand_spec, shape, shape_spec};
use crate::strmap::StrMap;
use crate::text::str_eq;

pub use crate::parser::tree::SnippetParse;

verus! {

/// Where a snippet comes from.
#[derive(Debug, Clone, Copy, PartialEq, Eq, Structural)]
pub enum SnippetKind {
    /// From the snippet file.
    Yaml,
    /// From a source file.
    Code,
    /// From either.
    Any,
}

/// The kind that `input` names, if it names one.
pub open spec fn kind_of(input: Seq<char>) -> Option<SnippetKind> {
    if input == "yaml"@ {
        Some(SnippetKind::Yaml)
    } else if input == "code"@ {
        Some(SnippetKind::Code)
    } else if input == "any"@ {
        Some(SnippetKind::Any)
    } else {
        None
    }
}

impl SnippetKind {
    /// The kind that `input` names: `yaml`, `code` or `any`.
    pub fn from_str(input: &str) -> (r: Result<Self, ()>)
        ensures
            match r {
                Ok(kind) => kind_of(input@) == Some(kind),
                Err(_) => kind_of(input@) is None,
            },
    {
        if str_eq(input, "yaml") {
            Ok(SnippetKind::Yaml)
        } else if str_eq(input, "code") {
            Ok(SnippetKind::Code)
        } else if str_eq(input, "any") {
            Ok(SnippetKind::Any)
        } else {
            Err(())
        }
    }
}

impl Default for SnippetKind {
    fn default() -> (r: Self)
        ensures
            r == SnippetKind::Any,
    {
        SnippetKind::Any
    }
}

/// A snippet, as mathematical value.
pub struct SnippetView {
    pub id: Seq<char>,
    pub content: Seq<char>,
    pub kind: SnippetKind,
    pub path: Seq<char>,
}

/// A snippet: content under an id.
#[derive(Debug)]
pub struct Snippet {
    pub id: String,
    /// The content as it was collected or loaded.
    pub content: String,
    pub kind: SnippetKind,
    /// The file that holds the snippet.
    pub path: String,
}

impl View for Snippet {
    type V = SnippetView;

    open spec fn view(&self) -> SnippetView {
        SnippetView { id: self.id@, content: self.content@, kind: self.kind, path: self.path@ }
    }
}

/// A table of snippets, with each snippet as mathematical value.
pub open spec fn snippet_table(m: Map<Seq<char>, Snippet>) -> Map<Seq<char>, SnippetView> {
    Map::new(|k: Seq<char>| m.contains_key(k), |k: Seq<char>| m[k]@)
}

/// A template of the snippet file, to be named in a `template` attribute.
#[derive(Debug)]
pub struct SnippetTemplate {
    pub content: String,
}

/// The text that is injected for a snippet of content `content`: the content,
/// or the output of running it where the region asks for that and there is
/// an output; put into the template; its lines shaped.
pub open spec fn create_content_spec(
    content: Seq<char>,
    output: Option<Seq<char>>,
    action: ActionView,
    templates: Map<Seq<char>, Seq<char>>,
) -> Seq<char> {
    let working = if action.kind == InjectAction::Exec && output is Some {
        output->Some_0
    } else {
        content
    };
    let templated = match template_source(action.template, templates) {
        Some(source) => expand_spec(source, working),
        None => working,
    };
    shape_spec(templated, action.strip_prefix, action.add_prefix)
}

impl Snippet {
    /// The text that is injected for this snippet into a region with the
    /// attributes `inject_actions`, where no command is run: a region that
    /// asks for the output of the content gets the content.
    pub fn create_content(
        &self,
        inject_actions: &InjectContentAction,
        custom_templates: &StrMap<SnippetTemplate>,
    ) -> (r: String)
        ensures
            r@ == create_content_spec(
                self.content@,
                None,
                inject_actions@,
                template_texts(custom_templates@),
            ),
    {
        self.create_content_with(inject_actions, custom_templates, None)
    }

    /// The text that is injected for this snippet into a region with the
    /// attributes `inject_actions`. `output` is what running the content as
    /// a command printed, if it was run and did not fail.
    pub fn create_content_with(
        &self,
        inject_actions: &InjectContentAction,
        custom_templates: &StrMap<SnippetTemplate>,
        output: Option<&str>,
    ) -> (r: String)
        ensures
            r@ == create_content_spec(
                self.content@,
                match output {
                    Some(o) => Some(o@),
                    None => None,
                },
                inject_actions@,
                template_texts(custom_templates@),
            ),
    {
        let working: &str = match (&inject_actions.kind, output) {
            (InjectAction::Exec, Some(o)) => o,
            _ => self.content.as_str(),
        };
        let templated = inject_actions.template.before_inject(working, custom_templates);
        let shaped = shape(
            templated.as_str(),
            &inject_actions.strip_prefix,
            &inject_actions.add_prefix,
        );
        inject_actions.template.after_inject(shaped.as_str(), &inject_actions.kind)
    }
}

} // verus!
