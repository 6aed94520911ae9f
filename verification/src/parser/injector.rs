//! Injecting snippets into the regions of a file that ask for them.
use vstd::prelude::*;
use vstd::pervasive::unreached;
use vstd::string::StringExecFns;
use crate::bypath::{ascending, insert_by_path, inserted};
use crate::config::InjectConfig;
use crate::db::DBData;
use crate::errors::{grammar_message, parse_message, GrammarError, ParseError};
use crate::parser::html_tag::{attributes_of, get_tag_attributes, values_text};
use crate::parser::synth::{expand, expand_spec, line_ending, optional_text};
use crate::parser::tree::{
    parse_spec, region_text, region_views, Region, RegionView, SnippetParse,
};
use crate::parser::{create_content_spec, kind_of, Snippet, SnippetKind, SnippetTemplate};
use crate::pattern::{regex_replace_all, replace_all};
use crate::strmap::{pairs, push_unique, push_unique_pair, StrMap};
use crate::text::{str_eq, texts};

verus! {

/// How the content of a snippet becomes what is injected.
#[derive(Debug, Clone, Copy, PartialEq, Eq, Structural)]
pub enum InjectAction {
    /// The content is injected.
    Copy,
    /// The content is run as a command, and what it prints is injected.
    Exec,
}

/// The template that a region asks for.
#[derive(Debug)]
pub enum Template {
    /// None.
    Default,
    Text,
    Json,
    Yaml,
    Toml,
    Html,
    Rust,
    Python,
    Go,
    Sql,
    Shell,
    Bash,
    Sh,
    /// A template of the snippet file by its name, or the template itself.
    Custom(String),
}

/// The template that the name of a language stands for: a fenced code block
/// of that language around the placeholder.
pub open spec fn builtin_source(name: Seq<char>) -> Option<Seq<char>> {
    if name == "text"@ {
        Some("```text\\n{snippet}\\n```"@)
    } else if name == "json"@ {
        Some("```json\\n{snippet}\\n```"@)
    } else if name == "yaml"@ {
        Some("```yaml\\n{snippet}\\n```"@)
    } else if name == "toml"@ {
        Some("```toml\\n{snippet}\\n```"@)
    } else if name == "html"@ {
        Some("```html\\n{snippet}\\n```"@)
    } else if name == "rust"@ {
        Some("```rust\\n{snippet}\\n```"@)
    } else if name == "python"@ {
        Some("```python\\n{snippet}\\n```"@)
    } else if name == "go"@ {
        Some("```go\\n{snippet}\\n```"@)
    } else if name == "sql"@ {
        Some("```sql\\n{snippet}\\n```"@)
    } else if name == "shell"@ {
        Some("```shell\\n{snippet}\\n```"@)
    } else if name == "bash"@ {
        Some("```bash\\n{snippet}\\n```"@)
    } else if name == "sh"@ {
        Some("```sh\\n{snippet}\\n```"@)
    } else {
        None
    }
}

/// The content of each template of a table.
pub open spec fn template_texts(m: Map<Seq<char>, SnippetTemplate>) -> Map<Seq<char>, Seq<char>> {
    Map::new(|k: Seq<char>| m.contains_key(k), |k: Seq<char>| m[k].content@)
}

/// The text of the template that a region asks for by `request`, if it asks
/// for one: the fenced code block of a language; else the template of that
/// name in `templates`; else the request itself.
pub open spec fn template_source(
    request: Option<Seq<char>>,
    templates: Map<Seq<char>, Seq<char>>,
) -> Option<Seq<char>> {
    match request {
        None => None,
        Some(name) => Some(
            match builtin_source(name) {
                Some(source) => source,
                None => if templates.contains_key(name) {
                    templates[name]
                } else {
                    name
                },
            },
        ),
    }
}

/// `content` put into the template that is asked for; `content` itself where
/// none is.
pub open spec fn before_inject_spec(
    request: Option<Seq<char>>,
    content: Seq<char>,
    templates: Map<Seq<char>, Seq<char>>,
) -> Seq<char> {
    match template_source(request, templates) {
        Some(source) => expand_spec(source, content),
        None => content,
    }
}

fn builtin(name: &str) -> (r: Option<String>)
    ensures
        optional_text(r) == builtin_source(name@),
{
    if str_eq(name, "text") {
        Some("```text\\n{snippet}\\n```".to_owned())
    } else if str_eq(name, "json") {
        Some("```json\\n{snippet}\\n```".to_owned())
    } else if str_eq(name, "yaml") {
        Some("```yaml\\n{snippet}\\n```".to_owned())
    } else if str_eq(name, "toml") {
        Some("```toml\\n{snippet}\\n```".to_owned())
    } else if str_eq(name, "html") {
        Some("```html\\n{snippet}\\n```".to_owned())
    } else if str_eq(name, "rust") {
        Some("```rust\\n{snippet}\\n```".to_owned())
    } else if str_eq(name, "python") {
        Some("```python\\n{snippet}\\n```".to_owned())
    } else if str_eq(name, "go") {
        Some("```go\\n{snippet}\\n```".to_owned())
    } else if str_eq(name, "sql") {
        Some("```sql\\n{snippet}\\n```".to_owned())
    } else if str_eq(name, "shell") {
        Some("```shell\\n{snippet}\\n```".to_owned())
    } else if str_eq(name, "bash") {
        Some("```bash\\n{snippet}\\n```".to_owned())
    } else if str_eq(name, "sh") {
        Some("```sh\\n{snippet}\\n```".to_owned())
    } else {
        None
    }
}

impl Template {
    /// What the region wrote to ask for this template, if it asked for one.
    pub open spec fn request(self) -> Option<Seq<char>> {
        match self {
            Template::Default => None,
            Template::Text => Some("text"@),
            Template::Json => Some("json"@),
            Template::Yaml => Some("yaml"@),
            Template::Toml => Some("toml"@),
            Template::Html => Some("html"@),
            Template::Rust => Some("rust"@),
            Template::Python => Some("python"@),
            Template::Go => Some("go"@),
            Template::Sql => Some("sql"@),
            Template::Shell => Some("shell"@),
            Template::Bash => Some("bash"@),
            Template::Sh => Some("sh"@),
            Template::Custom(s) => Some(s@),
        }
    }

    /// The template that `s` asks for: that of a language where `s` names
    /// one, a custom one else.
    pub fn new(s: &str) -> (r: Self)
        ensures
            r.request() == Some(s@),
            r is Custom <==> builtin_source(s@) is None,
    {
        if str_eq(s, "text") {
            Template::Text
        } else if str_eq(s, "json") {
            Template::Json
        } else if str_eq(s, "yaml") {
            Template::Yaml
        } else if str_eq(s, "toml") {
            Template::Toml
        } else if str_eq(s, "html") {
            Template::Html
        } else if str_eq(s, "rust") {
            Template::Rust
        } else if str_eq(s, "python") {
            Template::Python
        } else if str_eq(s, "go") {
            Template::Go
        } else if str_eq(s, "sql") {
            Template::Sql
        } else if str_eq(s, "shell") {
            Template::Shell
        } else if str_eq(s, "bash") {
            Template::Bash
        } else if str_eq(s, "sh") {
            Template::Sh
        } else {
            Template::Custom(s.to_owned())
        }
    }

    fn name(&self) -> (r: Option<&str>)
        ensures
            match r {
                Some(n) => self.request() == Some(n@),
                None => self.request() is None,
            },
    {
        match self {
            Template::Default => None,
            Template::Text => Some("text"),
            Template::Json => Some("json"),
            Template::Yaml => Some("yaml"),
            Template::Toml => Some("toml"),
            Template::Html => Some("html"),
            Template::Rust => Some("rust"),
            Template::Python => Some("python"),
            Template::Go => Some("go"),
            Template::Sql => Some("sql"),
            Template::Shell => Some("shell"),
            Template::Bash => Some("bash"),
            Template::Sh => Some("sh"),
            Template::Custom(s) => Some(s.as_str()),
        }
    }

    /// `content` put into this template: each placeholder of the template
    /// gives way to the lines of `content`. Without a template, `content`.
    pub fn before_inject(&self, content: &str, custom_templates: &StrMap<SnippetTemplate>) -> (r:
        String)
        ensures
            r@ == before_inject_spec(self.request(), content@, template_texts(custom_templates@)),
    {
        match self.name() {
            None => content.to_owned(),
            Some(name) => {
                let source: String = match builtin(name) {
                    Some(source) => source,
                    None => match custom_templates.get(name) {
                        Some(template) => template.content.clone(),
                        None => name.to_owned(),
                    },
                };
                expand(source.as_str(), content)
            },
        }
    }

    /// What is injected, after its lines were shaped: `content`.
    pub fn after_inject(&self, content: &str, action: &InjectAction) -> (r: String)
        ensures
            r@ == content@,
    {
        content.to_owned()
    }
}

impl Default for Template {
    fn default() -> (r: Self)
        ensures
            r is Default,
    {
        Template::Default
    }
}

/// What the attributes of a region ask for, as mathematical value.
pub struct ActionView {
    pub snippet_id: Seq<char>,
    pub kind: InjectAction,
    pub inject_from: SnippetKind,
    pub strip_prefix: Option<Seq<char>>,
    pub add_prefix: Option<Seq<char>>,
    /// What the `template` attribute holds.
    pub template: Option<Seq<char>>,
}

/// What the attributes of a region ask for.
#[derive(Debug)]
pub struct InjectContentAction {
    pub snippet_id: String,
    pub kind: InjectAction,
    pub inject_from: SnippetKind,
    pub strip_prefix: Option<String>,
    pub add_prefix: Option<String>,
    pub template: Template,
}

impl View for InjectContentAction {
    type V = ActionView;

    open spec fn view(&self) -> ActionView {
        ActionView {
            snippet_id: self.snippet_id@,
            kind: self.kind,
            inject_from: self.inject_from,
            strip_prefix: optional_text(self.strip_prefix),
            add_prefix: optional_text(self.add_prefix),
            template: self.template.request(),
        }
    }
}

/// The value of the attribute `name`, if the tag has it.
pub open spec fn attribute(a: Map<Seq<char>, Seq<char>>, name: Seq<char>) -> Option<Seq<char>> {
    if a.contains_key(name) {
        Some(a[name])
    } else {
        None
    }
}

/// What a region with the attributes `a` asks for. It asks for an injection
/// only where it has an `id` and an `inject_from` that names a kind. Its
/// action is `exec` where the `action` attribute says so, and `copy` else.
pub open spec fn action_of(a: Map<Seq<char>, Seq<char>>) -> Option<ActionView> {
    if a.contains_key("id"@) && a.contains_key("inject_from"@) && kind_of(a["inject_from"@])
        is Some {
        Some(
            ActionView {
                snippet_id: a["id"@],
                kind: if attribute(a, "action"@) == Some("exec"@) {
                    InjectAction::Exec
                } else {
                    InjectAction::Copy
                },
                inject_from: kind_of(a["inject_from"@])->Some_0,
                strip_prefix: attribute(a, "strip_prefix"@),
                add_prefix: attribute(a, "add_prefix"@),
                template: attribute(a, "template"@),
            },
        )
    } else {
        None
    }
}

fn cloned(value: Option<&String>) -> (r: Option<String>)
    ensures
        optional_text(r) == match value {
            Some(s) => Some(s@),
            None => None,
        },
{
    match value {
        Some(s) => Some(s.clone()),
        None => None,
    }
}

impl InjectContentAction {
    /// What a region with these attributes asks for, where it asks for an
    /// injection.
    pub fn new(attributes: &StrMap<String>) -> (r: Option<Self>)
        ensures
            match r {
                Some(action) => action_of(values_text(attributes@)) == Some(action@),
                None => action_of(values_text(attributes@)) is None,
            },
    {
        let snippet_id = match attributes.get("id") {
            Some(id) => id,
            None => {
                return None;
            },
        };
        let inject_from = match attributes.get("inject_from") {
            Some(kind) => kind,
            None => {
                return None;
            },
        };
        let inject_from = match SnippetKind::from_str(inject_from.as_str()) {
            Ok(kind) => kind,
            Err(_) => {
                return None;
            },
        };
        let template = match attributes.get("template") {
            Some(s) => Template::new(s.as_str()),
            None => Template::Default,
        };
        let kind = match attributes.get("action") {
            Some(a) => if str_eq(a.as_str(), "exec") {
                InjectAction::Exec
            } else {
                InjectAction::Copy
            },
            None => InjectAction::Copy,
        };
        Some(
            InjectContentAction {
                snippet_id: snippet_id.clone(),
                kind,
                inject_from,
                strip_prefix: cloned(attributes.get("strip_prefix")),
                add_prefix: cloned(attributes.get("add_prefix")),
                template,
            },
        )
    }
}

/// What became of a region that asks for an injection, as mathematical
/// value.
pub enum InjectStatusView {
    Equal { snippet_id: Seq<char> },
    Injected { snippet_id: Seq<char>, content: Seq<char> },
    NotFound { snippet_id: Seq<char>, snippet_kind: SnippetKind },
}

/// What became of a region that asks for an injection.
#[derive(Debug)]
pub enum InjectStatus {
    /// The snippet was found, and the region held it already.
    Equal { snippet_id: String },
    /// The snippet was found and put into the region.
    Injected { snippet_id: String, content: String },
    /// There is no snippet of that id.
    NotFound { snippet_id: String, snippet_kind: SnippetKind },
}

impl InjectStatus {
    /// What became of a region that got the content `content`, given the
    /// text that it held and the text that it holds now, both as they are
    /// compared.
    pub fn of(snippet_id: String, content: String, before: &str, after: &str) -> (r: Self)
        ensures
            r@ == status_of(snippet_id@, content@, before@ == after@),
    {
        if str_eq(before, after) {
            InjectStatus::Equal { snippet_id }
        } else {
            InjectStatus::Injected { snippet_id, content }
        }
    }
}

impl View for InjectStatus {
    type V = InjectStatusView;

    open spec fn view(&self) -> InjectStatusView {
        match self {
            InjectStatus::Equal { snippet_id } => InjectStatusView::Equal {
                snippet_id: snippet_id@,
            },
            InjectStatus::Injected { snippet_id, content } => InjectStatusView::Injected {
                snippet_id: snippet_id@,
                content: content@,
            },
            InjectStatus::NotFound { snippet_id, snippet_kind } => InjectStatusView::NotFound {
                snippet_id: snippet_id@,
                snippet_kind: *snippet_kind,
            },
        }
    }
}

/// What a vector of statuses holds.
pub open spec fn status_views(v: Seq<InjectStatus>) -> Seq<InjectStatusView> {
    Seq::new(v.len(), |i: int| v[i]@)
}

/// A file after the injection, and what became of its regions.
#[derive(Debug)]
pub struct InjectSummary {
    /// The whole file, with what was injected.
    pub content: String,
    /// What became of each region that asks for an injection, in the order
    /// of the regions.
    pub actions: Vec<InjectStatus>,
}

impl Default for InjectSummary {
    fn default() -> (r: Self)
        ensures
            r.content@ == Seq::<char>::empty(),
            r.actions@ == Seq::<InjectStatus>::empty(),
    {
        InjectSummary { content: String::new(), actions: Vec::new() }
    }
}

/// The pattern of what a comparison of two texts passes over: white space.
pub open spec fn normalize_pattern() -> Seq<char> {
    "[\\s\\r\\n]+"@
}

/// A text as it is compared: without its white space, as `regex` finds it.
pub open spec fn normalize_spec(text: Seq<char>) -> Seq<char> {
    match regex_replace_all(normalize_pattern(), text, ""@) {
        Some(t) => t,
        None => text,
    }
}

/// What became of a region that got the content `content`: it counts as
/// equal where the text that it held and the text that it holds now are the
/// same as they are compared.
pub open spec fn status_of(snippet_id: Seq<char>, content: Seq<char>, equal: bool) -> InjectStatusView {
    if equal {
        InjectStatusView::Equal { snippet_id }
    } else {
        InjectStatusView::Injected { snippet_id, content }
    }
}

/// The text that comes from a tagged region, and what became of the
/// region, given what its tag asks for. A region is rewritten where its tag
/// asks for an injection, a snippet of its id exists, and the snippet is of
/// the kind that the tag asks for. Then the region becomes its open tag as
/// it stood, the content that is made for it, a line feed and its close
/// tag, and it counts as equal where that differs from what was there in
/// white space only. Every other region stays as it is; it is reported only
/// where its tag asks for an injection and no snippet of its id exists.
pub open spec fn inject_asked(
    r: RegionView,
    asked: Option<ActionView>,
    snippets: Map<Seq<char>, Snippet>,
    templates: Map<Seq<char>, Seq<char>>,
    outputs: Map<Seq<char>, Seq<char>>,
) -> (Seq<char>, Seq<InjectStatusView>)
    recommends
        r is Tagged,
{
    match asked {
        None => (region_text(r), Seq::empty()),
        Some(action) => if !snippets.contains_key(action.snippet_id) {
            (
                region_text(r),
                seq![
                    InjectStatusView::NotFound {
                        snippet_id: action.snippet_id,
                        snippet_kind: action.inject_from,
                    },
                ],
            )
        } else {
            let snippet = snippets[action.snippet_id];
            if action.inject_from != SnippetKind::Any && action.inject_from != snippet.kind {
                (region_text(r), Seq::empty())
            } else {
                let content = create_content_spec(
                    snippet.content@,
                    attribute(outputs, snippet.content@),
                    action,
                    templates,
                );
                let text = r->leader + r->tag_open + r->closer + content + line_ending()
                    + r->tag_close;
                (
                    text,
                    seq![
                        status_of(
                            action.snippet_id,
                            content,
                            normalize_spec(region_text(r)) == normalize_spec(text),
                        ),
                    ],
                )
            }
        },
    }
}

/// What the open tag of a region asks for, where it asks for an injection.
pub open spec fn asked_of(tag_open: Seq<char>) -> Option<ActionView> {
    match attributes_of(tag_open) {
        Some(a) => action_of(a),
        None => None,
    }
}

/// The text that comes from one region, and what became of the region:
/// plain text as it is, and a tagged region by what its open tag asks for.
pub open spec fn inject_one(
    r: RegionView,
    snippets: Map<Seq<char>, Snippet>,
    templates: Map<Seq<char>, Seq<char>>,
    outputs: Map<Seq<char>, Seq<char>>,
) -> (Seq<char>, Seq<InjectStatusView>) {
    match r {
        RegionView::Plain { text } => (text, Seq::empty()),
        RegionView::Tagged { tag_open, .. } => inject_asked(
            r,
            asked_of(tag_open),
            snippets,
            templates,
            outputs,
        ),
    }
}

/// The text that comes from the regions, one after the other, and what
/// became of them.
pub open spec fn inject_all(
    rs: Seq<RegionView>,
    snippets: Map<Seq<char>, Snippet>,
    templates: Map<Seq<char>, Seq<char>>,
    outputs: Map<Seq<char>, Seq<char>>,
) -> (Seq<char>, Seq<InjectStatusView>)
    decreases rs.len(),
{
    if rs.len() == 0 {
        (Seq::empty(), Seq::empty())
    } else {
        let before = inject_all(rs.drop_last(), snippets, templates, outputs);
        let last = inject_one(rs.last(), snippets, templates, outputs);
        (before.0 + last.0, before.1 + last.1)
    }
}

/// A text as it is compared with another: without its white space.
pub fn normalize_for_comparison(text: &str) -> (r: String)
    ensures
        r@ == normalize_spec(text@),
{
    match replace_all("[\\s\\r\\n]+", text, "") {
        Some(t) => t,
        None => text.to_owned(),
    }
}

/// The injection into one file.
pub struct Injector<'a> {
    pub base_folder: &'a str,
    /// The text of the file.
    pub input: &'a str,
    pub config: &'a InjectConfig,
    pub db_data: &'a DBData,
    /// What the commands that were run printed, by command.
    pub outputs: Option<&'a StrMap<String>>,
}

impl<'a> Injector<'a> {
    /// What the commands printed, by command.
    pub open spec fn outputs_view(&self) -> Map<Seq<char>, Seq<char>> {
        match self.outputs {
            Some(o) => values_text(o@),
            None => Map::empty(),
        }
    }

    /// An injection in which no command was run.
    pub fn new(
        base_folder: &'a str,
        input: &'a str,
        config: &'a InjectConfig,
        db_data: &'a DBData,
    ) -> (r: Self)
        ensures
            r.base_folder == base_folder,
            r.input == input,
            r.config == config,
            r.db_data == db_data,
            r.outputs is None,
    {
        Injector { base_folder, input, config, db_data, outputs: None }
    }

    /// An injection after commands were run: `outputs` holds what each
    /// command printed.
    pub fn with_outputs(
        base_folder: &'a str,
        input: &'a str,
        config: &'a InjectConfig,
        db_data: &'a DBData,
        outputs: &'a StrMap<String>,
    ) -> (r: Self)
        ensures
            r.base_folder == base_folder,
            r.input == input,
            r.config == config,
            r.db_data == db_data,
            r.outputs == Some(outputs),
    {
        Injector { base_folder, input, config, db_data, outputs: Some(outputs) }
    }

    /// Whether two texts differ in white space only.
    pub fn is_str_equal(a: &str, b: &str) -> (r: bool)
        ensures
            r == (normalize_spec(a@) == normalize_spec(b@)),
    {
        normalize_for_comparison(a) == normalize_for_comparison(b)
    }

    fn output_of(&self, command: &str) -> (r: Option<&str>)
        ensures
            match r {
                Some(o) => attribute(self.outputs_view(), command@) == Some(o@),
                None => attribute(self.outputs_view(), command@) is None,
            },
    {
        match self.outputs {
            Some(outputs) => match outputs.get(command) {
                Some(o) => Some(o.as_str()),
                None => None,
            },
            None => None,
        }
    }

    /// Adds to `summary` the text that comes from the tagged region
    /// `region`, and what became of the region, given what its open tag asks
    /// for.
    pub fn inject_asked(
        &self,
        region: &Region,
        asked: Option<InjectContentAction>,
        summary: &mut InjectSummary,
    )
        requires
            region is Tagged,
        ensures
            final(summary).content@ == old(summary).content@ + inject_asked(
                region@,
                match asked {
                    Some(action) => Some(action@),
                    None => None,
                },
                self.db_data.snippets@,
                template_texts(self.db_data.templates@),
                self.outputs_view(),
            ).0,
            status_views(final(summary).actions@) == status_views(old(summary).actions@)
                + inject_asked(
                region@,
                match asked {
                    Some(action) => Some(action@),
                    None => None,
                },
                self.db_data.snippets@,
                template_texts(self.db_data.templates@),
                self.outputs_view(),
            ).1,
    {
        let ghost before = status_views(summary.actions@);
        let raw = region.raw();
        let action = match asked {
            Some(action) => action,
            None => {
                summary.content.append(raw.as_str());
                assert(status_views(summary.actions@) =~= before + Seq::<
                    InjectStatusView,
                >::empty());
                return ;
            },
        };
        let snippet = match self.db_data.snippets.get(action.snippet_id.as_str()) {
            Some(snippet) => snippet,
            None => {
                let status = InjectStatus::NotFound {
                    snippet_id: action.snippet_id.clone(),
                    snippet_kind: action.inject_from,
                };
                summary.actions.push(status);
                summary.content.append(raw.as_str());
                assert(status_views(summary.actions@) =~= before + seq![status@]);
                return ;
            },
        };
        if action.inject_from != SnippetKind::Any && action.inject_from != snippet.kind {
            summary.content.append(raw.as_str());
            assert(status_views(summary.actions@) =~= before + Seq::<InjectStatusView>::empty());
            return ;
        }
        let content = snippet.create_content_with(
            &action,
            &self.db_data.templates,
            self.output_of(snippet.content.as_str()),
        );
        let text = match region {
            Region::Tagged { leader, tag_open, closer, tag_close, .. } => {
                let mut text = leader.clone();
                text.append(tag_open.as_str());
                text.append(closer.as_str());
                text.append(content.as_str());
                text.append("\n");
                text.append(tag_close.as_str());
                text
            },
            Region::Plain { .. } => unreached(),
        };
        proof {
            reveal_strlit("\n");
            assert("\n"@ =~= line_ending());
        }
        summary.content.append(text.as_str());
        let status = InjectStatus::of(
            action.snippet_id.clone(),
            content,
            normalize_for_comparison(raw.as_str()).as_str(),
            normalize_for_comparison(text.as_str()).as_str(),
        );
        summary.actions.push(status);
        assert(status_views(summary.actions@) =~= before + seq![status@]);
    }

    /// Adds to `summary` the text that comes from `region`, and what became
    /// of the region.
    pub fn inject_region(&self, region: &Region, summary: &mut InjectSummary)
        ensures
            final(summary).content@ == old(summary).content@ + inject_one(
                region@,
                self.db_data.snippets@,
                template_texts(self.db_data.templates@),
                self.outputs_view(),
            ).0,
            status_views(final(summary).actions@) == status_views(old(summary).actions@)
                + inject_one(
                region@,
                self.db_data.snippets@,
                template_texts(self.db_data.templates@),
                self.outputs_view(),
            ).1,
    {
        match region {
            Region::Plain { text } => {
                let ghost before = status_views(summary.actions@);
                summary.content.append(text.as_str());
                assert(status_views(summary.actions@) =~= before + Seq::<
                    InjectStatusView,
                >::empty());
            },
            Region::Tagged { tag_open, .. } => {
                let asked = match get_tag_attributes(tag_open.as_str()) {
                    Ok(attributes) => InjectContentAction::new(&attributes),
                    Err(_) => None,
                };
                self.inject_asked(region, asked, summary);
            },
        }
    }

    /// The text of the file after the injection and what became of its
    /// regions, or the first tag that breaks the grammar.
    pub fn run(&self) -> (r: Result<InjectSummary, ParseError>)
        ensures
            match r {
                Ok(summary) => parse_spec(self.input@) is Ok && (
                    summary.content@,
                    status_views(summary.actions@),
                ) == inject_all(
                    parse_spec(self.input@)->Ok_0,
                    self.db_data.snippets@,
                    template_texts(self.db_data.templates@),
                    self.outputs_view(),
                ),
                Err(ParseError::Grammar(e)) => parse_spec(self.input@) == Err::<
                    Seq<RegionView>,
                    GrammarError,
                >(e),
                Err(_) => false,
            },
    {
        let regions = match SnippetParse::parse(self.input) {
            Ok(regions) => regions,
            Err(e) => {
                return Err(ParseError::Grammar(e));
            },
        };
        let ghost rs = region_views(regions@);
        let mut summary = InjectSummary::default();
        let mut i: usize = 0;
        assert(rs.take(0) =~= Seq::<RegionView>::empty());
        assert(status_views(summary.actions@) =~= Seq::<InjectStatusView>::empty());
        while i < regions.len()
            invariant
                i <= regions@.len(),
                rs == region_views(regions@),
                (summary.content@, status_views(summary.actions@)) == inject_all(
                    rs.take(i as int),
                    self.db_data.snippets@,
                    template_texts(self.db_data.templates@),
                    self.outputs_view(),
                ),
            decreases regions@.len() - i,
        {
            proof {
                assert(rs.take(i + 1).drop_last() =~= rs.take(i as int));
                assert(rs.take(i + 1).last() == regions@[i as int]@);
            }
            self.inject_region(&regions[i], &mut summary);
            i += 1;
        }
        assert(rs.take(regions@.len() as int) =~= rs);
        Ok(summary)
    }
}

/// The command that has to be run for a region: the content of its
/// snippet, where the region gets an injection and asks for the output of a
/// command.
pub open spec fn command_of(r: RegionView, snippets: Map<Seq<char>, Snippet>) -> Option<Seq<char>> {
    match r {
        RegionView::Plain { .. } => None,
        RegionView::Tagged { tag_open, .. } => match attributes_of(tag_open) {
            None => None,
            Some(a) => match action_of(a) {
                None => None,
                Some(action) => if action.kind == InjectAction::Exec && snippets.contains_key(
                    action.snippet_id,
                ) && (action.inject_from == SnippetKind::Any || action.inject_from
                    == snippets[action.snippet_id].kind) {
                    Some(snippets[action.snippet_id].content@)
                } else {
                    None
                },
            },
        },
    }
}

/// The commands that have to be run for the regions, in the order of the
/// regions.
pub open spec fn commands_of(rs: Seq<RegionView>, snippets: Map<Seq<char>, Snippet>) -> Seq<
    Seq<char>,
>
    decreases rs.len(),
{
    if rs.len() == 0 {
        Seq::empty()
    } else {
        let before = commands_of(rs.drop_last(), snippets);
        match command_of(rs.last(), snippets) {
            Some(command) => before.push(command),
            None => before,
        }
    }
}

impl<'a> Injector<'a> {
    /// The command that has to be run before `region` can get its
    /// injection, if it asks for one.
    pub fn command(&self, region: &Region) -> (r: Option<String>)
        ensures
            optional_text(r) == command_of(region@, self.db_data.snippets@),
    {
        let tag_open = match region {
            Region::Plain { .. } => {
                return None;
            },
            Region::Tagged { tag_open, .. } => tag_open,
        };
        let asked = match get_tag_attributes(tag_open.as_str()) {
            Ok(attributes) => InjectContentAction::new(&attributes),
            Err(_) => None,
        };
        match asked {
            None => None,
            Some(action) => {
                if action.kind != InjectAction::Exec {
                    return None;
                }
                match self.db_data.snippets.get(action.snippet_id.as_str()) {
                    None => None,
                    Some(snippet) => {
                        if action.inject_from == SnippetKind::Any || action.inject_from
                            == snippet.kind {
                            Some(snippet.content.clone())
                        } else {
                            None
                        }
                    },
                }
            },
        }
    }

    /// The commands that have to be run before the injection, in the order
    /// of the regions that ask for them; or the first tag that breaks the
    /// grammar.
    pub fn commands(&self) -> (r: Result<Vec<String>, ParseError>)
        ensures
            match r {
                Ok(commands) => parse_spec(self.input@) is Ok && texts(commands@) == commands_of(
                    parse_spec(self.input@)->Ok_0,
                    self.db_data.snippets@,
                ),
                Err(ParseError::Grammar(e)) => parse_spec(self.input@) == Err::<
                    Seq<RegionView>,
                    GrammarError,
                >(e),
                Err(_) => false,
            },
    {
        let regions = match SnippetParse::parse(self.input) {
            Ok(regions) => regions,
            Err(e) => {
                return Err(ParseError::Grammar(e));
            },
        };
        let ghost rs = region_views(regions@);
        let mut commands: Vec<String> = Vec::new();
        let mut i: usize = 0;
        assert(rs.take(0) =~= Seq::<RegionView>::empty());
        assert(texts(commands@) =~= Seq::<Seq<char>>::empty());
        while i < regions.len()
            invariant
                i <= regions@.len(),
                rs == region_views(regions@),
                texts(commands@) == commands_of(rs.take(i as int), self.db_data.snippets@),
            decreases regions@.len() - i,
        {
            proof {
                assert(rs.take(i + 1).drop_last() =~= rs.take(i as int));
                assert(rs.take(i + 1).last() == regions@[i as int]@);
            }
            match self.command(&regions[i]) {
                Some(command) => {
                    let ghost before = texts(commands@);
                    commands.push(command);
                    assert(texts(commands@) =~= before.push(command@));
                },
                None => {},
            }
            i += 1;
        }
        assert(rs.take(regions@.len() as int) =~= rs);
        Ok(commands)
    }
}

/// What the injection made of one file.
#[derive(Debug)]
pub enum InjectedContent {
    /// The file has regions that ask for an injection.
    Injected(InjectSummary),
    /// The file has no region that asks for an injection.
    NoRegions,
    /// The file could not be parsed.
    Error(String),
}

impl InjectedContent {
    /// What a run made of a file: nothing where no region of the file asked
    /// for an injection, and the error in words where the run failed. The
    /// words are fixed for every error but that of a selector, which
    /// `scraper` words.
    pub fn from_run(run: Result<InjectSummary, ParseError>) -> (r: Self)
        ensures
            match run {
                Ok(summary) => if summary.actions@.len() == 0 {
                    r is NoRegions
                } else {
                    r == InjectedContent::Injected(summary)
                },
                Err(e) => r is Error && (parse_message(e) is Some ==> r->Error_0@ == parse_message(
                    e,
                )->Some_0),
            },
    {
        match run {
            Ok(summary) => {
                if summary.actions.len() == 0 {
                    InjectedContent::NoRegions
                } else {
                    InjectedContent::Injected(summary)
                }
            },
            Err(e) => InjectedContent::Error(e.message()),
        }
    }
}

impl<'a> Injector<'a> {
    /// What the injection makes of a file of text `input`, where no command
    /// is run.
    pub fn inject(
        base_folder: &str,
        input: &str,
        config: &InjectConfig,
        db_data: &DBData,
    ) -> (r: InjectedContent)
        ensures
            injected_as(
                r,
                input@,
                db_data.snippets@,
                template_texts(db_data.templates@),
                Map::empty(),
            ),
    {
        InjectedContent::from_run(Injector::new(base_folder, input, config, db_data).run())
    }

    /// What the injection makes of a file of text `input`, where `outputs`
    /// holds what each command that was run printed.
    pub fn inject_with_outputs(
        base_folder: &str,
        input: &str,
        config: &InjectConfig,
        db_data: &DBData,
        outputs: &StrMap<String>,
    ) -> (r: InjectedContent)
        ensures
            injected_as(
                r,
                input@,
                db_data.snippets@,
                template_texts(db_data.templates@),
                values_text(outputs@),
            ),
    {
        InjectedContent::from_run(
            Injector::with_outputs(base_folder, input, config, db_data, outputs).run(),
        )
    }
}

/// `r` is what the injection makes of a file of text `input`: the error in
/// words where the tags of the file break the grammar; nothing where no
/// region asks for an injection; else the new text and what became of the
/// regions.
pub open spec fn injected_as(
    r: InjectedContent,
    input: Seq<char>,
    snippets: Map<Seq<char>, Snippet>,
    templates: Map<Seq<char>, Seq<char>>,
    outputs: Map<Seq<char>, Seq<char>>,
) -> bool {
    match parse_spec(input) {
        Err(e) => r is Error && r->Error_0@ == grammar_message(e),
        Ok(rs) => {
            let out = inject_all(rs, snippets, templates, outputs);
            if out.1.len() == 0 {
                r is NoRegions
            } else {
                r is Injected && r->Injected_0.content@ == out.0 && status_views(
                    r->Injected_0.actions@,
                ) == out.1
            }
        },
    }
}

/// How many of the statuses are `Equal`, how many `Injected` and how many
/// `NotFound`.
pub open spec fn tally(actions: Seq<InjectStatus>) -> (nat, nat, nat)
    decreases actions.len(),
{
    if actions.len() == 0 {
        (0, 0, 0)
    } else {
        let t = tally(actions.drop_last());
        match actions.last() {
            InjectStatus::Equal { .. } => (t.0 + 1, t.1, t.2),
            InjectStatus::Injected { .. } => (t.0, t.1 + 1, t.2),
            InjectStatus::NotFound { .. } => (t.0, t.1, t.2 + 1),
        }
    }
}

/// The ids that the statuses report as not found, each with `path`.
pub open spec fn missing_in(path: Seq<char>, actions: Seq<InjectStatus>) -> Set<
    (Seq<char>, Seq<char>),
>
    decreases actions.len(),
{
    if actions.len() == 0 {
        Set::empty()
    } else {
        let rest = missing_in(path, actions.drop_last());
        match actions.last() {
            InjectStatus::NotFound { snippet_id, .. } => rest.insert((path, snippet_id@)),
            _ => rest,
        }
    }
}

/// The statuses of a file; none where the file has no summary.
pub open spec fn actions_of(content: InjectedContent) -> Seq<InjectStatus> {
    match content {
        InjectedContent::Injected(summary) => summary.actions@,
        _ => Seq::empty(),
    }
}

/// The counts of `Equal`, `Injected` and `NotFound` over all files.
pub open spec fn tally_files(files: Seq<(String, InjectedContent)>) -> (nat, nat, nat)
    decreases files.len(),
{
    if files.len() == 0 {
        (0, 0, 0)
    } else {
        let t = tally_files(files.drop_last());
        let u = tally(actions_of(files.last().1));
        (t.0 + u.0, t.1 + u.1, t.2 + u.2)
    }
}

/// The paths of the files into which something was injected.
pub open spec fn injected_files(files: Seq<(String, InjectedContent)>) -> Set<Seq<char>>
    decreases files.len(),
{
    if files.len() == 0 {
        Set::empty()
    } else {
        let rest = injected_files(files.drop_last());
        if tally(actions_of(files.last().1)).1 > 0 {
            rest.insert(files.last().0@)
        } else {
            rest
        }
    }
}

/// The ids that were not found, each with the path of its file.
pub open spec fn missing_files(files: Seq<(String, InjectedContent)>) -> Set<
    (Seq<char>, Seq<char>),
>
    decreases files.len(),
{
    if files.len() == 0 {
        Set::empty()
    } else {
        missing_files(files.drop_last()).union(
            missing_in(files.last().0@, actions_of(files.last().1)),
        )
    }
}

/// The files that could not be parsed, each with its error in words, in the
/// order of the files.
pub open spec fn error_files(files: Seq<(String, InjectedContent)>) -> Seq<(Seq<char>, Seq<char>)>
    decreases files.len(),
{
    if files.len() == 0 {
        Seq::empty()
    } else {
        let rest = error_files(files.drop_last());
        match files.last().1 {
            InjectedContent::Error(message) => rest.push((files.last().0@, message@)),
            _ => rest,
        }
    }
}

/// The counts of a run over many files.
#[derive(Debug)]
pub struct InjectStats {
    /// How many regions held their snippet already.
    pub equals: u64,
    /// How many regions got new content.
    pub injects: u64,
    /// The files into which something was injected, each once.
    pub inject_unique_files: Vec<String>,
    /// The files that could not be parsed, each with its error.
    pub errors: Vec<(String, String)>,
    /// The ids that were not found, each once for each file, with the path
    /// of the file first.
    pub not_found: Vec<(String, String)>,
    /// How many regions asked for a snippet that does not exist.
    pub not_found_count: u64,
}

impl Default for InjectStats {
    fn default() -> (r: Self)
        ensures
            r.equals == 0,
            r.injects == 0,
            r.not_found_count == 0,
            r.inject_unique_files@.len() == 0,
            r.errors@.len() == 0,
            r.not_found@.len() == 0,
    {
        InjectStats {
            equals: 0,
            injects: 0,
            inject_unique_files: Vec::new(),
            errors: Vec::new(),
            not_found: Vec::new(),
            not_found_count: 0,
        }
    }
}

impl InjectStats {
    /// Whether a check of the files fails: a file could not be parsed, a
    /// region would get new content, or a snippet was not found.
    pub fn check_failed(&self) -> (b: bool)
        ensures
            b == (self.errors@.len() > 0 || self.injects > 0 || self.not_found_count > 0),
    {
        self.errors.len() > 0 || self.injects > 0 || self.not_found_count > 0
    }

    /// Whether a run over the files fails: a file could not be parsed.
    pub fn run_failed(&self) -> (b: bool)
        ensures
            b == (self.errors@.len() > 0),
    {
        self.errors.len() > 0
    }
}

/// What the injection made of each file, by path. The files are meant to
/// stand in the order of their paths, each path once: see
/// [`InjectSnippets::wf`], which `new` sets up and `insert` keeps.
#[derive(Debug)]
pub struct InjectSnippets(pub Vec<(String, InjectedContent)>);

/// What the injection made of the files under a folder.
#[derive(Debug)]
pub struct InjectorResult {
    pub root_folder: String,
    pub results: InjectSnippets,
}

pub proof fn lemma_tally_files_monotone(files: Seq<(String, InjectedContent)>, i: int)
    requires
        0 <= i <= files.len(),
    ensures
        tally_files(files.take(i)).0 <= tally_files(files).0,
        tally_files(files.take(i)).1 <= tally_files(files).1,
        tally_files(files.take(i)).2 <= tally_files(files).2,
    decreases files.len() - i,
{
    if i < files.len() {
        lemma_tally_files_monotone(files, i + 1);
        assert(files.take(i + 1).drop_last() =~= files.take(i));
    } else {
        assert(files.take(i) =~= files);
    }
}

pub proof fn lemma_tally_monotone(actions: Seq<InjectStatus>, i: int)
    requires
        0 <= i <= actions.len(),
    ensures
        tally(actions.take(i)).0 <= tally(actions).0,
        tally(actions.take(i)).1 <= tally(actions).1,
        tally(actions.take(i)).2 <= tally(actions).2,
    decreases actions.len() - i,
{
    if i < actions.len() {
        lemma_tally_monotone(actions, i + 1);
        assert(actions.take(i + 1).drop_last() =~= actions.take(i));
    } else {
        assert(actions.take(i) =~= actions);
    }
}

impl InjectSnippets {
    /// No file.
    pub fn new() -> (r: Self)
        ensures
            r.0@.len() == 0,
            r.wf(),
    {
        InjectSnippets(Vec::new())
    }

    /// The files stand in the order of their paths, each path once.
    pub open spec fn wf(&self) -> bool {
        ascending(self.0@)
    }

    /// Sets what the injection made of the file at `path`, at the place of
    /// that path among the files, replacing what was there for it.
    pub fn insert(&mut self, path: String, content: InjectedContent)
        ensures
            final(self).0@ == inserted(old(self).0@, (path, content)),
            old(self).wf() ==> final(self).wf(),
    {
        insert_by_path(&mut self.0, path, content);
    }

    /// The number of files.
    pub fn len(&self) -> (n: usize)
        ensures
            n == self.0@.len(),
    {
        self.0.len()
    }

    /// The file of index `i`: its path, and what the injection made of it.
    pub fn get(&self, i: usize) -> (r: (&String, &InjectedContent))
        requires
            i < self.0@.len(),
        ensures
            *r.0 == self.0@[i as int].0,
            *r.1 == self.0@[i as int].1,
    {
        (&self.0[i].0, &self.0[i].1)
    }

    /// The counts over all files.
    pub fn stats(&self) -> (stats: InjectStats)
        requires
            tally_files(self.0@).0 <= u64::MAX,
            tally_files(self.0@).1 <= u64::MAX,
            tally_files(self.0@).2 <= u64::MAX,
        ensures
            stats.equals == tally_files(self.0@).0,
            stats.injects == tally_files(self.0@).1,
            stats.not_found_count == tally_files(self.0@).2,
            texts(stats.inject_unique_files@).no_duplicates(),
            texts(stats.inject_unique_files@).to_set() == injected_files(self.0@),
            pairs(stats.not_found@).no_duplicates(),
            pairs(stats.not_found@).to_set() == missing_files(self.0@),
            pairs(stats.errors@) == error_files(self.0@),
    {
        let mut stats = InjectStats::default();
        let ghost files = self.0@;
        let mut i: usize = 0;
        assert(files.take(0) =~= Seq::<(String, InjectedContent)>::empty());
        assert(texts(stats.inject_unique_files@).to_set() =~= Set::<Seq<char>>::empty());
        assert(pairs(stats.not_found@).to_set() =~= Set::<(Seq<char>, Seq<char>)>::empty());
        assert(pairs(stats.errors@) =~= Seq::<(Seq<char>, Seq<char>)>::empty());
        while i < self.0.len()
            invariant
                i <= files.len(),
                files == self.0@,
                tally_files(files).0 <= u64::MAX,
                tally_files(files).1 <= u64::MAX,
                tally_files(files).2 <= u64::MAX,
                stats.equals == tally_files(files.take(i as int)).0,
                stats.injects == tally_files(files.take(i as int)).1,
                stats.not_found_count == tally_files(files.take(i as int)).2,
                texts(stats.inject_unique_files@).no_duplicates(),
                texts(stats.inject_unique_files@).to_set() == injected_files(files.take(i as int)),
                pairs(stats.not_found@).no_duplicates(),
                pairs(stats.not_found@).to_set() == missing_files(files.take(i as int)),
                pairs(stats.errors@) == error_files(files.take(i as int)),
            decreases files.len() - i,
        {
            let ghost done = files.take(i as int);
            let ghost next = files.take(i + 1);
            proof {
                assert(next.drop_last() =~= done);
                assert(next.last() == files[i as int]);
                lemma_tally_files_monotone(files, i + 1);
            }
            let path = &self.0[i].0;
            match &self.0[i].1 {
                InjectedContent::Injected(summary) => {
                    let ghost actions = summary.actions@;
                    let ghost base = tally_files(done);
                    let ghost files_before = injected_files(done);
                    let ghost missing_before = missing_files(done);
                    let mut j: usize = 0;
                    assert(actions.take(0) =~= Seq::<InjectStatus>::empty());
                    assert(missing_before.union(missing_in(path@, actions.take(0)))
                        =~= missing_before);
                    while j < summary.actions.len()
                        invariant
                            j <= actions.len(),
                            actions == summary.actions@,
                            base.0 + tally(actions).0 <= u64::MAX,
                            base.1 + tally(actions).1 <= u64::MAX,
                            base.2 + tally(actions).2 <= u64::MAX,
                            stats.equals == base.0 + tally(actions.take(j as int)).0,
                            stats.injects == base.1 + tally(actions.take(j as int)).1,
                            stats.not_found_count == base.2 + tally(actions.take(j as int)).2,
                            texts(stats.inject_unique_files@).no_duplicates(),
                            texts(stats.inject_unique_files@).to_set() == if tally(
                                actions.take(j as int),
                            ).1 > 0 {
                                files_before.insert(path@)
                            } else {
                                files_before
                            },
                            pairs(stats.not_found@).no_duplicates(),
                            pairs(stats.not_found@).to_set() == missing_before.union(
                                missing_in(path@, actions.take(j as int)),
                            ),
                            pairs(stats.errors@) == error_files(done),
                        decreases actions.len() - j,
                    {
                        proof {
                            assert(actions.take(j + 1).drop_last() =~= actions.take(j as int));
                            assert(actions.take(j + 1).last() == actions[j as int]);
                            lemma_tally_monotone(actions, j + 1);
                        }
                        match &summary.actions[j] {
                            InjectStatus::Equal { .. } => {
                                stats.equals += 1;
                            },
                            InjectStatus::Injected { .. } => {
                                stats.injects += 1;
                                push_unique(&mut stats.inject_unique_files, path.clone());
                                assert(files_before.insert(path@).insert(path@)
                                    =~= files_before.insert(path@));
                            },
                            InjectStatus::NotFound { snippet_id, .. } => {
                                let ghost had = missing_in(path@, actions.take(j as int));
                                push_unique_pair(
                                    &mut stats.not_found,
                                    path.clone(),
                                    snippet_id.clone(),
                                );
                                assert(missing_before.union(had).insert((path@, snippet_id@))
                                    =~= missing_before.union(had.insert((path@, snippet_id@))));
                                stats.not_found_count += 1;
                            },
                        }
                        j += 1;
                    }
                    assert(actions.take(actions.len() as int) =~= actions);
                },
                InjectedContent::NoRegions => {
                    assert(missing_files(done).union(Set::empty()) =~= missing_files(done));
                },
                InjectedContent::Error(message) => {
                    let ghost before = pairs(stats.errors@);
                    stats.errors.push((path.clone(), message.clone()));
                    assert(pairs(stats.errors@) =~= before.push((path@, message@)));
                    assert(missing_files(done).union(Set::empty()) =~= missing_files(done));
                },
            }
            i += 1;
        }
        assert(files.take(files.len() as int) =~= files);
        stats
    }
}

} // verus!
