//! The rows of the tables that show snippets and the outcome of an
//! injection.
use vstd::prelude::*;
use vstd::string::StringExecFns;
use crate::errors::{decimal, push_decimal};
use crate::parser::injector::{
    status_views, InjectSnippets, InjectStatus, InjectStatusView, InjectedContent,
};
use crate::parser::{Snippet, SnippetKind};
use crate::text::texts;

verus! {

/// The table report.
#[derive(Debug, Clone, Copy, PartialEq, Eq, Structural)]
pub struct Output {}

/// The name of a kind, as it is shown.
pub open spec fn kind_name(kind: SnippetKind) -> Seq<char> {
    match kind {
        SnippetKind::Yaml => "Yaml"@,
        SnippetKind::Code => "Code"@,
        SnippetKind::Any => "Any"@,
    }
}

/// The row of one status of the file that is shown as `path`: the path, what
/// became of the region, the id of the snippet, and for a snippet that was
/// not found the kind that was asked for.
pub open spec fn status_row(path: Seq<char>, status: InjectStatusView) -> Seq<Seq<char>> {
    match status {
        InjectStatusView::Equal { snippet_id } => seq![path, "equal"@, snippet_id, ""@],
        InjectStatusView::Injected { snippet_id, content } => seq![
            path,
            "injected"@,
            snippet_id,
            ""@,
        ],
        InjectStatusView::NotFound { snippet_id, snippet_kind } => seq![
            path,
            "not-found-snippets"@,
            snippet_id,
            "Inject from: "@ + kind_name(snippet_kind),
        ],
    }
}

/// The rows of the statuses of one file, in their order.
pub open spec fn status_rows(path: Seq<char>, statuses: Seq<InjectStatusView>) -> Seq<
    Seq<Seq<char>>,
> {
    Seq::new(statuses.len(), |i: int| status_row(path, statuses[i]))
}

/// The rows of one file: one for each of its statuses, one with its error
/// where it could not be parsed, and none where it has no region that asks
/// for an injection.
pub open spec fn file_rows(path: Seq<char>, content: InjectedContent) -> Seq<Seq<Seq<char>>> {
    match content {
        InjectedContent::Injected(summary) => status_rows(path, status_views(summary.actions@)),
        InjectedContent::NoRegions => Seq::empty(),
        InjectedContent::Error(error) => seq![seq![path, "error"@, ""@, error@]],
    }
}

/// The rows of the first `n` files, each file shown under the path of the
/// same index in `shown`.
pub open spec fn inject_rows_spec(
    files: Seq<(String, InjectedContent)>,
    shown: Seq<Seq<char>>,
    n: int,
) -> Seq<Seq<Seq<char>>>
    decreases n,
{
    if n <= 0 || n > files.len() || n > shown.len() {
        Seq::empty()
    } else {
        inject_rows_spec(files, shown, n - 1) + file_rows(shown[n - 1], files[n - 1].1)
    }
}

/// The row of the snippet of index `i`: its number, its kind, its id and
/// the path that it is shown under.
pub open spec fn snippet_row(i: int, id: Seq<char>, kind: SnippetKind, path: Seq<char>) -> Seq<
    Seq<char>,
> {
    seq![decimal((i + 1) as nat), kind_name(kind), id, path]
}

/// The cells that a vector of rows holds.
pub open spec fn cells(rows: Seq<Vec<String>>) -> Seq<Seq<Seq<char>>> {
    Seq::new(rows.len(), |i: int| texts(rows[i]@))
}

/// The name of a kind, as it is shown.
pub fn kind_text(kind: SnippetKind) -> (r: String)
    ensures
        r@ == kind_name(kind),
{
    match kind {
        SnippetKind::Yaml => "Yaml".to_owned(),
        SnippetKind::Code => "Code".to_owned(),
        SnippetKind::Any => "Any".to_owned(),
    }
}

fn row(a: String, b: String, c: String, d: String) -> (r: Vec<String>)
    ensures
        texts(r@) == seq![a@, b@, c@, d@],
{
    let mut r: Vec<String> = Vec::new();
    r.push(a);
    r.push(b);
    r.push(c);
    r.push(d);
    assert(texts(r@) =~= seq![a@, b@, c@, d@]);
    r
}

impl Output {
    /// The head of the table of snippets.
    pub fn snippets_header() -> (r: Vec<String>)
        ensures
            texts(r@) == seq!["#"@, "Snippet Kind"@, "ID"@, "Path"@],
    {
        row("#".to_owned(), "Snippet Kind".to_owned(), "ID".to_owned(), "Path".to_owned())
    }

    /// The row of the snippet of index `i`, shown under `path`.
    pub fn snippet_row(i: usize, id: &str, snippet: &Snippet, path: &str) -> (r: Vec<String>)
        requires
            i < usize::MAX,
        ensures
            texts(r@) == snippet_row(i as int, id@, snippet.kind, path@),
    {
        let mut number = String::new();
        push_decimal(&mut number, i + 1);
        assert(number@ =~= decimal((i + 1) as nat));
        row(number, kind_text(snippet.kind), id.to_owned(), path.to_owned())
    }

    /// The head of the table of an injection.
    pub fn inject_header() -> (r: Vec<String>)
        ensures
            texts(r@) == seq!["Path"@, "Action"@, "Snippet ID"@, ""@],
    {
        row("Path".to_owned(), "Action".to_owned(), "Snippet ID".to_owned(), "".to_owned())
    }

    /// The row of one status of the file that is shown as `path`.
    pub fn status_row(path: &str, status: &InjectStatus) -> (r: Vec<String>)
        ensures
            texts(r@) == status_row(path@, status@),
    {
        match status {
            InjectStatus::Equal { snippet_id } => row(
                path.to_owned(),
                "equal".to_owned(),
                snippet_id.clone(),
                "".to_owned(),
            ),
            InjectStatus::Injected { snippet_id, .. } => row(
                path.to_owned(),
                "injected".to_owned(),
                snippet_id.clone(),
                "".to_owned(),
            ),
            InjectStatus::NotFound { snippet_id, snippet_kind } => {
                let mut asked = "Inject from: ".to_owned();
                asked.append(kind_text(*snippet_kind).as_str());
                row(path.to_owned(), "not-found-snippets".to_owned(), snippet_id.clone(), asked)
            },
        }
    }

    /// The rows of the table of an injection: for each file, shown under
    /// the path of the same index in `shown`, one row for each status, or
    /// one with its error.
    pub fn inject_rows(result: &InjectSnippets, shown: &Vec<String>) -> (r: Vec<Vec<String>>)
        requires
            shown@.len() == result.0@.len(),
        ensures
            cells(r@) == inject_rows_spec(result.0@, texts(shown@), result.0@.len() as int),
    {
        let ghost files = result.0@;
        let ghost paths = texts(shown@);
        let mut rows: Vec<Vec<String>> = Vec::new();
        let mut i: usize = 0;
        assert(cells(rows@) =~= inject_rows_spec(files, paths, 0));
        while i < result.len()
            invariant
                i <= files.len(),
                files == result.0@,
                paths == texts(shown@),
                shown@.len() == files.len(),
                cells(rows@) == inject_rows_spec(files, paths, i as int),
            decreases files.len() - i,
        {
            let ghost before = cells(rows@);
            let path = shown[i].as_str();
            match result.get(i).1 {
                InjectedContent::Injected(summary) => {
                    let ghost statuses = status_views(summary.actions@);
                    let mut j: usize = 0;
                    assert(before + status_rows(path@, statuses).take(0) =~= before);
                    while j < summary.actions.len()
                        invariant
                            j <= summary.actions@.len(),
                            statuses == status_views(summary.actions@),
                            cells(rows@) == before + status_rows(path@, statuses).take(j as int),
                        decreases summary.actions@.len() - j,
                    {
                        let ghost so_far = cells(rows@);
                        let next = Self::status_row(path, &summary.actions[j]);
                        rows.push(next);
                        assert(cells(rows@) =~= so_far.push(status_row(path@, statuses[j as int])));
                        assert(before + status_rows(path@, statuses).take(j + 1) =~= (before
                            + status_rows(path@, statuses).take(j as int)).push(
                            status_row(path@, statuses[j as int]),
                        ));
                        j += 1;
                    }
                    assert(status_rows(path@, statuses).take(summary.actions@.len() as int)
                        =~= status_rows(path@, statuses));
                },
                InjectedContent::NoRegions => {
                    assert(before + Seq::<Seq<Seq<char>>>::empty() =~= before);
                },
                InjectedContent::Error(error) => {
                    let next = row(
                        path.to_owned(),
                        "error".to_owned(),
                        "".to_owned(),
                        error.clone(),
                    );
                    rows.push(next);
                    assert(cells(rows@) =~= before + seq![seq![path@, "error"@, ""@, error@]]);
                },
            }
            i += 1;
        }
        rows
    }
}

} // verus!
