//! The Markdown of the documentation pages: one page per service (or HTTP
//! path group) with a section per test file and a block per call it makes.
//! A step's messages arrive here already pretty-printed, its dataset rows as
//! cell text.
use crate::commands::docs::{
    add_names, cell_text, code_span, files_view, flat, page_file, page_file_of, tool_of,
    unresolved_names, unresolved_of,
};
use crate::keyed::find_key;
use crate::text::{
    chars_of, concat, decimal, decimal_chars, join, join_lines, lemma_concat_push, push_all,
    push_str, starts_with, string_from_chars, trim, trim_chars, views,
};
use vstd::prelude::*;

verus! {

broadcast use vstd::string::group_string_axioms;

/// One call of a documented test file.
#[derive(Clone)]
pub struct FlowStep {
    pub endpoint: Option<String>,
    /// The page the call is documented on: its service or path group.
    pub group: Option<String>,
    pub call_line: Option<String>,
    pub grpcurl_line: Option<String>,
    pub method: Option<String>,
    /// Request messages, pretty-printed.
    pub requests: Vec<String>,
    /// Response messages, pretty-printed.
    pub responses: Vec<String>,
    /// The expected error, pretty-printed.
    pub error: Option<String>,
    pub asserts: Vec<String>,
    pub extracts: Vec<(String, String)>,
    pub runtime: Vec<(String, String)>,
    pub shape: Option<String>,
    pub headers: Vec<(String, String)>,
    /// Dataset rows: each row's columns and cell text, in the row's order.
    pub dataset: Vec<Vec<(String, String)>>,
}

/// A documented test file.
#[derive(Clone)]
pub struct MethodFlow {
    /// The file as displayed.
    pub file: String,
    pub title: String,
    pub summary: Option<String>,
    pub tags: Vec<String>,
    pub owner: Option<String>,
    pub links: Vec<String>,
    pub steps: Vec<FlowStep>,
}

/// The value of the first entry named `key`.
pub open spec fn first_value(s: Seq<(String, String)>, key: Seq<char>) -> Option<String>
    decreases s.len(),
{
    if s.len() == 0 {
        None
    } else if s[0].0@ == key {
        Some(s[0].1)
    } else {
        first_value(s.drop_first(), key)
    }
}

proof fn lemma_first_value_at(s: Seq<(String, String)>, key: Seq<char>, i: int)
    requires
        0 <= i < s.len(),
        s[i].0@ == key,
        forall|j: int| 0 <= j < i ==> (#[trigger] s[j]).0@ != key,
    ensures
        first_value(s, key) == Some(s[i].1),
    decreases i,
{
    if i > 0 {
        assert(s[0].0@ != key);
        assert forall|j: int| 0 <= j < i - 1 implies (#[trigger] s.drop_first()[j]).0@ != key by {
            assert(s.drop_first()[j] == s[j + 1]);
        }
        lemma_first_value_at(s.drop_first(), key, i - 1);
    }
}

proof fn lemma_first_value_absent(s: Seq<(String, String)>, key: Seq<char>)
    requires
        forall|j: int| 0 <= j < s.len() ==> (#[trigger] s[j]).0@ != key,
    ensures
        first_value(s, key) is None,
    decreases s.len(),
{
    if s.len() > 0 {
        assert(s[0].0@ != key);
        assert forall|j: int| 0 <= j < s.len() - 1 implies (#[trigger] s.drop_first()[j]).0@ != key by {
            assert(s.drop_first()[j] == s[j + 1]);
        }
        lemma_first_value_absent(s.drop_first(), key);
    }
}

/// The value under `key`, if any entry is named so.
fn first_value_exec(s: &Vec<(String, String)>, key: &str) -> (v: Option<Vec<char>>)
    ensures
        match first_value(s@, key@) {
            Some(x) => v matches Some(t) && t@ == x@,
            None => v is None,
        },
{
    match find_key(s, key) {
        Some(k) => {
            proof {
                lemma_first_value_at(s@, key@, k as int);
            }
            Some(text(&s[k].1))
        },
        None => {
            proof {
                lemma_first_value_absent(s@, key@);
            }
            None
        },
    }
}

/// The value of the first pair whose name is `key`.
pub open spec fn first_in(s: Seq<(Seq<char>, Seq<char>)>, key: Seq<char>) -> Option<Seq<char>>
    decreases s.len(),
{
    if s.len() == 0 {
        None
    } else if s[0].0 == key {
        Some(s[0].1)
    } else {
        first_in(s.drop_first(), key)
    }
}

proof fn lemma_first_in_view(s: Seq<(String, String)>, key: Seq<char>)
    ensures
        first_in(files_view(s), key) == match first_value(s, key) {
            Some(x) => Some(x@),
            None => None,
        },
    decreases s.len(),
{
    if s.len() > 0 {
        assert(files_view(s).drop_first() =~= files_view(s.drop_first()));
        lemma_first_in_view(s.drop_first(), key);
    }
}

/// The page a group is filed as: its entry in `files`, else its own name.
pub open spec fn page_of(files: Seq<(Seq<char>, Seq<char>)>, group: Seq<char>) -> Seq<char> {
    match first_in(files, group) {
        Some(f) => f,
        None => page_file_of(group),
    }
}

/// `- `{{name}}` = `filter`` lines for extracted bindings.
pub open spec fn bind_lines(xs: Seq<(String, String)>) -> Seq<char>
    decreases xs.len(),
{
    if xs.len() == 0 {
        Seq::empty()
    } else {
        bind_lines(xs.drop_last()) + "- `{{"@ + xs.last().0@ + "}}` = `"@ + xs.last().1@ + "`\n"@
    }
}

/// A step documented on another page: its endpoint with a link to that page,
/// and the bindings it makes for the steps after it.
pub open spec fn elsewhere_text(step: FlowStep, files: Seq<(Seq<char>, Seq<char>)>) -> Seq<char> {
    (match step.endpoint {
        Some(e) => "**Endpoint:** `"@ + e@ + "`"@ + (match step.group {
            Some(g) => " — documented under ["@ + g@ + "]("@ + page_of(files, g@) + ")"@,
            None => Seq::empty(),
        }) + "\n\n"@,
        None => Seq::empty(),
    }) + if step.extracts@.len() == 0 {
        Seq::empty()
    } else {
        "Binds, for the steps after it:\n\n"@ + bind_lines(step.extracts@) + "\n"@
    }
}

/// One request and its answer in a sequence diagram.
pub open spec fn exchange_lines(step: FlowStep) -> Seq<char> {
    "    Client->>Server: "@ + (match step.method {
        Some(m) => m@,
        None => "?"@,
    }) + "\n"@ + if step.error is Some {
        "    Server-->>Client: error\n"@
    } else {
        "    Server-->>Client: response\n"@
    }
}

pub open spec fn exchanges(steps: Seq<FlowStep>) -> Seq<char>
    decreases steps.len(),
{
    if steps.len() == 0 {
        Seq::empty()
    } else {
        exchanges(steps.drop_last()) + exchange_lines(steps.last())
    }
}

/// The Mermaid sequence diagram of a multi-step file.
pub open spec fn sequence_text(steps: Seq<FlowStep>) -> Seq<char> {
    "```mermaid\nsequenceDiagram\n    participant Client\n    participant Server\n"@ + exchanges(steps)
        + "```\n\n"@
}

fn text(s: &String) -> (v: Vec<char>)
    ensures
        v@ == s@,
{
    chars_of(s.as_str())
}

fn bind_lines_exec(out: &mut Vec<char>, xs: &Vec<(String, String)>)
    ensures
        final(out)@ == old(out)@ + bind_lines(xs@),
{
    let mut i: usize = 0;
    while i < xs.len()
        invariant
            i <= xs.len(),
            out@ == old(out)@ + bind_lines(xs@.take(i as int)),
        decreases xs.len() - i,
    {
        let ghost before = out@;
        push_str(out, "- `{{");
        push_str(out, xs[i].0.as_str());
        push_str(out, "}}` = `");
        push_str(out, xs[i].1.as_str());
        push_str(out, "`\n");
        assert(xs@.take(i + 1).drop_last() =~= xs@.take(i as int));
        assert(out@ =~= old(out)@ + bind_lines(xs@.take(i + 1)));
        i = i + 1;
    }
    assert(xs@.take(i as int) =~= xs@);
}

/// The page `group` is filed as.
fn page_of_exec(files: &Vec<(String, String)>, group: &str) -> (p: Vec<char>)
    ensures
        p@ == page_of(files_view(files@), group@),
{
    proof {
        lemma_first_in_view(files@, group@);
    }
    match first_value_exec(files, group) {
        Some(f) => f,
        None => {
            let f = page_file(group);
            text(&f)
        },
    }
}

/// A step documented on another page.
pub fn render_step_elsewhere(step: &FlowStep, files: &Vec<(String, String)>) -> (s: String)
    ensures
        s@ == elsewhere_text(*step, files_view(files@)),
{
    let mut out: Vec<char> = Vec::new();
    match &step.endpoint {
        Some(e) => {
            push_str(&mut out, "**Endpoint:** `");
            push_str(&mut out, e.as_str());
            push_str(&mut out, "`");
            match &step.group {
                Some(g) => {
                    push_str(&mut out, " — documented under [");
                    push_str(&mut out, g.as_str());
                    push_str(&mut out, "](");
                    let p = page_of_exec(files, g.as_str());
                    push_all(&mut out, &p);
                    push_str(&mut out, ")");
                },
                None => {},
            }
            push_str(&mut out, "\n\n");
        },
        None => {},
    }
    let ghost head = out@;
    if step.extracts.len() > 0 {
        push_str(&mut out, "Binds, for the steps after it:\n\n");
        bind_lines_exec(&mut out, &step.extracts);
        push_str(&mut out, "\n");
    }
    assert(out@ =~= elsewhere_text(*step, files_view(files@)));
    string_from_chars(out.as_slice())
}

/// The sequence diagram of a file's steps.
pub fn render_sequence_diagram(steps: &Vec<FlowStep>) -> (s: String)
    ensures
        s@ == sequence_text(steps@),
{
    let mut out = chars_of(
        "```mermaid\nsequenceDiagram\n    participant Client\n    participant Server\n",
    );
    let ghost head = out@;
    let mut i: usize = 0;
    while i < steps.len()
        invariant
            i <= steps.len(),
            out@ == head + exchanges(steps@.take(i as int)),
        decreases steps.len() - i,
    {
        let step = &steps[i];
        push_str(&mut out, "    Client->>Server: ");
        match &step.method {
            Some(m) => push_str(&mut out, m.as_str()),
            None => push_str(&mut out, "?"),
        }
        push_str(&mut out, "\n");
        if step.error.is_some() {
            push_str(&mut out, "    Server-->>Client: error\n");
        } else {
            push_str(&mut out, "    Server-->>Client: response\n");
        }
        assert(steps@.take(i + 1).drop_last() =~= steps@.take(i as int));
        assert(out@ =~= head + exchanges(steps@.take(i + 1)));
        i = i + 1;
    }
    assert(steps@.take(i as int) =~= steps@);
    push_str(&mut out, "```\n\n");
    string_from_chars(out.as_slice())
}

/// `row`'s column names added to `cols`, each once, in order.
pub open spec fn add_columns(cols: Seq<Seq<char>>, row: Seq<(String, String)>) -> Seq<Seq<char>>
    decreases row.len(),
{
    if row.len() == 0 {
        cols
    } else {
        let c = add_columns(cols, row.drop_last());
        let n = row.last().0@;
        if c.contains(n) {
            c
        } else {
            c.push(n)
        }
    }
}

/// The dataset's columns in the order they first appear.
pub open spec fn columns_of(rows: Seq<Vec<(String, String)>>) -> Seq<Seq<char>>
    decreases rows.len(),
{
    if rows.len() == 0 {
        Seq::empty()
    } else {
        add_columns(columns_of(rows.drop_last()), rows.last()@)
    }
}

/// A row's cell text for column `c`, empty where the row lacks it.
pub open spec fn cell_of(row: Seq<(String, String)>, c: Seq<char>) -> Seq<char> {
    match first_value(row, c) {
        Some(v) => v@,
        None => Seq::empty(),
    }
}

/// A table row of `cols` cells.
pub open spec fn table_row(cells: Seq<Seq<char>>) -> Seq<char> {
    "| "@ + join(cells, " | "@) + " |\n"@
}

pub open spec fn row_cells(cols: Seq<Seq<char>>, row: Seq<(String, String)>) -> Seq<Seq<char>> {
    Seq::new(cols.len(), |i: int| cell_text(cell_of(row, cols[i])))
}

pub open spec fn dataset_rows(cols: Seq<Seq<char>>, rows: Seq<Vec<(String, String)>>) -> Seq<char>
    decreases rows.len(),
{
    if rows.len() == 0 {
        Seq::empty()
    } else {
        dataset_rows(cols, rows.drop_last()) + table_row(row_cells(cols, rows.last()@))
    }
}

/// The dataset a step runs once per row: the row count, a table of every
/// column (named as code) and row, and a note that the examples use the first
/// row. Nothing when there are no columns.
pub open spec fn dataset_text(rows: Seq<Vec<(String, String)>>) -> Seq<char> {
    let cols = columns_of(rows);
    if cols.len() == 0 {
        Seq::empty()
    } else {
        "Runs once per `DATASET` row — "@ + (if rows.len() == 1 {
            "1 row"@
        } else {
            decimal(rows.len()) + " rows"@
        }) + ":\n\n"@ + table_row(
            Seq::new(cols.len(), |i: int| cell_text(code_span(cols[i]))),
        ) + "|"@ + join(Seq::new(cols.len(), |i: int| "---"@), "|"@) + "|\n"@ + dataset_rows(
            cols,
            rows,
        )
            + "\nThe examples below are the first row: a `run` sends each row in turn, substituting `{{dataset.<column>}}` as it goes.\n\n"@
    }
}

fn contains_chars(v: &Vec<Vec<char>>, x: &Vec<char>) -> (b: bool)
    ensures
        b == views(v@).contains(x@),
{
    let mut i: usize = 0;
    while i < v.len()
        invariant
            i <= v.len(),
            forall|j: int| 0 <= j < i ==> v@[j]@ != x@,
        decreases v.len() - i,
    {
        if crate::text::chars_eq(&v[i], x) {
            assert(views(v@)[i as int] == x@);
            return true;
        }
        i = i + 1;
    }
    assert(!views(v@).contains(x@)) by {
        if views(v@).contains(x@) {
            let j = choose|j: int| 0 <= j < views(v@).len() && views(v@)[j] == x@;
            assert(v@[j]@ == x@);
        }
    }
    false
}

fn add_columns_exec(cols: &mut Vec<Vec<char>>, row: &Vec<(String, String)>)
    ensures
        views(final(cols)@) == add_columns(views(old(cols)@), row@),
{
    let mut i: usize = 0;
    while i < row.len()
        invariant
            i <= row.len(),
            views(cols@) == add_columns(views(old(cols)@), row@.take(i as int)),
        decreases row.len() - i,
    {
        let n = text(&row[i].0);
        assert(row@.take(i + 1).drop_last() =~= row@.take(i as int));
        if !contains_chars(cols, &n) {
            let ghost c0 = views(cols@);
            cols.push(n);
            assert(views(cols@) =~= c0.push(row@[i as int].0@));
        }
        i = i + 1;
    }
    assert(row@.take(i as int) =~= row@);
}

fn columns_exec(rows: &Vec<Vec<(String, String)>>) -> (cols: Vec<Vec<char>>)
    ensures
        views(cols@) == columns_of(rows@),
{
    let mut cols: Vec<Vec<char>> = Vec::new();
    let mut i: usize = 0;
    assert(views(cols@) =~= Seq::<Seq<char>>::empty());
    while i < rows.len()
        invariant
            i <= rows.len(),
            views(cols@) == columns_of(rows@.take(i as int)),
        decreases rows.len() - i,
    {
        add_columns_exec(&mut cols, &rows[i]);
        assert(rows@.take(i + 1).drop_last() =~= rows@.take(i as int));
        i = i + 1;
    }
    assert(rows@.take(i as int) =~= rows@);
    cols
}

fn cell_of_exec(row: &Vec<(String, String)>, c: &Vec<char>) -> (v: Vec<char>)
    ensures
        v@ == cell_of(row@, c@),
{
    let name = string_from_chars(c.as_slice());
    match first_value_exec(row, name.as_str()) {
        Some(t) => t,
        None => Vec::new(),
    }
}

fn md_cell_chars(v: &Vec<char>) -> (out: Vec<char>)
    ensures
        out@ == cell_text(v@),
{
    let s = string_from_chars(v.as_slice());
    let c = crate::commands::docs::md_cell(s.as_str());
    text(&c)
}

fn md_code_chars(v: &Vec<char>) -> (out: Vec<char>)
    ensures
        out@ == code_span(v@),
{
    let s = string_from_chars(v.as_slice());
    let c = crate::commands::docs::md_code(s.as_str());
    text(&c)
}

fn table_row_exec(out: &mut Vec<char>, cells: &Vec<Vec<char>>)
    ensures
        final(out)@ == old(out)@ + table_row(views(cells@)),
{
    push_str(out, "| ");
    let j = join_lines(cells, " | ");
    push_all(out, &j);
    push_str(out, " |\n");
}

/// The dataset block of a step.
pub fn render_dataset(rows: &Vec<Vec<(String, String)>>) -> (s: String)
    ensures
        s@ == dataset_text(rows@),
{
    let cols = columns_exec(rows);
    let ghost cv = views(cols@);
    if cols.len() == 0 {
        return string_from_chars(Vec::<char>::new().as_slice());
    }
    let mut out = chars_of("Runs once per `DATASET` row — ");
    if rows.len() == 1 {
        push_str(&mut out, "1 row");
    } else {
        push_all(&mut out, &decimal_chars(rows.len() as u64));
        push_str(&mut out, " rows");
    }
    push_str(&mut out, ":\n\n");
    let mut heads: Vec<Vec<char>> = Vec::new();
    let mut dashes: Vec<Vec<char>> = Vec::new();
    let mut i: usize = 0;
    while i < cols.len()
        invariant
            i <= cols.len(),
            cv == views(cols@),
            views(heads@) == Seq::new(i as nat, |k: int| cell_text(code_span(cv[k]))),
            views(dashes@) == Seq::new(i as nat, |k: int| "---"@),
        decreases cols.len() - i,
    {
        let code = md_code_chars(&cols[i]);
        let cell = md_cell_chars(&code);
        let ghost h0 = views(heads@);
        let ghost d0 = views(dashes@);
        heads.push(cell);
        let dash = chars_of("---");
        dashes.push(dash);
        assert(views(heads@) =~= h0.push(cell_text(code_span(cv[i as int]))));
        assert(views(dashes@) =~= d0.push("---"@));
        assert(views(heads@) =~= Seq::new((i + 1) as nat, |k: int| cell_text(code_span(cv[k]))));
        assert(views(dashes@) =~= Seq::new((i + 1) as nat, |k: int| "---"@));
        i = i + 1;
    }
    table_row_exec(&mut out, &heads);
    push_str(&mut out, "|");
    push_all(&mut out, &join_lines(&dashes, "|"));
    push_str(&mut out, "|\n");
    let ghost head = out@;
    let mut r: usize = 0;
    while r < rows.len()
        invariant
            r <= rows.len(),
            cv == views(cols@),
            out@ == head + dataset_rows(cv, rows@.take(r as int)),
        decreases rows.len() - r,
    {
        let mut cells: Vec<Vec<char>> = Vec::new();
        let mut k: usize = 0;
        while k < cols.len()
            invariant
                k <= cols.len(),
                r < rows.len(),
                cv == views(cols@),
                views(cells@) == Seq::new(
                    k as nat,
                    |x: int| cell_text(cell_of(rows@[r as int]@, cv[x])),
                ),
            decreases cols.len() - k,
        {
            let v = cell_of_exec(&rows[r], &cols[k]);
            let cell = md_cell_chars(&v);
            let ghost c0 = views(cells@);
            cells.push(cell);
            assert(views(cells@) =~= c0.push(cell_text(cell_of(rows@[r as int]@, cv[k as int]))));
            assert(views(cells@) =~= Seq::new(
                (k + 1) as nat,
                |x: int| cell_text(cell_of(rows@[r as int]@, cv[x])),
            ));
            k = k + 1;
        }
        assert(views(cells@) =~= row_cells(cv, rows@[r as int]@));
        table_row_exec(&mut out, &cells);
        assert(rows@.take(r + 1).drop_last() =~= rows@.take(r as int));
        r = r + 1;
    }
    assert(rows@.take(r as int) =~= rows@);
    push_str(
        &mut out,
        "\nThe examples below are the first row: a `run` sends each row in turn, substituting `{{dataset.<column>}}` as it goes.\n\n",
    );
    string_from_chars(out.as_slice())
}

/// A call made over gRPC: it has a `grpcurl` line, or its own call line runs
/// `grpctestify`.
pub open spec fn grpc_step(step: FlowStep) -> bool {
    step.grpcurl_line is Some || (step.call_line matches Some(l) && starts_with(l@, "grpctestify"@))
}

/// The endpoint line, with the call's shape when it is a gRPC call.
pub open spec fn endpoint_text(step: FlowStep) -> Seq<char> {
    match step.endpoint {
        Some(e) => "**Endpoint:** `"@ + e@ + "`"@ + (match step.shape {
            Some(sh) => if grpc_step(step) {
                " — "@ + sh@
            } else {
                Seq::empty()
            },
            None => Seq::empty(),
        }) + "\n\n"@,
        None => Seq::empty(),
    }
}

/// The tool a command line runs: its first word, `sh` for a blank line.
pub open spec fn tool_text(line: Seq<char>) -> Seq<char> {
    if crate::text::trim_start(line).len() == 0 {
        "sh"@
    } else {
        crate::text::trim_start(line).take(
            crate::parser::first_ws(crate::text::trim_start(line)) as int,
        )
    }
}

pub open spec fn sh_block(l: Seq<char>) -> Seq<char> {
    ":\n\n```sh\n"@ + l + "\n```\n\n"@
}

pub open spec fn call_text(step: FlowStep) -> Seq<char> {
    match step.call_line {
        Some(l) => "Call it with `"@ + tool_text(l@) + "`"@ + sh_block(l@),
        None => Seq::empty(),
    }
}

pub open spec fn grpcurl_text(step: FlowStep) -> Seq<char> {
    match step.grpcurl_line {
        Some(l) => (if step.call_line is Some {
            "The same call with `grpcurl`"@
        } else {
            "Call it with `grpcurl`"@
        }) + sh_block(l@),
        None => Seq::empty(),
    }
}

pub open spec fn runtime_lines(xs: Seq<(String, String)>) -> Seq<char>
    decreases xs.len(),
{
    if xs.len() == 0 {
        Seq::empty()
    } else {
        runtime_lines(xs.drop_last()) + "- "@ + xs.last().0@ + ": `"@ + xs.last().1@ + "`\n"@
    }
}

/// Some setting is named `name` (`same`), or some is named otherwise (`!same`).
pub open spec fn any_named(xs: Seq<(String, String)>, name: Seq<char>, same: bool) -> bool
    decreases xs.len(),
{
    if xs.len() == 0 {
        false
    } else {
        any_named(xs.drop_last(), name, same) || ((xs.last().0@ == name) == same)
    }
}

/// The settings a run applies from the file; the ones other than the
/// timeout no command line above carries.
pub open spec fn runtime_text(step: FlowStep) -> Seq<char> {
    let xs = step.runtime@;
    let carried = any_named(xs, "timeout"@, true);
    if xs.len() == 0 {
        Seq::empty()
    } else {
        "Runs with:\n\n"@ + runtime_lines(xs) + if any_named(xs, "timeout"@, false) {
            "\n"@ + (if carried {
                "The timeout is on the lines above."@
            } else {
                Seq::empty()
            }) + " `grpctestify run` applies "@ + (if carried {
                "the rest"@
            } else {
                "them"@
            }) + "; a command line above cannot.\n\n"@
        } else {
            "\n"@
        }
    }
}

/// The command lines a step offers.
pub open spec fn offered_lines(step: FlowStep) -> Seq<Seq<char>> {
    (match step.call_line {
        Some(l) => seq![l@],
        None => Seq::empty(),
    }) + match step.grpcurl_line {
        Some(l) => seq![l@],
        None => Seq::empty(),
    }
}

/// The placeholders still in the command lines, which a shell will not fill in.
pub open spec fn unresolved_text(step: FlowStep) -> Seq<char> {
    let lines = offered_lines(step);
    let named = unresolved_of(lines);
    let many = lines.len() > 1;
    if named.len() == 0 {
        Seq::empty()
    } else {
        "The line"@ + (if many {
            "s"@
        } else {
            Seq::empty()
        }) + " above still name"@ + (if many {
            Seq::empty()
        } else {
            "s"@
        }) + " "@ + placeholder_list(named) + " — `grpctestify run` read"@ + (if named.len() == 1 {
            "s it"@
        } else {
            "s them"@
        }) + " from the environment (`.env`, `--env`); a shell sends the braces as they are.\n\n"@
    }
}

pub open spec fn header_lines(xs: Seq<(String, String)>) -> Seq<char>
    decreases xs.len(),
{
    if xs.len() == 0 {
        Seq::empty()
    } else {
        header_lines(xs.drop_last()) + "- "@ + code_span(xs.last().0@) + ": "@ + code_span(
            xs.last().1@,
        ) + "\n"@
    }
}

pub open spec fn headers_text(step: FlowStep) -> Seq<char> {
    if step.headers@.len() == 0 {
        Seq::empty()
    } else {
        "Headers:\n\n"@ + header_lines(step.headers@) + "\n"@
    }
}

pub open spec fn json_block(m: Seq<char>) -> Seq<char> {
    "```json\n"@ + m + "\n```\n\n"@
}

pub open spec fn json_blocks(ms: Seq<String>) -> Seq<char>
    decreases ms.len(),
{
    if ms.len() == 0 {
        Seq::empty()
    } else {
        json_blocks(ms.drop_last()) + json_block(ms.last()@)
    }
}

/// The messages of one direction: one block, or a count and a block each.
pub open spec fn messages_text(label: Seq<char>, ms: Seq<String>) -> Seq<char> {
    if ms.len() == 0 {
        Seq::empty()
    } else if ms.len() == 1 {
        label + ":\n\n"@ + json_block(ms[0]@)
    } else {
        label + " — "@ + decimal(ms.len()) + " messages, in order:\n\n"@ + json_blocks(ms)
    }
}

pub open spec fn error_text(step: FlowStep) -> Seq<char> {
    match step.error {
        Some(e) => "Error:\n\n"@ + json_block(e@),
        None => Seq::empty(),
    }
}

pub open spec fn assert_lines(xs: Seq<String>) -> Seq<char>
    decreases xs.len(),
{
    if xs.len() == 0 {
        Seq::empty()
    } else {
        assert_lines(xs.drop_last()) + "- "@ + code_span(xs.last()@) + "\n"@
    }
}

pub open spec fn asserts_text(step: FlowStep) -> Seq<char> {
    if step.asserts@.len() == 0 {
        Seq::empty()
    } else {
        "Asserts:\n\n"@ + assert_lines(step.asserts@) + "\n"@
    }
}

pub open spec fn extracts_text(step: FlowStep) -> Seq<char> {
    if step.extracts@.len() == 0 {
        Seq::empty()
    } else {
        "Extracts, for the steps after this one:\n\n"@ + bind_lines(step.extracts@) + "\n"@
    }
}

/// A step documented on its own page: endpoint, dataset, the command lines
/// and what they cannot carry, headers, messages, the expected error, the
/// asserts and the bindings.
pub open spec fn step_text(step: FlowStep) -> Seq<char> {
    endpoint_text(step) + dataset_text(step.dataset@) + call_text(step) + grpcurl_text(step)
        + runtime_text(step) + unresolved_text(step) + headers_text(step) + messages_text(
        "Request"@,
        step.requests@,
    ) + messages_text("Response"@, step.responses@) + error_text(step) + asserts_text(step)
        + extracts_text(step)
}

fn endpoint_exec(out: &mut Vec<char>, step: &FlowStep)
    ensures
        final(out)@ == old(out)@ + endpoint_text(*step),
{
    proof {
        reveal_strlit("grpctestify");
    }
    match &step.endpoint {
        Some(e) => {
            push_str(out, "**Endpoint:** `");
            push_str(out, e.as_str());
            push_str(out, "`");
            let grpc = step.grpcurl_line.is_some() || match &step.call_line {
                Some(l) => crate::text::chars_start_with(&text(l), "grpctestify"),
                None => false,
            };
            match &step.shape {
                Some(sh) => {
                    if grpc {
                        push_str(out, " — ");
                        push_str(out, sh.as_str());
                    }
                },
                None => {},
            }
            push_str(out, "\n\n");
        },
        None => {},
    }
    assert(out@ =~= old(out)@ + endpoint_text(*step));
}

fn lines_exec(out: &mut Vec<char>, step: &FlowStep)
    ensures
        final(out)@ == old(out)@ + call_text(*step) + grpcurl_text(*step),
{
    match &step.call_line {
        Some(l) => {
            push_str(out, "Call it with `");
            let t = tool_of(l.as_str());
            push_str(out, t.as_str());
            push_str(out, "`");
            push_str(out, ":\n\n```sh\n");
            push_str(out, l.as_str());
            push_str(out, "\n```\n\n");
        },
        None => {},
    }
    let ghost mid = out@;
    assert(mid =~= old(out)@ + call_text(*step));
    match &step.grpcurl_line {
        Some(l) => {
            if step.call_line.is_some() {
                push_str(out, "The same call with `grpcurl`");
            } else {
                push_str(out, "Call it with `grpcurl`");
            }
            push_str(out, ":\n\n```sh\n");
            push_str(out, l.as_str());
            push_str(out, "\n```\n\n");
        },
        None => {},
    }
    assert(out@ =~= mid + grpcurl_text(*step));
}

fn any_named_exec(xs: &Vec<(String, String)>, name: &str, same: bool) -> (b: bool)
    ensures
        b == any_named(xs@, name@, same),
{
    let mut found = false;
    let mut i: usize = 0;
    while i < xs.len()
        invariant
            i <= xs.len(),
            found == any_named(xs@.take(i as int), name@, same),
        decreases xs.len() - i,
    {
        let is = crate::text::str_eq(xs[i].0.as_str(), name);
        assert(xs@.take(i + 1).drop_last() =~= xs@.take(i as int));
        found = found || is == same;
        i = i + 1;
    }
    assert(xs@.take(i as int) =~= xs@);
    found
}

fn runtime_exec(out: &mut Vec<char>, step: &FlowStep)
    ensures
        final(out)@ == old(out)@ + runtime_text(*step),
{
    let xs = &step.runtime;
    if xs.len() == 0 {
        assert(out@ =~= old(out)@ + runtime_text(*step));
        return;
    }
    push_str(out, "Runs with:\n\n");
    let ghost head = out@;
    let mut i: usize = 0;
    while i < xs.len()
        invariant
            i <= xs.len(),
            out@ == head + runtime_lines(xs@.take(i as int)),
        decreases xs.len() - i,
    {
        push_str(out, "- ");
        push_str(out, xs[i].0.as_str());
        push_str(out, ": `");
        push_str(out, xs[i].1.as_str());
        push_str(out, "`\n");
        assert(xs@.take(i + 1).drop_last() =~= xs@.take(i as int));
        assert(out@ =~= head + runtime_lines(xs@.take(i + 1)));
        i = i + 1;
    }
    assert(xs@.take(i as int) =~= xs@);
    let carried = any_named_exec(xs, "timeout", true);
    let only_run = any_named_exec(xs, "timeout", false);
    if only_run {
        push_str(out, "\n");
        if carried {
            push_str(out, "The timeout is on the lines above.");
        }
        push_str(out, " `grpctestify run` applies ");
        if carried {
            push_str(out, "the rest");
        } else {
            push_str(out, "them");
        }
        push_str(out, "; a command line above cannot.\n\n");
    } else {
        push_str(out, "\n");
    }
    assert(out@ =~= old(out)@ + runtime_text(*step));
}

/// The placeholder list: each name as `{{name}}` code, comma-separated.
pub open spec fn placeholder_list(named: Seq<Seq<char>>) -> Seq<char> {
    join(Seq::new(named.len(), |i: int| "`{{"@ + named[i] + "}}`"@), ", "@)
}

fn placeholder_list_exec(named: &Vec<String>) -> (p: Vec<char>)
    ensures
        p@ == placeholder_list(crate::parser::strs(named@)),
{
    let ghost nv = crate::parser::strs(named@);
    let mut parts: Vec<Vec<char>> = Vec::new();
    let mut i: usize = 0;
    while i < named.len()
        invariant
            i <= named.len(),
            nv == crate::parser::strs(named@),
            views(parts@) == Seq::new(i as nat, |k: int| "`{{"@ + nv[k] + "}}`"@),
        decreases named.len() - i,
    {
        let mut p = chars_of("`{{");
        push_str(&mut p, named[i].as_str());
        push_str(&mut p, "}}`");
        let ghost p0 = views(parts@);
        parts.push(p);
        assert(views(parts@) =~= p0.push("`{{"@ + nv[i as int] + "}}`"@));
        assert(views(parts@) =~= Seq::new((i + 1) as nat, |k: int| "`{{"@ + nv[k] + "}}`"@));
        i = i + 1;
    }
    join_lines(&parts, ", ")
}

fn offered_lines_exec(step: &FlowStep) -> (v: Vec<&str>)
    ensures
        v@.map_values(|l: &str| l@) == offered_lines(*step),
        v@.len() == offered_lines(*step).len(),
{
    let mut carried: Vec<&str> = Vec::new();
    match &step.call_line {
        Some(l) => carried.push(l.as_str()),
        None => {},
    }
    match &step.grpcurl_line {
        Some(l) => carried.push(l.as_str()),
        None => {},
    }
    assert(carried@.map_values(|l: &str| l@) =~= offered_lines(*step));
    carried
}

#[verifier::rlimit(30)]
fn unresolved_exec(out: &mut Vec<char>, step: &FlowStep)
    ensures
        final(out)@ == old(out)@ + unresolved_text(*step),
{
    let carried = offered_lines_exec(step);
    let named = unresolved_names(carried.as_slice());
    let ghost nv = crate::parser::strs(named@);
    assert(nv == unresolved_of(offered_lines(*step)));
    if named.len() == 0 {
        assert(out@ =~= old(out)@ + unresolved_text(*step));
        return;
    }
    let many = carried.len() > 1;
    let mut t = chars_of("The line");
    if many {
        push_str(&mut t, "s");
    }
    push_str(&mut t, " above still name");
    if !many {
        push_str(&mut t, "s");
    }
    push_str(&mut t, " ");
    let list = placeholder_list_exec(&named);
    push_all(&mut t, &list);
    push_str(&mut t, " — `grpctestify run` read");
    if named.len() == 1 {
        push_str(&mut t, "s it");
    } else {
        push_str(&mut t, "s them");
    }
    push_str(
        &mut t,
        " from the environment (`.env`, `--env`); a shell sends the braces as they are.\n\n",
    );
    assert(t@ =~= unresolved_text(*step));
    push_all(out, &t);
}

fn headers_exec(out: &mut Vec<char>, step: &FlowStep)
    ensures
        final(out)@ == old(out)@ + headers_text(*step),
{
    let xs = &step.headers;
    if xs.len() == 0 {
        assert(out@ =~= old(out)@ + headers_text(*step));
        return;
    }
    push_str(out, "Headers:\n\n");
    let ghost head = out@;
    let mut i: usize = 0;
    while i < xs.len()
        invariant
            i <= xs.len(),
            out@ == head + header_lines(xs@.take(i as int)),
        decreases xs.len() - i,
    {
        push_str(out, "- ");
        let k = crate::commands::docs::md_code(xs[i].0.as_str());
        push_str(out, k.as_str());
        push_str(out, ": ");
        let v = crate::commands::docs::md_code(xs[i].1.as_str());
        push_str(out, v.as_str());
        push_str(out, "\n");
        assert(xs@.take(i + 1).drop_last() =~= xs@.take(i as int));
        assert(out@ =~= head + header_lines(xs@.take(i + 1)));
        i = i + 1;
    }
    assert(xs@.take(i as int) =~= xs@);
    push_str(out, "\n");
}

fn json_block_exec(out: &mut Vec<char>, m: &String)
    ensures
        final(out)@ == old(out)@ + json_block(m@),
{
    push_str(out, "```json\n");
    push_str(out, m.as_str());
    push_str(out, "\n```\n\n");
    assert(out@ =~= old(out)@ + json_block(m@));
}

fn messages_exec(out: &mut Vec<char>, label: &str, ms: &Vec<String>)
    ensures
        final(out)@ == old(out)@ + messages_text(label@, ms@),
{
    if ms.len() == 0 {
        assert(out@ =~= old(out)@ + messages_text(label@, ms@));
        return;
    }
    if ms.len() == 1 {
        push_str(out, label);
        push_str(out, ":\n\n");
        json_block_exec(out, &ms[0]);
        assert(out@ =~= old(out)@ + messages_text(label@, ms@));
        return;
    }
    push_str(out, label);
    push_str(out, " — ");
    push_all(out, &decimal_chars(ms.len() as u64));
    push_str(out, " messages, in order:\n\n");
    let ghost head = out@;
    let mut i: usize = 0;
    while i < ms.len()
        invariant
            i <= ms.len(),
            out@ == head + json_blocks(ms@.take(i as int)),
        decreases ms.len() - i,
    {
        json_block_exec(out, &ms[i]);
        assert(ms@.take(i + 1).drop_last() =~= ms@.take(i as int));
        assert(out@ =~= head + json_blocks(ms@.take(i + 1)));
        i = i + 1;
    }
    assert(ms@.take(i as int) =~= ms@);
    assert(out@ =~= old(out)@ + messages_text(label@, ms@));
}

fn tail_exec(out: &mut Vec<char>, step: &FlowStep)
    ensures
        final(out)@ == old(out)@ + error_text(*step) + asserts_text(*step) + extracts_text(*step),
{
    match &step.error {
        Some(e) => {
            push_str(out, "Error:\n\n");
            json_block_exec(out, e);
        },
        None => {},
    }
    let ghost a = out@;
    assert(a =~= old(out)@ + error_text(*step));
    let xs = &step.asserts;
    if xs.len() > 0 {
        push_str(out, "Asserts:\n\n");
        let ghost head = out@;
        let mut i: usize = 0;
        while i < xs.len()
            invariant
                i <= xs.len(),
                out@ == head + assert_lines(xs@.take(i as int)),
            decreases xs.len() - i,
        {
            push_str(out, "- ");
            let c = crate::commands::docs::md_code(xs[i].as_str());
            push_str(out, c.as_str());
            push_str(out, "\n");
            assert(xs@.take(i + 1).drop_last() =~= xs@.take(i as int));
            assert(out@ =~= head + assert_lines(xs@.take(i + 1)));
            i = i + 1;
        }
        assert(xs@.take(i as int) =~= xs@);
        push_str(out, "\n");
    }
    let ghost b = out@;
    assert(b =~= a + asserts_text(*step));
    if step.extracts.len() > 0 {
        push_str(out, "Extracts, for the steps after this one:\n\n");
        bind_lines_exec(out, &step.extracts);
        push_str(out, "\n");
    }
    assert(out@ =~= b + extracts_text(*step));
}

/// A step documented on its own page.
pub fn render_step(step: &FlowStep) -> (s: String)
    ensures
        s@ == step_text(*step),
{
    let mut out: Vec<char> = Vec::new();
    endpoint_exec(&mut out, step);
    let d = render_dataset(&step.dataset);
    push_str(&mut out, d.as_str());
    lines_exec(&mut out, step);
    runtime_exec(&mut out, step);
    unresolved_exec(&mut out, step);
    headers_exec(&mut out, step);
    messages_exec(&mut out, "Request", &step.requests);
    messages_exec(&mut out, "Response", &step.responses);
    tail_exec(&mut out, step);
    assert(out@ =~= step_text(*step));
    string_from_chars(out.as_slice())
}

pub open spec fn tag_list(tags: Seq<String>) -> Seq<char> {
    join(Seq::new(tags.len(), |i: int| "`"@ + tags[i]@ + "`"@), ", "@)
}

pub open spec fn link_lines(links: Seq<String>) -> Seq<char>
    decreases links.len(),
{
    if links.len() == 0 {
        Seq::empty()
    } else {
        link_lines(links.drop_last()) + "- <"@ + links.last()@ + ">\n"@
    }
}

pub open spec fn tags_text(tags: Seq<String>) -> Seq<char> {
    if tags.len() == 0 {
        Seq::empty()
    } else {
        "Tags: "@ + tag_list(tags) + "\n\n"@
    }
}

pub open spec fn links_text(links: Seq<String>) -> Seq<char> {
    if links.len() == 0 {
        Seq::empty()
    } else {
        "Links:\n\n"@ + link_lines(links) + "\n"@
    }
}

/// A file's heading, summary, tags, owner and links.
pub open spec fn flow_meta(flow: MethodFlow) -> Seq<char> {
    "## "@ + trim(flat(flow.title@)) + "\n\n"@ + (match flow.summary {
        Some(s) => s@ + "\n\n"@,
        None => Seq::empty(),
    }) + tags_text(flow.tags@) + (match flow.owner {
        Some(o) => "Owner: "@ + o@ + "\n\n"@,
        None => Seq::empty(),
    }) + links_text(flow.links@)
}

/// Where a file lives, how to run it, and the sequence diagram of a
/// multi-step file.
pub open spec fn flow_run(flow: MethodFlow) -> Seq<char> {
    "Source: `"@ + flow.file@ + "`\n\n"@ + "Run the file:\n\n```sh\n"@ + "grpctestify run "@
        + flow.file@ + "\n"@ + "```\n\n"@ + if flow.steps@.len() > 1 {
        sequence_text(flow.steps@)
    } else {
        Seq::empty()
    }
}

pub open spec fn flow_head(flow: MethodFlow) -> Seq<char> {
    flow_meta(flow) + flow_run(flow)
}

/// Step `i` of a file on `service`'s page: numbered when the file has several,
/// documented in full when it belongs to this page (or is the only one),
/// pointed at otherwise.
pub open spec fn step_block(
    service: Seq<char>,
    steps: Seq<FlowStep>,
    files: Seq<(Seq<char>, Seq<char>)>,
    i: int,
) -> Seq<char> {
    let step = steps[i];
    let mine = (step.group matches Some(g) && g@ == service) || steps.len() == 1;
    (if steps.len() > 1 {
        "### Step "@ + decimal((i + 1) as nat) + "\n\n"@
    } else {
        Seq::empty()
    }) + if mine {
        step_text(step)
    } else {
        elsewhere_text(step, files)
    }
}

pub open spec fn step_blocks(
    service: Seq<char>,
    steps: Seq<FlowStep>,
    files: Seq<(Seq<char>, Seq<char>)>,
    n: nat,
) -> Seq<char>
    decreases n,
{
    if n == 0 {
        Seq::empty()
    } else {
        step_blocks(service, steps, files, (n - 1) as nat) + step_block(service, steps, files, n - 1)
    }
}

pub open spec fn flow_text(service: Seq<char>, flow: MethodFlow, files: Seq<(Seq<char>, Seq<char>)>) -> Seq<
    char,
> {
    flow_head(flow) + step_blocks(service, flow.steps@, files, flow.steps@.len()) + "---\n\n"@
}

pub open spec fn flows_text(service: Seq<char>, flows: Seq<MethodFlow>, files: Seq<(Seq<char>, Seq<char>)>) -> Seq<
    char,
>
    decreases flows.len(),
{
    if flows.len() == 0 {
        Seq::empty()
    } else {
        flows_text(service, flows.drop_last(), files) + flow_text(service, flows.last(), files)
    }
}

/// A service's page: its title, its coverage line when there is one, and each
/// file that calls it.
pub open spec fn page_text(
    service: Seq<char>,
    flows: Seq<MethodFlow>,
    coverage: Option<Seq<char>>,
    files: Seq<(Seq<char>, Seq<char>)>,
) -> Seq<char> {
    "# "@ + service + "\n\n"@ + (match coverage {
        Some(c) => c + "\n"@,
        None => Seq::empty(),
    }) + flows_text(service, flows, files)
}

fn tags_exec(out: &mut Vec<char>, tags: &Vec<String>)
    ensures
        final(out)@ == old(out)@ + tags_text(tags@),
{
    if tags.len() == 0 {
        assert(out@ =~= old(out)@ + tags_text(tags@));
        return;
    }
    let mut parts: Vec<Vec<char>> = Vec::new();
    let mut i: usize = 0;
    while i < tags.len()
        invariant
            i <= tags.len(),
            views(parts@) == Seq::new(i as nat, |k: int| "`"@ + tags@[k]@ + "`"@),
        decreases tags.len() - i,
    {
        let mut p = chars_of("`");
        push_str(&mut p, tags[i].as_str());
        push_str(&mut p, "`");
        let ghost p0 = views(parts@);
        parts.push(p);
        assert(views(parts@) =~= p0.push("`"@ + tags@[i as int]@ + "`"@));
        assert(views(parts@) =~= Seq::new((i + 1) as nat, |k: int| "`"@ + tags@[k]@ + "`"@));
        i = i + 1;
    }
    let mut t = chars_of("Tags: ");
    push_all(&mut t, &join_lines(&parts, ", "));
    push_str(&mut t, "\n\n");
    assert(t@ =~= tags_text(tags@));
    push_all(out, &t);
}

fn links_exec(out: &mut Vec<char>, links: &Vec<String>)
    ensures
        final(out)@ == old(out)@ + links_text(links@),
{
    if links.len() == 0 {
        assert(out@ =~= old(out)@ + links_text(links@));
        return;
    }
    let mut t = chars_of("Links:\n\n");
    let ghost head = t@;
    let mut i: usize = 0;
    while i < links.len()
        invariant
            i <= links.len(),
            t@ == head + link_lines(links@.take(i as int)),
        decreases links.len() - i,
    {
        push_str(&mut t, "- <");
        push_str(&mut t, links[i].as_str());
        push_str(&mut t, ">\n");
        assert(links@.take(i + 1).drop_last() =~= links@.take(i as int));
        assert(t@ =~= head + link_lines(links@.take(i + 1)));
        i = i + 1;
    }
    assert(links@.take(i as int) =~= links@);
    push_str(&mut t, "\n");
    assert(t@ =~= links_text(links@));
    push_all(out, &t);
}

fn flow_meta_exec(out: &mut Vec<char>, flow: &MethodFlow)
    ensures
        final(out)@ == old(out)@ + flow_meta(*flow),
{
    let mut t = chars_of("## ");
    let title = crate::commands::docs::one_line(flow.title.as_str());
    push_str(&mut t, title.as_str());
    push_str(&mut t, "\n\n");
    match &flow.summary {
        Some(s) => {
            push_str(&mut t, s.as_str());
            push_str(&mut t, "\n\n");
        },
        None => {},
    }
    tags_exec(&mut t, &flow.tags);
    match &flow.owner {
        Some(o) => {
            push_str(&mut t, "Owner: ");
            push_str(&mut t, o.as_str());
            push_str(&mut t, "\n\n");
        },
        None => {},
    }
    links_exec(&mut t, &flow.links);
    assert(t@ =~= flow_meta(*flow));
    push_all(out, &t);
}

fn flow_run_exec(out: &mut Vec<char>, flow: &MethodFlow)
    ensures
        final(out)@ == old(out)@ + flow_run(*flow),
{
    let mut t = chars_of("Source: `");
    push_str(&mut t, flow.file.as_str());
    push_str(&mut t, "`\n\n");
    push_str(&mut t, "Run the file:\n\n```sh\n");
    push_str(&mut t, "grpctestify run ");
    push_str(&mut t, flow.file.as_str());
    push_str(&mut t, "\n");
    push_str(&mut t, "```\n\n");
    if flow.steps.len() > 1 {
        let diagram = render_sequence_diagram(&flow.steps);
        push_str(&mut t, diagram.as_str());
    }
    assert(t@ =~= flow_run(*flow));
    push_all(out, &t);
}

fn flow_head_exec(out: &mut Vec<char>, flow: &MethodFlow)
    ensures
        final(out)@ == old(out)@ + flow_head(*flow),
{
    flow_meta_exec(out, flow);
    flow_run_exec(out, flow);
    assert(out@ =~= old(out)@ + flow_head(*flow));
}

fn step_block_exec(out: &mut Vec<char>, service: &str, flow: &MethodFlow, files: &Vec<(String, String)>, i: usize)
    requires
        i < flow.steps@.len(),
    ensures
        final(out)@ == old(out)@ + step_block(service@, flow.steps@, files_view(files@), i as int),
{
    let step = &flow.steps[i];
    let n = flow.steps.len();
    if n > 1 {
        push_str(out, "### Step ");
        push_all(out, &decimal_chars((i as u64) + 1));
        push_str(out, "\n\n");
    }
    let ghost head = out@;
    let mine = match &step.group {
        Some(g) => crate::text::str_eq(g.as_str(), service),
        None => false,
    } || n == 1;
    if mine {
        let s = render_step(step);
        push_str(out, s.as_str());
    } else {
        let s = render_step_elsewhere(step, files);
        push_str(out, s.as_str());
    }
    assert(out@ =~= old(out)@ + step_block(service@, flow.steps@, files_view(files@), i as int));
}

fn flow_exec(out: &mut Vec<char>, service: &str, flow: &MethodFlow, files: &Vec<(String, String)>)
    ensures
        final(out)@ == old(out)@ + flow_text(service@, *flow, files_view(files@)),
{
    flow_head_exec(out, flow);
    let ghost shead = out@;
    let mut i: usize = 0;
    while i < flow.steps.len()
        invariant
            i <= flow.steps.len(),
            out@ == shead + step_blocks(service@, flow.steps@, files_view(files@), i as nat),
        decreases flow.steps.len() - i,
    {
        step_block_exec(out, service, flow, files, i);
        i = i + 1;
    }
    push_str(out, "---\n\n");
    assert(out@ =~= old(out)@ + flow_text(service@, *flow, files_view(files@)));
}

/// The documentation page of `service` (or HTTP path group): every file that
/// calls it, each step of a file written out in full on the page of its own
/// group and linked to from the others. `coverage` is the page's coverage
/// line when a report was given; `files` names each group's page.
pub fn render_service_page(
    service: &str,
    flows: &Vec<MethodFlow>,
    coverage: Option<&str>,
    files: &Vec<(String, String)>,
) -> (s: String)
    ensures
        s@ == page_text(
            service@,
            flows@,
            match coverage {
                Some(c) => Some(c@),
                None => None,
            },
            files_view(files@),
        ),
{
    let mut out = chars_of("# ");
    push_str(&mut out, service);
    push_str(&mut out, "\n\n");
    match coverage {
        Some(c) => {
            push_str(&mut out, c);
            push_str(&mut out, "\n");
        },
        None => {},
    }
    let ghost head = out@;
    let mut f: usize = 0;
    while f < flows.len()
        invariant
            f <= flows.len(),
            out@ == head + flows_text(service@, flows@.take(f as int), files_view(files@)),
        decreases flows.len() - f,
    {
        flow_exec(&mut out, service, &flows[f], files);
        assert(flows@.take(f + 1).drop_last() =~= flows@.take(f as int));
        f = f + 1;
    }
    assert(flows@.take(f as int) =~= flows@);
    string_from_chars(out.as_slice())
}

/// None of `steps` filed under `service` offers a `grpcurl` line.
pub open spec fn steps_without_grpcurl(service: Seq<char>, steps: Seq<FlowStep>) -> bool
    decreases steps.len(),
{
    if steps.len() == 0 {
        true
    } else {
        steps_without_grpcurl(service, steps.drop_last()) && (steps.last().group matches Some(g)
            && g@ == service ==> steps.last().grpcurl_line is None)
    }
}

pub open spec fn flows_without_grpcurl(service: Seq<char>, flows: Seq<MethodFlow>) -> bool
    decreases flows.len(),
{
    if flows.len() == 0 {
        true
    } else {
        flows_without_grpcurl(service, flows.drop_last()) && steps_without_grpcurl(
            service,
            flows.last().steps@,
        )
    }
}

/// Groups whose calls are all HTTP (none offers a `grpcurl` line).
pub open spec fn http_groups(groups: Seq<(String, Vec<MethodFlow>)>) -> nat
    decreases groups.len(),
{
    if groups.len() == 0 {
        0
    } else {
        http_groups(groups.drop_last()) + if flows_without_grpcurl(
            groups.last().0@,
            groups.last().1@,
        ) {
            1nat
        } else {
            0nat
        }
    }
}

/// `names` added to `out`, each once.
pub open spec fn add_distinct(out: Seq<Seq<char>>, names: Seq<Seq<char>>) -> Seq<Seq<char>>
    decreases names.len(),
{
    if names.len() == 0 {
        out
    } else {
        let o = add_distinct(out, names.drop_last());
        if o.contains(names.last()) {
            o
        } else {
            o.push(names.last())
        }
    }
}

/// The methods of `steps` filed under `service`.
pub open spec fn step_methods(service: Seq<char>, steps: Seq<FlowStep>) -> Seq<Seq<char>>
    decreases steps.len(),
{
    if steps.len() == 0 {
        Seq::empty()
    } else {
        step_methods(service, steps.drop_last()) + match (steps.last().group, steps.last().method) {
            (Some(g), Some(m)) => if g@ == service {
                seq![m@]
            } else {
                Seq::empty()
            },
            _ => Seq::empty(),
        }
    }
}

/// The distinct methods a group's files call on it.
pub open spec fn group_methods(service: Seq<char>, flows: Seq<MethodFlow>) -> Seq<Seq<char>>
    decreases flows.len(),
{
    if flows.len() == 0 {
        Seq::empty()
    } else {
        add_distinct(group_methods(service, flows.drop_last()), step_methods(service, flows.last().steps@))
    }
}

pub open spec fn index_row(g: (String, Vec<MethodFlow>), files: Seq<(Seq<char>, Seq<char>)>) -> Seq<char> {
    "| ["@ + cell_text(g.0@) + "]("@ + page_of(files, g.0@) + ") | "@ + decimal(
        group_methods(g.0@, g.1@).len(),
    ) + " | "@ + decimal(g.1@.len()) + " |\n"@
}

pub open spec fn index_rows(groups: Seq<(String, Vec<MethodFlow>)>, files: Seq<(Seq<char>, Seq<char>)>) -> Seq<
    char,
>
    decreases groups.len(),
{
    if groups.len() == 0 {
        Seq::empty()
    } else {
        index_rows(groups.drop_last(), files) + index_row(groups.last(), files)
    }
}

pub open spec fn unread_lines(unread: Seq<(String, String)>) -> Seq<char>
    decreases unread.len(),
{
    if unread.len() == 0 {
        Seq::empty()
    } else {
        unread_lines(unread.drop_last()) + "- "@ + code_span(unread.last().0@) + " — "@ + trim(
            flat(unread.last().1@),
        ) + "\n"@
    }
}

/// The table head, naming the groups after what they hold: paths when every
/// group is HTTP, services when none is, both otherwise.
pub open spec fn index_head(groups: Seq<(String, Vec<MethodFlow>)>) -> Seq<char> {
    let http = http_groups(groups);
    let heads: (Seq<char>, Seq<char>) = if http == groups.len() && http > 0 {
        ("Path"@, "Endpoints"@)
    } else if http == 0 {
        ("Service"@, "Methods"@)
    } else {
        ("Service or path"@, "Methods"@)
    };
    "| "@ + heads.0 + " | "@ + heads.1 + " | Tests |\n|---|---|---|\n"@
}

pub open spec fn unread_text(unread: Seq<(String, String)>) -> Seq<char> {
    if unread.len() == 0 {
        Seq::empty()
    } else {
        "\n## Not documented\n\n"@ + (if unread.len() == 1 {
            "One file"@
        } else {
            "Some files"@
        }) + " could not be read:\n\n"@ + unread_lines(unread) + "\n"@
    }
}

/// The index page: the overall coverage when a report was given, a table of
/// every group with its method and file counts, and the files that could not
/// be read.
pub open spec fn index_text(
    groups: Seq<(String, Vec<MethodFlow>)>,
    coverage: Option<Seq<char>>,
    unread: Seq<(String, String)>,
    files: Seq<(Seq<char>, Seq<char>)>,
) -> Seq<char> {
    "# API Documentation\n\nGenerated by `grpctestify docs`.\n\n"@ + (match coverage {
        Some(c) => c + "\n\n"@,
        None => Seq::empty(),
    }) + index_head(groups) + index_rows(groups, files) + unread_text(unread)
}

fn steps_without_grpcurl_exec(service: &str, steps: &Vec<FlowStep>) -> (b: bool)
    ensures
        b == steps_without_grpcurl(service@, steps@),
{
    let mut ok = true;
    let mut i: usize = 0;
    while i < steps.len()
        invariant
            i <= steps.len(),
            ok == steps_without_grpcurl(service@, steps@.take(i as int)),
        decreases steps.len() - i,
    {
        let mine = match &steps[i].group {
            Some(g) => crate::text::str_eq(g.as_str(), service),
            None => false,
        };
        assert(steps@.take(i + 1).drop_last() =~= steps@.take(i as int));
        ok = ok && (!mine || steps[i].grpcurl_line.is_none());
        i = i + 1;
    }
    assert(steps@.take(i as int) =~= steps@);
    ok
}

fn flows_without_grpcurl_exec(service: &str, flows: &Vec<MethodFlow>) -> (b: bool)
    ensures
        b == flows_without_grpcurl(service@, flows@),
{
    let mut ok = true;
    let mut i: usize = 0;
    while i < flows.len()
        invariant
            i <= flows.len(),
            ok == flows_without_grpcurl(service@, flows@.take(i as int)),
        decreases flows.len() - i,
    {
        let here = steps_without_grpcurl_exec(service, &flows[i].steps);
        assert(flows@.take(i + 1).drop_last() =~= flows@.take(i as int));
        ok = ok && here;
        i = i + 1;
    }
    assert(flows@.take(i as int) =~= flows@);
    ok
}

fn add_distinct_one(out: &mut Vec<Vec<char>>, name: Vec<char>)
    ensures
        views(final(out)@) == add_distinct(views(old(out)@), seq![name@]),
{
    assert(seq![name@].drop_last() =~= Seq::<Seq<char>>::empty());
    assert(add_distinct(views(out@), seq![name@].drop_last()) == views(out@));
    assert(seq![name@].last() == name@);
    if !contains_chars(out, &name) {
        let ghost o0 = views(out@);
        out.push(name);
        assert(views(out@) =~= o0.push(name@));
    }
}

proof fn lemma_add_distinct_split(out: Seq<Seq<char>>, a: Seq<Seq<char>>, b: Seq<Seq<char>>)
    ensures
        add_distinct(out, a + b) == add_distinct(add_distinct(out, a), b),
    decreases b.len(),
{
    if b.len() == 0 {
        assert(a + b =~= a);
    } else {
        assert((a + b).drop_last() =~= a + b.drop_last());
        lemma_add_distinct_split(out, a, b.drop_last());
    }
}

fn group_methods_exec(service: &str, flows: &Vec<MethodFlow>) -> (m: Vec<Vec<char>>)
    ensures
        views(m@) == group_methods(service@, flows@),
{
    let mut out: Vec<Vec<char>> = Vec::new();
    assert(views(out@) =~= Seq::<Seq<char>>::empty());
    let mut f: usize = 0;
    while f < flows.len()
        invariant
            f <= flows.len(),
            views(out@) == group_methods(service@, flows@.take(f as int)),
        decreases flows.len() - f,
    {
        let steps = &flows[f].steps;
        let ghost base = views(out@);
        let mut i: usize = 0;
        while i < steps.len()
            invariant
                i <= steps.len(),
                views(out@) == add_distinct(base, step_methods(service@, steps@.take(i as int))),
            decreases steps.len() - i,
        {
            let ghost before = step_methods(service@, steps@.take(i as int));
            assert(steps@.take(i + 1).drop_last() =~= steps@.take(i as int));
            match (&steps[i].group, &steps[i].method) {
                (Some(g), Some(m)) => {
                    if crate::text::str_eq(g.as_str(), service) {
                        add_distinct_one(&mut out, text(m));
                        proof {
                            lemma_add_distinct_split(base, before, seq![m@]);
                        }
                    } else {
                        assert(before + Seq::<Seq<char>>::empty() =~= before);
                    }
                },
                _ => {
                    assert(before + Seq::<Seq<char>>::empty() =~= before);
                },
            }
            i = i + 1;
        }
        assert(steps@.take(i as int) =~= steps@);
        assert(flows@.take(f + 1).drop_last() =~= flows@.take(f as int));
        f = f + 1;
    }
    assert(flows@.take(f as int) =~= flows@);
    out
}

fn index_row_exec(out: &mut Vec<char>, g: &(String, Vec<MethodFlow>), files: &Vec<(String, String)>)
    ensures
        final(out)@ == old(out)@ + index_row(*g, files_view(files@)),
{
    let methods = group_methods_exec(g.0.as_str(), &g.1);
    let mut t = chars_of("| [");
    let cell = crate::commands::docs::md_cell(g.0.as_str());
    push_str(&mut t, cell.as_str());
    push_str(&mut t, "](");
    push_all(&mut t, &page_of_exec(files, g.0.as_str()));
    push_str(&mut t, ") | ");
    push_all(&mut t, &decimal_chars(methods.len() as u64));
    push_str(&mut t, " | ");
    push_all(&mut t, &decimal_chars(g.1.len() as u64));
    push_str(&mut t, " |\n");
    assert(t@ =~= index_row(*g, files_view(files@)));
    push_all(out, &t);
}

fn index_head_exec(out: &mut Vec<char>, groups: &Vec<(String, Vec<MethodFlow>)>)
    ensures
        final(out)@ == old(out)@ + index_head(groups@),
{
    let mut http: usize = 0;
    let mut i: usize = 0;
    while i < groups.len()
        invariant
            i <= groups.len(),
            http == http_groups(groups@.take(i as int)),
            http <= i,
        decreases groups.len() - i,
    {
        let here = flows_without_grpcurl_exec(groups[i].0.as_str(), &groups[i].1);
        assert(groups@.take(i + 1).drop_last() =~= groups@.take(i as int));
        if here {
            http = http + 1;
        }
        i = i + 1;
    }
    assert(groups@.take(i as int) =~= groups@);
    let mut t = chars_of("| ");
    if http == groups.len() && http > 0 {
        push_str(&mut t, "Path");
        push_str(&mut t, " | ");
        push_str(&mut t, "Endpoints");
    } else if http == 0 {
        push_str(&mut t, "Service");
        push_str(&mut t, " | ");
        push_str(&mut t, "Methods");
    } else {
        push_str(&mut t, "Service or path");
        push_str(&mut t, " | ");
        push_str(&mut t, "Methods");
    }
    push_str(&mut t, " | Tests |\n|---|---|---|\n");
    assert(t@ =~= index_head(groups@));
    push_all(out, &t);
}

fn unread_exec(out: &mut Vec<char>, unread: &Vec<(String, String)>)
    ensures
        final(out)@ == old(out)@ + unread_text(unread@),
{
    if unread.len() == 0 {
        assert(out@ =~= old(out)@ + unread_text(unread@));
        return;
    }
    let mut t = chars_of("\n## Not documented\n\n");
    if unread.len() == 1 {
        push_str(&mut t, "One file");
    } else {
        push_str(&mut t, "Some files");
    }
    push_str(&mut t, " could not be read:\n\n");
    let ghost uh = t@;
    let mut u: usize = 0;
    while u < unread.len()
        invariant
            u <= unread.len(),
            t@ == uh + unread_lines(unread@.take(u as int)),
        decreases unread.len() - u,
    {
        push_str(&mut t, "- ");
        let code = crate::commands::docs::md_code(unread[u].0.as_str());
        push_str(&mut t, code.as_str());
        push_str(&mut t, " — ");
        let why = crate::commands::docs::one_line(unread[u].1.as_str());
        push_str(&mut t, why.as_str());
        push_str(&mut t, "\n");
        assert(unread@.take(u + 1).drop_last() =~= unread@.take(u as int));
        assert(t@ =~= uh + unread_lines(unread@.take(u + 1)));
        u = u + 1;
    }
    assert(unread@.take(u as int) =~= unread@);
    push_str(&mut t, "\n");
    assert(t@ =~= unread_text(unread@));
    push_all(out, &t);
}

fn index_rows_exec(out: &mut Vec<char>, groups: &Vec<(String, Vec<MethodFlow>)>, files: &Vec<(String, String)>)
    ensures
        final(out)@ == old(out)@ + index_rows(groups@, files_view(files@)),
{
    let ghost head = out@;
    let mut k: usize = 0;
    while k < groups.len()
        invariant
            k <= groups.len(),
            head == old(out)@,
            out@ == head + index_rows(groups@.take(k as int), files_view(files@)),
        decreases groups.len() - k,
    {
        index_row_exec(out, &groups[k], files);
        assert(groups@.take(k + 1).drop_last() =~= groups@.take(k as int));
        assert(out@ =~= head + index_rows(groups@.take(k + 1), files_view(files@)));
        k = k + 1;
    }
    assert(groups@.take(k as int) =~= groups@);
}

/// The index of the documentation pages. `coverage` is the overall coverage
/// line when a report was given; `unread` pairs each file that could not be
/// read with the reason; `files` names each group's page.
pub fn render_index(
    groups: &Vec<(String, Vec<MethodFlow>)>,
    coverage: Option<&str>,
    unread: &Vec<(String, String)>,
    files: &Vec<(String, String)>,
) -> (s: String)
    ensures
        s@ == index_text(
            groups@,
            match coverage {
                Some(c) => Some(c@),
                None => None,
            },
            unread@,
            files_view(files@),
        ),
{
    let mut out = chars_of("# API Documentation\n\nGenerated by `grpctestify docs`.\n\n");
    match coverage {
        Some(c) => {
            push_str(&mut out, c);
            push_str(&mut out, "\n\n");
        },
        None => {},
    }
    index_head_exec(&mut out, groups);
    index_rows_exec(&mut out, groups, files);
    unread_exec(&mut out, unread);
    string_from_chars(out.as_slice())
}

/// The page file of `group`.
pub fn page_name(files: &Vec<(String, String)>, group: &str) -> (p: String)
    ensures
        p@ == page_of(files_view(files@), group@),
{
    string_from_chars(page_of_exec(files, group).as_slice())
}

/// The line kept for `key`, if any.
pub fn line_for(lines: &Vec<(String, String)>, key: &str) -> (l: Option<String>)
    ensures
        match first_in(files_view(lines@), key@) {
            Some(x) => l matches Some(t) && t@ == x,
            None => l is None,
        },
{
    proof {
        lemma_first_in_view(lines@, key@);
    }
    match first_value_exec(lines, key) {
        Some(t) => Some(string_from_chars(t.as_slice())),
        None => None,
    }
}

} // verus!
