//! The command dispatcher: maps a slash-command invocation onto a daemon
//! operation and renders the outcome as display text.
//!
//! One invocation runs the strict chain: recognize the command, probe
//! liveness, build and send one request, render the reply. Each stage is a
//! total function here; the embedding host performs the probe and the HTTP
//! exchange between stages and always receives displayable text back.

use vstd::prelude::*;
use vstd::string::StringExecFns;

use crate::client::DaemonError;
use crate::json::{lookup, lookup_fields, ser_json, str_eq, to_json_text, wf_json, JsonValue,
    SpecJson};

verus! {

/// One slash-command invocation, as the host editor hands it over: the
/// command identifier, its free-text argument, what is known of the editor
/// state, and the project root.
pub struct Invocation {
    pub name: String,
    pub argument: Option<String>,
    pub current_file: Option<String>,
    pub selected_text: Option<String>,
    pub project_path: String,
}

/// What the first stage decides: a terminal reply, or the daemon is needed.
pub enum Step {
    Reply(String),
    Probe,
}

/// Which daemon operation a request goes to.
pub enum Op {
    Index,
    Query,
}

/// A ready-to-send daemon request: the operation and its JSON body.
pub struct DaemonRequest {
    pub op: Op,
    pub body: String,
}

/// What the second stage decides: a terminal reply, or one daemon call.
pub enum ProbeStep {
    Reply(String),
    Call(DaemonRequest),
}

/// The five recognized command identifiers.
pub open spec fn is_known(name: Seq<char>) -> bool {
    ||| name == "explain_file"@
    ||| name == "refactor_function"@
    ||| name == "debug_test"@
    ||| name == "summarize_standards"@
    ||| name == "index_project"@
}

/// The reply to an unrecognized identifier.
pub open spec fn unknown_text(name: Seq<char>) -> Seq<char> {
    "Unknown command: "@ + name
}

/// The remediation message when the daemon is not reachable.
pub open spec fn down_text() -> Seq<char> {
    "Error: AIT daemon is not running.\n\nPlease start it with:\n```bash\ncd daemon\nnpm start <project-path>\n```"@
}

/// The fixed Markdown heading each command's success report starts with.
pub open spec fn heading_text(name: Seq<char>) -> Seq<char> {
    if name == "explain_file"@ {
        "## File Explanation\n\n"@
    } else if name == "refactor_function"@ {
        "## Refactoring Result\n\n"@
    } else if name == "debug_test"@ {
        "## Test Analysis\n\n"@
    } else if name == "summarize_standards"@ {
        "## Project Standards\n\n"@
    } else {
        "## Indexing Result\n\n"@
    }
}

/// The instruction text a query command sends, argument defaults applied.
pub open spec fn task_text(inv: Invocation) -> Seq<char> {
    if inv.name@ == "explain_file"@ {
        match inv.current_file {
            Some(f) => "Explain this file: "@ + f@,
            None => "Explain the current file"@,
        }
    } else if inv.name@ == "refactor_function"@ {
        "Refactor this function: "@ + (match inv.argument {
            Some(a) => a@,
            None => "Improve code quality"@,
        })
    } else if inv.name@ == "debug_test"@ {
        "Why does this test fail? Analyze the test file and related code."@
    } else {
        "Summarize project conventions and standards"@
    }
}

/// The editor-state fields a query command passes along. Fields the editor
/// could not supply are omitted, never fabricated.
pub open spec fn context_fields(inv: Invocation) -> Seq<(Seq<char>, SpecJson)> {
    if inv.name@ == "explain_file"@ {
        match inv.current_file {
            Some(f) => seq![("current_file"@, SpecJson::Str(f@))],
            None => Seq::empty(),
        }
    } else if inv.name@ == "refactor_function"@ {
        match inv.current_file {
            Some(f) => seq![
                ("current_file"@, SpecJson::Str(f@)),
                (
                    "current_symbol"@,
                    SpecJson::Str(
                        match inv.selected_text {
                            Some(t) => t@,
                            None => Seq::empty(),
                        },
                    ),
                ),
                ("files"@, SpecJson::Arr(seq![SpecJson::Str(f@)])),
            ],
            None => Seq::empty(),
        }
    } else if inv.name@ == "debug_test"@ {
        match inv.current_file {
            Some(f) => seq![
                ("current_file"@, SpecJson::Str(f@)),
                ("files"@, SpecJson::Arr(seq![SpecJson::Str(f@)])),
            ],
            None => Seq::empty(),
        }
    } else {
        Seq::empty()
    }
}

/// The Task Request a query command sends: the instruction at top level,
/// and duplicated under `context.task` — the daemon's protocol wants the
/// instruction twice.
pub open spec fn task_request(inv: Invocation) -> SpecJson {
    SpecJson::Obj(
        seq![
            ("task"@, SpecJson::Str(task_text(inv))),
            (
                "context"@,
                SpecJson::Obj(
                    context_fields(inv) + seq![("task"@, SpecJson::Str(task_text(inv)))],
                ),
            ),
        ],
    )
}

/// The Index Request: the project root, and no explicit file list.
pub open spec fn index_request(project_path: Seq<char>) -> SpecJson {
    SpecJson::Obj(
        seq![("project_path"@, SpecJson::Str(project_path)), ("files"@, SpecJson::Null)],
    )
}

/// Whether `name` is one of the five recognized identifiers.
pub fn known_name(name: &str) -> (b: bool)
    ensures
        b == is_known(name@),
{
    str_eq(name, "explain_file") || str_eq(name, "refactor_function") || str_eq(name, "debug_test")
        || str_eq(name, "summarize_standards") || str_eq(name, "index_project")
}

/// First stage: an unrecognized identifier is answered at once, without
/// contacting the daemon; a recognized one asks for the liveness probe.
pub fn dispatch_start(inv: &Invocation) -> (r: Step)
    ensures
        is_known(inv.name@) ==> r is Probe,
        !is_known(inv.name@) ==> (r matches Step::Reply(t) && t@ == unknown_text(inv.name@)),
{
    if known_name(inv.name.as_str()) {
        Step::Probe
    } else {
        Step::Reply("Unknown command: ".to_owned().concat(inv.name.as_str()))
    }
}

/// Builds the JSON body of the Task Request a query command sends.
pub fn build_task_request(inv: &Invocation) -> (r: JsonValue)
    ensures
        r@ == task_request(*inv),
{
    let task: String;
    let mut ctx: Vec<(String, JsonValue)> = Vec::new();
    if str_eq(inv.name.as_str(), "explain_file") {
        match &inv.current_file {
            Some(f) => {
                task = "Explain this file: ".to_owned().concat(f.as_str());
                ctx.push(("current_file".to_owned(), JsonValue::Str(f.clone())));
                proof {
                    assert(crate::json::deep_fields(ctx@)[0] == ("current_file"@, SpecJson::Str(
                        f@,
                    )));
                }
            }
            None => {
                task = "Explain the current file".to_owned();
            }
        }
    } else if str_eq(inv.name.as_str(), "refactor_function") {
        match &inv.argument {
            Some(a) => {
                task = "Refactor this function: ".to_owned().concat(a.as_str());
            }
            None => {
                task = "Refactor this function: ".to_owned().concat("Improve code quality");
            }
        }
        match &inv.current_file {
            Some(f) => {
                ctx.push(("current_file".to_owned(), JsonValue::Str(f.clone())));
                let sel: String = match &inv.selected_text {
                    Some(t) => t.clone(),
                    None => String::new(),
                };
                proof {
                    assert(sel@ == (match inv.selected_text {
                        Some(t) => t@,
                        None => Seq::<char>::empty(),
                    }));
                }
                ctx.push(("current_symbol".to_owned(), JsonValue::Str(sel)));
                let mut files: Vec<JsonValue> = Vec::new();
                files.push(JsonValue::Str(f.clone()));
                let arrv = JsonValue::Arr(files);
                proof {
                    assert(crate::json::deep_seq(arrv->Arr_0@) =~~= seq![SpecJson::Str(f@)]);
                    assert(arrv@ == SpecJson::Arr(seq![SpecJson::Str(f@)]));
                }
                ctx.push(("files".to_owned(), arrv));
                proof {
                    assert(crate::json::deep_fields(ctx@)[0] == context_fields(*inv)[0]);
                    assert(crate::json::deep_fields(ctx@)[1] == context_fields(*inv)[1]);
                    assert(crate::json::deep_fields(ctx@)[2] == context_fields(*inv)[2]);
                }
            }
            None => {}
        }
    } else if str_eq(inv.name.as_str(), "debug_test") {
        task = "Why does this test fail? Analyze the test file and related code.".to_owned();
        match &inv.current_file {
            Some(f) => {
                ctx.push(("current_file".to_owned(), JsonValue::Str(f.clone())));
                let mut files: Vec<JsonValue> = Vec::new();
                files.push(JsonValue::Str(f.clone()));
                let arrv = JsonValue::Arr(files);
                proof {
                    assert(crate::json::deep_seq(arrv->Arr_0@) =~~= seq![SpecJson::Str(f@)]);
                    assert(arrv@ == SpecJson::Arr(seq![SpecJson::Str(f@)]));
                }
                ctx.push(("files".to_owned(), arrv));
                proof {
                    assert(crate::json::deep_fields(ctx@)[0] == context_fields(*inv)[0]);
                    assert(crate::json::deep_fields(ctx@)[1] == context_fields(*inv)[1]);
                }
            }
            None => {}
        }
    } else {
        task = "Summarize project conventions and standards".to_owned();
    }
    proof {
        assert(task@ == task_text(*inv));
        assert(crate::json::deep_fields(ctx@) =~~= context_fields(*inv));
    }
    let ghost pre = ctx@;
    ctx.push(("task".to_owned(), JsonValue::Str(task.clone())));
    proof {
        let whole = context_fields(*inv) + seq![("task"@, SpecJson::Str(task_text(*inv)))];
        assert forall|j: int|
            0 <= j < ctx@.len() implies crate::json::deep_fields(ctx@)[j] == whole[j] by {
            if j < pre.len() {
                assert(ctx@[j] == pre[j]);
                assert(crate::json::deep_fields(pre)[j] == context_fields(*inv)[j]);
            }
        }
        assert(crate::json::deep_fields(ctx@) =~= whole);
    }
    let mut top: Vec<(String, JsonValue)> = Vec::new();
    top.push(("task".to_owned(), JsonValue::Str(task)));
    let ghost ctxview = crate::json::deep_fields(ctx@);
    top.push(("context".to_owned(), JsonValue::Obj(ctx)));
    let r = JsonValue::Obj(top);
    proof {
        let fs = crate::json::deep_fields(top@);
        assert(fs[0] == ("task"@, SpecJson::Str(task_text(*inv))));
        assert(fs[1] == ("context"@, SpecJson::Obj(ctxview)));
        assert(r@->Obj_0 == fs);
        assert(r@->Obj_0 =~= task_request(*inv)->Obj_0);
        assert(r@ == task_request(*inv));
    }
    r
}

/// Builds the JSON body of the Index Request.
pub fn build_index_request(project_path: &String) -> (r: JsonValue)
    ensures
        r@ == index_request(project_path@),
{
    let mut top: Vec<(String, JsonValue)> = Vec::new();
    top.push(("project_path".to_owned(), JsonValue::Str(project_path.clone())));
    top.push(("files".to_owned(), JsonValue::Null));
    let r = JsonValue::Obj(top);
    proof {
        let fs = crate::json::deep_fields(top@);
        assert(top@.len() == 2);
        assert(top@[0].0@ == "project_path"@);
        assert(top@[0].1.deep() == SpecJson::Str(project_path@));
        assert(fs[0] == ("project_path"@, SpecJson::Str(project_path@)));
        assert(fs[1] == ("files"@, SpecJson::Null));
        assert(r@->Obj_0 == fs);
        assert(r@->Obj_0 =~~= index_request(project_path@)->Obj_0);
        assert(r@ == index_request(project_path@));
    }
    r
}

/// Second stage, after the liveness probe. A dead daemon is answered with
/// the remediation message and no `index`/`query` call is made; a live one
/// gets exactly one request, built per the command table.
pub fn dispatch_after_probe(inv: &Invocation, alive: bool) -> (r: ProbeStep)
    ensures
        !is_known(inv.name@) ==> (r matches ProbeStep::Reply(t) && t@ == unknown_text(inv.name@)),
        is_known(inv.name@) && !alive ==> (r matches ProbeStep::Reply(t) && t@ == down_text()),
        is_known(inv.name@) && alive && inv.name@ == "index_project"@ ==> (r matches
            ProbeStep::Call(q) && q.op == Op::Index && q.body@ == ser_json(
            index_request(inv.project_path@),
        )),
        is_known(inv.name@) && alive && inv.name@ != "index_project"@ ==> (r matches
            ProbeStep::Call(q) && q.op == Op::Query && q.body@ == ser_json(task_request(*inv))),
{
    if !known_name(inv.name.as_str()) {
        return ProbeStep::Reply("Unknown command: ".to_owned().concat(inv.name.as_str()));
    }
    if !alive {
        return ProbeStep::Reply(
            "Error: AIT daemon is not running.\n\nPlease start it with:\n```bash\ncd daemon\nnpm start <project-path>\n```".to_owned(),
        );
    }
    if str_eq(inv.name.as_str(), "index_project") {
        let req = build_index_request(&inv.project_path);
        ProbeStep::Call(DaemonRequest { op: Op::Index, body: to_json_text(&req) })
    } else {
        let req = build_task_request(inv);
        ProbeStep::Call(DaemonRequest { op: Op::Query, body: to_json_text(&req) })
    }
}

/// Final stage: renders one daemon outcome as display text. Success gets
/// the command's heading above the daemon's text; any failure becomes one
/// uniform `Error:` line. Nothing escapes as a fault.
pub fn render_outcome(inv: &Invocation, outcome: Result<String, DaemonError>) -> (r: String)
    ensures
        outcome matches Ok(m) ==> (if is_known(inv.name@) {
            r@ == heading_text(inv.name@) + m@
        } else {
            r@ == unknown_text(inv.name@)
        }),
        outcome matches Err(DaemonError::Transport(m)) ==> r@ == "Error: "@ + m@,
        outcome matches Err(DaemonError::Remote(m)) ==> r@ == "Error: "@ + m@,
{
    match outcome {
        Ok(m) => {
            if str_eq(inv.name.as_str(), "explain_file") {
                "## File Explanation\n\n".to_owned().concat(m.as_str())
            } else if str_eq(inv.name.as_str(), "refactor_function") {
                "## Refactoring Result\n\n".to_owned().concat(m.as_str())
            } else if str_eq(inv.name.as_str(), "debug_test") {
                "## Test Analysis\n\n".to_owned().concat(m.as_str())
            } else if str_eq(inv.name.as_str(), "summarize_standards") {
                "## Project Standards\n\n".to_owned().concat(m.as_str())
            } else if str_eq(inv.name.as_str(), "index_project") {
                "## Indexing Result\n\n".to_owned().concat(m.as_str())
            } else {
                "Unknown command: ".to_owned().concat(inv.name.as_str())
            }
        }
        Err(DaemonError::Transport(m)) => "Error: ".to_owned().concat(m.as_str()),
        Err(DaemonError::Remote(m)) => "Error: ".to_owned().concat(m.as_str()),
    }
}

/// With a live daemon whose reply is a success envelope, the dispatcher's
/// output for any of the five commands begins with that command's fixed
/// Markdown heading. `out` is the rendered output: `render_outcome` ensures
/// it is the heading followed by the reply's message, and the message is
/// what `index_outcome` or `query_outcome` returns on a success envelope.
pub proof fn lemma_success_output_heading(name: Seq<char>, env: SpecJson, out: Seq<char>)
    requires
        is_known(name),
        crate::client::envelope_ok(env),
        crate::client::env_success(env),
        out == heading_text(name) + (if name == "index_project"@ {
            crate::client::spec_index_message(env)
        } else {
            crate::client::spec_query_message(env)
        }),
    ensures
        out.len() >= heading_text(name).len(),
        out.take(heading_text(name).len() as int) == heading_text(name),
{
    assert(out.take(heading_text(name).len() as int) =~= heading_text(name));
}

/// With no supplied argument, the refactor command defaults its description:
/// the task it sends reads "Refactor this function: Improve code quality".
pub proof fn lemma_refactor_default(inv: Invocation)
    requires
        inv.name@ == "refactor_function"@,
        inv.argument is None,
    ensures
        task_text(inv) == "Refactor this function: Improve code quality"@,
{
    reveal_strlit("explain_file");
    reveal_strlit("refactor_function");
    reveal_strlit("Refactor this function: ");
    reveal_strlit("Improve code quality");
    reveal_strlit("Refactor this function: Improve code quality");
    assert("explain_file"@.len() == 12);
    assert("refactor_function"@.len() == 17);
    assert(inv.name@ != "explain_file"@);
    assert(task_text(inv) == "Refactor this function: "@ + "Improve code quality"@);
    assert(task_text(inv) =~= "Refactor this function: Improve code quality"@);
}

/// The round trip of a Task Request preserves the instruction: the request
/// the dispatcher builds carries `task` at top level and again under
/// `context.task`, it is well formed, and parsing its serialization yields
/// it back (the parser's contract); so both copies of the task survive
/// serializing and parsing.
pub proof fn lemma_task_round_trip(inv: Invocation)
    ensures
        wf_json(task_request(inv)),
        lookup(task_request(inv), "task"@) == Some(SpecJson::Str(task_text(inv))),
        lookup(task_request(inv), "context"@) matches Some(c) && lookup(c, "task"@) == Some(
            SpecJson::Str(task_text(inv)),
        ),
{
    reveal_strlit("task");
    reveal_strlit("context");
    reveal_strlit("current_file");
    reveal_strlit("current_symbol");
    reveal_strlit("files");
    let q = task_request(inv);
    let fs = q->Obj_0;
    let ctx = context_fields(inv) + seq![("task"@, SpecJson::Str(task_text(inv)))];
    assert(fs[0].0 == "task"@);
    assert(lookup_fields(fs, "task"@) == Some(SpecJson::Str(task_text(inv))));
    assert("context"@.len() == 7);
    assert("task"@.len() == 4);
    assert(fs.skip(1) =~= seq![("context"@, SpecJson::Obj(ctx))]);
    reveal_with_fuel(lookup_fields, 3);
    assert("task"@ != "context"@);
    assert(lookup_fields(fs, "context"@) == Some(SpecJson::Obj(ctx)));
    let cf = context_fields(inv);
    assert forall|j: int| 0 <= j < cf.len() implies cf[j].0 != "task"@ by {
        assert("current_file"@.len() == 12);
        assert("current_symbol"@.len() == 14);
        assert("files"@.len() == 5);
    }
    lemma_lookup_fields_append_miss(cf, ("task"@, SpecJson::Str(task_text(inv))));
    assert(lookup(SpecJson::Obj(ctx), "task"@) == Some(SpecJson::Str(task_text(inv))));
    lemma_context_fields_wf(inv);
    assert forall|j: int| 0 <= j < ctx.len() implies wf_json(#[trigger] ctx[j].1) by {
        if j < cf.len() {
            assert(ctx[j] == cf[j]);
        }
    }
    assert forall|j: int| 0 <= j < fs.len() implies wf_json(#[trigger] fs[j].1) by {}
}

/// Looking up a key that misses every earlier field finds the appended one.
proof fn lemma_lookup_fields_append_miss(
    cf: Seq<(Seq<char>, SpecJson)>,
    last: (Seq<char>, SpecJson),
)
    requires
        forall|j: int| 0 <= j < cf.len() ==> (#[trigger] cf[j]).0 != last.0,
    ensures
        lookup_fields(cf + seq![last], last.0) == Some(last.1),
    decreases cf.len(),
{
    if cf.len() == 0 {
        assert(cf + seq![last] =~= seq![last]);
    } else {
        assert((cf + seq![last])[0] == cf[0]);
        assert((cf + seq![last]).skip(1) =~= cf.skip(1) + seq![last]);
        lemma_lookup_fields_append_miss(cf.skip(1), last);
    }
}

/// Every context field holds a well-formed value: only strings and arrays
/// of strings appear there.
proof fn lemma_context_fields_wf(inv: Invocation)
    ensures
        forall|j: int|
            0 <= j < context_fields(inv).len() ==> wf_json(
                #[trigger] context_fields(inv)[j].1,
            ),
{
    let cf = context_fields(inv);
    assert forall|j: int| 0 <= j < cf.len() implies wf_json(#[trigger] cf[j].1) by {
        if cf[j].1 is Arr {
            let es = cf[j].1->Arr_0;
            assert forall|q: int| 0 <= q < es.len() implies wf_json(#[trigger] es[q]) by {
                assert(es[q] is Str);
            }
        }
    }
}

} // verus!