//! A Model Context Protocol server for BLD, as a pure request handler: one
//! JSON-RPC 2.0 request in, its response out (or none for a notification).
//! It exposes the same behaviour as the rest of the library, so an agent can map
//! a domain, validate and render its topology and check a shipped domain,
//! all through tool calls. Reading and writing the transport is the caller's.

use vstd::prelude::*;
use crate::json::{
    json_entries, json_models, lemma_entries_wf, lemma_present_lookup, members_wf, values_wf,
    array_of, canonical_object, clone_value, int_text, json_parse, json_pretty_text, json_wf, model_get,
    object_of, push_item, push_member, JsonModel, JsonValue, text_equal,
};
use crate::render::{mermaid_text, to_json, to_mermaid, topology_document_of};
use crate::report::{human, human_text, verdict, verdict_text};
use crate::spec::{spec_from_yaml, DomainSpec, ParseError};
use crate::topology::{analysis_of, analyze, count_severity, Analysis, AnalysisV, Severity};
use crate::verify::{drift_list, get_str, get_string, json_cell_entries, report, report_text, spec_cell_entries, verify, VerifyReportV};

verus! {

// ---------------------------------------------------------------------------
// Fixed texts.

/// The spec template served as `bld://example`.
pub const EXAMPLE: &'static str = "# A commented, domain-neutral spec template: an approval workflow.\n#\n# `states` lists every state; `initial` is where a fresh instance starts.\n# Each door lists its `inputs`, and `edges` name the transitions those inputs\n# open. Every (state, input) pair not named is a `no_edge`: a transition that\n# does not exist.\ndomain: approval-workflow\ninitial: Draft\nstates: [Draft, Submitted, UnderReview, Approved, Rejected, Committing, Committed, Cancelled]\n\n# What someone WANTS. An edge with an `effect` reaches out to the world.\nproposal:\n  fixed_table: true\n  inputs: [Submit, StartReview, Approve, Reject, Commit, Cancel]\n  edges:\n    - { from: Draft, input: Submit, to: Submitted }\n    - { from: Draft, input: Cancel, to: Cancelled }\n    - { from: Submitted, input: StartReview, to: UnderReview }\n    - { from: Submitted, input: Cancel, to: Cancelled }\n    - { from: UnderReview, input: Approve, to: Approved }\n    - { from: UnderReview, input: Reject, to: Rejected }\n    - { from: Approved, input: Commit, to: Committing, effect: PerformCommit }\n\n# What the WORLD confirmed, in the domain's vocabulary.\nfact:\n  fixed_table: true\n  inputs: [CommitConfirmed, CommitFailed]\n  edges:\n    - { from: Committing, input: CommitConfirmed, to: Committed }\n    - { from: Committing, input: CommitFailed, to: Approved }\n\n# Deterministic runtime facts. They record a pursuit decision and move no state.\nsystem_event:\n  fixed_table: true\n  inputs: [CommitTimedOut]\n  edges:\n    - { from: Committing, input: CommitTimedOut, records: escalate }\n";

/// The BLD contract and spec format, served as `bld://contract`.
pub const CONTRACT: &'static str = "# The BLD contract, in brief\n\nA probabilistic component proposes; a deterministic boundary disposes. You model a\ndomain as a set of STATES; behaviour belongs to states. Every transition arrives\nthrough one of three doors, by provenance:\n\n- proposal \u{2014} what someone WANTS (intent). Untrusted: a proposal is data, and an\n  existing transition may still be refused by a guard, but a proposal can never\n  create a transition the topology does not have.\n- fact \u{2014} verified external TRUTH, in your vocabulary.\n- system_event \u{2014} a deterministic runtime fact (a retry, a timeout). It records a\n  pursuit decision and moves no state.\n\nFor every (state, input) pair you either name a transition or leave it absent. An\nabsent transition is a path that DOES NOT EXIST \u{2014} not a rule enforced at runtime.\nThat is the whole security idea: illegal outcomes are unreachable by construction,\nand the graph is published so an adversary already has it.\n\n## The tools\n- topology_validate(spec): totality + illegal-edge soundness on a YAML spec.\n- topology_render(spec): topology.json + a Mermaid state diagram.\n- scaffold_domain(spec): a Rust `impl BoundaryDomain` skeleton.\n- scaffold_adversarial(spec): a test asserting every illegal transition is absent.\n\nAuthor the spec in the shape of the `bld://example` resource.";

/// The interview prompt, before the part about the user's description.
pub const PROMPT_HEAD: &'static str = "You are helping map a domain onto Boundary-Led Development. Read the `bld://contract` resource for the model and `bld://example` for the spec shape.\n\nInterview the user to establish, in order:\n1. the STATES the domain can be in, and the one it starts in;\n2. for each state, what a person can DO (proposal inputs) and where each leads \u{2014} mark the ones that reach out to the world as `external` with an effect;\n3. what the WORLD later confirms (fact inputs) and where those lead;\n4. any runtime facts (timeouts/retries) as system_event inputs.\n\nProduce a YAML spec in the shape of `bld://example`. Then call `topology_validate` on it, fix anything it reports, and offer `scaffold_domain`.\n\n";

/// The server's name.
pub open spec fn server_name() -> Seq<char> {
    "bld-mcp"@
}

/// The protocol version answered when the client names none.
pub open spec fn protocol_version() -> Seq<char> {
    "2024-11-05"@
}

// ---------------------------------------------------------------------------
// The responses, as specifications.

/// A string value.
pub open spec fn text(s: Seq<char>) -> JsonModel {
    JsonModel::Str(s)
}

/// `{}`.
pub open spec fn empty_object() -> JsonModel {
    canonical_object(Seq::empty())
}

/// A JSON-RPC error object.
pub open spec fn error_object(code: int, message: Seq<char>) -> JsonModel {
    canonical_object(seq![("code"@, JsonModel::Number(int_text(code))), ("message"@, text(message))])
}

/// The string member `key` of an optional value.
pub open spec fn param_str(params: Option<JsonModel>, key: Seq<char>) -> Option<Seq<char>> {
    match params {
        Some(p) => get_str(p, key),
        None => None,
    }
}

/// The string member `key` of an optional value, or the empty text.
pub open spec fn param_text(params: Option<JsonModel>, key: Seq<char>) -> Seq<char> {
    match param_str(params, key) {
        Some(s) => s,
        None => Seq::empty(),
    }
}

/// The answer to `initialize`: the client's protocol version when it names one.
pub open spec fn initialize_result(params: Option<JsonModel>) -> JsonModel {
    let version = match param_str(params, "protocolVersion"@) {
        Some(v) => v,
        None => protocol_version(),
    };
    canonical_object(seq![
        ("protocolVersion"@, text(version)),
        ("capabilities"@, canonical_object(seq![
            ("tools"@, empty_object()),
            ("resources"@, empty_object()),
            ("prompts"@, empty_object()),
        ])),
        ("serverInfo"@, canonical_object(seq![("name"@, text(server_name())), ("version"@, text("0.1.0"@))])),
    ])
}

/// The schema of the one argument every tool takes.
pub open spec fn spec_schema(verb: Seq<char>) -> JsonModel {
    canonical_object(seq![
        ("type"@, text("object"@)),
        ("properties"@, canonical_object(seq![
            ("spec"@, canonical_object(seq![
                ("type"@, text("string"@)),
                ("description"@, text("the domain spec to "@ + verb + ", as YAML (see the bld://example resource)"@)),
            ])),
        ])),
        ("required"@, JsonModel::Array(seq![text("spec"@)])),
    ])
}

/// One advertised tool.
pub open spec fn tool_entry(name: Seq<char>, description: Seq<char>, verb: Seq<char>) -> JsonModel {
    canonical_object(seq![("name"@, text(name)), ("description"@, text(description)), ("inputSchema"@, spec_schema(verb))])
}

pub open spec fn validate_description() -> Seq<char> {
    "Check a domain spec for totality (every state x input has an entry) and illegal-edge soundness. Returns a report and a VALID/INVALID verdict."@
}

pub open spec fn render_description() -> Seq<char> {
    "Render a domain spec's topology as topology.json (the published graph) plus a Mermaid state diagram."@
}

pub open spec fn scaffold_domain_description() -> Seq<char> {
    "Generate a Rust `impl BoundaryDomain` skeleton from a domain spec: the state/input/effect enums and the three doors, with guards left as TODO and every illegal transition absent."@
}

pub open spec fn scaffold_adversarial_description() -> Seq<char> {
    "Generate a Rust test that asserts every illegal (state, proposal) is Undefined \u{2014} the boundary's structure, witnessed."@
}

/// The advertised tools.
pub open spec fn tools_list() -> JsonModel {
    JsonModel::Array(seq![
        tool_entry("topology_validate"@, validate_description(), "validate"@),
        tool_entry("topology_render"@, render_description(), "render"@),
        tool_entry("scaffold_domain"@, scaffold_domain_description(), "scaffold"@),
        tool_entry("scaffold_adversarial"@, scaffold_adversarial_description(), "scaffold from"@),
    ])
}

/// One served resource.
pub open spec fn resource_entry(uri: Seq<char>, name: Seq<char>, description: Seq<char>, mime: Seq<char>) -> JsonModel {
    canonical_object(seq![
        ("uri"@, text(uri)),
        ("name"@, text(name)),
        ("description"@, text(description)),
        ("mimeType"@, text(mime)),
    ])
}

/// The served resources.
pub open spec fn resources_list() -> JsonModel {
    JsonModel::Array(seq![
        resource_entry("bld://example"@, "Example domain spec"@,
            "A commented, domain-neutral YAML spec to author yours after."@, "text/yaml"@),
        resource_entry("bld://contract"@, "The BLD contract"@,
            "How BLD works and how to shape a domain spec."@, "text/markdown"@),
    ])
}

/// The offered prompts.
pub open spec fn prompts_list() -> JsonModel {
    JsonModel::Array(seq![
        canonical_object(seq![
            ("name"@, text("map_domain"@)),
            ("description"@, text("Interview the user about their domain and produce a BLD spec."@)),
            ("arguments"@, JsonModel::Array(seq![
                canonical_object(seq![
                    ("name"@, text("description"@)),
                    ("description"@, text("a plain-language description of the domain, if you have one"@)),
                    ("required"@, JsonModel::Bool(false)),
                ]),
            ])),
        ]),
    ])
}

/// The body of a `resources/read` answer.
pub open spec fn resource_contents(uri: Seq<char>, mime: Seq<char>, body: Seq<char>) -> JsonModel {
    canonical_object(seq![
        ("contents"@, JsonModel::Array(seq![
            canonical_object(seq![("uri"@, text(uri)), ("mimeType"@, text(mime)), ("text"@, text(body))]),
        ])),
    ])
}

/// The answer to `resources/read`.
pub open spec fn resources_read_result(params: Option<JsonModel>) -> Result<JsonModel, JsonModel> {
    match param_str(params, "uri"@) {
        None => Err(error_object(-32602, "missing resource uri"@)),
        Some(uri) => if uri == "bld://example"@ {
            Ok(resource_contents(uri, "text/yaml"@, EXAMPLE@))
        } else if uri == "bld://contract"@ {
            Ok(resource_contents(uri, "text/markdown"@, CONTRACT@))
        } else {
            Err(error_object(-32602, "unknown resource: "@ + uri))
        },
    }
}

/// The interview prompt, with what the user said of the domain, if anything.
pub open spec fn prompt_text(description: Seq<char>) -> Seq<char> {
    PROMPT_HEAD@ + if description.len() == 0 {
        "The user has not described the domain yet \u{2014} ask them to, in one or two sentences."@
    } else {
        "The user describes their domain as:\n"@ + description
    }
}

/// The description argument of a `prompts/get` request, or the empty text.
pub open spec fn prompt_description(params: Option<JsonModel>) -> Seq<char> {
    match params {
        Some(p) => match model_get(p, "arguments"@) {
            Some(a) => match get_str(a, "description"@) {
                Some(d) => d,
                None => Seq::empty(),
            },
            None => Seq::empty(),
        },
        None => Seq::empty(),
    }
}

/// The answer to `prompts/get`.
pub open spec fn prompts_get_result(params: Option<JsonModel>) -> Result<JsonModel, JsonModel> {
    match param_str(params, "name"@) {
        None => Err(error_object(-32602, "missing prompt name"@)),
        Some(name) => if name != "map_domain"@ {
            Err(error_object(-32602, "unknown prompt: "@ + name))
        } else {
            Ok(canonical_object(seq![
                ("description"@, text("Map a domain onto BLD and produce a validated spec."@)),
                ("messages"@, JsonModel::Array(seq![
                    canonical_object(seq![
                        ("role"@, text("user"@)),
                        ("content"@, canonical_object(seq![
                            ("type"@, text("text"@)),
                            ("text"@, text(prompt_text(prompt_description(params)))),
                        ])),
                    ]),
                ])),
            ]))
        },
    }
}

// ---------------------------------------------------------------------------
// The tools, as specifications.

/// The scaffold generators a tool can ask for.
#[derive(Clone, Copy)]
pub enum ScaffoldKind {
    Domain,
    Adversarial,
    Probe,
}

/// What a tool does with a parsed spec's analysis.
#[derive(Clone, Copy)]
pub enum ToolKind {
    Validate,
    Render,
    Scaffold(ScaffoldKind),
}

/// The analysis has no error.
pub open spec fn sound(a: AnalysisV) -> bool {
    count_severity(a.diagnostics, Severity::Error) == 0
}

/// The text of a tool that could not read its spec.
pub open spec fn parse_failure(e: Seq<char>) -> Seq<char> {
    "the spec did not parse: "@ + ("spec is not valid YAML for this format: "@ + e)
}

/// What `topology_render` answers for an analysis.
pub open spec fn render_text(a: AnalysisV) -> Seq<char> {
    if sound(a) {
        "topology.json:\n"@ + json_pretty_text(topology_document_of(a.topology)) + "\n\ntopology.mmd:\n"@
            + mermaid_text(a.topology)
    } else {
        human_text(a) + "\n"@ + verdict_text(a) + "\n\n(refusing to render an unsound topology)"@
    }
}

/// What a scaffold tool answers for a sound analysis: the generators that
/// write Rust from a topology are not part of this library.
pub open spec fn scaffold_missing_text(kind: ScaffoldKind) -> Seq<char> {
    match kind {
        ScaffoldKind::Domain => "(no generator for `impl BoundaryDomain` skeletons is part of this library)"@,
        ScaffoldKind::Adversarial => "(no generator for adversarial harnesses is part of this library)"@,
        ScaffoldKind::Probe => "(no generator for topology probes is part of this library)"@,
    }
}

/// What a scaffold tool answers: refusal for an unsound topology.
pub open spec fn scaffold_text(a: AnalysisV, kind: ScaffoldKind) -> Seq<char> {
    if sound(a) {
        scaffold_missing_text(kind)
    } else {
        verdict_text(a) + "\n\n(refusing to scaffold from an unsound topology \u{2014} fix the errors first)"@
    }
}

/// What a spec tool answers for an analysis.
pub open spec fn tool_text(tool: ToolKind, a: AnalysisV) -> Seq<char> {
    match tool {
        ToolKind::Validate => human_text(a) + "\n"@ + verdict_text(a),
        ToolKind::Render => render_text(a),
        ToolKind::Scaffold(kind) => scaffold_text(a, kind),
    }
}

/// A spec tool's outcome: its text, or (as a tool error) why the spec did not parse.
pub open spec fn run_outcome(spec: Seq<char>, tool: ToolKind) -> Result<Seq<char>, Seq<char>> {
    match spec_from_yaml(spec) {
        Ok(s) => Ok(tool_text(tool, analysis_of(s))),
        Err(e) => Err(parse_failure(e)),
    }
}

/// `topology_verify`'s outcome.
pub open spec fn verify_outcome(spec: Seq<char>, exported: Seq<char>) -> Result<Seq<char>, Seq<char>> {
    match spec_from_yaml(spec) {
        Err(e) => Err(parse_failure(e)),
        Ok(s) => {
            let a = analysis_of(s);
            if !sound(a) {
                Ok(verdict_text(a) + "\n\n(fix the spec's errors before verifying a domain against it)"@)
            } else {
                match json_parse(exported) {
                    Err(e) => Err("the exported topology.json did not parse: "@ + e),
                    Ok(v) => match json_cell_entries(v) {
                        Err(why) => Err("the exported value is not a topology.json: "@ + why),
                        Ok(domain) => Ok(report_text(VerifyReportV {
                            drifts: drift_list(spec_cell_entries(a.topology.doors), domain),
                        })),
                    },
                }
            }
        },
    }
}

/// A tool's outcome by name; `None` for a tool that does not exist.
pub open spec fn tool_outcome(name: Seq<char>, spec: Seq<char>, exported: Seq<char>) -> Option<Result<Seq<char>, Seq<char>>> {
    if name == "topology_validate"@ {
        Some(run_outcome(spec, ToolKind::Validate))
    } else if name == "topology_render"@ {
        Some(run_outcome(spec, ToolKind::Render))
    } else if name == "scaffold_domain"@ {
        Some(run_outcome(spec, ToolKind::Scaffold(ScaffoldKind::Domain)))
    } else if name == "scaffold_adversarial"@ {
        Some(run_outcome(spec, ToolKind::Scaffold(ScaffoldKind::Adversarial)))
    } else if name == "scaffold_probe"@ {
        Some(run_outcome(spec, ToolKind::Scaffold(ScaffoldKind::Probe)))
    } else if name == "topology_verify"@ {
        Some(verify_outcome(spec, exported))
    } else {
        None
    }
}

/// A tool's result: one text block, flagged when it is a tool error.
pub open spec fn tool_result(body: Seq<char>, is_error: bool) -> JsonModel {
    canonical_object(seq![
        ("content"@, JsonModel::Array(seq![canonical_object(seq![("type"@, text("text"@)), ("text"@, text(body))])])),
        ("isError"@, JsonModel::Bool(is_error)),
    ])
}

/// The answer to `tools/call`.
pub open spec fn tools_call_result(params: Option<JsonModel>) -> Result<JsonModel, JsonModel> {
    match params {
        None => Err(error_object(-32602, "missing params"@)),
        Some(p) => match get_str(p, "name"@) {
            None => Err(error_object(-32602, "missing tool name"@)),
            Some(name) => {
                let args = model_get(p, "arguments"@);
                match tool_outcome(name, param_text(args, "spec"@), param_text(args, "topology"@)) {
                    None => Err(error_object(-32602, "unknown tool: "@ + name)),
                    Some(Ok(body)) => Ok(tool_result(body, false)),
                    Some(Err(body)) => Ok(tool_result(body, true)),
                }
            },
        },
    }
}

/// The outcome of a method: its result, or a JSON-RPC error object.
pub open spec fn method_outcome(method: Seq<char>, params: Option<JsonModel>) -> Result<JsonModel, JsonModel> {
    if method == "initialize"@ {
        Ok(initialize_result(params))
    } else if method == "ping"@ {
        Ok(empty_object())
    } else if method == "tools/list"@ {
        Ok(canonical_object(seq![("tools"@, tools_list())]))
    } else if method == "tools/call"@ {
        tools_call_result(params)
    } else if method == "resources/list"@ {
        Ok(canonical_object(seq![("resources"@, resources_list())]))
    } else if method == "resources/read"@ {
        resources_read_result(params)
    } else if method == "prompts/list"@ {
        Ok(canonical_object(seq![("prompts"@, prompts_list())]))
    } else if method == "prompts/get"@ {
        prompts_get_result(params)
    } else {
        Err(error_object(-32601, "method not found: "@ + method))
    }
}

/// A JSON-RPC response to the request with `id`.
pub open spec fn response_of(id: JsonModel, outcome: Result<JsonModel, JsonModel>) -> JsonModel {
    match outcome {
        Ok(result) => canonical_object(seq![("jsonrpc"@, text("2.0"@)), ("id"@, id), ("result"@, result)]),
        Err(error) => canonical_object(seq![("jsonrpc"@, text("2.0"@)), ("id"@, id), ("error"@, error)]),
    }
}

/// The answer to a request: none for a notification (no `id`).
pub open spec fn dispatch_result(request: JsonModel) -> Option<JsonModel> {
    match model_get(request, "id"@) {
        None => None,
        Some(id) => Some(response_of(
            id,
            method_outcome(param_text(Some(request), "method"@), model_get(request, "params"@)),
        )),
    }
}

// ---------------------------------------------------------------------------
// Building the responses.

/// The model of an optional borrowed value.
pub open spec fn opt_model(p: Option<&JsonValue>) -> Option<JsonModel> {
    match p {
        Some(v) => Some(v@),
        None => None,
    }
}

/// The model of a result or error value.
pub open spec fn result_model(r: Result<JsonValue, JsonValue>) -> Result<JsonModel, JsonModel> {
    match r {
        Ok(v) => Ok(v@),
        Err(e) => Err(e@),
    }
}

/// Both sides of a result are well formed.
pub open spec fn result_wf(r: Result<JsonValue, JsonValue>) -> bool {
    match r {
        Ok(v) => json_wf(v@),
        Err(e) => json_wf(e@),
    }
}

/// The texts of a tool outcome.
pub open spec fn outcome_view(r: Result<String, String>) -> Result<Seq<char>, Seq<char>> {
    match r {
        Ok(t) => Ok(t@),
        Err(t) => Err(t@),
    }
}

/// An empty member list.
fn members() -> (r: Vec<(String, JsonValue)>)
    ensures
        json_entries(r@) == Seq::<(Seq<char>, JsonModel)>::empty(),
        members_wf(r@),
{
    Vec::new()
}

/// An empty item list.
fn items() -> (r: Vec<JsonValue>)
    ensures
        json_models(r@) == Seq::<JsonModel>::empty(),
        values_wf(r@),
{
    Vec::new()
}

/// A string value.
fn str_value(s: &str) -> (r: JsonValue)
    ensures
        r@ == text(s@),
        json_wf(r@),
{
    JsonValue::string(s)
}

/// `{}`.
fn empty_value() -> (r: JsonValue)
    ensures
        r@ == empty_object(),
        json_wf(r@),
{
    object_of(members())
}

/// A JSON-RPC error object.
fn error_value(code: i64, message: &str) -> (r: JsonValue)
    ensures
        r@ == error_object(code as int, message@),
        json_wf(r@),
{
    let mut es = members();
    push_member(&mut es, "code", JsonValue::integer(code));
    push_member(&mut es, "message", str_value(message));
    assert(json_entries(es@) =~= seq![("code"@, JsonModel::Number(int_text(code as int))), ("message"@, text(message@))]);
    object_of(es)
}

/// `prefix` followed by `rest`.
fn joined(prefix: &str, rest: &str) -> (r: String)
    ensures
        r@ == prefix@ + rest@,
{
    let mut out = String::from_str(prefix);
    out.append(rest);
    out
}

/// An invalid-params error whose message ends with `what`.
fn invalid_params(prefix: &str, what: &str) -> (r: JsonValue)
    ensures
        r@ == error_object(-32602, prefix@ + what@),
        json_wf(r@),
{
    let m = joined(prefix, what);
    error_value(-32602, m.as_str())
}

/// The string member `key` of an optional value.
fn param_string<'a>(params: Option<&'a JsonValue>, key: &str) -> (r: Option<&'a String>)
    ensures
        match r {
            Some(s) => param_str(opt_model(params), key@) == Some(s@),
            None => param_str(opt_model(params), key@) is None,
        },
{
    match params {
        Some(p) => get_string(p, key),
        None => None,
    }
}

/// The answer to `initialize`.
fn initialize(params: Option<&JsonValue>) -> (r: JsonValue)
    ensures
        r@ == initialize_result(opt_model(params)),
        json_wf(r@),
{
    let version = match param_string(params, "protocolVersion") {
        Some(v) => str_value(v.as_str()),
        None => str_value("2024-11-05"),
    };
    let mut caps = members();
    push_member(&mut caps, "tools", empty_value());
    push_member(&mut caps, "resources", empty_value());
    push_member(&mut caps, "prompts", empty_value());
    let mut info = members();
    push_member(&mut info, "name", str_value("bld-mcp"));
    push_member(&mut info, "version", str_value("0.1.0"));
    let mut es = members();
    push_member(&mut es, "protocolVersion", version);
    push_member(&mut es, "capabilities", object_of(caps));
    push_member(&mut es, "serverInfo", object_of(info));
    assert(json_entries(caps@) =~= seq![("tools"@, empty_object()), ("resources"@, empty_object()), ("prompts"@, empty_object())]);
    assert(json_entries(info@) =~= seq![("name"@, text(server_name())), ("version"@, text("0.1.0"@))]);
    assert(json_entries(es@) =~= seq![
        ("protocolVersion"@, version@),
        ("capabilities"@, canonical_object(json_entries(caps@))),
        ("serverInfo"@, canonical_object(json_entries(info@))),
    ]);
    object_of(es)
}

/// The schema of the one argument every tool takes.
fn spec_schema_value(verb: &str) -> (r: JsonValue)
    ensures
        r@ == spec_schema(verb@),
        json_wf(r@),
{
    let mut description = String::from_str("the domain spec to ");
    description.append(verb);
    description.append(", as YAML (see the bld://example resource)");
    let mut spec_prop = members();
    push_member(&mut spec_prop, "type", str_value("string"));
    push_member(&mut spec_prop, "description", str_value(description.as_str()));
    let mut props = members();
    push_member(&mut props, "spec", object_of(spec_prop));
    let mut required = items();
    push_item(&mut required, str_value("spec"));
    let mut es = members();
    push_member(&mut es, "type", str_value("object"));
    push_member(&mut es, "properties", object_of(props));
    push_member(&mut es, "required", array_of(required));
    assert(description@ =~= "the domain spec to "@ + verb@ + ", as YAML (see the bld://example resource)"@);
    assert(json_entries(spec_prop@) =~= seq![("type"@, text("string"@)), ("description"@, text(description@))]);
    assert(json_entries(props@) =~= seq![("spec"@, canonical_object(json_entries(spec_prop@)))]);
    assert(json_models(required@) =~= seq![text("spec"@)]);
    assert(json_entries(es@) =~= seq![
        ("type"@, text("object"@)),
        ("properties"@, canonical_object(json_entries(props@))),
        ("required"@, JsonModel::Array(json_models(required@))),
    ]);
    object_of(es)
}

/// One advertised tool.
fn tool_value(name: &str, description: &str, verb: &str) -> (r: JsonValue)
    ensures
        r@ == tool_entry(name@, description@, verb@),
        json_wf(r@),
{
    let mut es = members();
    push_member(&mut es, "name", str_value(name));
    push_member(&mut es, "description", str_value(description));
    push_member(&mut es, "inputSchema", spec_schema_value(verb));
    assert(json_entries(es@) =~= seq![("name"@, text(name@)), ("description"@, text(description@)), ("inputSchema"@, spec_schema(verb@))]);
    object_of(es)
}

/// The answer to `tools/list`.
fn tools() -> (r: JsonValue)
    ensures
        r@ == canonical_object(seq![("tools"@, tools_list())]),
        json_wf(r@),
{
    let mut list = items();
    push_item(&mut list, tool_value(
        "topology_validate",
        "Check a domain spec for totality (every state x input has an entry) and illegal-edge soundness. Returns a report and a VALID/INVALID verdict.",
        "validate",
    ));
    push_item(&mut list, tool_value(
        "topology_render",
        "Render a domain spec's topology as topology.json (the published graph) plus a Mermaid state diagram.",
        "render",
    ));
    push_item(&mut list, tool_value(
        "scaffold_domain",
        "Generate a Rust `impl BoundaryDomain` skeleton from a domain spec: the state/input/effect enums and the three doors, with guards left as TODO and every illegal transition absent.",
        "scaffold",
    ));
    push_item(&mut list, tool_value(
        "scaffold_adversarial",
        "Generate a Rust test that asserts every illegal (state, proposal) is Undefined \u{2014} the boundary's structure, witnessed.",
        "scaffold from",
    ));
    assert(json_models(list@) =~= tools_list()->Array_0);
    let mut es = members();
    push_member(&mut es, "tools", array_of(list));
    assert(json_entries(es@) =~= seq![("tools"@, tools_list())]);
    object_of(es)
}

/// One served resource.
fn resource_value(uri: &str, name: &str, description: &str, mime: &str) -> (r: JsonValue)
    ensures
        r@ == resource_entry(uri@, name@, description@, mime@),
        json_wf(r@),
{
    let mut es = members();
    push_member(&mut es, "uri", str_value(uri));
    push_member(&mut es, "name", str_value(name));
    push_member(&mut es, "description", str_value(description));
    push_member(&mut es, "mimeType", str_value(mime));
    assert(json_entries(es@) =~= seq![
        ("uri"@, text(uri@)),
        ("name"@, text(name@)),
        ("description"@, text(description@)),
        ("mimeType"@, text(mime@)),
    ]);
    object_of(es)
}

/// The answer to `resources/list`.
fn resources() -> (r: JsonValue)
    ensures
        r@ == canonical_object(seq![("resources"@, resources_list())]),
        json_wf(r@),
{
    let mut list = items();
    push_item(&mut list, resource_value(
        "bld://example",
        "Example domain spec",
        "A commented, domain-neutral YAML spec to author yours after.",
        "text/yaml",
    ));
    push_item(&mut list, resource_value(
        "bld://contract",
        "The BLD contract",
        "How BLD works and how to shape a domain spec.",
        "text/markdown",
    ));
    assert(json_models(list@) =~= resources_list()->Array_0);
    let mut es = members();
    push_member(&mut es, "resources", array_of(list));
    assert(json_entries(es@) =~= seq![("resources"@, resources_list())]);
    object_of(es)
}

/// The answer to `prompts/list`.
fn prompts() -> (r: JsonValue)
    ensures
        r@ == canonical_object(seq![("prompts"@, prompts_list())]),
        json_wf(r@),
{
    let mut arg = members();
    push_member(&mut arg, "name", str_value("description"));
    push_member(&mut arg, "description", str_value("a plain-language description of the domain, if you have one"));
    push_member(&mut arg, "required", JsonValue::Bool(false));
    let mut args = items();
    push_item(&mut args, object_of(arg));
    let mut prompt = members();
    push_member(&mut prompt, "name", str_value("map_domain"));
    push_member(&mut prompt, "description", str_value("Interview the user about their domain and produce a BLD spec."));
    push_member(&mut prompt, "arguments", array_of(args));
    let mut list = items();
    push_item(&mut list, object_of(prompt));
    let mut es = members();
    push_member(&mut es, "prompts", array_of(list));
    assert(json_entries(arg@) =~= seq![
        ("name"@, text("description"@)),
        ("description"@, text("a plain-language description of the domain, if you have one"@)),
        ("required"@, JsonModel::Bool(false)),
    ]);
    assert(json_models(args@) =~= seq![canonical_object(json_entries(arg@))]);
    assert(json_entries(prompt@) =~= seq![
        ("name"@, text("map_domain"@)),
        ("description"@, text("Interview the user about their domain and produce a BLD spec."@)),
        ("arguments"@, JsonModel::Array(json_models(args@))),
    ]);
    assert(json_models(list@) =~= prompts_list()->Array_0);
    assert(json_entries(es@) =~= seq![("prompts"@, prompts_list())]);
    object_of(es)
}

/// The body of a `resources/read` answer.
fn contents_value(uri: &str, mime: &str, body: &str) -> (r: JsonValue)
    ensures
        r@ == resource_contents(uri@, mime@, body@),
        json_wf(r@),
{
    let mut entry = members();
    push_member(&mut entry, "uri", str_value(uri));
    push_member(&mut entry, "mimeType", str_value(mime));
    push_member(&mut entry, "text", str_value(body));
    let mut list = items();
    push_item(&mut list, object_of(entry));
    let mut es = members();
    push_member(&mut es, "contents", array_of(list));
    assert(json_entries(entry@) =~= seq![("uri"@, text(uri@)), ("mimeType"@, text(mime@)), ("text"@, text(body@))]);
    assert(json_models(list@) =~= seq![canonical_object(json_entries(entry@))]);
    assert(json_entries(es@) =~= seq![("contents"@, JsonModel::Array(json_models(list@)))]);
    object_of(es)
}

/// The answer to `resources/read`.
fn resources_read(params: Option<&JsonValue>) -> (r: Result<JsonValue, JsonValue>)
    ensures
        result_model(r) == resources_read_result(opt_model(params)),
        result_wf(r),
{
    match param_string(params, "uri") {
        None => Err(error_value(-32602, "missing resource uri")),
        Some(uri) => {
            if text_equal(uri.as_str(), "bld://example") {
                Ok(contents_value(uri.as_str(), "text/yaml", EXAMPLE))
            } else if text_equal(uri.as_str(), "bld://contract") {
                Ok(contents_value(uri.as_str(), "text/markdown", CONTRACT))
            } else {
                Err(invalid_params("unknown resource: ", uri.as_str()))
            }
        },
    }
}

/// The interview prompt, with what the user said of the domain, if anything.
fn prompt_body(description: &str) -> (r: String)
    ensures
        r@ == prompt_text(description@),
{
    let mut out = String::from_str(PROMPT_HEAD);
    if description.unicode_len() == 0 {
        out.append("The user has not described the domain yet \u{2014} ask them to, in one or two sentences.");
    } else {
        out.append("The user describes their domain as:\n");
        out.append(description);
    }
    assert(out@ =~= prompt_text(description@));
    out
}

/// The answer to `prompts/get`.
fn prompts_get(params: Option<&JsonValue>) -> (r: Result<JsonValue, JsonValue>)
    ensures
        result_model(r) == prompts_get_result(opt_model(params)),
        result_wf(r),
{
    let name = match param_string(params, "name") {
        None => return Err(error_value(-32602, "missing prompt name")),
        Some(name) => name,
    };
    if !text_equal(name.as_str(), "map_domain") {
        return Err(invalid_params("unknown prompt: ", name.as_str()));
    }
    let none = String::new();
    let arguments = match params {
        Some(p) => p.get("arguments"),
        None => None,
    };
    let description = match param_string(arguments, "description") {
        Some(d) => d.as_str(),
        None => none.as_str(),
    };
    assert(description@ == prompt_description(opt_model(params)));
    let body = prompt_body(description);
    let mut content = members();
    push_member(&mut content, "type", str_value("text"));
    push_member(&mut content, "text", str_value(body.as_str()));
    let mut message = members();
    push_member(&mut message, "role", str_value("user"));
    push_member(&mut message, "content", object_of(content));
    let mut messages = items();
    push_item(&mut messages, object_of(message));
    let mut es = members();
    push_member(&mut es, "description", str_value("Map a domain onto BLD and produce a validated spec."));
    push_member(&mut es, "messages", array_of(messages));
    assert(json_entries(content@) =~= seq![("type"@, text("text"@)), ("text"@, text(body@))]);
    assert(json_entries(message@) =~= seq![("role"@, text("user"@)), ("content"@, canonical_object(json_entries(content@)))]);
    assert(json_models(messages@) =~= seq![canonical_object(json_entries(message@))]);
    assert(json_entries(es@) =~= seq![
        ("description"@, text("Map a domain onto BLD and produce a validated spec."@)),
        ("messages"@, JsonModel::Array(json_models(messages@))),
    ]);
    Ok(object_of(es))
}

// ---------------------------------------------------------------------------
// Running the tools.

/// The text of a tool that could not read its spec.
fn parse_failure_text(error: &ParseError) -> (r: String)
    requires
        error is Yaml,
    ensures
        r@ == parse_failure(error->Yaml_0@),
{
    let message = error.message();
    joined("the spec did not parse: ", message.as_str())
}

/// What `topology_validate` answers for an analysis.
fn validate_text(a: &Analysis) -> (r: String)
    ensures
        r@ == tool_text(ToolKind::Validate, a@),
{
    let mut out = human(a);
    out.append("\n");
    let v = verdict(a);
    out.append(v.as_str());
    out
}

/// What `topology_render` answers for an analysis.
fn render_answer(a: &Analysis) -> (r: String)
    ensures
        r@ == render_text(a@),
{
    if a.is_sound() {
        let mut out = String::from_str("topology.json:\n");
        let document = to_json(&a.topology);
        out.append(document.as_str());
        out.append("\n\ntopology.mmd:\n");
        let diagram = to_mermaid(&a.topology);
        out.append(diagram.as_str());
        out
    } else {
        let mut out = human(a);
        out.append("\n");
        let v = verdict(a);
        out.append(v.as_str());
        out.append("\n\n(refusing to render an unsound topology)");
        out
    }
}

/// What a scaffold tool answers for an analysis.
fn scaffold_answer(a: &Analysis, kind: ScaffoldKind) -> (r: String)
    ensures
        r@ == scaffold_text(a@, kind),
{
    if a.is_sound() {
        match kind {
            ScaffoldKind::Domain => String::from_str(
                "(no generator for `impl BoundaryDomain` skeletons is part of this library)",
            ),
            ScaffoldKind::Adversarial => String::from_str(
                "(no generator for adversarial harnesses is part of this library)",
            ),
            ScaffoldKind::Probe => String::from_str("(no generator for topology probes is part of this library)"),
        }
    } else {
        let mut out = verdict(a);
        out.append("\n\n(refusing to scaffold from an unsound topology \u{2014} fix the errors first)");
        out
    }
}

/// Parses a spec and answers for its analysis as `tool` does; a spec that
/// does not parse is the tool's error.
pub fn run(spec: &str, tool: ToolKind) -> (r: Result<String, String>)
    ensures
        outcome_view(r) == run_outcome(spec@, tool),
{
    match DomainSpec::from_yaml(spec) {
        Ok(parsed) => {
            let a = analyze(&parsed);
            let body = match tool {
                ToolKind::Validate => validate_text(&a),
                ToolKind::Render => render_answer(&a),
                ToolKind::Scaffold(kind) => scaffold_answer(&a, kind),
            };
            Ok(body)
        },
        Err(error) => Err(parse_failure_text(&error)),
    }
}

/// Checks an exported `topology.json` against a spec. A spec or a document
/// that does not read is the tool's error; a sound spec and a readable
/// document give the drift report.
pub fn run_verify(spec: &str, exported: &str) -> (r: Result<String, String>)
    ensures
        outcome_view(r) == verify_outcome(spec@, exported@),
{
    let parsed = match DomainSpec::from_yaml(spec) {
        Ok(parsed) => parsed,
        Err(error) => return Err(parse_failure_text(&error)),
    };
    let analysis = analyze(&parsed);
    if !analysis.is_sound() {
        let mut out = verdict(&analysis);
        out.append("\n\n(fix the spec's errors before verifying a domain against it)");
        return Ok(out);
    }
    let value = match JsonValue::parse(exported) {
        Ok(value) => value,
        Err(error) => return Err(joined("the exported topology.json did not parse: ", error.as_str())),
    };
    match verify(&analysis.topology, &value) {
        Ok(result) => Ok(report(&result)),
        Err(why) => Err(joined("the exported value is not a topology.json: ", why.as_str())),
    }
}

/// Runs the tool called `name`; `None` when there is no such tool.
pub fn call_tool(name: &str, spec: &str, exported: &str) -> (r: Option<Result<String, String>>)
    ensures
        match r {
            Some(o) => tool_outcome(name@, spec@, exported@) == Some(outcome_view(o)),
            None => tool_outcome(name@, spec@, exported@) is None,
        },
{
    if text_equal(name, "topology_validate") {
        Some(run(spec, ToolKind::Validate))
    } else if text_equal(name, "topology_render") {
        Some(run(spec, ToolKind::Render))
    } else if text_equal(name, "scaffold_domain") {
        Some(run(spec, ToolKind::Scaffold(ScaffoldKind::Domain)))
    } else if text_equal(name, "scaffold_adversarial") {
        Some(run(spec, ToolKind::Scaffold(ScaffoldKind::Adversarial)))
    } else if text_equal(name, "scaffold_probe") {
        Some(run(spec, ToolKind::Scaffold(ScaffoldKind::Probe)))
    } else if text_equal(name, "topology_verify") {
        Some(run_verify(spec, exported))
    } else {
        None
    }
}

/// A tool's result: one text block, flagged when it is a tool error.
fn tool_result_value(body: &str, is_error: bool) -> (r: JsonValue)
    ensures
        r@ == tool_result(body@, is_error),
        json_wf(r@),
{
    let mut block = members();
    push_member(&mut block, "type", str_value("text"));
    push_member(&mut block, "text", str_value(body));
    let mut content = items();
    push_item(&mut content, object_of(block));
    let mut es = members();
    push_member(&mut es, "content", array_of(content));
    push_member(&mut es, "isError", JsonValue::Bool(is_error));
    assert(json_entries(block@) =~= seq![("type"@, text("text"@)), ("text"@, text(body@))]);
    assert(json_models(content@) =~= seq![canonical_object(json_entries(block@))]);
    assert(json_entries(es@) =~= seq![
        ("content"@, JsonModel::Array(json_models(content@))),
        ("isError"@, JsonModel::Bool(is_error)),
    ]);
    object_of(es)
}

/// The answer to `tools/call`.
fn tools_call(params: Option<&JsonValue>) -> (r: Result<JsonValue, JsonValue>)
    ensures
        result_model(r) == tools_call_result(opt_model(params)),
        result_wf(r),
{
    let p = match params {
        None => return Err(error_value(-32602, "missing params")),
        Some(p) => p,
    };
    let name = match get_string(p, "name") {
        None => return Err(error_value(-32602, "missing tool name")),
        Some(name) => name,
    };
    let args = p.get("arguments");
    let none = String::new();
    let spec = match param_string(args, "spec") {
        Some(s) => s.as_str(),
        None => none.as_str(),
    };
    let exported = match param_string(args, "topology") {
        Some(s) => s.as_str(),
        None => none.as_str(),
    };
    assert(spec@ == param_text(model_get(p@, "arguments"@), "spec"@));
    assert(exported@ == param_text(model_get(p@, "arguments"@), "topology"@));
    match call_tool(name.as_str(), spec, exported) {
        None => Err(invalid_params("unknown tool: ", name.as_str())),
        Some(Ok(body)) => Ok(tool_result_value(body.as_str(), false)),
        Some(Err(body)) => Ok(tool_result_value(body.as_str(), true)),
    }
}

/// The outcome of `method`: its result, or a JSON-RPC error object.
fn method_result(method: &str, params: Option<&JsonValue>) -> (r: Result<JsonValue, JsonValue>)
    ensures
        result_model(r) == method_outcome(method@, opt_model(params)),
        result_wf(r),
{
    if text_equal(method, "initialize") {
        Ok(initialize(params))
    } else if text_equal(method, "ping") {
        Ok(empty_value())
    } else if text_equal(method, "tools/list") {
        Ok(tools())
    } else if text_equal(method, "tools/call") {
        tools_call(params)
    } else if text_equal(method, "resources/list") {
        Ok(resources())
    } else if text_equal(method, "resources/read") {
        resources_read(params)
    } else if text_equal(method, "prompts/list") {
        Ok(prompts())
    } else if text_equal(method, "prompts/get") {
        prompts_get(params)
    } else {
        let m = joined("method not found: ", method);
        Err(error_value(-32601, m.as_str()))
    }
}

/// A member of a well-formed object is well formed.
proof fn lemma_member_wf(m: JsonModel, key: Seq<char>)
    requires
        json_wf(m),
        model_get(m, key) is Some,
    ensures
        json_wf(model_get(m, key)->Some_0),
{
    let es = m->Object_0;
    lemma_present_lookup(es, key);
    lemma_entries_wf(es);
}

/// Handles one JSON-RPC request: the response, or `None` for a notification
/// (a request without an `id`, such as `notifications/initialized`).
pub fn dispatch(request: &JsonValue) -> (r: Option<JsonValue>)
    ensures
        match r {
            Some(response) => dispatch_result(request@) == Some(response@),
            None => dispatch_result(request@) is None,
        },
        json_wf(request@) ==> match r {
            Some(response) => json_wf(response@),
            None => true,
        },
{
    let id = match request.get("id") {
        None => return None,
        Some(id) => clone_value(id),
    };
    proof {
        if json_wf(request@) {
            lemma_member_wf(request@, "id"@);
        }
    }
    let none = String::new();
    let method = match get_string(request, "method") {
        Some(m) => m.as_str(),
        None => none.as_str(),
    };
    let outcome = method_result(method, request.get("params"));
    Some(response_value(id, outcome))
}

/// A JSON-RPC response to the request with `id`.
fn response_value(id: JsonValue, outcome: Result<JsonValue, JsonValue>) -> (r: JsonValue)
    ensures
        r@ == response_of(id@, result_model(outcome)),
        json_wf(id@) && result_wf(outcome) ==> json_wf(r@),
{
    let mut es = members();
    push_member(&mut es, "jsonrpc", str_value("2.0"));
    let ghost idm = id@;
    push_member(&mut es, "id", id);
    match outcome {
        Ok(result) => {
            let ghost rm = result@;
            push_member(&mut es, "result", result);
            assert(json_entries(es@) =~= seq![("jsonrpc"@, text("2.0"@)), ("id"@, idm), ("result"@, rm)]);
        },
        Err(error) => {
            let ghost em = error@;
            push_member(&mut es, "error", error);
            assert(json_entries(es@) =~= seq![("jsonrpc"@, text("2.0"@)), ("id"@, idm), ("error"@, em)]);
        },
    }
    object_of(es)
}

/// The answer to a line that is not JSON: a parse error, with a null `id`.
pub open spec fn parse_error_reply() -> JsonModel {
    response_of(JsonModel::Null, Err(error_object(-32700, "parse error"@)))
}

/// The response to a line that is not JSON text.
pub fn parse_error_response() -> (r: JsonValue)
    ensures
        r@ == parse_error_reply(),
        json_wf(r@),
{
    response_value(JsonValue::Null, Err(error_value(-32700, "parse error")))
}

} // verus!
