//! Concrete witnesses of what the library promises as a whole, and of each
//! error it can answer with.

use bld::json::JsonValue;
use bld::mcp::{call_tool, dispatch, run, run_verify, ToolKind, EXAMPLE, CONTRACT};
use bld::report::{human, verdict};
use bld::spec::{DomainSpec, DoorName, ParseError};
use bld::text::decimal_string;
use bld::topology::{analyze, Analysis, EdgeKind, Severity};
use bld::verify::{report, verify};
use bld::yaml::YamlValue;
use bld::render::{to_json, to_mermaid};

const SMALL: &str = "domain: d\ninitial: A\nstates: [A, B]\n\
                     proposal:\n  inputs: [go, stop]\n  edges:\n    - { from: A, input: go, to: B }\n";

fn analysis_of(yaml: &str) -> Analysis {
    analyze(&DomainSpec::from_yaml(yaml).expect("spec parses"))
}

fn errors(analysis: &Analysis) -> Vec<String> {
    analysis
        .diagnostics
        .iter()
        .filter(|d| matches!(d.severity, Severity::Error))
        .map(|d| d.message.clone())
        .collect()
}

fn response(request: &str) -> Option<serde_json::Value> {
    let request = JsonValue::parse(request).expect("valid request");
    dispatch(&request).map(|r| serde_json::from_str(&r.to_text()).expect("valid response"))
}

fn quoted(s: &str) -> String {
    serde_json::Value::String(s.to_owned()).to_string()
}

// The grid.

#[test]
fn the_grid_is_state_major_and_unnamed_pairs_are_no_edge() {
    let analysis = analysis_of(SMALL);
    let door = &analysis.topology.doors[0];
    let pairs: Vec<(&str, &str)> = door.cells.iter().map(|c| (c.from.as_str(), c.input.as_str())).collect();
    assert_eq!(pairs, vec![("A", "go"), ("A", "stop"), ("B", "go"), ("B", "stop")]);
    assert_eq!(door.cells[0].kind, EdgeKind::Local { to: "B".to_owned() });
    for cell in &door.cells[1..] {
        assert_eq!(cell.kind, EdgeKind::NoEdge);
    }
    assert_eq!(analysis.no_edge_count(), 3);
}

#[test]
fn a_later_edge_for_a_cell_is_the_one_in_the_grid() {
    let analysis = analysis_of(
        "domain: d\ninitial: A\nstates: [A, B]\n\
         proposal:\n  inputs: [go]\n  edges:\n    - { from: A, input: go, to: B }\n    - { from: A, input: go, to: A }\n",
    );
    assert_eq!(analysis.topology.doors[0].cells[0].kind, EdgeKind::Local { to: "A".to_owned() });
}

#[test]
fn no_system_event_cell_moves_state() {
    let analysis = analysis_of(EXAMPLE);
    let door = analysis
        .topology
        .doors
        .iter()
        .find(|d| d.name == DoorName::SystemEvent)
        .expect("the example has a system_event door");
    assert!(door
        .cells
        .iter()
        .all(|c| matches!(c.kind, EdgeKind::Record { .. } | EdgeKind::NoEdge)));
}

#[test]
fn the_diagram_draws_only_cells_that_move_state() {
    let analysis = analysis_of(SMALL);
    assert_eq!(to_mermaid(&analysis.topology), "stateDiagram-v2\n    [*] --> A\n    A --> B: go\n");
}

#[test]
fn a_fact_is_marked_in_the_diagram() {
    let analysis = analysis_of(EXAMPLE);
    let diagram = to_mermaid(&analysis.topology);
    assert!(diagram.contains("    Committing --> Committed: CommitConfirmed (fact)\n"));
    assert!(diagram.contains("    Approved --> Committing: Commit / PerformCommit\n"));
}

// Soundness.

#[test]
fn each_authoring_rule_is_an_error_of_its_own() {
    let empty = analysis_of("domain: d\ninitial: A\nstates: []\nproposal:\n  inputs: [go]\n");
    assert_eq!(
        errors(&empty),
        vec![
            "the domain declares no states".to_owned(),
            "initial state `A` is not one of the declared states".to_owned(),
        ]
    );
    let cases: [(&str, &str); 6] = [
        ("domain: d\ninitial: A\nstates: [A, A]\nproposal:\n  inputs: [go]\n", "state `A` is declared twice"),
        ("domain: d\ninitial: Z\nstates: [A]\nproposal:\n  inputs: [go]\n", "initial state `Z` is not one of the declared states"),
        ("domain: d\ninitial: A\nstates: [A]\nproposal:\n  inputs: []\n", "door `proposal` declares no inputs"),
        (
            "domain: d\ninitial: A\nstates: [A]\nproposal:\n  inputs: [go]\n  edges:\n    - { from: Q, input: go, to: A }\n",
            "door `proposal`: edge `from: Q` is not a declared state",
        ),
        (
            "domain: d\ninitial: A\nstates: [A]\nproposal:\n  inputs: [go]\nfact:\n  inputs: [ok]\n  edges:\n    - { from: A, input: ok, to: A, effect: E }\n",
            "door `fact`: edge (`A`, `ok`) must not carry `effect`",
        ),
        (
            "domain: d\ninitial: A\nstates: [A]\nproposal:\n  inputs: [go]\n  edges:\n    - { from: A, input: go, to: A, records: r }\n",
            "door `proposal`: edge (`A`, `go`) must not carry `records`",
        ),
    ];
    for (yaml, message) in cases {
        let analysis = analysis_of(yaml);
        assert!(!analysis.is_sound(), "{yaml}");
        assert_eq!(errors(&analysis), vec![message.to_owned()], "{yaml}");
        assert_eq!(analysis.error_count(), 1);
    }
}

#[test]
fn a_spec_following_every_rule_is_sound_even_with_unreachable_states() {
    let analysis = analysis_of(
        "domain: d\ninitial: A\nstates: [A, B, C]\nproposal:\n  inputs: [go]\n  edges:\n    - { from: A, input: go, to: B }\n",
    );
    assert!(analysis.is_sound());
    assert_eq!(analysis.warning_count(), 1);
    assert_eq!(analysis.diagnostics[0].message, "state `C` is unreachable from `A`");
}

#[test]
fn the_report_and_verdict_read_exactly() {
    let analysis = analysis_of(SMALL);
    assert_eq!(
        human(&analysis),
        "domain: d   (2 states, initial: A)\n  proposal       2 inputs    1 edges    3 no_edge\n"
    );
    assert_eq!(verdict(&analysis), "VALID \u{2014} the topology is total (3 no_edge cells made explicit) and sound.");
    let bad = analysis_of("domain: d\ninitial: Z\nstates: [A]\nproposal:\n  fixed_table: true\n  inputs: [go]\n");
    assert_eq!(
        human(&bad),
        "domain: d   (1 states, initial: Z)\n  proposal       1 inputs    0 edges    1 no_edge  [fixed_table]\n\
         \nwarnings:\n  - state `A` is unreachable from `Z`\n\
         \nerrors:\n  - initial state `Z` is not one of the declared states\n"
    );
    assert_eq!(verdict(&bad), "INVALID \u{2014} 1 error(s). The topology is not sound.");
}

// Reading a spec.

#[test]
fn spec_reading_errors_name_the_field() {
    let cases: [(&str, &str); 4] = [
        ("initial: A\nstates: [A]\nproposal:\n  inputs: [go]\n", "missing field `domain`"),
        ("domain: d\ninitial: A\nstates: [A]\nbogus: 1\nproposal:\n  inputs: [go]\n", "unknown field `bogus`"),
        ("domain: d\ninitial: A\nstates: [A]\n", "missing field `proposal`"),
        ("domain: d\ninitial: A\nstates: [A]\nproposal:\n  inputs: [go]\n  fixed_table: maybe\n", "field `fixed_table` must be true or false"),
    ];
    for (yaml, message) in cases {
        match DomainSpec::from_yaml(yaml) {
            Err(ParseError::Yaml(m)) => assert_eq!(m, message, "{yaml}"),
            other => panic!("expected a YAML error for {yaml}, got {other:?}"),
        }
    }
}

#[test]
fn parse_errors_carry_their_prefix() {
    assert_eq!(ParseError::Io("gone".to_owned()).message(), "cannot read spec: gone");
    let err = DomainSpec::from_yaml("a: [").unwrap_err();
    assert!(err.message().starts_with("spec is not valid YAML for this format: "));
}

#[test]
fn yaml_text_that_does_not_parse_is_an_error() {
    assert!(YamlValue::parse("a: [").is_err());
    assert!(YamlValue::parse("a: 1").is_ok());
}

// Rendering, then verifying.

#[test]
fn a_rendered_topology_read_back_from_text_verifies_clean() {
    for yaml in [EXAMPLE, SMALL] {
        let analysis = analysis_of(yaml);
        let exported = JsonValue::parse(&to_json(&analysis.topology)).expect("render is valid json");
        let result = verify(&analysis.topology, &exported).expect("a topology.json");
        assert!(result.matches());
        assert_eq!(report(&result), "MATCHES \u{2014} the domain's topology is identical to the spec.\n");
    }
}

#[test]
fn each_unreadable_topology_json_names_its_problem() {
    let topology = analysis_of(SMALL).topology;
    let cases: [(&str, &str); 4] = [
        ("{\"states\": []}", "exported topology has no `doors` array"),
        ("{\"doors\": [{\"cells\": []}]}", "a door is missing its `name`"),
        ("{\"doors\": [{\"name\": \"proposal\"}]}", "a door is missing its `cells`"),
        ("{\"doors\": [{\"name\": \"proposal\", \"cells\": [{\"from\": \"A\"}]}]}", "a cell is missing its `edge`"),
    ];
    for (text, message) in cases {
        let value = JsonValue::parse(text).unwrap();
        assert_eq!(verify(&topology, &value).unwrap_err(), message, "{text}");
    }
}

#[test]
fn a_drift_report_lists_each_cell() {
    let topology = analysis_of(SMALL).topology;
    let exported = JsonValue::parse(
        "{\"doors\": [{\"name\": \"proposal\", \"cells\": [\
         {\"from\": \"A\", \"input\": \"go\", \"edge\": \"local\", \"to\": \"A\"},\
         {\"from\": \"A\", \"input\": \"stop\", \"edge\": \"no_edge\"},\
         {\"from\": \"B\", \"input\": \"go\", \"edge\": \"no_edge\"}]}]}",
    )
    .unwrap();
    let result = verify(&topology, &exported).unwrap();
    assert_eq!(
        report(&result),
        "DRIFT \u{2014} the domain disagrees with the spec in 2 cell(s):\n\
         \x20 proposal (A, go): spec = local -> B, domain = local -> A\n\
         \x20 proposal (B, stop): spec = no_edge, domain = (absent)\n"
    );
}

// JSON through serde_json.

#[test]
fn json_objects_come_out_sorted_with_the_last_value_for_a_key() {
    let value = JsonValue::parse("{\"b\": 1, \"a\": [true, null, \"x\"]}").unwrap();
    assert_eq!(value.to_text(), "{\"a\":[true,null,\"x\"],\"b\":1}");
    assert_eq!(value.to_text_pretty(), "{\n  \"a\": [\n    true,\n    null,\n    \"x\"\n  ],\n  \"b\": 1\n}");
    let built = JsonValue::object(vec![
        ("k".to_owned(), JsonValue::integer(1)),
        ("j".to_owned(), JsonValue::string("x")),
        ("k".to_owned(), JsonValue::integer(-32601)),
    ]);
    assert_eq!(built.to_text(), "{\"j\":\"x\",\"k\":-32601}");
    assert_eq!(built.get("k").map(|v| v.to_text()), Some("-32601".to_owned()));
    assert!(JsonValue::parse("{\"a\": ").is_err());
}

// The protocol.

#[test]
fn a_reply_carries_the_request_id() {
    let reply = response("{\"jsonrpc\": \"2.0\", \"id\": \"abc\", \"method\": \"ping\"}").unwrap();
    assert_eq!(reply["id"], "abc");
    assert_eq!(reply["jsonrpc"], "2.0");
    assert!(reply["result"].as_object().unwrap().is_empty());
    assert!(reply.get("error").is_none());
}

#[test]
fn initialize_echoes_the_client_protocol_version_or_names_its_own() {
    let named = response("{\"id\": 1, \"method\": \"initialize\", \"params\": {\"protocolVersion\": \"2099-01-01\"}}").unwrap();
    assert_eq!(named["result"]["protocolVersion"], "2099-01-01");
    let unnamed = response("{\"id\": 1, \"method\": \"initialize\"}").unwrap();
    assert_eq!(unnamed["result"]["protocolVersion"], "2024-11-05");
    assert_eq!(unnamed["result"]["serverInfo"]["version"], "0.1.0");
}

#[test]
fn tool_calls_without_a_name_or_params_are_invalid() {
    let no_params = response("{\"id\": 1, \"method\": \"tools/call\"}").unwrap();
    assert_eq!(no_params["error"]["code"], -32602);
    assert_eq!(no_params["error"]["message"], "missing params");
    let no_name = response("{\"id\": 1, \"method\": \"tools/call\", \"params\": {}}").unwrap();
    assert_eq!(no_name["error"]["message"], "missing tool name");
    let unknown = response("{\"id\": 1, \"method\": \"tools/call\", \"params\": {\"name\": \"nope\"}}").unwrap();
    assert_eq!(unknown["error"]["message"], "unknown tool: nope");
}

#[test]
fn unknown_resources_and_prompts_are_invalid_params() {
    let resource = response("{\"id\": 1, \"method\": \"resources/read\", \"params\": {\"uri\": \"bld://x\"}}").unwrap();
    assert_eq!(resource["error"]["code"], -32602);
    assert_eq!(resource["error"]["message"], "unknown resource: bld://x");
    let no_uri = response("{\"id\": 1, \"method\": \"resources/read\"}").unwrap();
    assert_eq!(no_uri["error"]["message"], "missing resource uri");
    let prompt = response("{\"id\": 1, \"method\": \"prompts/get\", \"params\": {\"name\": \"other\"}}").unwrap();
    assert_eq!(prompt["error"]["message"], "unknown prompt: other");
    let no_name = response("{\"id\": 1, \"method\": \"prompts/get\", \"params\": {}}").unwrap();
    assert_eq!(no_name["error"]["message"], "missing prompt name");
    let method = response("{\"id\": 1, \"method\": \"x/y\"}").unwrap();
    assert_eq!(method["error"]["message"], "method not found: x/y");
}

#[test]
fn the_contract_resource_is_served_as_markdown() {
    let read = response("{\"id\": 1, \"method\": \"resources/read\", \"params\": {\"uri\": \"bld://contract\"}}").unwrap();
    let content = &read["result"]["contents"][0];
    assert_eq!(content["mimeType"], "text/markdown");
    assert_eq!(content["uri"], "bld://contract");
    assert_eq!(content["text"], CONTRACT);
}

#[test]
fn the_prompt_carries_the_users_description() {
    let with = response(
        "{\"id\": 1, \"method\": \"prompts/get\", \"params\": {\"name\": \"map_domain\", \"arguments\": {\"description\": \"loan approval\"}}}",
    )
    .unwrap();
    let text = with["result"]["messages"][0]["content"]["text"].as_str().unwrap();
    assert!(text.ends_with("The user describes their domain as:\nloan approval"));
    let without = response("{\"id\": 1, \"method\": \"prompts/get\", \"params\": {\"name\": \"map_domain\"}}").unwrap();
    let text = without["result"]["messages"][0]["content"]["text"].as_str().unwrap();
    assert!(text.ends_with("ask them to, in one or two sentences."));
}

#[test]
fn only_a_spec_that_does_not_parse_fails_a_spec_tool() {
    for tool in [ToolKind::Validate, ToolKind::Render] {
        assert!(run(SMALL, tool).is_ok());
        assert!(run("domain: d\ninitial: Z\nstates: []\nproposal:\n  inputs: []\n", tool).is_ok());
        assert!(run("a: [", tool).unwrap_err().starts_with("the spec did not parse: "));
    }
    let refused = run("domain: d\ninitial: Z\nstates: []\nproposal:\n  inputs: []\n", ToolKind::Render).unwrap();
    assert!(refused.ends_with("\n\n(refusing to render an unsound topology)"));
    assert!(call_tool("nope", SMALL, "").is_none());
}

#[test]
fn topology_verify_answers_for_a_shipped_domain() {
    let analysis = analysis_of(SMALL);
    let exported = to_json(&analysis.topology);
    assert_eq!(
        call_tool("topology_verify", SMALL, &exported).unwrap().unwrap(),
        "MATCHES \u{2014} the domain's topology is identical to the spec.\n"
    );
    assert!(run_verify(SMALL, "{").unwrap_err().starts_with("the exported topology.json did not parse: "));
    assert_eq!(
        run_verify(SMALL, "{}").unwrap_err(),
        "the exported value is not a topology.json: exported topology has no `doors` array"
    );
    let unsound = "domain: d\ninitial: Z\nstates: [A]\nproposal:\n  inputs: [go]\n";
    assert!(run_verify(unsound, "{}").unwrap().ends_with("(fix the spec's errors before verifying a domain against it)"));
    let request = format!(
        "{{\"id\": 7, \"method\": \"tools/call\", \"params\": {{\"name\": \"topology_verify\", \"arguments\": {{\"spec\": {}, \"topology\": \"{{\"}}}}}}",
        quoted(SMALL)
    );
    let reply = response(&request).unwrap();
    assert_eq!(reply["id"], 7);
    assert_eq!(reply["result"]["isError"], true);
}

#[test]
fn in_a_sound_spec_the_no_edge_cells_are_the_cells_less_the_edges() {
    let spec = DomainSpec::from_yaml(EXAMPLE).unwrap();
    let analysis = analyze(&spec);
    assert!(analysis.is_sound());
    let states = spec.states.len();
    let expected: usize = spec.doors().iter().map(|(_, d)| states * d.inputs.len() - d.edges.len()).sum();
    assert_eq!(expected, 62);
    assert_eq!(analysis.no_edge_count(), expected);
}

#[test]
fn a_value_in_the_shape_of_a_topology_json_is_read() {
    let topology = analysis_of(SMALL).topology;
    let exported = JsonValue::parse("{\"doors\": [{\"name\": \"x\", \"cells\": [{\"edge\": \"odd\"}]}]}").unwrap();
    let result = verify(&topology, &exported).expect("a shaped value is read");
    assert_eq!(result.drifts.len(), 5);
    assert_eq!(result.drifts[4].in_domain, "unknown(odd)");
}

#[test]
fn a_line_that_is_not_json_gets_a_parse_error() {
    let reply: serde_json::Value =
        serde_json::from_str(&bld::mcp::parse_error_response().to_text()).unwrap();
    assert_eq!(reply["jsonrpc"], "2.0");
    assert!(reply["id"].is_null());
    assert_eq!(reply["error"]["code"], -32700);
    assert_eq!(reply["error"]["message"], "parse error");
    assert!(reply.get("result").is_none());
}
