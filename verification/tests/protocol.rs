//! Drive `dispatch` with JSON-RPC requests and check the responses: a tool
//! that ignored its spec, a validator wired backwards, a missing resource or a
//! notification that wrongly replied would each fail one of these.

use bld::json::JsonValue;
use bld::mcp::{dispatch, EXAMPLE};
use serde_json::Value;

/// An object from its members.
fn object(members: &[(&str, Value)]) -> Value {
    let mut map = serde_json::Map::new();
    for (key, value) in members {
        map.insert((*key).to_owned(), value.clone());
    }
    Value::Object(map)
}

fn text(s: &str) -> Value {
    Value::String(s.to_owned())
}

/// The library's document for a `serde_json` value.
fn document(value: &Value) -> JsonValue {
    JsonValue::parse(&value.to_string()).expect("a serde_json value is valid json")
}

fn req(method: &str, params: Value) -> Value {
    object(&[
        ("jsonrpc", text("2.0")),
        ("id", Value::from(1)),
        ("method", text(method)),
        ("params", params),
    ])
}

/// Dispatches a request and reads the response back as a `serde_json` value.
fn call(request: &Value) -> Option<Value> {
    dispatch(&document(request)).map(|response| serde_json::from_str(&response.to_text()).expect("a response is valid json"))
}

/// Calls a tool and returns the text of its single content block.
fn tool_text(name: &str, spec: &str) -> String {
    let response = call(&req(
        "tools/call",
        object(&[("name", text(name)), ("arguments", object(&[("spec", text(spec))]))]),
    ))
    .expect("a request with an id gets a response");
    response["result"]["content"][0]["text"]
        .as_str()
        .expect("text content")
        .to_owned()
}

#[test]
fn initialize_announces_the_server_and_capabilities() {
    let response = call(&req("initialize", object(&[("protocolVersion", text("2024-11-05"))]))).unwrap();
    let result = &response["result"];
    assert_eq!(result["protocolVersion"], "2024-11-05");
    assert!(result["capabilities"]["tools"].is_object());
    assert!(result["capabilities"]["resources"].is_object());
    assert!(result["capabilities"]["prompts"].is_object());
    assert_eq!(result["serverInfo"]["name"], "bld-mcp");
}

#[test]
fn tools_list_advertises_the_four_tools_each_requiring_a_spec() {
    let response = call(&req("tools/list", object(&[]))).unwrap();
    let tools = response["result"]["tools"].as_array().expect("tools array");
    let names: Vec<&str> = tools.iter().filter_map(|t| t["name"].as_str()).collect();
    assert_eq!(
        names,
        vec!["topology_validate", "topology_render", "scaffold_domain", "scaffold_adversarial"]
    );
    for tool in tools {
        assert_eq!(
            tool["inputSchema"]["required"],
            Value::Array(vec![text("spec")]),
            "{} must require a spec",
            tool["name"]
        );
    }
}

#[test]
fn validate_reports_valid_for_the_example() {
    let text = tool_text("topology_validate", EXAMPLE);
    assert!(text.contains("VALID"), "{text}");
    assert!(!text.contains("INVALID"), "the example is sound");
}

#[test]
fn validate_reports_invalid_for_an_unsound_spec() {
    let bad = "domain: d\ninitial: A\nstates: [A]\n\
               proposal:\n  inputs: [go]\n  edges:\n    - { from: A, input: go, to: Nowhere }\n";
    let response = call(&req(
        "tools/call",
        object(&[("name", text("topology_validate")), ("arguments", object(&[("spec", text(bad))]))]),
    ))
    .unwrap();
    assert_eq!(response["result"]["isError"], false, "an unsound spec is a valid result");
    let text = response["result"]["content"][0]["text"].as_str().unwrap();
    assert!(text.contains("INVALID") && text.contains("Nowhere"), "{text}");
}

#[test]
fn an_unparseable_spec_is_a_tool_error() {
    let response = call(&req(
        "tools/call",
        object(&[("name", text("topology_validate")), ("arguments", object(&[("spec", text("not: a: spec"))]))]),
    ))
    .unwrap();
    assert_eq!(response["result"]["isError"], true, "a non-spec is a tool error");
    assert!(response["result"]["content"][0]["text"].as_str().unwrap().contains("did not parse"));
}

#[test]
fn render_returns_the_graph_and_the_diagram() {
    let text = tool_text("topology_render", EXAMPLE);
    assert!(text.contains("stateDiagram-v2"), "a Mermaid diagram");
    assert!(text.contains("\"edge\": \"no_edge\""), "topology.json with no_edge cells");
}

#[test]
fn scaffold_refuses_an_unsound_spec() {
    let bad = "domain: d\ninitial: A\nstates: [A]\n\
               proposal:\n  inputs: [go]\n  edges:\n    - { from: A, input: go, to: Nowhere }\n";
    let text = tool_text("scaffold_domain", bad);
    assert!(text.contains("refusing to scaffold"), "{text}");
    assert!(!text.contains("impl BoundaryDomain"), "no code from an unsound spec");
}

#[test]
fn resources_list_and_read_the_example_and_contract() {
    let list = call(&req("resources/list", object(&[]))).unwrap();
    let uris: Vec<&str> = list["result"]["resources"]
        .as_array()
        .unwrap()
        .iter()
        .filter_map(|r| r["uri"].as_str())
        .collect();
    assert!(uris.contains(&"bld://example") && uris.contains(&"bld://contract"));

    let read = call(&req("resources/read", object(&[("uri", text("bld://example"))]))).unwrap();
    let text = read["result"]["contents"][0]["text"].as_str().unwrap();
    assert!(text.contains("domain: approval-workflow"), "the example spec is served");
}

#[test]
fn map_domain_prompt_guides_toward_a_validated_spec() {
    let response = call(&req(
        "prompts/get",
        object(&[("name", text("map_domain")), ("arguments", object(&[]))]),
    ))
    .unwrap();
    let messages = response["result"]["messages"].as_array().expect("messages");
    assert!(!messages.is_empty());
    let text = messages[0]["content"]["text"].as_str().unwrap();
    assert!(text.contains("topology_validate"), "the prompt points at validation");
}

#[test]
fn a_notification_gets_no_response() {
    let note = object(&[("jsonrpc", text("2.0")), ("method", text("notifications/initialized"))]);
    assert!(call(&note).is_none());
}

#[test]
fn an_unknown_method_is_a_jsonrpc_error() {
    let response = call(&req("does/not/exist", object(&[]))).unwrap();
    assert_eq!(response["error"]["code"], -32601);
    assert!(response.get("result").is_none());
}

#[test]
fn an_unknown_tool_is_an_error() {
    let response = call(&req(
        "tools/call",
        object(&[("name", text("nope")), ("arguments", object(&[("spec", text(""))]))]),
    ))
    .unwrap();
    assert_eq!(response["error"]["code"], -32602);
}
