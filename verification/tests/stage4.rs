//! Verifying a domain's exported topology against its spec: a `verify` that
//! always said "matches" would fail every drift case, and one that always said
//! "drift" would fail the round trip.

use bld::json::JsonValue;
use bld::mcp::EXAMPLE;
use bld::spec::DomainSpec;
use bld::topology::{self, Topology};
use bld::{render, verify};
use serde_json::Value;

fn topology_of(yaml: &str) -> Topology {
    topology::analyze(&DomainSpec::from_yaml(yaml).expect("spec parses")).topology
}

fn rendered(topology: &Topology) -> Value {
    serde_json::from_str(&render::to_json(topology)).expect("render is valid json")
}

/// The library's document for a `serde_json` value.
fn document(value: &Value) -> JsonValue {
    JsonValue::parse(&value.to_string()).expect("a serde_json value is valid json")
}

#[test]
fn a_domain_matching_its_spec_reports_no_drift() {
    let topology = topology_of(EXAMPLE);
    let exported = rendered(&topology);
    let report = verify::verify(&topology, &document(&exported)).expect("valid topology.json");
    assert!(
        report.matches(),
        "the spec must match its own render: {:?}",
        report.drifts
    );
}

#[test]
fn a_re_targeted_transition_is_drift() {
    let topology = topology_of(EXAMPLE);
    let mut exported = rendered(&topology);
    let cells = exported["doors"][0]["cells"].as_array_mut().unwrap();
    let cell = cells
        .iter_mut()
        .find(|c| c["edge"] == "local")
        .expect("a local cell");
    let (from, input) = (cell["from"].clone(), cell["input"].clone());
    cell["to"] = Value::String("Cancelled".to_owned());

    let report = verify::verify(&topology, &document(&exported)).expect("valid json");
    assert!(!report.matches());
    let drift = &report.drifts[0];
    assert_eq!(drift.from, from.as_str().unwrap());
    assert_eq!(drift.input, input.as_str().unwrap());
    assert!(drift.in_domain.contains("Cancelled") && !drift.in_spec.contains("Cancelled"));
}

#[test]
fn a_transition_the_domain_grew_is_drift() {
    let topology = topology_of(EXAMPLE);
    let mut exported = rendered(&topology);
    let cells = exported["doors"][0]["cells"].as_array_mut().unwrap();
    let cell = cells
        .iter_mut()
        .find(|c| c["edge"] == "no_edge")
        .expect("a no_edge cell");
    cell["edge"] = Value::String("local".to_owned());
    cell["to"] = Value::String("Cancelled".to_owned());

    let report = verify::verify(&topology, &document(&exported)).expect("valid json");
    assert!(!report.matches());
    assert_eq!(report.drifts[0].in_spec, "no_edge");
    assert!(report.drifts[0].in_domain.starts_with("local"));
}

#[test]
fn a_value_that_is_not_a_topology_json_is_an_error() {
    let topology = topology_of(EXAMPLE);
    let not_topology = JsonValue::parse("{\"hello\": \"world\"}").unwrap();
    assert!(verify::verify(&topology, &not_topology).is_err());
}

#[test]
fn the_system_event_record_label_is_not_treated_as_drift() {
    let topology = topology_of(EXAMPLE);
    let mut exported = rendered(&topology);
    for door in exported["doors"].as_array_mut().unwrap() {
        if door["name"] == "system_event" {
            for cell in door["cells"].as_array_mut().unwrap() {
                if cell["edge"] == "record" {
                    cell.as_object_mut().unwrap().remove("records");
                }
            }
        }
    }
    let report = verify::verify(&topology, &document(&exported)).expect("valid json");
    assert!(
        report.matches(),
        "a labelless record must still match: {:?}",
        report.drifts
    );
}
