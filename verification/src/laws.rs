//! What holds of the library as a whole: the laws its parts keep together.

use vstd::prelude::*;
use crate::json::{json_pretty_text, canonical_object, entry_value, lemma_canonical_object, model_get, JsonModel};
use crate::mcp::{dispatch_result, method_outcome, param_text, tool_outcome, tools_call_result};
use crate::report::{human_text, verdict_text};
use crate::text::decimal;
use crate::render::{mermaid_text, cell_arrow, cells_arrows, cell_document, door_document, note_text, string_array, topology_document_of};
use crate::spec::{door_name_text, spec_from_yaml, spec_doors, DomainSpecV, DoorName, DoorV, EdgeV};
use crate::topology::{
    analysis_of, count_severity, doors_diags, door_diags, duplicate_state_diags, edge_diags, edges_diags, error_if,
    field_diags, msg_bad_from, msg_bad_input, msg_bad_to, msg_forbids, msg_initial_undeclared, msg_needs,
    msg_no_inputs, msg_no_states, msg_state_twice, msg_two_edges, msg_unreachable, reachable, state_diags,
    unreachable_diags, warning_of, count_no_edge, doors_no_edge, min_usize, AnalysisV, DiagnosticV, Severity,
    edge_kind_of, cell_of, door_topology_of, grid_of, has_cell, last_edge_for, row_of, target_of, topology_of, CellV,
    DoorTopologyV, EdgeKindV, TopologyV,
};
use crate::verify::{
    door_cell_entries, drift_list, field_text, get_items, get_str, is_drift_of, json_cell_entries,
    json_door_cell_entries, json_doors_entries, json_kind_text, kind_text, lemma_drift_unique,
    spec_cell_entries, drift_key, lookup_text, DriftV, KeyV,
};

verus! {

// ---------------------------------------------------------------------------
// Rendering, then verifying.

/// The member names and edge words of a rendered cell are all different.
proof fn lemma_cell_words()
    ensures
        "from"@ != "input"@, "from"@ != "edge"@, "from"@ != "to"@, "from"@ != "effect"@, "from"@ != "records"@,
        "input"@ != "edge"@, "input"@ != "to"@, "input"@ != "effect"@, "input"@ != "records"@,
        "edge"@ != "to"@, "edge"@ != "effect"@, "edge"@ != "records"@,
        "to"@ != "effect"@,
        "local"@ != "no_edge"@,
        "external"@ != "no_edge"@, "external"@ != "local"@,
        "record"@ != "no_edge"@, "record"@ != "local"@, "record"@ != "external"@,
{
    reveal_strlit("from");
    reveal_strlit("input");
    reveal_strlit("edge");
    reveal_strlit("to");
    reveal_strlit("effect");
    reveal_strlit("records");
    reveal_strlit("local");
    reveal_strlit("external");
    reveal_strlit("record");
    reveal_strlit("no_edge");
    assert("from"@.len() == 4 && "input"@.len() == 5 && "edge"@.len() == 4 && "to"@.len() == 2);
    assert("effect"@.len() == 6 && "records"@.len() == 7);
    assert("from"@[0] != "edge"@[0]);
    assert("local"@.len() == 5 && "no_edge"@.len() == 7 && "external"@.len() == 8 && "record"@.len() == 6);
}

/// The lookups in a rendered cell whose kind carries no field.
proof fn lemma_bare_cell(from: Seq<char>, input: Seq<char>, edge: Seq<char>, es: Seq<(Seq<char>, JsonModel)>)
    requires
        es == seq![("from"@, JsonModel::Str(from)), ("input"@, JsonModel::Str(input)), ("edge"@, JsonModel::Str(edge))],
    ensures
        model_get(canonical_object(es), "edge"@) == Some(JsonModel::Str(edge)),
        model_get(canonical_object(es), "from"@) == Some(JsonModel::Str(from)),
        model_get(canonical_object(es), "input"@) == Some(JsonModel::Str(input)),
{
    lemma_cell_words();
    lemma_canonical_object(es);
    reveal_with_fuel(entry_value, 4);
}

/// The lookups in a rendered cell whose kind carries one field.
proof fn lemma_one_field_cell(
    from: Seq<char>,
    input: Seq<char>,
    edge: Seq<char>,
    key: Seq<char>,
    value: Seq<char>,
    es: Seq<(Seq<char>, JsonModel)>,
)
    requires
        key == "to"@ || key == "records"@,
        es == seq![
            ("from"@, JsonModel::Str(from)),
            ("input"@, JsonModel::Str(input)),
            ("edge"@, JsonModel::Str(edge)),
            (key, JsonModel::Str(value)),
        ],
    ensures
        model_get(canonical_object(es), "edge"@) == Some(JsonModel::Str(edge)),
        model_get(canonical_object(es), "from"@) == Some(JsonModel::Str(from)),
        model_get(canonical_object(es), "input"@) == Some(JsonModel::Str(input)),
        model_get(canonical_object(es), key) == Some(JsonModel::Str(value)),
{
    lemma_cell_words();
    lemma_canonical_object(es);
    let d = es.drop_last();
    assert(d == seq![("from"@, JsonModel::Str(from)), ("input"@, JsonModel::Str(input)), ("edge"@, JsonModel::Str(edge))]);
    lemma_bare_lookups(from, input, edge, d);
}

/// The lookups in the first three members of a rendered cell.
proof fn lemma_bare_lookups(from: Seq<char>, input: Seq<char>, edge: Seq<char>, d: Seq<(Seq<char>, JsonModel)>)
    requires
        d == seq![("from"@, JsonModel::Str(from)), ("input"@, JsonModel::Str(input)), ("edge"@, JsonModel::Str(edge))],
    ensures
        entry_value(d, "edge"@) == Some(JsonModel::Str(edge)),
        entry_value(d, "from"@) == Some(JsonModel::Str(from)),
        entry_value(d, "input"@) == Some(JsonModel::Str(input)),
{
    lemma_cell_words();
    reveal_with_fuel(entry_value, 4);
}

/// A rendered cell reads back as the cell it was rendered from.
proof fn lemma_cell_reads_back(c: CellV)
    ensures
        json_kind_text(cell_document(c)) == Ok::<Seq<char>, Seq<char>>(kind_text(c.kind)),
        field_text(cell_document(c), "from"@) == c.from,
        field_text(cell_document(c), "input"@) == c.input,
{
    lemma_cell_words();
    match c.kind {
        EdgeKindV::Local { to } => {
            lemma_one_field_cell(c.from, c.input, "local"@, "to"@, to, seq![
                ("from"@, JsonModel::Str(c.from)),
                ("input"@, JsonModel::Str(c.input)),
                ("edge"@, JsonModel::Str("local"@)),
                ("to"@, JsonModel::Str(to)),
            ]);
        },
        EdgeKindV::External { to, effect } => {
            let es = seq![
                ("from"@, JsonModel::Str(c.from)),
                ("input"@, JsonModel::Str(c.input)),
                ("edge"@, JsonModel::Str("external"@)),
                ("to"@, JsonModel::Str(to)),
                ("effect"@, JsonModel::Str(effect)),
            ];
            lemma_canonical_object(es);
            let d = es.drop_last();
            assert(d == seq![
                ("from"@, JsonModel::Str(c.from)),
                ("input"@, JsonModel::Str(c.input)),
                ("edge"@, JsonModel::Str("external"@)),
                ("to"@, JsonModel::Str(to)),
            ]);
            lemma_canonical_object(d);
            lemma_one_field_cell(c.from, c.input, "external"@, "to"@, to, d);
            assert(entry_value(es, "effect"@) == Some(JsonModel::Str(effect)));
            assert(entry_value(es, "to"@) == entry_value(d, "to"@));
            assert(entry_value(es, "edge"@) == entry_value(d, "edge"@));
            assert(entry_value(es, "from"@) == entry_value(d, "from"@));
            assert(entry_value(es, "input"@) == entry_value(d, "input"@));
        },
        EdgeKindV::Record { records } => {
            lemma_one_field_cell(c.from, c.input, "record"@, "records"@, records, seq![
                ("from"@, JsonModel::Str(c.from)),
                ("input"@, JsonModel::Str(c.input)),
                ("edge"@, JsonModel::Str("record"@)),
                ("records"@, JsonModel::Str(records)),
            ]);
        },
        EdgeKindV::NoEdge => {
            lemma_bare_cell(c.from, c.input, "no_edge"@, seq![
                ("from"@, JsonModel::Str(c.from)),
                ("input"@, JsonModel::Str(c.input)),
                ("edge"@, JsonModel::Str("no_edge"@)),
            ]);
        },
    }
}

/// A rendered door's cells read back as the door's cells.
proof fn lemma_cells_read_back(name: Seq<char>, cells: Seq<CellV>)
    ensures
        json_door_cell_entries(name, cells.map_values(|c: CellV| cell_document(c)))
            == Ok::<Seq<(KeyV, Seq<char>)>, Seq<char>>(door_cell_entries(name, cells)),
    decreases cells.len(),
{
    let docs = cells.map_values(|c: CellV| cell_document(c));
    if cells.len() > 0 {
        assert(docs.drop_last() =~= cells.drop_last().map_values(|c: CellV| cell_document(c)));
        lemma_cells_read_back(name, cells.drop_last());
        lemma_cell_reads_back(cells.last());
        assert(docs.last() == cell_document(cells.last()));
    } else {
        assert(docs.len() == 0);
    }
}

/// The member names of a rendered door are all different.
proof fn lemma_door_words()
    ensures
        "name"@ != "fixed_table"@, "name"@ != "inputs"@, "name"@ != "cells"@,
        "cells"@ != "fixed_table"@, "cells"@ != "inputs"@,
{
    reveal_strlit("name");
    reveal_strlit("fixed_table");
    reveal_strlit("inputs");
    reveal_strlit("cells");
    assert("name"@.len() == 4 && "fixed_table"@.len() == 11 && "inputs"@.len() == 6 && "cells"@.len() == 5);
    assert("cells"@[0] != "inputs"@[0]);
}

/// A rendered door reads back as its name and its cells.
proof fn lemma_door_reads_back(d: DoorTopologyV)
    ensures
        get_str(door_document(d), "name"@) == Some(door_name_text(d.name)),
        get_items(door_document(d), "cells"@) == Some(d.cells.map_values(|c: CellV| cell_document(c))),
{
    lemma_door_words();
    let es = seq![
        ("name"@, JsonModel::Str(door_name_text(d.name))),
        ("fixed_table"@, JsonModel::Bool(d.fixed_table)),
        ("inputs"@, string_array(d.inputs)),
        ("cells"@, JsonModel::Array(d.cells.map_values(|c: CellV| cell_document(c)))),
    ];
    lemma_canonical_object(es);
    reveal_with_fuel(entry_value, 5);
}

/// Rendered doors read back as the doors' cells, door by door.
proof fn lemma_doors_read_back(doors: Seq<DoorTopologyV>)
    ensures
        json_doors_entries(doors.map_values(|d: DoorTopologyV| door_document(d)))
            == Ok::<Seq<(KeyV, Seq<char>)>, Seq<char>>(spec_cell_entries(doors)),
    decreases doors.len(),
{
    let docs = doors.map_values(|d: DoorTopologyV| door_document(d));
    if doors.len() > 0 {
        assert(docs.drop_last() =~= doors.drop_last().map_values(|d: DoorTopologyV| door_document(d)));
        lemma_doors_read_back(doors.drop_last());
        let last = doors.last();
        assert(docs.last() == door_document(last));
        lemma_door_reads_back(last);
        lemma_cells_read_back(door_name_text(last.name), last.cells);
    } else {
        assert(docs.len() == 0);
    }
}

/// A topology checked against its own rendered `topology.json` shows no
/// drift: the document reads back as exactly the topology's cells, and a cell
/// list compared with itself disagrees nowhere.
pub proof fn law_rendered_topology_verifies(t: TopologyV)
    ensures
        json_cell_entries(topology_document_of(t)) == Ok::<Seq<(KeyV, Seq<char>)>, Seq<char>>(
            spec_cell_entries(t.doors),
        ),
        drift_list(spec_cell_entries(t.doors), spec_cell_entries(t.doors)) == Seq::<DriftV>::empty(),
{
    let es = seq![
        ("generated_by"@, JsonModel::Str("bld topology render"@)),
        ("note"@, JsonModel::Str(note_text())),
        ("domain"@, JsonModel::Str(t.domain)),
        ("initial"@, JsonModel::Str(t.initial)),
        ("states"@, string_array(t.states)),
        ("doors"@, JsonModel::Array(t.doors.map_values(|d: DoorTopologyV| door_document(d)))),
    ];
    lemma_canonical_object(es);
    assert(entry_value(es, "doors"@) == Some(JsonModel::Array(t.doors.map_values(|d: DoorTopologyV| door_document(d)))));
    lemma_doors_read_back(t.doors);
    let cells = spec_cell_entries(t.doors);
    let none = Seq::<DriftV>::empty();
    assert(is_drift_of(none, cells, cells));
    assert(is_drift_of(drift_list(cells, cells), cells, cells));
    lemma_drift_unique(none, drift_list(cells, cells), cells, cells);
}

/// Every cell carries a string `edge`.
pub open spec fn cells_have_edges(cells: Seq<JsonModel>) -> bool {
    forall|c: int| 0 <= c < cells.len() ==> (#[trigger] get_str(cells[c], "edge"@)) is Some
}

/// A door carries a string `name` and a `cells` array whose cells carry an `edge`.
pub open spec fn door_shaped(door: JsonModel) -> bool {
    &&& get_str(door, "name"@) is Some
    &&& get_items(door, "cells"@) is Some
    &&& cells_have_edges(get_items(door, "cells"@)->Some_0)
}

/// A value in the shape of a `topology.json`: a `doors` array of shaped doors.
pub open spec fn topology_json_shaped(exported: JsonModel) -> bool {
    &&& get_items(exported, "doors"@) is Some
    &&& forall|k: int|
        0 <= k < get_items(exported, "doors"@)->Some_0.len() ==> door_shaped(
            #[trigger] get_items(exported, "doors"@)->Some_0[k],
        )
}

proof fn lemma_shaped_cells_read(name: Seq<char>, cells: Seq<JsonModel>)
    requires
        cells_have_edges(cells),
    ensures
        json_door_cell_entries(name, cells) is Ok,
    decreases cells.len(),
{
    if cells.len() > 0 {
        let prev = cells.drop_last();
        assert forall|c: int| 0 <= c < prev.len() implies (#[trigger] get_str(prev[c], "edge"@)) is Some by {
            assert(prev[c] == cells[c]);
        }
        lemma_shaped_cells_read(name, prev);
        assert(get_str(cells[cells.len() - 1], "edge"@) is Some);
    }
}

proof fn lemma_shaped_doors_read(doors: Seq<JsonModel>)
    requires
        forall|k: int| 0 <= k < doors.len() ==> door_shaped(#[trigger] doors[k]),
    ensures
        json_doors_entries(doors) is Ok,
    decreases doors.len(),
{
    if doors.len() > 0 {
        let prev = doors.drop_last();
        assert forall|k: int| 0 <= k < prev.len() implies door_shaped(#[trigger] prev[k]) by {
            assert(prev[k] == doors[k]);
        }
        lemma_shaped_doors_read(prev);
        let last = doors[doors.len() - 1];
        assert(door_shaped(last));
        lemma_shaped_cells_read(get_str(last, "name"@)->Some_0, get_items(last, "cells"@)->Some_0);
    }
}

proof fn lemma_read_cells_are_shaped(name: Seq<char>, cells: Seq<JsonModel>)
    requires
        json_door_cell_entries(name, cells) is Ok,
    ensures
        cells_have_edges(cells),
    decreases cells.len(),
{
    if cells.len() > 0 {
        let prev = cells.drop_last();
        lemma_read_cells_are_shaped(name, prev);
        assert forall|c: int| 0 <= c < cells.len() implies (#[trigger] get_str(cells[c], "edge"@)) is Some by {
            if c < prev.len() {
                assert(prev[c] == cells[c]);
                assert(get_str(prev[c], "edge"@) is Some);
            } else {
                assert(cells[c] == cells.last());
            }
        }
    }
}

proof fn lemma_read_doors_are_shaped(doors: Seq<JsonModel>)
    requires
        json_doors_entries(doors) is Ok,
    ensures
        forall|k: int| 0 <= k < doors.len() ==> door_shaped(#[trigger] doors[k]),
    decreases doors.len(),
{
    if doors.len() > 0 {
        let prev = doors.drop_last();
        lemma_read_doors_are_shaped(prev);
        let last = doors.last();
        lemma_read_cells_are_shaped(get_str(last, "name"@)->Some_0, get_items(last, "cells"@)->Some_0);
        assert forall|k: int| 0 <= k < doors.len() implies door_shaped(#[trigger] doors[k]) by {
            if k < prev.len() {
                assert(prev[k] == doors[k]);
                assert(door_shaped(prev[k]));
            } else {
                assert(doors[k] == last);
            }
        }
    }
}

/// A value is read as a `topology.json` exactly when it has its shape: a
/// `doors` array whose doors carry a string `name` and a `cells` array whose
/// cells carry a string `edge`. Otherwise `verify` answers with an error.
pub proof fn law_shaped_topology_json_is_read(exported: JsonModel)
    ensures
        (json_cell_entries(exported) is Ok) <==> topology_json_shaped(exported),
{
    if topology_json_shaped(exported) {
        lemma_shaped_doors_read(get_items(exported, "doors"@)->Some_0);
    }
    if json_cell_entries(exported) is Ok {
        lemma_read_doors_are_shaped(get_items(exported, "doors"@)->Some_0);
    }
}

// ---------------------------------------------------------------------------
// What a cell is compared by.

/// A target that names no `/`: the state names a spec gives a moving edge.
pub open spec fn plain_target(k: EdgeKindV) -> bool {
    match k {
        EdgeKindV::External { to, .. } => !to.contains('/'),
        _ => true,
    }
}

/// Two cells compare alike: both are records (whose label is documentation
/// the kernel cannot reproduce), or they are the same kind with the same
/// target and effect.
pub open spec fn same_behaviour(a: EdgeKindV, b: EdgeKindV) -> bool {
    (a is Record && b is Record) || a == b
}

/// `p + a == p + b` only when `a == b`.
proof fn lemma_cancel_prefix(p: Seq<char>, a: Seq<char>, b: Seq<char>)
    requires
        p + a == p + b,
    ensures
        a == b,
{
    assert(a =~= (p + a).skip(p.len() as int));
    assert(b =~= (p + b).skip(p.len() as int));
}

/// Two external texts with `/`-free targets are equal only with equal
/// targets and effects.
proof fn lemma_external_text_injective(t1: Seq<char>, e1: Seq<char>, t2: Seq<char>, e2: Seq<char>)
    requires
        !t1.contains('/'),
        !t2.contains('/'),
        t1 + " / "@ + e1 == t2 + " / "@ + e2,
    ensures
        t1 == t2,
        e1 == e2,
{
    reveal_strlit(" / ");
    let x1 = t1 + " / "@ + e1;
    let x2 = t2 + " / "@ + e2;
    assert(x1[t1.len() as int + 1] == '/');
    assert(x2[t2.len() as int + 1] == '/');
    if t1.len() < t2.len() {
        if t1.len() + 1 < t2.len() {
            assert(x2[t1.len() as int + 1] == t2[t1.len() as int + 1]);
        } else {
            assert(x2[t1.len() as int + 1] == ' ');
        }
    }
    if t2.len() < t1.len() {
        if t2.len() + 1 < t1.len() {
            assert(x1[t2.len() as int + 1] == t1[t2.len() as int + 1]);
        } else {
            assert(x1[t2.len() as int + 1] == ' ');
        }
    }
    assert(t1.len() == t2.len());
    assert(t1 =~= x1.take(t1.len() as int));
    assert(t2 =~= x2.take(t2.len() as int));
    assert(e1 =~= x1.skip(t1.len() as int + 3));
    assert(e2 =~= x2.skip(t2.len() as int + 3));
}

/// Drift is decided on a cell's real content: two cells compare by the same
/// text only when they behave alike, so a cell that changed kind, target or
/// effect never compares equal to what it was. (A target holding `/` is left
/// out: `external -> a / b / c` reads both as target `a` with effect `b / c`
/// and as target `a / b` with effect `c`.)
pub proof fn law_comparison_text_is_faithful(a: EdgeKindV, b: EdgeKindV)
    requires
        plain_target(a),
        plain_target(b),
    ensures
        kind_text(a) == kind_text(b) <==> same_behaviour(a, b),
{
    reveal_strlit("no_edge");
    reveal_strlit("record");
    reveal_strlit("local -> ");
    reveal_strlit("external -> ");
    if kind_text(a) == kind_text(b) {
        let ta = kind_text(a);
        let tb = kind_text(b);
        assert(ta[0] == tb[0]);
        match (a, b) {
            (EdgeKindV::Local { to: x }, EdgeKindV::Local { to: y }) => {
                lemma_cancel_prefix("local -> "@, x, y);
            },
            (EdgeKindV::External { to: x, effect: f }, EdgeKindV::External { to: y, effect: g }) => {
                assert(ta =~= "external -> "@ + (x + " / "@ + f));
                assert(tb =~= "external -> "@ + (y + " / "@ + g));
                lemma_cancel_prefix("external -> "@, x + " / "@ + f, y + " / "@ + g);
                lemma_external_text_injective(x, f, y, g);
            },
            _ => {},
        }
    }
}

/// An exported `external` cell is compared by its own `to` and `effect`: it
/// reads as the text of the external edge to that target with that effect.
pub proof fn law_exported_external_reads_its_fields(cell: JsonModel)
    requires
        get_str(cell, "edge"@) == Some("external"@),
    ensures
        json_kind_text(cell) == Ok::<Seq<char>, Seq<char>>(
            kind_text(EdgeKindV::External { to: field_text(cell, "to"@), effect: field_text(cell, "effect"@) }),
        ),
{
    lemma_cell_words();
    assert("local -> "@ + field_text(cell, "to"@) + " / "@ + field_text(cell, "effect"@) == "local -> "@
        + field_text(cell, "to"@) + " / "@ + field_text(cell, "effect"@));
}

/// A re-targeted external transition is drift: where the spec's cell is an
/// external edge and the exported cell an external edge to another state or
/// with another effect, every drift report of the two (such as `verify`
/// returns) has an entry at that cell carrying both texts.
pub proof fn law_retargeted_external_is_drift(
    drifts: Seq<DriftV>,
    spec: Seq<(KeyV, Seq<char>)>,
    domain: Seq<(KeyV, Seq<char>)>,
    key: KeyV,
    in_spec: EdgeKindV,
    exported: JsonModel,
)
    requires
        is_drift_of(drifts, spec, domain),
        in_spec is External,
        plain_target(in_spec),
        get_str(exported, "edge"@) == Some("external"@),
        !field_text(exported, "to"@).contains('/'),
        field_text(exported, "to"@) != in_spec->External_to || field_text(exported, "effect"@) != in_spec->External_effect,
        lookup_text(spec, key) == kind_text(in_spec),
        json_kind_text(exported) == Ok::<Seq<char>, Seq<char>>(lookup_text(domain, key)),
    ensures
        exists|i: int| 0 <= i < drifts.len() && drift_key(#[trigger] drifts[i]) == key
            && drifts[i].in_spec == kind_text(in_spec) && drifts[i].in_domain == lookup_text(domain, key),
{
    law_exported_external_reads_its_fields(exported);
    let out = EdgeKindV::External { to: field_text(exported, "to"@), effect: field_text(exported, "effect"@) };
    law_comparison_text_is_faithful(in_spec, out);
    assert(lookup_text(spec, key) != lookup_text(domain, key));
    let i = choose|i: int| 0 <= i < drifts.len() && drift_key(#[trigger] drifts[i]) == key;
    assert(drifts[i].in_spec == lookup_text(spec, drift_key(drifts[i])));
}

// ---------------------------------------------------------------------------
// The grid.

/// The door's grid has a cell for every (state, input) pair, state-major.
proof fn lemma_grid_shape(door: DoorName, d: DoorV, states: Seq<Seq<char>>)
    ensures
        grid_of(door, d, states).len() == states.len() * d.inputs.len(),
        forall|i: int, j: int|
            #![trigger states[i], d.inputs[j]]
            0 <= i < states.len() && 0 <= j < d.inputs.len() ==> grid_of(door, d, states)[i * d.inputs.len() + j]
                == cell_of(door, d, states[i], d.inputs[j]),
    decreases states.len(),
{
    let n = d.inputs.len();
    if states.len() > 0 {
        let m = states.len() - 1;
        let prev = states.drop_last();
        lemma_grid_shape(door, d, prev);
        let g = grid_of(door, d, states);
        let gp = grid_of(door, d, prev);
        let row = row_of(door, d, states.last());
        assert(g == gp + row);
        assert(m * n + n == states.len() * n) by (nonlinear_arith)
            requires
                m == states.len() - 1,
        ;
        assert forall|i: int, j: int|
            #![trigger states[i], d.inputs[j]]
            0 <= i < states.len() && 0 <= j < n implies g[i * n + j] == cell_of(door, d, states[i], d.inputs[j]) by {
            if i < m {
                assert(i * n + j < m * n) by (nonlinear_arith)
                    requires
                        i < m,
                        0 <= j < n,
                ;
                assert(0 <= i * n) by (nonlinear_arith)
                    requires
                        0 <= i,
                        0 <= n,
                ;
                assert(prev[i] == states[i]);
                assert(g[i * n + j] == gp[i * n + j]);
            } else {
                assert(i * n == m * n);
                assert(g[i * n + j] == row[j]);
            }
        }
    } else {
        assert(grid_of(door, d, states).len() == 0);
    }
}

/// The last edge found for a pair is one of the door's edges for that pair.
proof fn lemma_last_edge_authored(edges: Seq<EdgeV>, from: Seq<char>, input: Seq<char>)
    ensures
        last_edge_for(edges, from, input) is Some ==> has_cell(edges, from, input),
    decreases edges.len(),
{
    if edges.len() > 0 {
        if edges.last().from == from && edges.last().input == input {
            assert(edges[edges.len() - 1] == edges.last());
        } else {
            lemma_last_edge_authored(edges.drop_last(), from, input);
            if last_edge_for(edges, from, input) is Some {
                let i = choose|i: int| 0 <= i < edges.drop_last().len() && (#[trigger] edges.drop_last()[i]).from == from
                    && edges.drop_last()[i].input == input;
                assert(edges[i] == edges.drop_last()[i]);
            }
        }
    }
}

/// Totality: each door of the derived topology has exactly one cell for every
/// (state, input) pair, laid out state by state and, within a state, input by
/// input; and a cell that leads anywhere stands for an edge the spec authored
/// on that door for that pair. A pair the spec does not name is `no_edge`.
pub proof fn law_grid_is_total(s: DomainSpecV, k: int, i: int, j: int)
    requires
        0 <= k < topology_of(s).doors.len(),
        0 <= i < s.states.len(),
        0 <= j < topology_of(s).doors[k].inputs.len(),
    ensures
        topology_of(s).doors[k].cells.len() == s.states.len() * topology_of(s).doors[k].inputs.len(),
        topology_of(s).doors[k].cells[i * topology_of(s).doors[k].inputs.len() + j].from == s.states[i],
        topology_of(s).doors[k].cells[i * topology_of(s).doors[k].inputs.len() + j].input
            == topology_of(s).doors[k].inputs[j],
        !has_cell(spec_doors(s)[k].1.edges, s.states[i], topology_of(s).doors[k].inputs[j])
            ==> topology_of(s).doors[k].cells[i * topology_of(s).doors[k].inputs.len() + j].kind is NoEdge,
{
    let (name, d) = spec_doors(s)[k];
    assert(topology_of(s).doors[k] == door_topology_of(name, d, s.states));
    lemma_grid_shape(name, d, s.states);
    let input = d.inputs[j];
    assert(grid_of(name, d, s.states)[i * d.inputs.len() + j] == cell_of(name, d, s.states[i], input));
    lemma_last_edge_authored(d.edges, s.states[i], input);
}

/// When exactly one edge names a pair, that edge is the one found for it.
proof fn lemma_only_edge_found(edges: Seq<EdgeV>, from: Seq<char>, input: Seq<char>, x: int)
    requires
        0 <= x < edges.len(),
        edges[x].from == from && edges[x].input == input,
        forall|y: int| 0 <= y < edges.len() && y != x ==> !((#[trigger] edges[y]).from == from && edges[y].input == input),
    ensures
        last_edge_for(edges, from, input) == Some(edges[x]),
    decreases edges.len(),
{
    if x < edges.len() - 1 {
        let prev = edges.drop_last();
        assert(!(edges[edges.len() - 1].from == from && edges[edges.len() - 1].input == input));
        assert forall|y: int| 0 <= y < prev.len() && y != x implies !((#[trigger] prev[y]).from == from && prev[y].input == input) by {
            assert(prev[y] == edges[y]);
        }
        assert(prev[x] == edges[x]);
        lemma_only_edge_found(prev, from, input, x);
    } else {
        assert(edges.last() == edges[x]);
    }
}

/// A cell that exactly one authored edge names is that edge's cell: a local
/// or external move to its `to`, or a record on the `system_event` door.
pub proof fn law_cell_is_its_edge(s: DomainSpecV, k: int, i: int, j: int, x: int)
    requires
        0 <= k < topology_of(s).doors.len(),
        0 <= i < s.states.len(),
        0 <= j < spec_doors(s)[k].1.inputs.len(),
        0 <= x < spec_doors(s)[k].1.edges.len(),
        spec_doors(s)[k].1.edges[x].from == s.states[i],
        spec_doors(s)[k].1.edges[x].input == spec_doors(s)[k].1.inputs[j],
        forall|y: int|
            0 <= y < spec_doors(s)[k].1.edges.len() && y != x ==> !((#[trigger] spec_doors(s)[k].1.edges[y]).from
                == s.states[i] && spec_doors(s)[k].1.edges[y].input == spec_doors(s)[k].1.inputs[j]),
    ensures
        topology_of(s).doors[k].cells[i * spec_doors(s)[k].1.inputs.len() + j].kind
            == edge_kind_of(spec_doors(s)[k].0, spec_doors(s)[k].1.edges[x]),
{
    let (name, d) = spec_doors(s)[k];
    assert(topology_of(s).doors[k] == door_topology_of(name, d, s.states));
    lemma_grid_shape(name, d, s.states);
    let input = d.inputs[j];
    assert(grid_of(name, d, s.states)[i * d.inputs.len() + j] == cell_of(name, d, s.states[i], input));
    lemma_only_edge_found(d.edges, s.states[i], input, x);
}

/// Every cell of a door's grid is the door's cell for its own pair.
proof fn lemma_grid_cells(door: DoorName, d: DoorV, states: Seq<Seq<char>>, c: int)
    requires
        0 <= c < grid_of(door, d, states).len(),
    ensures
        grid_of(door, d, states)[c] == cell_of(door, d, grid_of(door, d, states)[c].from, grid_of(door, d, states)[c].input),
    decreases states.len(),
{
    if states.len() > 0 {
        let gp = grid_of(door, d, states.drop_last());
        if c < gp.len() {
            lemma_grid_cells(door, d, states.drop_last(), c);
        }
    }
}

/// A runtime fact moves no state: no cell of the `system_event` door leads to
/// a state.
pub proof fn law_system_event_moves_no_state(s: DomainSpecV, k: int, c: int)
    requires
        0 <= k < topology_of(s).doors.len(),
        topology_of(s).doors[k].name == DoorName::SystemEvent,
        0 <= c < topology_of(s).doors[k].cells.len(),
    ensures
        target_of(topology_of(s).doors[k].cells[c].kind) is None,
{
    let (name, d) = spec_doors(s)[k];
    assert(topology_of(s).doors[k] == door_topology_of(name, d, s.states));
    lemma_grid_cells(name, d, s.states, c);
}

/// The diagram draws a cell exactly when the cell moves state: `no_edge`
/// cells and `system_event` records are never drawn.
pub proof fn law_diagram_draws_moves_only(door: DoorName, c: CellV)
    ensures
        (cell_arrow(door, c).len() == 0) <==> target_of(c.kind) is None,
{
    reveal_strlit("    ");
}

/// No cell that fails to move state adds a line to the diagram.
proof fn lemma_still_cells_draw_nothing(door: DoorName, cells: Seq<CellV>)
    requires
        forall|c: int| 0 <= c < cells.len() ==> target_of((#[trigger] cells[c]).kind) is None,
    ensures
        cells_arrows(door, cells).len() == 0,
    decreases cells.len(),
{
    if cells.len() > 0 {
        assert(target_of(cells[cells.len() - 1].kind) is None);
        lemma_still_cells_draw_nothing(door, cells.drop_last());
        law_diagram_draws_moves_only(door, cells.last());
    }
}

/// The `system_event` door adds nothing to the state diagram: a runtime fact
/// records a decision and moves no state, so it is never drawn as a transition.
pub proof fn law_system_event_is_not_drawn(s: DomainSpecV, k: int)
    requires
        0 <= k < topology_of(s).doors.len(),
        topology_of(s).doors[k].name == DoorName::SystemEvent,
    ensures
        cells_arrows(DoorName::SystemEvent, topology_of(s).doors[k].cells).len() == 0,
{
    let cells = topology_of(s).doors[k].cells;
    assert forall|c: int| 0 <= c < cells.len() implies target_of((#[trigger] cells[c]).kind) is None by {
        law_system_event_moves_no_state(s, k, c);
    }
    lemma_still_cells_draw_nothing(DoorName::SystemEvent, cells);
}

/// A record is compared on its existence alone: an exported `record` cell,
/// with or without a label, reads as the same text as any record cell of the
/// spec, whatever that cell records.
pub proof fn law_record_label_is_not_compared(cell: JsonModel, records: Seq<char>)
    requires
        get_str(cell, "edge"@) == Some("record"@),
    ensures
        json_kind_text(cell) == Ok::<Seq<char>, Seq<char>>(kind_text(EdgeKindV::Record { records })),
{
    lemma_cell_words();
}

// ---------------------------------------------------------------------------
// Soundness.

/// The fields an edge carries fit its door: a proposal or a fact moves to a
/// state and records nothing, a fact dispatches no effect, and a runtime fact
/// records a decision and neither moves state nor dispatches an effect.
pub open spec fn fields_sound(door: DoorName, e: EdgeV) -> bool {
    match door {
        DoorName::Proposal => e.to is Some && e.records is None,
        DoorName::Fact => e.to is Some && e.records is None && e.effect is None,
        DoorName::SystemEvent => e.records is Some && e.to is None && e.effect is None,
    }
}

/// An authored edge names declared states and one of its door's inputs, and
/// carries the fields its door asks for.
pub open spec fn edge_sound(door: DoorName, e: EdgeV, states: Seq<Seq<char>>, inputs: Seq<Seq<char>>) -> bool {
    &&& states.contains(e.from)
    &&& inputs.contains(e.input)
    &&& match e.to {
        Some(to) => states.contains(to),
        None => true,
    }
    &&& fields_sound(door, e)
}

/// No two of the edges answer the same (state, input) pair.
pub open spec fn one_answer_per_cell(edges: Seq<EdgeV>) -> bool {
    forall|i: int, j: int|
        0 <= i < j < edges.len() ==> !((#[trigger] edges[i]).from == (#[trigger] edges[j]).from
            && edges[i].input == edges[j].input)
}

/// A door accepts some input, and its edges are sound and answer each cell once.
pub open spec fn door_sound(door: DoorName, d: DoorV, states: Seq<Seq<char>>) -> bool {
    &&& d.inputs.len() > 0
    &&& forall|i: int| 0 <= i < d.edges.len() ==> edge_sound(door, #[trigger] d.edges[i], states, d.inputs)
    &&& one_answer_per_cell(d.edges)
}

/// No state is declared twice.
pub open spec fn texts_distinct(states: Seq<Seq<char>>) -> bool {
    forall|i: int, j: int| 0 <= i < j < states.len() ==> #[trigger] states[i] != #[trigger] states[j]
}

/// The authoring rules of a spec: some states, none declared twice, a declared
/// initial state, and every door sound.
pub open spec fn spec_sound(s: DomainSpecV) -> bool {
    &&& s.states.len() > 0
    &&& texts_distinct(s.states)
    &&& s.states.contains(s.initial)
    &&& forall|k: int| 0 <= k < spec_doors(s).len() ==> door_sound(
        (#[trigger] spec_doors(s)[k]).0,
        spec_doors(s)[k].1,
        s.states,
    )
}

/// How many errors a list of diagnostics holds.
spec fn errors(d: Seq<DiagnosticV>) -> nat {
    count_severity(d, Severity::Error)
}

proof fn lemma_errors_concat(a: Seq<DiagnosticV>, b: Seq<DiagnosticV>)
    ensures
        errors(a + b) == errors(a) + errors(b),
    decreases b.len(),
{
    if b.len() == 0 {
        assert(a + b =~= a);
    } else {
        assert((a + b).drop_last() =~= a + b.drop_last());
        lemma_errors_concat(a, b.drop_last());
    }
}

proof fn lemma_error_if(cond: bool, message: Seq<char>)
    ensures
        errors(error_if(cond, message)) == if cond { 1nat } else { 0nat },
{
    let none = Seq::<DiagnosticV>::empty();
    assert(count_severity(none, Severity::Error) == 0);
    if cond {
        assert(error_if(cond, message).drop_last() =~= none);
    }
}

proof fn lemma_duplicate_states(states: Seq<Seq<char>>)
    ensures
        errors(duplicate_state_diags(states)) == 0 <==> texts_distinct(states),
    decreases states.len(),
{
    if states.len() > 0 {
        let prev = states.drop_last();
        let last = states.last();
        lemma_duplicate_states(prev);
        lemma_errors_concat(duplicate_state_diags(prev), error_if(prev.contains(last), msg_state_twice(last)));
        lemma_error_if(prev.contains(last), msg_state_twice(last));
        if texts_distinct(states) {
            assert(texts_distinct(prev)) by {
                assert forall|i: int, j: int| 0 <= i < j < prev.len() implies #[trigger] prev[i] != #[trigger] prev[j] by {
                    assert(prev[i] == states[i] && prev[j] == states[j]);
                }
            }
            if prev.contains(last) {
                let i = choose|i: int| 0 <= i < prev.len() && prev[i] == last;
                assert(states[i] == prev[i]);
                assert(states[states.len() - 1] == last);
            }
        }
        if texts_distinct(prev) && !prev.contains(last) {
            assert forall|i: int, j: int| 0 <= i < j < states.len() implies #[trigger] states[i] != #[trigger] states[j] by {
                if j == states.len() - 1 {
                    assert(prev[i] == states[i]);
                } else {
                    assert(prev[i] == states[i] && prev[j] == states[j]);
                }
            }
        }
    } else {
        assert(errors(duplicate_state_diags(states)) == 0);
    }
}

proof fn lemma_field_diags(door: DoorName, e: EdgeV)
    ensures
        errors(field_diags(door, e)) == 0 <==> fields_sound(door, e),
{
    match door {
        DoorName::Proposal => {
            lemma_error_if(e.to is None, msg_needs(door, e, "to"@));
            lemma_error_if(e.records is Some, msg_forbids(door, e, "records"@));
            lemma_errors_concat(
                error_if(e.to is None, msg_needs(door, e, "to"@)),
                error_if(e.records is Some, msg_forbids(door, e, "records"@)),
            );
        },
        DoorName::Fact => {
            let a = error_if(e.to is None, msg_needs(door, e, "to"@));
            let b = error_if(e.records is Some, msg_forbids(door, e, "records"@));
            let c = error_if(e.effect is Some, msg_forbids(door, e, "effect"@));
            lemma_error_if(e.to is None, msg_needs(door, e, "to"@));
            lemma_error_if(e.records is Some, msg_forbids(door, e, "records"@));
            lemma_error_if(e.effect is Some, msg_forbids(door, e, "effect"@));
            lemma_errors_concat(a, b);
            lemma_errors_concat(a + b, c);
        },
        DoorName::SystemEvent => {
            let a = error_if(e.records is None, msg_needs(door, e, "records"@));
            let b = error_if(e.to is Some, msg_forbids(door, e, "to"@));
            let c = error_if(e.effect is Some, msg_forbids(door, e, "effect"@));
            lemma_error_if(e.records is None, msg_needs(door, e, "records"@));
            lemma_error_if(e.to is Some, msg_forbids(door, e, "to"@));
            lemma_error_if(e.effect is Some, msg_forbids(door, e, "effect"@));
            lemma_errors_concat(a, b);
            lemma_errors_concat(a + b, c);
        },
    }
}

proof fn lemma_edge_diags(door: DoorName, e: EdgeV, states: Seq<Seq<char>>, inputs: Seq<Seq<char>>)
    ensures
        errors(edge_diags(door, e, states, inputs)) == 0 <==> edge_sound(door, e, states, inputs),
{
    let a = error_if(!states.contains(e.from), msg_bad_from(door, e));
    let b = error_if(!inputs.contains(e.input), msg_bad_input(door, e));
    let c = match e.to {
        Some(to) => error_if(!states.contains(to), msg_bad_to(door, to)),
        None => Seq::<DiagnosticV>::empty(),
    };
    let f = field_diags(door, e);
    lemma_error_if(!states.contains(e.from), msg_bad_from(door, e));
    lemma_error_if(!inputs.contains(e.input), msg_bad_input(door, e));
    match e.to {
        Some(to) => lemma_error_if(!states.contains(to), msg_bad_to(door, to)),
        None => {},
    }
    lemma_field_diags(door, e);
    lemma_errors_concat(a, b);
    lemma_errors_concat(a + b, c);
    lemma_errors_concat(a + b + c, f);
}

proof fn lemma_edges_diags(door: DoorName, edges: Seq<EdgeV>, states: Seq<Seq<char>>, inputs: Seq<Seq<char>>)
    ensures
        errors(edges_diags(door, edges, states, inputs)) == 0 <==> (
            (forall|i: int| 0 <= i < edges.len() ==> edge_sound(door, #[trigger] edges[i], states, inputs))
            && one_answer_per_cell(edges)),
    decreases edges.len(),
{
    if edges.len() > 0 {
        let prev = edges.drop_last();
        let e = edges.last();
        lemma_edges_diags(door, prev, states, inputs);
        lemma_edge_diags(door, e, states, inputs);
        lemma_error_if(has_cell(prev, e.from, e.input), msg_two_edges(door, e));
        let a = edges_diags(door, prev, states, inputs);
        let b = edge_diags(door, e, states, inputs);
        let c = error_if(has_cell(prev, e.from, e.input), msg_two_edges(door, e));
        lemma_errors_concat(a, b);
        lemma_errors_concat(a + b, c);
        let all_sound = forall|i: int| 0 <= i < edges.len() ==> edge_sound(door, #[trigger] edges[i], states, inputs);
        let prev_sound = forall|i: int| 0 <= i < prev.len() ==> edge_sound(door, #[trigger] prev[i], states, inputs);
        if all_sound {
            assert(prev_sound) by {
                assert forall|i: int| 0 <= i < prev.len() implies edge_sound(door, #[trigger] prev[i], states, inputs) by {
                    assert(prev[i] == edges[i]);
                }
            }
            assert(edge_sound(door, edges[edges.len() - 1], states, inputs));
        }
        if prev_sound && edge_sound(door, e, states, inputs) {
            assert forall|i: int| 0 <= i < edges.len() implies edge_sound(door, #[trigger] edges[i], states, inputs) by {
                if i < prev.len() {
                    assert(prev[i] == edges[i]);
                }
            }
        }
        if one_answer_per_cell(edges) {
            assert forall|i: int, j: int| 0 <= i < j < prev.len() implies !((#[trigger] prev[i]).from
                == (#[trigger] prev[j]).from && prev[i].input == prev[j].input) by {
                assert(prev[i] == edges[i] && prev[j] == edges[j]);
            }
            if has_cell(prev, e.from, e.input) {
                let i = choose|i: int| 0 <= i < prev.len() && (#[trigger] prev[i]).from == e.from && prev[i].input == e.input;
                assert(prev[i] == edges[i]);
                assert(edges[edges.len() - 1] == e);
            }
        }
        if one_answer_per_cell(prev) && !has_cell(prev, e.from, e.input) {
            assert forall|i: int, j: int| 0 <= i < j < edges.len() implies !((#[trigger] edges[i]).from
                == (#[trigger] edges[j]).from && edges[i].input == edges[j].input) by {
                if j == edges.len() - 1 {
                    assert(prev[i] == edges[i]);
                } else {
                    assert(prev[i] == edges[i] && prev[j] == edges[j]);
                }
            }
        }
    }
}

proof fn lemma_doors_diags(doors: Seq<(DoorName, DoorV)>, states: Seq<Seq<char>>)
    ensures
        errors(doors_diags(doors, states)) == 0 <==> forall|k: int|
            0 <= k < doors.len() ==> door_sound((#[trigger] doors[k]).0, doors[k].1, states),
    decreases doors.len(),
{
    if doors.len() > 0 {
        let prev = doors.drop_last();
        let (name, d) = doors.last();
        lemma_doors_diags(prev, states);
        lemma_error_if(d.inputs.len() == 0, msg_no_inputs(name));
        lemma_edges_diags(name, d.edges, states, d.inputs);
        lemma_errors_concat(error_if(d.inputs.len() == 0, msg_no_inputs(name)), edges_diags(name, d.edges, states, d.inputs));
        lemma_errors_concat(doors_diags(prev, states), door_diags(name, d, states));
        if forall|k: int| 0 <= k < doors.len() ==> door_sound((#[trigger] doors[k]).0, doors[k].1, states) {
            assert forall|k: int| 0 <= k < prev.len() implies door_sound((#[trigger] prev[k]).0, prev[k].1, states) by {
                assert(prev[k] == doors[k]);
            }
            assert(door_sound(doors[doors.len() - 1].0, doors[doors.len() - 1].1, states));
        }
        if (forall|k: int| 0 <= k < prev.len() ==> door_sound((#[trigger] prev[k]).0, prev[k].1, states))
            && door_sound(name, d, states) {
            assert forall|k: int| 0 <= k < doors.len() implies door_sound((#[trigger] doors[k]).0, doors[k].1, states) by {
                if k < prev.len() {
                    assert(prev[k] == doors[k]);
                }
            }
        }
    }
}

proof fn lemma_unreachable_only_warns(t: TopologyV, states: Seq<Seq<char>>)
    ensures
        errors(unreachable_diags(t, states)) == 0,
    decreases states.len(),
{
    if states.len() > 0 {
        lemma_unreachable_only_warns(t, states.drop_last());
        let tail = if reachable(t, states.last()) {
            Seq::<DiagnosticV>::empty()
        } else {
            seq![warning_of(msg_unreachable(states.last(), t.initial))]
        };
        lemma_errors_concat(unreachable_diags(t, states.drop_last()), tail);
        let none = Seq::<DiagnosticV>::empty();
        assert(count_severity(none, Severity::Error) == 0);
        if !reachable(t, states.last()) {
            assert(tail.drop_last() =~= none);
        }
    } else {
        assert(unreachable_diags(t, states) == Seq::<DiagnosticV>::empty());
    }
}

/// Soundness is exactly the authoring rules: a spec's analysis has no error
/// if and only if it declares some states, none twice, a declared initial
/// state, and on every door some input and only sound edges, one per cell.
/// Reachability plays no part: an unreachable state is only warned about.
pub proof fn law_sound_iff_rules_hold(s: DomainSpecV)
    ensures
        count_severity(analysis_of(s).diagnostics, Severity::Error) == 0 <==> spec_sound(s),
{
    let a = error_if(s.states.len() == 0, msg_no_states());
    let b = duplicate_state_diags(s.states);
    let c = error_if(!s.states.contains(s.initial), msg_initial_undeclared(s.initial));
    lemma_error_if(s.states.len() == 0, msg_no_states());
    lemma_duplicate_states(s.states);
    lemma_error_if(!s.states.contains(s.initial), msg_initial_undeclared(s.initial));
    lemma_errors_concat(a, b);
    lemma_errors_concat(a + b, c);
    lemma_doors_diags(spec_doors(s), s.states);
    lemma_unreachable_only_warns(topology_of(s), s.states);
    lemma_errors_concat(state_diags(s), doors_diags(spec_doors(s), s.states));
    lemma_errors_concat(
        state_diags(s) + doors_diags(spec_doors(s), s.states),
        unreachable_diags(topology_of(s), s.states),
    );
}

// ---------------------------------------------------------------------------
// Counting the absence.

/// How many times `x` occurs in `ss`.
spec fn count_text(ss: Seq<Seq<char>>, x: Seq<char>) -> nat
    decreases ss.len(),
{
    if ss.len() == 0 { 0 } else { count_text(ss.drop_last(), x) + if ss.last() == x { 1nat } else { 0nat } }
}

/// How many of the cells stand at `(from, input)`.
spec fn count_at(cells: Seq<CellV>, from: Seq<char>, input: Seq<char>) -> nat
    decreases cells.len(),
{
    if cells.len() == 0 {
        0
    } else {
        count_at(cells.drop_last(), from, input)
            + if cells.last().from == from && cells.last().input == input { 1nat } else { 0nat }
    }
}

/// How many of the cells stand at a pair some edge names.
spec fn count_authored(cells: Seq<CellV>, edges: Seq<EdgeV>) -> nat
    decreases cells.len(),
{
    if cells.len() == 0 {
        0
    } else {
        count_authored(cells.drop_last(), edges) + if has_cell(edges, cells.last().from, cells.last().input) {
            1nat
        } else {
            0nat
        }
    }
}

/// A text occurs once in a list that holds it and repeats nothing.
proof fn lemma_count_text(ss: Seq<Seq<char>>, x: Seq<char>)
    requires
        texts_distinct(ss),
    ensures
        count_text(ss, x) == if ss.contains(x) { 1nat } else { 0nat },
    decreases ss.len(),
{
    if ss.len() > 0 {
        let prev = ss.drop_last();
        assert(texts_distinct(prev)) by {
            assert forall|i: int, j: int| 0 <= i < j < prev.len() implies #[trigger] prev[i] != #[trigger] prev[j] by {
                assert(prev[i] == ss[i] && prev[j] == ss[j]);
            }
        }
        lemma_count_text(prev, x);
        if ss.last() == x {
            if prev.contains(x) {
                let i = choose|i: int| 0 <= i < prev.len() && prev[i] == x;
                assert(ss[i] == prev[i]);
                assert(ss[ss.len() - 1] == x);
            }
            assert(ss[ss.len() - 1] == x);
        } else {
            if ss.contains(x) {
                let i = choose|i: int| 0 <= i < ss.len() && ss[i] == x;
                assert(prev[i] == ss[i]);
            }
            if prev.contains(x) {
                let i = choose|i: int| 0 <= i < prev.len() && prev[i] == x;
                assert(ss[i] == prev[i]);
            }
        }
    }
}

proof fn lemma_count_at_concat(a: Seq<CellV>, b: Seq<CellV>, from: Seq<char>, input: Seq<char>)
    ensures
        count_at(a + b, from, input) == count_at(a, from, input) + count_at(b, from, input),
    decreases b.len(),
{
    if b.len() == 0 {
        assert(a + b =~= a);
    } else {
        assert((a + b).drop_last() =~= a + b.drop_last());
        lemma_count_at_concat(a, b.drop_last(), from, input);
    }
}

/// In one state's row, a pair stands as often as its input is listed, if the
/// row is that state's.
proof fn lemma_row_count_at(door: DoorName, d: DoorV, st: Seq<char>, from: Seq<char>, input: Seq<char>, k: int)
    requires
        0 <= k <= d.inputs.len(),
    ensures
        count_at(row_of(door, d, st).take(k), from, input)
            == if st == from { count_text(d.inputs.take(k), input) } else { 0 },
    decreases k,
{
    let row = row_of(door, d, st);
    if k > 0 {
        lemma_row_count_at(door, d, st, from, input, k - 1);
        assert(row.take(k).drop_last() =~= row.take(k - 1));
        assert(d.inputs.take(k).drop_last() =~= d.inputs.take(k - 1));
        assert(row.take(k).last() == cell_of(door, d, st, d.inputs[k - 1]));
        assert(d.inputs.take(k).last() == d.inputs[k - 1]);
    } else {
        assert(row.take(0).len() == 0);
        assert(d.inputs.take(0).len() == 0);
    }
}

/// In a door's grid, a pair stands once for each listing of its state times
/// each listing of its input.
proof fn lemma_grid_count_at(door: DoorName, d: DoorV, states: Seq<Seq<char>>, from: Seq<char>, input: Seq<char>)
    ensures
        count_at(grid_of(door, d, states), from, input) == count_text(states, from) * count_text(d.inputs, input),
    decreases states.len(),
{
    let k = count_text(d.inputs, input);
    if states.len() > 0 {
        let prev = states.drop_last();
        lemma_grid_count_at(door, d, prev, from, input);
        let row = row_of(door, d, states.last());
        lemma_count_at_concat(grid_of(door, d, prev), row, from, input);
        lemma_row_count_at(door, d, states.last(), from, input, d.inputs.len() as int);
        assert(row.take(d.inputs.len() as int) =~= row);
        assert(d.inputs.take(d.inputs.len() as int) =~= d.inputs);
        let a = count_text(prev, from);
        let b: nat = if states.last() == from { 1 } else { 0 };
        assert(a * k + b * k == (a + b) * k) by (nonlinear_arith);
    } else {
        assert(count_text(states, from) * k == 0) by (nonlinear_arith)
            requires
                count_text(states, from) == 0,
        ;
    }
}

proof fn lemma_count_authored_none(cells: Seq<CellV>, edges: Seq<EdgeV>)
    requires
        edges.len() == 0,
    ensures
        count_authored(cells, edges) == 0,
    decreases cells.len(),
{
    if cells.len() > 0 {
        lemma_count_authored_none(cells.drop_last(), edges);
    }
}

/// Adding the last edge adds the cells at its pair, which no earlier edge names.
proof fn lemma_count_authored_step(cells: Seq<CellV>, edges: Seq<EdgeV>)
    requires
        edges.len() > 0,
        one_answer_per_cell(edges),
    ensures
        count_authored(cells, edges) == count_authored(cells, edges.drop_last())
            + count_at(cells, edges.last().from, edges.last().input),
    decreases cells.len(),
{
    if cells.len() > 0 {
        lemma_count_authored_step(cells.drop_last(), edges);
        let c = cells.last();
        let prev = edges.drop_last();
        let e = edges.last();
        if has_cell(edges, c.from, c.input) {
            let x = choose|x: int| 0 <= x < edges.len() && (#[trigger] edges[x]).from == c.from && edges[x].input == c.input;
            if x < prev.len() {
                assert(prev[x] == edges[x]);
            }
        }
        if has_cell(prev, c.from, c.input) {
            let x = choose|x: int| 0 <= x < prev.len() && (#[trigger] prev[x]).from == c.from && prev[x].input == c.input;
            assert(edges[x] == prev[x]);
            assert(edges[edges.len() - 1] == e);
        }
        if c.from == e.from && c.input == e.input {
            assert(edges[edges.len() - 1] == e);
        }
    }
}

/// In a grid of distinct states and inputs, each sound edge names exactly one cell.
proof fn lemma_grid_count_authored(door: DoorName, d: DoorV, states: Seq<Seq<char>>, edges: Seq<EdgeV>)
    requires
        texts_distinct(states),
        texts_distinct(d.inputs),
        one_answer_per_cell(edges),
        forall|x: int| 0 <= x < edges.len() ==> states.contains((#[trigger] edges[x]).from) && d.inputs.contains(edges[x].input),
    ensures
        count_authored(grid_of(door, d, states), edges) == edges.len(),
    decreases edges.len(),
{
    let g = grid_of(door, d, states);
    if edges.len() == 0 {
        lemma_count_authored_none(g, edges);
    } else {
        let prev = edges.drop_last();
        let e = edges.last();
        assert forall|x: int, y: int| 0 <= x < y < prev.len() implies !((#[trigger] prev[x]).from == (#[trigger] prev[y]).from
            && prev[x].input == prev[y].input) by {
            assert(prev[x] == edges[x] && prev[y] == edges[y]);
        }
        assert forall|x: int| 0 <= x < prev.len() implies states.contains((#[trigger] prev[x]).from) && d.inputs.contains(prev[x].input) by {
            assert(prev[x] == edges[x]);
        }
        lemma_grid_count_authored(door, d, states, prev);
        lemma_count_authored_step(g, edges);
        assert(edges[edges.len() - 1] == e);
        lemma_grid_count_at(door, d, states, e.from, e.input);
        lemma_count_text(states, e.from);
        lemma_count_text(d.inputs, e.input);
    }
}

/// The last edge found for a pair is one of the edges.
proof fn lemma_last_edge_member(edges: Seq<EdgeV>, from: Seq<char>, input: Seq<char>)
    ensures
        has_cell(edges, from, input) ==> last_edge_for(edges, from, input) is Some,
        last_edge_for(edges, from, input) matches Some(e) ==> exists|x: int| 0 <= x < edges.len() && #[trigger] edges[x] == e,
    decreases edges.len(),
{
    if edges.len() > 0 {
        let prev = edges.drop_last();
        lemma_last_edge_member(prev, from, input);
        if edges.last().from == from && edges.last().input == input {
            assert(edges[edges.len() - 1] == edges.last());
        } else {
            if has_cell(edges, from, input) {
                let x = choose|x: int| 0 <= x < edges.len() && (#[trigger] edges[x]).from == from && edges[x].input == input;
                assert(x != edges.len() - 1);
                assert(prev[x] == edges[x]);
            }
            if last_edge_for(prev, from, input) is Some {
                let e = last_edge_for(prev, from, input)->Some_0;
                let x = choose|x: int| 0 <= x < prev.len() && #[trigger] prev[x] == e;
                assert(edges[x] == prev[x]);
            }
        }
    }
}

/// In a sound door, a cell is `no_edge` exactly when no edge names its pair.
proof fn lemma_sound_cell_kind(door: DoorName, d: DoorV, states: Seq<Seq<char>>, from: Seq<char>, input: Seq<char>)
    requires
        door_sound(door, d, states),
    ensures
        (cell_of(door, d, from, input).kind is NoEdge) <==> !has_cell(d.edges, from, input),
{
    lemma_last_edge_member(d.edges, from, input);
    lemma_last_edge_authored(d.edges, from, input);
    if last_edge_for(d.edges, from, input) is Some {
        let e = last_edge_for(d.edges, from, input)->Some_0;
        let x = choose|x: int| 0 <= x < d.edges.len() && #[trigger] d.edges[x] == e;
        assert(edge_sound(door, d.edges[x], states, d.inputs));
    }
}

/// Over cells that are their door's cells, the `no_edge` ones and the authored
/// ones make up all of them.
proof fn lemma_no_edge_plus_authored(door: DoorName, d: DoorV, states: Seq<Seq<char>>, cells: Seq<CellV>)
    requires
        door_sound(door, d, states),
        forall|c: int| 0 <= c < cells.len() ==> #[trigger] cells[c] == cell_of(door, d, cells[c].from, cells[c].input),
    ensures
        count_no_edge(cells) + count_authored(cells, d.edges) == cells.len(),
    decreases cells.len(),
{
    if cells.len() > 0 {
        let prev = cells.drop_last();
        assert forall|c: int| 0 <= c < prev.len() implies #[trigger] prev[c] == cell_of(door, d, prev[c].from, prev[c].input) by {
            assert(prev[c] == cells[c]);
        }
        lemma_no_edge_plus_authored(door, d, states, prev);
        let last = cells.last();
        assert(cells[cells.len() - 1] == last);
        lemma_sound_cell_kind(door, d, states, last.from, last.input);
    }
}

/// A sound door with distinct inputs has as many `no_edge` cells as its grid
/// has cells, less its edges.
proof fn lemma_door_no_edge(door: DoorName, d: DoorV, states: Seq<Seq<char>>)
    requires
        door_sound(door, d, states),
        texts_distinct(states),
        texts_distinct(d.inputs),
    ensures
        count_no_edge(grid_of(door, d, states)) == states.len() * d.inputs.len() - d.edges.len(),
{
    let g = grid_of(door, d, states);
    lemma_grid_shape(door, d, states);
    assert forall|c: int| 0 <= c < g.len() implies #[trigger] g[c] == cell_of(door, d, g[c].from, g[c].input) by {
        lemma_grid_cells(door, d, states, c);
    }
    lemma_no_edge_plus_authored(door, d, states, g);
    assert forall|x: int| 0 <= x < d.edges.len() implies states.contains((#[trigger] d.edges[x]).from)
        && d.inputs.contains(d.edges[x].input) by {
        assert(edge_sound(door, d.edges[x], states, d.inputs));
    }
    lemma_grid_count_authored(door, d, states, d.edges);
}

/// The cells of some doors' grids, less their edges, door by door.
pub open spec fn cells_less_edges(doors: Seq<(DoorName, DoorV)>, states: nat) -> int
    decreases doors.len(),
{
    if doors.len() == 0 {
        0
    } else {
        cells_less_edges(doors.drop_last(), states) + (states * doors.last().1.inputs.len() - doors.last().1.edges.len())
    }
}

proof fn lemma_doors_no_edge(doors: Seq<(DoorName, DoorV)>, states: Seq<Seq<char>>)
    requires
        texts_distinct(states),
        forall|k: int| 0 <= k < doors.len() ==> door_sound((#[trigger] doors[k]).0, doors[k].1, states)
            && texts_distinct(doors[k].1.inputs),
    ensures
        doors_no_edge(doors.map_values(|p: (DoorName, DoorV)| door_topology_of(p.0, p.1, states)))
            == cells_less_edges(doors, states.len()),
    decreases doors.len(),
{
    let ts = doors.map_values(|p: (DoorName, DoorV)| door_topology_of(p.0, p.1, states));
    if doors.len() > 0 {
        let prev = doors.drop_last();
        assert(ts.drop_last() =~= prev.map_values(|p: (DoorName, DoorV)| door_topology_of(p.0, p.1, states)));
        assert forall|k: int| 0 <= k < prev.len() implies door_sound((#[trigger] prev[k]).0, prev[k].1, states)
            && texts_distinct(prev[k].1.inputs) by {
            assert(prev[k] == doors[k]);
        }
        lemma_doors_no_edge(prev, states);
        let (name, d) = doors.last();
        assert(doors[doors.len() - 1] == doors.last());
        lemma_door_no_edge(name, d, states);
        assert(ts.last() == door_topology_of(name, d, states));
    } else {
        assert(ts.len() == 0);
    }
}

/// In a sound spec whose doors each list an input once, every authored edge
/// fills exactly one cell: the `no_edge` cells across all doors number the
/// cells of the grids less the authored edges. Whenever that number fits a
/// `usize`, it is what `Analysis::no_edge_count` reports.
pub proof fn law_no_edge_count_is_cells_less_edges(s: DomainSpecV)
    requires
        spec_sound(s),
        forall|k: int| 0 <= k < spec_doors(s).len() ==> texts_distinct((#[trigger] spec_doors(s)[k]).1.inputs),
    ensures
        doors_no_edge(analysis_of(s).topology.doors) == cells_less_edges(spec_doors(s), s.states.len()),
        cells_less_edges(spec_doors(s), s.states.len()) <= usize::MAX ==> min_usize(
            doors_no_edge(analysis_of(s).topology.doors),
        ) == cells_less_edges(spec_doors(s), s.states.len()),
{
    lemma_doors_no_edge(spec_doors(s), s.states);
}

// ---------------------------------------------------------------------------
// The verdict.

/// The verdict names the judgement: it opens with `INVALID` exactly when the
/// analysis found an error, and with `VALID` exactly when it found none.
pub proof fn law_verdict_names_soundness(a: AnalysisV)
    ensures
        (verdict_text(a).take(7) == "INVALID"@) <==> count_severity(a.diagnostics, Severity::Error) > 0,
        (verdict_text(a).take(5) == "VALID"@) <==> count_severity(a.diagnostics, Severity::Error) == 0,
{
    reveal_strlit("INVALID");
    reveal_strlit("VALID");
    reveal_strlit("VALID \u{2014} the topology is total (");
    reveal_strlit("INVALID \u{2014} ");
    let errors = count_severity(a.diagnostics, Severity::Error);
    let v = verdict_text(a);
    if errors == 0 {
        let head = "VALID \u{2014} the topology is total ("@;
        let rest = decimal(min_usize(doors_no_edge(a.topology.doors))) + " no_edge cells made explicit) and sound."@;
        assert(v =~= head + rest);
        assert(v.take(7) =~= head.take(7));
        assert(v.take(5) =~= head.take(5));
        assert(head.take(7)[0] != "INVALID"@[0]);
        assert(head.take(5) =~= "VALID"@);
    } else {
        let head = "INVALID \u{2014} "@;
        let rest = decimal(errors) + " error(s). The topology is not sound."@;
        assert(v =~= head + rest);
        assert(v.take(7) =~= head.take(7));
        assert(v.take(5) =~= head.take(5));
        assert(head.take(7) =~= "INVALID"@);
        assert(head.take(5)[0] != "VALID"@[0]);
    }
}

// ---------------------------------------------------------------------------
// The protocol.

/// The members of a response are named differently.
proof fn lemma_response_words()
    ensures
        "jsonrpc"@ != "id"@, "jsonrpc"@ != "result"@, "jsonrpc"@ != "error"@,
        "id"@ != "result"@, "id"@ != "error"@, "result"@ != "error"@,
{
    reveal_strlit("jsonrpc");
    reveal_strlit("id");
    reveal_strlit("result");
    reveal_strlit("error");
    assert("jsonrpc"@.len() == 7 && "id"@.len() == 2 && "result"@.len() == 6 && "error"@.len() == 5);
}

/// The members of a response object with a `result` or an `error`.
proof fn lemma_response_members(id: JsonModel, key: Seq<char>, value: JsonModel)
    requires
        key == "result"@ || key == "error"@,
    ensures
        model_get(canonical_object(seq![("jsonrpc"@, JsonModel::Str("2.0"@)), ("id"@, id), (key, value)]), "jsonrpc"@)
            == Some(JsonModel::Str("2.0"@)),
        model_get(canonical_object(seq![("jsonrpc"@, JsonModel::Str("2.0"@)), ("id"@, id), (key, value)]), "id"@) == Some(id),
        model_get(canonical_object(seq![("jsonrpc"@, JsonModel::Str("2.0"@)), ("id"@, id), (key, value)]), key) == Some(value),
        key == "result"@ ==> model_get(
            canonical_object(seq![("jsonrpc"@, JsonModel::Str("2.0"@)), ("id"@, id), (key, value)]),
            "error"@,
        ) is None,
        key == "error"@ ==> model_get(
            canonical_object(seq![("jsonrpc"@, JsonModel::Str("2.0"@)), ("id"@, id), (key, value)]),
            "result"@,
        ) is None,
{
    lemma_response_words();
    let es = seq![("jsonrpc"@, JsonModel::Str("2.0"@)), ("id"@, id), (key, value)];
    lemma_canonical_object(es);
    reveal_with_fuel(entry_value, 4);
}

/// A request is answered exactly when it carries an `id`; a notification
/// gets no reply. The answer is JSON-RPC 2.0, carries the request's `id`, and
/// holds exactly one of `result` and `error`.
pub proof fn law_replies_echo_the_id(request: JsonModel)
    ensures
        dispatch_result(request) is None <==> model_get(request, "id"@) is None,
        model_get(request, "id"@) is Some ==> {
            let response = dispatch_result(request)->Some_0;
            &&& model_get(response, "jsonrpc"@) == Some(JsonModel::Str("2.0"@))
            &&& model_get(response, "id"@) == model_get(request, "id"@)
            &&& (model_get(response, "result"@) is Some) != (model_get(response, "error"@) is Some)
        },
{
    if model_get(request, "id"@) is Some {
        let id = model_get(request, "id"@)->Some_0;
        let outcome = method_outcome(param_text(Some(request), "method"@), model_get(request, "params"@));
        match outcome {
            Ok(result) => lemma_response_members(id, "result"@, result),
            Err(error) => lemma_response_members(id, "error"@, error),
        }
    }
}

/// A spec that does not parse is the only error of the spec tools: every
/// tool that takes only a spec answers with a normal result exactly when the
/// spec parses, whether or not the spec is sound.
pub proof fn law_only_unreadable_specs_fail(name: Seq<char>, spec: Seq<char>, exported: Seq<char>)
    requires
        name == "topology_validate"@ || name == "topology_render"@ || name == "scaffold_domain"@
            || name == "scaffold_adversarial"@ || name == "scaffold_probe"@,
    ensures
        tool_outcome(name, spec, exported) is Some,
        (tool_outcome(name, spec, exported)->Some_0 is Err) <==> (spec_from_yaml(spec) is Err),
{
}

/// `tools/call` on a tool that exists always succeeds as a call: a tool's own
/// failure is a result flagged `isError`, never a JSON-RPC error.
pub proof fn law_tool_failures_are_results(params: JsonModel)
    requires
        get_str(params, "name"@) is Some,
        tool_outcome(
            get_str(params, "name"@)->Some_0,
            param_text(model_get(params, "arguments"@), "spec"@),
            param_text(model_get(params, "arguments"@), "topology"@),
        ) is Some,
    ensures
        tools_call_result(Some(params)) is Ok,
{
}

/// `topology_render` publishes the graph whenever the spec parses and its
/// analysis has no error, whatever it warns about (an unreachable state is
/// only a warning): the answer is `topology.json` and the Mermaid diagram of
/// the spec's topology. With an error it refuses, with the report and the
/// verdict, and publishes nothing.
pub proof fn law_render_publishes_every_sound_spec(spec: Seq<char>, exported: Seq<char>)
    requires
        spec_from_yaml(spec) is Ok,
    ensures
        ({
            let a = analysis_of(spec_from_yaml(spec)->Ok_0);
            count_severity(a.diagnostics, Severity::Error) == 0 ==> tool_outcome("topology_render"@, spec, exported)
                == Some(Ok::<Seq<char>, Seq<char>>(
                    "topology.json:\n"@ + json_pretty_text(topology_document_of(a.topology)) + "\n\ntopology.mmd:\n"@
                        + mermaid_text(a.topology),
                ))
        }),
        ({
            let a = analysis_of(spec_from_yaml(spec)->Ok_0);
            count_severity(a.diagnostics, Severity::Error) > 0 ==> tool_outcome("topology_render"@, spec, exported)
                == Some(Ok::<Seq<char>, Seq<char>>(
                    human_text(a) + "\n"@ + verdict_text(a) + "\n\n(refusing to render an unsound topology)"@,
                ))
        }),
{
    reveal_strlit("topology_render");
    reveal_strlit("topology_validate");
    assert("topology_render"@.len() != "topology_validate"@.len());
}

} // verus!
