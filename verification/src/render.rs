//! Turn a derived [`Topology`] into shareable artifacts: `topology.json` (the
//! data) and a Mermaid state diagram (renders inline on GitHub).
//!
//! Both are *derived*, never hand-kept: a change to the spec changes the
//! artifacts, so they cannot drift from the domain they describe.

use vstd::prelude::*;
use crate::json::{canonical_object, json_parse, lemma_canonical_object_reads_back, lemma_items_read_back, reads_back, json_entries, json_models, json_pretty_text, json_wf, lemma_json_entries, lemma_json_models, JsonModel, JsonValue};
use crate::spec::{door_name_text, texts, DoorName};
use crate::topology::{cells_view, Cell, CellV, DoorTopology, DoorTopologyV, EdgeKind, EdgeKindV, Topology, TopologyV};

verus! {

/// One diagram line: an arrow from `from` to `to`, labelled.
pub open spec fn arrow_line(from: Seq<char>, to: Seq<char>, label: Seq<char>) -> Seq<char> {
    "    "@ + from + " --> "@ + to + ": "@ + label + "\n"@
}

/// A fact transition is marked as such in its label.
pub open spec fn door_label(door: DoorName, label: Seq<char>) -> Seq<char> {
    if door == DoorName::Fact { label + " (fact)"@ } else { label }
}

/// The diagram line of one cell: only state-moving cells are drawn.
pub open spec fn cell_arrow(door: DoorName, c: CellV) -> Seq<char> {
    match c.kind {
        EdgeKindV::Local { to } => arrow_line(c.from, to, door_label(door, c.input)),
        EdgeKindV::External { to, effect } =>
            arrow_line(c.from, to, door_label(door, c.input + " / "@ + effect)),
        _ => Seq::empty(),
    }
}

/// The diagram lines of one door's cells, in order.
pub open spec fn cells_arrows(door: DoorName, cells: Seq<CellV>) -> Seq<char>
    decreases cells.len(),
{
    if cells.len() == 0 {
        Seq::empty()
    } else {
        cells_arrows(door, cells.drop_last()) + cell_arrow(door, cells.last())
    }
}

/// The diagram lines of all the doors, in order.
pub open spec fn doors_arrows(doors: Seq<DoorTopologyV>) -> Seq<char>
    decreases doors.len(),
{
    if doors.len() == 0 {
        Seq::empty()
    } else {
        doors_arrows(doors.drop_last()) + cells_arrows(doors.last().name, doors.last().cells)
    }
}

/// The whole Mermaid `stateDiagram-v2`.
pub open spec fn mermaid_text(t: TopologyV) -> Seq<char> {
    "stateDiagram-v2\n"@ + "    [*] --> "@ + t.initial + "\n"@ + doors_arrows(t.doors)
}

/// Appends the diagram line of one cell, if it moves state.
fn push_cell_arrow(out: &mut String, door: DoorName, cell: &Cell)
    ensures
        final(out)@ == old(out)@ + cell_arrow(door, cell@),
{
    let (to, effect): (&String, Option<&String>) = match &cell.kind {
        EdgeKind::Local { to } => (to, None),
        EdgeKind::External { to, effect } => (to, Some(effect)),
        EdgeKind::Record { .. } | EdgeKind::NoEdge => {
            assert(old(out)@ + cell_arrow(door, cell@) =~= old(out)@);
            return;
        },
    };
    out.append("    ");
    out.append(cell.from.as_str());
    out.append(" --> ");
    out.append(to.as_str());
    out.append(": ");
    out.append(cell.input.as_str());
    if let Some(effect) = effect {
        out.append(" / ");
        out.append(effect.as_str());
    }
    if let DoorName::Fact = door {
        out.append(" (fact)");
    }
    out.append("\n");
    assert(final(out)@ =~= old(out)@ + cell_arrow(door, cell@));
}

/// The topology as a Mermaid `stateDiagram-v2`. Only state-moving cells
/// (proposal and fact edges) are drawn; a `system_event` records a pursuit
/// decision and moves no state, so it does not appear as a transition.
pub fn to_mermaid(topology: &Topology) -> (r: String)
    ensures
        r@ == mermaid_text(topology@),
{
    let ghost tv = topology@;
    let mut out = String::from_str("stateDiagram-v2\n");
    out.append("    [*] --> ");
    out.append(topology.initial.as_str());
    out.append("\n");
    let mut d: usize = 0;
    assert(tv.doors.take(0) =~= Seq::<DoorTopologyV>::empty());
    assert(out@ =~= mermaid_text(TopologyV { doors: tv.doors.take(0), ..tv }));
    while d < topology.doors.len()
        invariant
            d <= topology.doors@.len(),
            tv == topology@,
            out@ == "stateDiagram-v2\n"@ + "    [*] --> "@ + tv.initial + "\n"@ + doors_arrows(tv.doors.take(d as int)),
        decreases topology.doors@.len() - d,
    {
        let door: &DoorTopology = &topology.doors[d];
        let ghost before = out@;
        let ghost cv = door@.cells;
        let mut c: usize = 0;
        assert(cv.take(0) =~= Seq::<CellV>::empty());
        assert(before + cells_arrows(door.name, cv.take(0)) =~= before);
        while c < door.cells.len()
            invariant
                c <= door.cells@.len(),
                cv == door@.cells,
                out@ == before + cells_arrows(door.name, cv.take(c as int)),
            decreases door.cells@.len() - c,
        {
            push_cell_arrow(&mut out, door.name, &door.cells[c]);
            proof {
                let t = cv.take(c + 1);
                assert(t.drop_last() =~= cv.take(c as int));
                assert(t.last() == door.cells@[c as int]@);
                assert(out@ =~= before + cells_arrows(door.name, t));
            }
            c = c + 1;
        }
        proof {
            assert(cv.take(door.cells@.len() as int) =~= cv);
            let t = tv.doors.take(d + 1);
            assert(t.drop_last() =~= tv.doors.take(d as int));
            assert(t.last() == door@);
            assert(out@ =~= "stateDiagram-v2\n"@ + "    [*] --> "@ + tv.initial + "\n"@ + doors_arrows(t));
        }
        d = d + 1;
    }
    assert(tv.doors.take(topology.doors@.len() as int) =~= tv.doors);
    assert(out@ =~= mermaid_text(tv));
    out
}


// ---------------------------------------------------------------------------
// topology.json

/// The explanatory note carried by every `topology.json`.
pub open spec fn note_text() -> Seq<char> {
    "Derived by `bld topology render`. A `no_edge` cell is a transition that does not exist, not one refused at runtime. `fixed_table` per door says whether the door is decided by (state, input) alone; where it is false the door reads persisted data and the enumeration is of the intended shape, not every runtime axis."@
}

/// A JSON array of strings.
pub open spec fn string_array(ss: Seq<Seq<char>>) -> JsonModel {
    JsonModel::Array(ss.map_values(|s: Seq<char>| JsonModel::Str(s)))
}

/// One cell as a JSON object: where it starts, its input, what kind of edge it
/// is, and the fields that kind carries.
pub open spec fn cell_document(c: CellV) -> JsonModel {
    match c.kind {
        EdgeKindV::Local { to } => canonical_object(seq![
            ("from"@, JsonModel::Str(c.from)),
            ("input"@, JsonModel::Str(c.input)),
            ("edge"@, JsonModel::Str("local"@)),
            ("to"@, JsonModel::Str(to)),
        ]),
        EdgeKindV::External { to, effect } => canonical_object(seq![
            ("from"@, JsonModel::Str(c.from)),
            ("input"@, JsonModel::Str(c.input)),
            ("edge"@, JsonModel::Str("external"@)),
            ("to"@, JsonModel::Str(to)),
            ("effect"@, JsonModel::Str(effect)),
        ]),
        EdgeKindV::Record { records } => canonical_object(seq![
            ("from"@, JsonModel::Str(c.from)),
            ("input"@, JsonModel::Str(c.input)),
            ("edge"@, JsonModel::Str("record"@)),
            ("records"@, JsonModel::Str(records)),
        ]),
        EdgeKindV::NoEdge => canonical_object(seq![
            ("from"@, JsonModel::Str(c.from)),
            ("input"@, JsonModel::Str(c.input)),
            ("edge"@, JsonModel::Str("no_edge"@)),
        ]),
    }
}

/// One door as a JSON object.
pub open spec fn door_document(d: DoorTopologyV) -> JsonModel {
    canonical_object(seq![
        ("name"@, JsonModel::Str(door_name_text(d.name))),
        ("fixed_table"@, JsonModel::Bool(d.fixed_table)),
        ("inputs"@, string_array(d.inputs)),
        ("cells"@, JsonModel::Array(d.cells.map_values(|c: CellV| cell_document(c)))),
    ])
}

/// The whole `topology.json` document.
pub open spec fn topology_document_of(t: TopologyV) -> JsonModel {
    canonical_object(seq![
        ("generated_by"@, JsonModel::Str("bld topology render"@)),
        ("note"@, JsonModel::Str(note_text())),
        ("domain"@, JsonModel::Str(t.domain)),
        ("initial"@, JsonModel::Str(t.initial)),
        ("states"@, string_array(t.states)),
        ("doors"@, JsonModel::Array(t.doors.map_values(|d: DoorTopologyV| door_document(d)))),
    ])
}

/// A JSON array of strings reads back at any positive depth.
proof fn lemma_string_array_reads_back(ss: Seq<Seq<char>>, depth: nat)
    requires
        depth >= 1,
    ensures
        reads_back(string_array(ss), depth),
{
    let items = ss.map_values(|s: Seq<char>| JsonModel::Str(s));
    assert forall|i: int| 0 <= i < items.len() implies reads_back(#[trigger] items[i], (depth - 1) as nat) by {
        assert(items[i] == JsonModel::Str(ss[i]));
    }
    lemma_items_read_back(items, (depth - 1) as nat);
}

/// A rendered cell reads back at any positive depth.
proof fn lemma_cell_document_reads_back(c: CellV, depth: nat)
    requires
        depth >= 1,
    ensures
        reads_back(cell_document(c), depth),
{
    let d = (depth - 1) as nat;
    match c.kind {
        EdgeKindV::Local { to } => {
            let es = seq![
                ("from"@, JsonModel::Str(c.from)),
                ("input"@, JsonModel::Str(c.input)),
                ("edge"@, JsonModel::Str("local"@)),
                ("to"@, JsonModel::Str(to)),
            ];
            assert forall|j: int| 0 <= j < es.len() implies reads_back(#[trigger] es[j].1, d) by {}
            lemma_canonical_object_reads_back(es, depth);
        },
        EdgeKindV::External { to, effect } => {
            let es = seq![
                ("from"@, JsonModel::Str(c.from)),
                ("input"@, JsonModel::Str(c.input)),
                ("edge"@, JsonModel::Str("external"@)),
                ("to"@, JsonModel::Str(to)),
                ("effect"@, JsonModel::Str(effect)),
            ];
            assert forall|j: int| 0 <= j < es.len() implies reads_back(#[trigger] es[j].1, d) by {}
            lemma_canonical_object_reads_back(es, depth);
        },
        EdgeKindV::Record { records } => {
            let es = seq![
                ("from"@, JsonModel::Str(c.from)),
                ("input"@, JsonModel::Str(c.input)),
                ("edge"@, JsonModel::Str("record"@)),
                ("records"@, JsonModel::Str(records)),
            ];
            assert forall|j: int| 0 <= j < es.len() implies reads_back(#[trigger] es[j].1, d) by {}
            lemma_canonical_object_reads_back(es, depth);
        },
        EdgeKindV::NoEdge => {
            let es = seq![
                ("from"@, JsonModel::Str(c.from)),
                ("input"@, JsonModel::Str(c.input)),
                ("edge"@, JsonModel::Str("no_edge"@)),
            ];
            assert forall|j: int| 0 <= j < es.len() implies reads_back(#[trigger] es[j].1, d) by {}
            lemma_canonical_object_reads_back(es, depth);
        },
    }
}

/// A rendered door reads back at any depth from three on.
proof fn lemma_door_document_reads_back(door: DoorTopologyV, depth: nat)
    requires
        depth >= 3,
    ensures
        reads_back(door_document(door), depth),
{
    let d = (depth - 1) as nat;
    let cells = door.cells.map_values(|c: CellV| cell_document(c));
    assert forall|i: int| 0 <= i < cells.len() implies reads_back(#[trigger] cells[i], (d - 1) as nat) by {
        lemma_cell_document_reads_back(door.cells[i], (d - 1) as nat);
    }
    lemma_items_read_back(cells, (d - 1) as nat);
    lemma_string_array_reads_back(door.inputs, d);
    let es = seq![
        ("name"@, JsonModel::Str(door_name_text(door.name))),
        ("fixed_table"@, JsonModel::Bool(door.fixed_table)),
        ("inputs"@, string_array(door.inputs)),
        ("cells"@, JsonModel::Array(cells)),
    ];
    assert forall|j: int| 0 <= j < es.len() implies reads_back(#[trigger] es[j].1, d) by {}
    lemma_canonical_object_reads_back(es, depth);
}

/// A rendered `topology.json` is a value `serde_json` reads back exactly.
pub proof fn lemma_topology_document_reads_back(t: TopologyV)
    ensures
        reads_back(topology_document_of(t), 127),
{
    let doors = t.doors.map_values(|d: DoorTopologyV| door_document(d));
    assert forall|i: int| 0 <= i < doors.len() implies reads_back(#[trigger] doors[i], 125) by {
        lemma_door_document_reads_back(t.doors[i], 125);
    }
    lemma_items_read_back(doors, 125);
    lemma_string_array_reads_back(t.states, 126);
    let es = seq![
        ("generated_by"@, JsonModel::Str("bld topology render"@)),
        ("note"@, JsonModel::Str(note_text())),
        ("domain"@, JsonModel::Str(t.domain)),
        ("initial"@, JsonModel::Str(t.initial)),
        ("states"@, string_array(t.states)),
        ("doors"@, JsonModel::Array(doors)),
    ];
    assert forall|j: int| 0 <= j < es.len() implies reads_back(#[trigger] es[j].1, 126) by {}
    lemma_canonical_object_reads_back(es, 127);
}

/// A list of strings as a JSON array.
fn string_array_value(v: &Vec<String>) -> (r: JsonValue)
    ensures
        r@ == string_array(texts(v@)),
        json_wf(r@),
{
    let mut items: Vec<JsonValue> = Vec::new();
    let mut i: usize = 0;
    while i < v.len()
        invariant
            i <= v@.len(),
            items@.len() == i,
            forall|k: int| 0 <= k < i ==> (#[trigger] items@[k])@ == JsonModel::Str(v@[k]@),
        decreases v@.len() - i,
    {
        items.push(JsonValue::String(v[i].clone()));
        i = i + 1;
    }
    proof {
        lemma_json_models(items@);
        assert(json_models(items@) =~= texts(v@).map_values(|s: Seq<char>| JsonModel::Str(s)));
        crate::json::lemma_items_wf(json_models(items@));
    }
    JsonValue::Array(items)
}

/// One member of an object under construction.
fn member(key: &str, value: JsonValue) -> (r: (String, JsonValue))
    ensures
        r.0@ == key@,
        r.1@ == value@,
{
    (String::from_str(key), value)
}

/// One cell as a JSON object.
fn cell_value(cell: &Cell) -> (r: JsonValue)
    ensures
        r@ == cell_document(cell@),
        json_wf(r@),
{
    let mut es: Vec<(String, JsonValue)> = Vec::new();
    es.push(member("from", JsonValue::String(cell.from.clone())));
    es.push(member("input", JsonValue::String(cell.input.clone())));
    match &cell.kind {
        EdgeKind::Local { to } => {
            es.push(member("edge", JsonValue::string("local")));
            es.push(member("to", JsonValue::String(to.clone())));
        },
        EdgeKind::External { to, effect } => {
            es.push(member("edge", JsonValue::string("external")));
            es.push(member("to", JsonValue::String(to.clone())));
            es.push(member("effect", JsonValue::String(effect.clone())));
        },
        EdgeKind::Record { records } => {
            es.push(member("edge", JsonValue::string("record")));
            es.push(member("records", JsonValue::String(records.clone())));
        },
        EdgeKind::NoEdge => {
            es.push(member("edge", JsonValue::string("no_edge")));
        },
    }
    proof {
        lemma_json_entries(es@);
        assert(json_entries(es@) =~= match cell@.kind {
            EdgeKindV::Local { to } => seq![
                ("from"@, JsonModel::Str(cell@.from)),
                ("input"@, JsonModel::Str(cell@.input)),
                ("edge"@, JsonModel::Str("local"@)),
                ("to"@, JsonModel::Str(to)),
            ],
            EdgeKindV::External { to, effect } => seq![
                ("from"@, JsonModel::Str(cell@.from)),
                ("input"@, JsonModel::Str(cell@.input)),
                ("edge"@, JsonModel::Str("external"@)),
                ("to"@, JsonModel::Str(to)),
                ("effect"@, JsonModel::Str(effect)),
            ],
            EdgeKindV::Record { records } => seq![
                ("from"@, JsonModel::Str(cell@.from)),
                ("input"@, JsonModel::Str(cell@.input)),
                ("edge"@, JsonModel::Str("record"@)),
                ("records"@, JsonModel::Str(records)),
            ],
            EdgeKindV::NoEdge => seq![
                ("from"@, JsonModel::Str(cell@.from)),
                ("input"@, JsonModel::Str(cell@.input)),
                ("edge"@, JsonModel::Str("no_edge"@)),
            ],
        });
    }
    JsonValue::object(es)
}

/// One door as a JSON object.
fn door_value(door: &DoorTopology) -> (r: JsonValue)
    ensures
        r@ == door_document(door@),
        json_wf(r@),
{
    let mut cells: Vec<JsonValue> = Vec::new();
    let mut i: usize = 0;
    while i < door.cells.len()
        invariant
            i <= door.cells@.len(),
            cells@.len() == i,
            forall|k: int| 0 <= k < i ==> (#[trigger] cells@[k])@ == cell_document(door.cells@[k]@)
                && json_wf(cells@[k]@),
        decreases door.cells@.len() - i,
    {
        cells.push(cell_value(&door.cells[i]));
        i = i + 1;
    }
    proof {
        lemma_json_models(cells@);
        assert(json_models(cells@) =~= door@.cells.map_values(|c: CellV| cell_document(c)));
        crate::json::lemma_items_wf(json_models(cells@));
    }
    let mut es: Vec<(String, JsonValue)> = Vec::new();
    es.push(member("name", JsonValue::string(door.name.as_str())));
    es.push(member("fixed_table", JsonValue::Bool(door.fixed_table)));
    es.push(member("inputs", string_array_value(&door.inputs)));
    es.push(member("cells", JsonValue::Array(cells)));
    proof {
        lemma_json_entries(es@);
        assert(json_entries(es@) =~= seq![
            ("name"@, JsonModel::Str(door_name_text(door@.name))),
            ("fixed_table"@, JsonModel::Bool(door@.fixed_table)),
            ("inputs"@, string_array(door@.inputs)),
            ("cells"@, JsonModel::Array(door@.cells.map_values(|c: CellV| cell_document(c)))),
        ]);
    }
    JsonValue::object(es)
}

/// The topology as a `topology.json` document.
pub fn topology_document(topology: &Topology) -> (r: JsonValue)
    ensures
        r@ == topology_document_of(topology@),
        json_wf(r@),
{
    let mut doors: Vec<JsonValue> = Vec::new();
    let mut i: usize = 0;
    while i < topology.doors.len()
        invariant
            i <= topology.doors@.len(),
            doors@.len() == i,
            forall|k: int| 0 <= k < i ==> (#[trigger] doors@[k])@ == door_document(topology.doors@[k]@)
                && json_wf(doors@[k]@),
        decreases topology.doors@.len() - i,
    {
        doors.push(door_value(&topology.doors[i]));
        i = i + 1;
    }
    proof {
        lemma_json_models(doors@);
        assert(json_models(doors@) =~= topology@.doors.map_values(|d: DoorTopologyV| door_document(d)));
        crate::json::lemma_items_wf(json_models(doors@));
    }
    let mut es: Vec<(String, JsonValue)> = Vec::new();
    es.push(member("generated_by", JsonValue::string("bld topology render")));
    es.push(member("note", JsonValue::string("Derived by `bld topology render`. A `no_edge` cell is a transition that does not exist, not one refused at runtime. `fixed_table` per door says whether the door is decided by (state, input) alone; where it is false the door reads persisted data and the enumeration is of the intended shape, not every runtime axis.")));
    es.push(member("domain", JsonValue::String(topology.domain.clone())));
    es.push(member("initial", JsonValue::String(topology.initial.clone())));
    es.push(member("states", string_array_value(&topology.states)));
    es.push(member("doors", JsonValue::Array(doors)));
    proof {
        lemma_json_entries(es@);
        assert(json_entries(es@) =~= seq![
            ("generated_by"@, JsonModel::Str("bld topology render"@)),
            ("note"@, JsonModel::Str(note_text())),
            ("domain"@, JsonModel::Str(topology@.domain)),
            ("initial"@, JsonModel::Str(topology@.initial)),
            ("states"@, string_array(topology@.states)),
            ("doors"@, JsonModel::Array(topology@.doors.map_values(|d: DoorTopologyV| door_document(d)))),
        ]);
    }
    JsonValue::object(es)
}

/// The topology as `topology.json`: pretty-printed, members in key order.
/// Reading the text back with `serde_json` gives the document again.
pub fn to_json(topology: &Topology) -> (r: String)
    ensures
        r@ == json_pretty_text(topology_document_of(topology@)),
        json_parse(r@) == Ok::<JsonModel, Seq<char>>(topology_document_of(topology@)),
{
    proof {
        lemma_topology_document_reads_back(topology@);
    }
    topology_document(topology).to_text_pretty()
}

} // verus!
