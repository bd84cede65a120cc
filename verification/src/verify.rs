//! Verify that a shipped domain still matches its spec: catch drift.
//!
//! A domain implemented from a spec exports its *real* topology in the same
//! `topology.json` shape that [`crate::render::to_json`] emits. This compares
//! the two cell by cell: any `(door, state, input)` where the domain differs
//! from the spec (a transition the code grew, one it lost, or a target that
//! changed) is drift.

use vstd::prelude::*;
use crate::json::{
    lemma_text_lt_asymmetric, lemma_text_lt_irreflexive, lemma_text_lt_total, lemma_text_lt_transitive,
    model_get, model_items, model_str, text_equal, text_less, text_lt, JsonModel, JsonValue,
};
use crate::spec::door_name_text;
use crate::text::decimal;
use crate::topology::{Cell, CellV, DoorTopologyV, EdgeKind, EdgeKindV, Topology, TopologyV};

verus! {

/// One `(door, state, input)` cell where the domain and the spec disagree.
#[derive(Debug, Clone, PartialEq, Eq)]
pub struct Drift {
    pub door: String,
    pub from: String,
    pub input: String,
    pub in_spec: String,
    pub in_domain: String,
}

/// The view of a [`Drift`].
pub struct DriftV {
    pub door: Seq<char>,
    pub from: Seq<char>,
    pub input: Seq<char>,
    pub in_spec: Seq<char>,
    pub in_domain: Seq<char>,
}

impl View for Drift {
    type V = DriftV;

    open spec fn view(&self) -> DriftV {
        DriftV {
            door: self.door@,
            from: self.from@,
            input: self.input@,
            in_spec: self.in_spec@,
            in_domain: self.in_domain@,
        }
    }
}

/// The result of a verification: every point of drift (empty means they match).
#[derive(Debug, Clone)]
pub struct VerifyReport {
    pub drifts: Vec<Drift>,
}

/// The view of a [`VerifyReport`].
pub struct VerifyReportV {
    pub drifts: Seq<DriftV>,
}

impl View for VerifyReport {
    type V = VerifyReportV;

    open spec fn view(&self) -> VerifyReportV {
        VerifyReportV { drifts: self.drifts@.map_values(|d: Drift| d@) }
    }
}

impl VerifyReport {
    /// True when the domain matches the spec exactly.
    pub fn matches(&self) -> (r: bool)
        ensures
            r == (self@.drifts.len() == 0),
    {
        self.drifts.len() == 0
    }
}

// ---------------------------------------------------------------------------
// Cell keys.

/// A cell's key: door name, state, input.
pub type KeyV = (Seq<char>, Seq<char>, Seq<char>);

/// The order of keys: by door, then state, then input.
pub open spec fn key_lt(a: KeyV, b: KeyV) -> bool {
    text_lt(a.0, b.0) || (a.0 == b.0 && (text_lt(a.1, b.1) || (a.1 == b.1 && text_lt(a.2, b.2))))
}

pub proof fn lemma_key_lt_irreflexive(a: KeyV)
    ensures
        !key_lt(a, a),
{
    lemma_text_lt_irreflexive(a.0);
    lemma_text_lt_irreflexive(a.1);
    lemma_text_lt_irreflexive(a.2);
}

pub proof fn lemma_key_lt_transitive(a: KeyV, b: KeyV, c: KeyV)
    requires
        key_lt(a, b),
        key_lt(b, c),
    ensures
        key_lt(a, c),
{
    if text_lt(a.0, b.0) && text_lt(b.0, c.0) {
        lemma_text_lt_transitive(a.0, b.0, c.0);
    } else if a.0 == b.0 && b.0 == c.0 {
        if text_lt(a.1, b.1) && text_lt(b.1, c.1) {
            lemma_text_lt_transitive(a.1, b.1, c.1);
        } else if a.1 == b.1 && b.1 == c.1 {
            lemma_text_lt_transitive(a.2, b.2, c.2);
        }
    }
}

pub proof fn lemma_key_lt_total(a: KeyV, b: KeyV)
    requires
        a != b,
    ensures
        key_lt(a, b) || key_lt(b, a),
{
    if a.0 != b.0 {
        lemma_text_lt_total(a.0, b.0);
    } else if a.1 != b.1 {
        lemma_text_lt_total(a.1, b.1);
    } else {
        lemma_text_lt_total(a.2, b.2);
    }
}

/// The text standing for a cell the other side does not have.
pub open spec fn absent_text() -> Seq<char> {
    "(absent)"@
}

/// The text a cell is compared by: its kind and where it leads. A
/// `system_event`'s `records` label is documentation the kernel cannot
/// reproduce, so a record compares on existence alone.
pub open spec fn kind_text(k: EdgeKindV) -> Seq<char> {
    match k {
        EdgeKindV::NoEdge => "no_edge"@,
        EdgeKindV::Local { to } => "local -> "@ + to,
        EdgeKindV::External { to, effect } => "external -> "@ + to + " / "@ + effect,
        EdgeKindV::Record { .. } => "record"@,
    }
}

/// The last text recorded under `key` (a later entry replaces an earlier one).
pub open spec fn lookup(entries: Seq<(KeyV, Seq<char>)>, key: KeyV) -> Option<Seq<char>>
    decreases entries.len(),
{
    if entries.len() == 0 {
        None
    } else if entries.last().0 == key {
        Some(entries.last().1)
    } else {
        lookup(entries.drop_last(), key)
    }
}

/// The text recorded under `key`, or the absence marker.
pub open spec fn lookup_text(entries: Seq<(KeyV, Seq<char>)>, key: KeyV) -> Seq<char> {
    match lookup(entries, key) {
        Some(t) => t,
        None => absent_text(),
    }
}

/// The spec's cells of one door, as keyed texts.
pub open spec fn door_cell_entries(name: Seq<char>, cells: Seq<CellV>) -> Seq<(KeyV, Seq<char>)>
    decreases cells.len(),
{
    if cells.len() == 0 {
        Seq::empty()
    } else {
        door_cell_entries(name, cells.drop_last())
            .push(((name, cells.last().from, cells.last().input), kind_text(cells.last().kind)))
    }
}

/// The spec's cells, door by door, as keyed texts.
pub open spec fn spec_cell_entries(doors: Seq<DoorTopologyV>) -> Seq<(KeyV, Seq<char>)>
    decreases doors.len(),
{
    if doors.len() == 0 {
        Seq::empty()
    } else {
        spec_cell_entries(doors.drop_last())
            + door_cell_entries(door_name_text(doors.last().name), doors.last().cells)
    }
}

// ---------------------------------------------------------------------------
// Reading an exported topology.json.

pub open spec fn msg_no_doors() -> Seq<char> {
    "exported topology has no `doors` array"@
}

pub open spec fn msg_no_name() -> Seq<char> {
    "a door is missing its `name`"@
}

pub open spec fn msg_no_cells() -> Seq<char> {
    "a door is missing its `cells`"@
}

pub open spec fn msg_no_edge_field() -> Seq<char> {
    "a cell is missing its `edge`"@
}

/// A string member of a cell, or the empty text.
pub open spec fn field_text(cell: JsonModel, key: Seq<char>) -> Seq<char> {
    match model_get(cell, key) {
        Some(v) => match model_str(v) {
            Some(s) => s,
            None => Seq::empty(),
        },
        None => Seq::empty(),
    }
}

/// The string member under `key`, if the value has one.
pub open spec fn get_str(v: JsonModel, key: Seq<char>) -> Option<Seq<char>> {
    match model_get(v, key) {
        Some(x) => model_str(x),
        None => None,
    }
}

/// The array member under `key`, if the value has one.
pub open spec fn get_items(v: JsonModel, key: Seq<char>) -> Option<Seq<JsonModel>> {
    match model_get(v, key) {
        Some(x) => model_items(x),
        None => None,
    }
}

/// The comparison text of an exported cell, or why it has none.
pub open spec fn json_kind_text(cell: JsonModel) -> Result<Seq<char>, Seq<char>> {
    match get_str(cell, "edge"@) {
        None => Err(msg_no_edge_field()),
        Some(edge) => Ok(
            if edge == "no_edge"@ {
                "no_edge"@
            } else if edge == "local"@ {
                "local -> "@ + field_text(cell, "to"@)
            } else if edge == "external"@ {
                "external -> "@ + field_text(cell, "to"@) + " / "@ + field_text(cell, "effect"@)
            } else if edge == "record"@ {
                "record"@
            } else {
                "unknown("@ + edge + ")"@
            },
        ),
    }
}

/// The exported cells of one door as keyed texts, or the first problem.
pub open spec fn json_door_cell_entries(name: Seq<char>, cells: Seq<JsonModel>) -> Result<Seq<(KeyV, Seq<char>)>, Seq<char>>
    decreases cells.len(),
{
    if cells.len() == 0 {
        Ok(Seq::empty())
    } else {
        match json_door_cell_entries(name, cells.drop_last()) {
            Err(e) => Err(e),
            Ok(es) => match json_kind_text(cells.last()) {
                Err(e) => Err(e),
                Ok(k) => Ok(es.push(((name, field_text(cells.last(), "from"@), field_text(cells.last(), "input"@)), k))),
            },
        }
    }
}

/// The exported cells of some doors as keyed texts, or the first problem.
pub open spec fn json_doors_entries(doors: Seq<JsonModel>) -> Result<Seq<(KeyV, Seq<char>)>, Seq<char>>
    decreases doors.len(),
{
    if doors.len() == 0 {
        Ok(Seq::empty())
    } else {
        match json_doors_entries(doors.drop_last()) {
            Err(e) => Err(e),
            Ok(es) => match get_str(doors.last(), "name"@) {
                None => Err(msg_no_name()),
                Some(name) => match get_items(doors.last(), "cells"@) {
                    None => Err(msg_no_cells()),
                    Some(cells) => match json_door_cell_entries(name, cells) {
                        Err(e) => Err(e),
                        Ok(more) => Ok(es + more),
                    },
                },
            },
        }
    }
}

/// The exported cells as keyed texts, or why the value is not a `topology.json`.
pub open spec fn json_cell_entries(exported: JsonModel) -> Result<Seq<(KeyV, Seq<char>)>, Seq<char>> {
    match get_items(exported, "doors"@) {
        None => Err(msg_no_doors()),
        Some(doors) => json_doors_entries(doors),
    }
}

/// The cell a drift is about.
pub open spec fn drift_key(d: DriftV) -> KeyV {
    (d.door, d.from, d.input)
}

/// `drifts` is exactly the disagreement between two keyed cell lists: one
/// entry per key either side has where their texts differ, in key order.
pub open spec fn is_drift_of(drifts: Seq<DriftV>, spec: Seq<(KeyV, Seq<char>)>, domain: Seq<(KeyV, Seq<char>)>) -> bool {
    &&& forall|i: int, j: int| 0 <= i < j < drifts.len() ==> key_lt(
        drift_key(#[trigger] drifts[i]),
        drift_key(#[trigger] drifts[j]),
    )
    &&& forall|i: int| 0 <= i < drifts.len() ==> {
        let k = drift_key(#[trigger] drifts[i]);
        &&& drifts[i].in_spec == lookup_text(spec, k)
        &&& drifts[i].in_domain == lookup_text(domain, k)
        &&& drifts[i].in_spec != drifts[i].in_domain
    }
    &&& forall|k: KeyV| #[trigger] lookup_text(spec, k) != lookup_text(domain, k) ==> exists|i: int|
        0 <= i < drifts.len() && drift_key(#[trigger] drifts[i]) == k
}


/// The drift between two keyed cell lists.
pub open spec fn drift_list(spec: Seq<(KeyV, Seq<char>)>, domain: Seq<(KeyV, Seq<char>)>) -> Seq<DriftV> {
    choose|ds: Seq<DriftV>| is_drift_of(ds, spec, domain)
}

/// Two strictly increasing key lists with the same keys are the same list.
pub proof fn lemma_keys_unique(a: Seq<KeyV>, b: Seq<KeyV>)
    requires
        forall|i: int, j: int| 0 <= i < j < a.len() ==> key_lt(#[trigger] a[i], #[trigger] a[j]),
        forall|i: int, j: int| 0 <= i < j < b.len() ==> key_lt(#[trigger] b[i], #[trigger] b[j]),
        forall|k: KeyV| #[trigger] a.contains(k) <==> b.contains(k),
    ensures
        a == b,
    decreases a.len() + b.len(),
{
    if a.len() == 0 && b.len() == 0 {
        assert(a =~= b);
    } else if a.len() == 0 {
        assert(b.contains(b[0]));
        assert(a.contains(b[0]));
    } else if b.len() == 0 {
        assert(a.contains(a[0]));
        assert(b.contains(a[0]));
    } else {
        let ka = a[a.len() - 1];
        let kb = b[b.len() - 1];
        if ka != kb {
            assert(a.contains(ka));
            assert(b.contains(ka));
            assert(b.contains(kb));
            assert(a.contains(kb));
            let i = choose|i: int| 0 <= i < b.len() && b[i] == ka;
            let j = choose|j: int| 0 <= j < a.len() && a[j] == kb;
            assert(i < b.len() - 1);
            assert(j < a.len() - 1);
            assert(key_lt(b[i], kb));
            assert(key_lt(a[j], ka));
            lemma_key_lt_transitive(ka, kb, ka);
            lemma_key_lt_irreflexive(ka);
        }
        let da = a.drop_last();
        let db = b.drop_last();
        assert forall|k: KeyV| #[trigger] da.contains(k) <==> db.contains(k) by {
            if da.contains(k) {
                let i = choose|i: int| 0 <= i < da.len() && da[i] == k;
                assert(a[i] == k);
                assert(key_lt(k, ka));
                lemma_key_lt_irreflexive(ka);
                assert(a.contains(k));
                assert(b.contains(k));
                let j = choose|j: int| 0 <= j < b.len() && b[j] == k;
                if j == b.len() - 1 {
                    lemma_key_lt_irreflexive(k);
                }
                assert(db[j] == k);
            }
            if db.contains(k) {
                let i = choose|i: int| 0 <= i < db.len() && db[i] == k;
                assert(b[i] == k);
                assert(key_lt(k, kb));
                assert(b.contains(k));
                assert(a.contains(k));
                let j = choose|j: int| 0 <= j < a.len() && a[j] == k;
                if j == a.len() - 1 {
                    lemma_key_lt_irreflexive(k);
                }
                assert(da[j] == k);
            }
        }
        assert forall|i: int, j: int| 0 <= i < j < da.len() implies key_lt(#[trigger] da[i], #[trigger] da[j]) by {
            assert(da[i] == a[i] && da[j] == a[j]);
        }
        assert forall|i: int, j: int| 0 <= i < j < db.len() implies key_lt(#[trigger] db[i], #[trigger] db[j]) by {
            assert(db[i] == b[i] && db[j] == b[j]);
        }
        lemma_keys_unique(da, db);
        assert(a =~= da.push(ka));
        assert(b =~= db.push(kb));
    }
}

/// The drift between two keyed cell lists is determined by them.
pub proof fn lemma_drift_unique(
    a: Seq<DriftV>,
    b: Seq<DriftV>,
    spec: Seq<(KeyV, Seq<char>)>,
    domain: Seq<(KeyV, Seq<char>)>,
)
    requires
        is_drift_of(a, spec, domain),
        is_drift_of(b, spec, domain),
    ensures
        a == b,
{
    let ka = a.map_values(|d: DriftV| drift_key(d));
    let kb = b.map_values(|d: DriftV| drift_key(d));
    assert forall|i: int, j: int| 0 <= i < j < ka.len() implies key_lt(#[trigger] ka[i], #[trigger] ka[j]) by {
        assert(key_lt(drift_key(a[i]), drift_key(a[j])));
    }
    assert forall|i: int, j: int| 0 <= i < j < kb.len() implies key_lt(#[trigger] kb[i], #[trigger] kb[j]) by {
        assert(key_lt(drift_key(b[i]), drift_key(b[j])));
    }
    assert forall|k: KeyV| #[trigger] ka.contains(k) <==> kb.contains(k) by {
        if ka.contains(k) {
            let i = choose|i: int| 0 <= i < ka.len() && ka[i] == k;
            assert(drift_key(a[i]) == k);
            assert(lookup_text(spec, k) != lookup_text(domain, k));
            let j = choose|j: int| 0 <= j < b.len() && drift_key(#[trigger] b[j]) == k;
            assert(kb[j] == k);
        }
        if kb.contains(k) {
            let i = choose|i: int| 0 <= i < kb.len() && kb[i] == k;
            assert(drift_key(b[i]) == k);
            assert(lookup_text(spec, k) != lookup_text(domain, k));
            let j = choose|j: int| 0 <= j < a.len() && drift_key(#[trigger] a[j]) == k;
            assert(ka[j] == k);
        }
    }
    lemma_keys_unique(ka, kb);
    assert forall|i: int| 0 <= i < a.len() implies #[trigger] a[i] == b[i] by {
        assert(ka[i] == kb[i]);
        assert(drift_key(a[i]) == drift_key(b[i]));
    }
    assert(a =~= b);
}

// ---------------------------------------------------------------------------
// Building the keyed lists.

/// A cell's key, as exec data.
pub type Key = (String, String, String);

/// The view of a key.
pub open spec fn key_view(k: Key) -> KeyV {
    (k.0@, k.1@, k.2@)
}

/// The view of a keyed list.
pub open spec fn entries_view(v: Seq<(Key, String)>) -> Seq<(KeyV, Seq<char>)> {
    v.map_values(|e: (Key, String)| (key_view(e.0), e.1@))
}

/// The comparison text of a cell's kind.
fn kind_string(kind: &EdgeKind) -> (r: String)
    ensures
        r@ == kind_text(kind@),
{
    match kind {
        EdgeKind::NoEdge => String::from_str("no_edge"),
        EdgeKind::Local { to } => {
            let mut m = String::from_str("local -> ");
            m.append(to.as_str());
            m
        },
        EdgeKind::External { to, effect } => {
            let mut m = String::from_str("external -> ");
            m.append(to.as_str());
            m.append(" / ");
            m.append(effect.as_str());
            assert(m@ =~= kind_text(kind@));
            m
        },
        EdgeKind::Record { .. } => String::from_str("record"),
    }
}

/// The spec's cells, door by door, as keyed texts.
fn spec_cells(topology: &Topology) -> (r: Vec<(Key, String)>)
    ensures
        entries_view(r@) == spec_cell_entries(topology@.doors),
{
    let ghost dv = topology@.doors;
    let mut out: Vec<(Key, String)> = Vec::new();
    let mut d: usize = 0;
    assert(dv.take(0) =~= Seq::<DoorTopologyV>::empty());
    assert(entries_view(out@) =~= spec_cell_entries(dv.take(0)));
    while d < topology.doors.len()
        invariant
            d <= topology.doors@.len(),
            dv == topology@.doors,
            entries_view(out@) == spec_cell_entries(dv.take(d as int)),
        decreases topology.doors@.len() - d,
    {
        let door = &topology.doors[d];
        let name = door.name.as_str();
        let ghost before = entries_view(out@);
        let ghost cv = door@.cells;
        let mut c: usize = 0;
        assert(cv.take(0) =~= Seq::<CellV>::empty());
        assert(before + door_cell_entries(name@, cv.take(0)) =~= before);
        while c < door.cells.len()
            invariant
                c <= door.cells@.len(),
                cv == door@.cells,
                name@ == door_name_text(door@.name),
                entries_view(out@) == before + door_cell_entries(name@, cv.take(c as int)),
            decreases door.cells@.len() - c,
        {
            let cell: &Cell = &door.cells[c];
            let ghost old_out = out@;
            let key: Key = (String::from_str(name), cell.from.clone(), cell.input.clone());
            let text = kind_string(&cell.kind);
            out.push((key, text));
            proof {
                let t = cv.take(c + 1);
                assert(t.drop_last() =~= cv.take(c as int));
                assert(t.last() == cell@);
                assert(out@ == old_out.push((key, text)));
                assert(entries_view(out@) =~= entries_view(old_out).push((key_view(key), text@)));
                assert(entries_view(out@) =~= before + door_cell_entries(name@, t));
            }
            c = c + 1;
        }
        proof {
            assert(cv.take(door.cells@.len() as int) =~= cv);
            let t = dv.take(d + 1);
            assert(t.drop_last() =~= dv.take(d as int));
            assert(t.last() == door@);
        }
        d = d + 1;
    }
    assert(dv.take(topology.doors@.len() as int) =~= dv);
    out
}

/// The string member under `key`, if the value has one.
pub fn get_string<'a>(v: &'a JsonValue, key: &str) -> (r: Option<&'a String>)
    ensures
        match r {
            Some(s) => get_str(v@, key@) == Some(s@),
            None => get_str(v@, key@) is None,
        },
{
    match v.get(key) {
        Some(x) => x.as_str(),
        None => None,
    }
}

/// A string member of a cell, or the empty text.
fn field_string(cell: &JsonValue, key: &str) -> (r: String)
    ensures
        r@ == field_text(cell@, key@),
{
    match get_string(cell, key) {
        Some(s) => s.clone(),
        None => String::new(),
    }
}

/// The comparison text of an exported cell, or why it has none.
fn json_edge_kind(cell: &JsonValue) -> (r: Result<String, String>)
    ensures
        match r {
            Ok(t) => json_kind_text(cell@) == Ok::<Seq<char>, Seq<char>>(t@),
            Err(e) => json_kind_text(cell@) == Err::<Seq<char>, Seq<char>>(e@),
        },
{
    proof {
        reveal_strlit("edge");
        reveal_strlit("to");
        reveal_strlit("effect");
    }
    let edge = match get_string(cell, "edge") {
        Some(e) => e,
        None => return Err(String::from_str("a cell is missing its `edge`")),
    };
    if text_equal(edge.as_str(), "no_edge") {
        Ok(String::from_str("no_edge"))
    } else if text_equal(edge.as_str(), "local") {
        let mut m = String::from_str("local -> ");
        m.append(field_string(cell, "to").as_str());
        Ok(m)
    } else if text_equal(edge.as_str(), "external") {
        let mut m = String::from_str("external -> ");
        m.append(field_string(cell, "to").as_str());
        m.append(" / ");
        m.append(field_string(cell, "effect").as_str());
        assert(m@ =~= "external -> "@ + field_text(cell@, "to"@) + " / "@ + field_text(cell@, "effect"@));
        Ok(m)
    } else if text_equal(edge.as_str(), "record") {
        Ok(String::from_str("record"))
    } else {
        let mut m = String::from_str("unknown(");
        m.append(edge.as_str());
        m.append(")");
        Ok(m)
    }
}

/// The exported cells as keyed texts, or why the value is not a `topology.json`.
fn json_cells(exported: &JsonValue) -> (r: Result<Vec<(Key, String)>, String>)
    ensures
        match r {
            Ok(v) => json_cell_entries(exported@) == Ok::<Seq<(KeyV, Seq<char>)>, Seq<char>>(entries_view(v@)),
            Err(e) => json_cell_entries(exported@) == Err::<Seq<(KeyV, Seq<char>)>, Seq<char>>(e@),
        },
{
    proof {
        reveal_strlit("doors");
        reveal_strlit("name");
        reveal_strlit("cells");
        reveal_strlit("from");
        reveal_strlit("input");
    }
    let doors = match exported.get("doors") {
        Some(x) => match x.as_array() {
            Some(a) => a,
            None => return Err(String::from_str("exported topology has no `doors` array")),
        },
        None => return Err(String::from_str("exported topology has no `doors` array")),
    };
    let ghost dm = crate::json::json_models(doors@);
    proof { crate::json::lemma_json_models(doors@); }
    let mut out: Vec<(Key, String)> = Vec::new();
    let mut d: usize = 0;
    assert(dm.take(0) =~= Seq::<JsonModel>::empty());
    assert(entries_view(out@) =~= Seq::<(KeyV, Seq<char>)>::empty());
    while d < doors.len()
        invariant
            d <= doors@.len(),
            dm == crate::json::json_models(doors@),
            dm.len() == doors@.len(),
            forall|k: int| 0 <= k < doors@.len() ==> #[trigger] dm[k] == doors@[k]@,
            json_cell_entries(exported@) == json_doors_entries(dm),
            json_doors_entries(dm.take(d as int)) == Ok::<Seq<(KeyV, Seq<char>)>, Seq<char>>(entries_view(out@)),
        decreases doors@.len() - d,
    {
        let door = &doors[d];
        let ghost before = entries_view(out@);
        proof {
            let t = dm.take(d + 1);
            assert(t.drop_last() =~= dm.take(d as int));
            assert(t.last() == door@);
        }
        let name = match get_string(door, "name") {
            Some(n) => n,
            None => {
                proof { lemma_doors_error_persists(dm, d + 1); }
                return Err(String::from_str("a door is missing its `name`"));
            },
        };
        let cells = match door.get("cells") {
            Some(x) => match x.as_array() {
                Some(a) => a,
                None => {
                    proof { lemma_doors_error_persists(dm, d + 1); }
                    return Err(String::from_str("a door is missing its `cells`"));
                },
            },
            None => {
                proof { lemma_doors_error_persists(dm, d + 1); }
                return Err(String::from_str("a door is missing its `cells`"));
            },
        };
        let ghost cm = crate::json::json_models(cells@);
        proof { crate::json::lemma_json_models(cells@); }
        let mut c: usize = 0;
        assert(cm.take(0) =~= Seq::<JsonModel>::empty());
        assert(before + Seq::<(KeyV, Seq<char>)>::empty() =~= before);
        while c < cells.len()
            invariant
                d < doors@.len(),
                dm == crate::json::json_models(doors@),
                dm.len() == doors@.len(),
                dm[d as int] == door@,
                json_cell_entries(exported@) == json_doors_entries(dm),
                json_doors_entries(dm.take(d as int)) == Ok::<Seq<(KeyV, Seq<char>)>, Seq<char>>(before),
                get_str(door@, "name"@) == Some(name@),
                get_items(door@, "cells"@) == Some(cm),
                c <= cells@.len(),
                cm == crate::json::json_models(cells@),
                cm.len() == cells@.len(),
                forall|k: int| 0 <= k < cells@.len() ==> #[trigger] cm[k] == cells@[k]@,
                json_door_cell_entries(name@, cm.take(c as int)) is Ok,
                entries_view(out@) == before + json_door_cell_entries(name@, cm.take(c as int))->Ok_0,
            decreases cells@.len() - c,
        {
            let cell = &cells[c];
            proof {
                let t = cm.take(c + 1);
                assert(t.drop_last() =~= cm.take(c as int));
                assert(t.last() == cell@);
            }
            let text = match json_edge_kind(cell) {
                Ok(t) => t,
                Err(e) => {
                    proof {
                        lemma_cells_error_persists(name@, cm, c + 1);
                        assert(json_door_cell_entries(name@, cm) == Err::<Seq<(KeyV, Seq<char>)>, Seq<char>>(e@));
                        let t = dm.take(d + 1);
                        assert(t.drop_last() =~= dm.take(d as int));
                        assert(t.last() == door@);
                        assert(json_doors_entries(t) == Err::<Seq<(KeyV, Seq<char>)>, Seq<char>>(e@));
                        lemma_doors_error_persists(dm, d + 1);
                    }
                    return Err(e);
                },
            };
            let key: Key = (name.clone(), field_string(cell, "from"), field_string(cell, "input"));
            let ghost old_out = out@;
            out.push((key, text));
            proof {
                assert(out@ == old_out.push((key, text)));
                assert(entries_view(out@) =~= entries_view(old_out).push((key_view(key), text@)));
                let t = cm.take(c + 1);
                assert(entries_view(out@) =~= before + json_door_cell_entries(name@, t)->Ok_0);
            }
            c = c + 1;
        }
        proof {
            assert(cm.take(cells@.len() as int) =~= cm);
            let t = dm.take(d + 1);
            assert(get_items(door@, "cells"@) == Some(cm));
        }
        d = d + 1;
    }
    assert(dm.take(doors@.len() as int) =~= dm);
    Ok(out)
}

/// Once a door's cells fail to read, so do all the doors.
proof fn lemma_doors_error_persists(dm: Seq<JsonModel>, k: int)
    requires
        0 < k <= dm.len(),
        json_doors_entries(dm.take(k - 1)) is Ok,
        json_doors_entries(dm.take(k)) is Err,
    ensures
        json_doors_entries(dm) == json_doors_entries(dm.take(k)),
    decreases dm.len(),
{
    if k < dm.len() {
        assert(dm.drop_last().take(k) =~= dm.take(k));
        assert(dm.drop_last().take(k - 1) =~= dm.take(k - 1));
        lemma_doors_error_persists(dm.drop_last(), k);
    } else {
        assert(dm.take(k) =~= dm);
    }
}

/// Once a cell fails to read, so does its door.
proof fn lemma_cells_error_persists(name: Seq<char>, cm: Seq<JsonModel>, k: int)
    requires
        0 < k <= cm.len(),
        json_door_cell_entries(name, cm.take(k - 1)) is Ok,
        json_door_cell_entries(name, cm.take(k)) is Err,
    ensures
        json_door_cell_entries(name, cm) == json_door_cell_entries(name, cm.take(k)),
    decreases cm.len(),
{
    if k < cm.len() {
        assert(cm.drop_last().take(k) =~= cm.take(k));
        assert(cm.drop_last().take(k - 1) =~= cm.take(k - 1));
        lemma_cells_error_persists(name, cm.drop_last(), k);
    } else {
        assert(cm.take(k) =~= cm);
    }
}


// ---------------------------------------------------------------------------
// Comparing.

/// The views of some keys.
pub open spec fn keys_view(v: Seq<Key>) -> Seq<KeyV> {
    v.map_values(|k: Key| key_view(k))
}

/// The keys sort strictly increasing.
pub open spec fn keys_increasing(ks: Seq<KeyV>) -> bool {
    forall|i: int, j: int| 0 <= i < j < ks.len() ==> key_lt(#[trigger] ks[i], #[trigger] ks[j])
}

/// Whether key `a` sorts strictly before key `b`.
fn key_less(a: &Key, b: &Key) -> (r: bool)
    ensures
        r == key_lt(key_view(*a), key_view(*b)),
{
    if text_less(a.0.as_str(), b.0.as_str()) {
        return true;
    }
    if a.0 != b.0 {
        return false;
    }
    if text_less(a.1.as_str(), b.1.as_str()) {
        return true;
    }
    if a.1 != b.1 {
        return false;
    }
    text_less(a.2.as_str(), b.2.as_str())
}

/// Whether two keys are the same.
fn key_equal(a: &Key, b: &Key) -> (r: bool)
    ensures
        r == (key_view(*a) == key_view(*b)),
{
    a.0 == b.0 && a.1 == b.1 && a.2 == b.2
}

/// The last text recorded under `key`.
fn find_text<'a>(entries: &'a Vec<(Key, String)>, key: &Key) -> (r: Option<&'a String>)
    ensures
        match r {
            Some(t) => lookup(entries_view(entries@), key_view(*key)) == Some(t@),
            None => lookup(entries_view(entries@), key_view(*key)) is None,
        },
{
    let ghost all = entries_view(entries@);
    let mut i: usize = entries.len();
    assert(all.take(i as int) =~= all);
    while i > 0
        invariant
            i <= entries@.len(),
            all == entries_view(entries@),
            lookup(all, key_view(*key)) == lookup(all.take(i as int), key_view(*key)),
        decreases i,
    {
        i = i - 1;
        assert(all.take(i + 1).drop_last() =~= all.take(i as int));
        assert(all.take(i + 1).last() == all[i as int]);
        if key_equal(&entries[i].0, key) {
            return Some(&entries[i].1);
        }
    }
    None
}

/// The text recorded under `key`, or the absence marker.
fn lookup_string(entries: &Vec<(Key, String)>, key: &Key) -> (r: String)
    ensures
        r@ == lookup_text(entries_view(entries@), key_view(*key)),
{
    match find_text(entries, key) {
        Some(t) => t.clone(),
        None => String::from_str("(absent)"),
    }
}

/// Adds `key` to a strictly increasing list of keys, unless it is there.
fn insert_key(keys: &mut Vec<Key>, key: Key)
    requires
        keys_increasing(keys_view(old(keys)@)),
    ensures
        keys_increasing(keys_view(final(keys)@)),
        forall|k: KeyV| #[trigger] keys_view(final(keys)@).contains(k) <==> (keys_view(old(keys)@).contains(k)
            || k == key_view(key)),
{
    let ghost before = keys_view(keys@);
    let ghost kv = key_view(key);
    let mut p: usize = 0;
    let mut searching = true;
    while searching && p < keys.len()
        invariant
            p <= keys@.len(),
            before == keys_view(keys@),
            kv == key_view(key),
            forall|i: int| 0 <= i < p ==> key_lt(#[trigger] before[i], kv),
            !searching ==> p < keys@.len() && !key_lt(before[p as int], kv),
        decreases keys@.len() - p + if searching { 1int } else { 0int },
    {
        assert(before[p as int] == key_view(keys@[p as int]));
        if key_less(&keys[p], &key) {
            p = p + 1;
        } else {
            searching = false;
        }
    }
    if p < keys.len() && key_equal(&keys[p], &key) {
        proof {
            assert forall|k: KeyV| #[trigger] before.contains(k) <==> (before.contains(k) || k == kv) by {
                if k == kv {
                    assert(before[p as int] == kv);
                }
            }
        }
        return;
    }
    proof {
        if p < keys@.len() {
            lemma_key_lt_total(before[p as int], kv);
        }
    }
    let ghost old_keys = keys@;
    keys.insert(p, key);
    proof {
        let after = keys_view(keys@);
        assert(keys@ == old_keys.insert(p as int, key));
        assert(after.len() == before.len() + 1);
        assert forall|i: int| 0 <= i < after.len() implies #[trigger] after[i] == if i < p {
            before[i]
        } else if i == p {
            kv
        } else {
            before[i - 1]
        } by {
            if i < p {
                assert(keys@[i] == old_keys[i]);
            } else if i > p {
                assert(keys@[i] == old_keys[i - 1]);
            }
        }
        assert forall|a: int, b: int| 0 <= a < b < after.len() implies key_lt(#[trigger] after[a], #[trigger] after[b]) by {
            if a < p && b == p {
            } else if a < p && b > p {
                assert(key_lt(before[a], before[b - 1]));
            } else if a == p && b > p {
                if b - 1 > p {
                    assert(key_lt(before[p as int], before[b - 1]));
                    lemma_key_lt_transitive(kv, before[p as int], before[b - 1]);
                }
            } else if a > p {
                assert(key_lt(before[a - 1], before[b - 1]));
            } else {
                assert(key_lt(before[a], before[b]));
            }
        }
        assert forall|k: KeyV| #[trigger] after.contains(k) <==> (before.contains(k) || k == kv) by {
            if after.contains(k) {
                let i = choose|i: int| 0 <= i < after.len() && after[i] == k;
                if i < p {
                    assert(before[i] == k);
                } else if i > p {
                    assert(before[i - 1] == k);
                }
            }
            if before.contains(k) {
                let i = choose|i: int| 0 <= i < before.len() && before[i] == k;
                if i < p {
                    assert(after[i] == k);
                } else {
                    assert(after[i + 1] == k);
                }
            }
            if k == kv {
                assert(after[p as int] == k);
            }
        }
    }
}

/// Adds every key of `entries` to a strictly increasing list of keys.
fn insert_keys(keys: &mut Vec<Key>, entries: &Vec<(Key, String)>)
    requires
        keys_increasing(keys_view(old(keys)@)),
    ensures
        keys_increasing(keys_view(final(keys)@)),
        forall|k: KeyV| #[trigger] keys_view(final(keys)@).contains(k) <==> (keys_view(old(keys)@).contains(k)
            || lookup(entries_view(entries@), k) is Some),
{
    let ghost ev = entries_view(entries@);
    let ghost start = keys_view(keys@);
    let mut i: usize = 0;
    while i < entries.len()
        invariant
            i <= entries@.len(),
            ev == entries_view(entries@),
            start == keys_view(old(keys)@),
            keys_increasing(keys_view(keys@)),
            forall|k: KeyV| #[trigger] keys_view(keys@).contains(k) <==> (start.contains(k)
                || lookup(ev.take(i as int), k) is Some),
        decreases entries@.len() - i,
    {
        let ghost mid = keys_view(keys@);
        let key: Key = (entries[i].0.0.clone(), entries[i].0.1.clone(), entries[i].0.2.clone());
        insert_key(keys, key);
        proof {
            let t = ev.take(i + 1);
            assert(t.drop_last() =~= ev.take(i as int));
            assert(t.last() == ev[i as int]);
            assert(ev[i as int].0 == key_view(key));
            assert forall|k: KeyV| #[trigger] keys_view(keys@).contains(k) <==> (start.contains(k)
                || lookup(t, k) is Some) by {
                assert(keys_view(keys@).contains(k) <==> (mid.contains(k) || k == key_view(key)));
            }
        }
        i = i + 1;
    }
    assert(ev.take(entries@.len() as int) =~= ev);
}

/// Compares a spec's derived topology against a domain's exported
/// `topology.json`: every cell where they differ, in key order.
pub fn verify(spec_topology: &Topology, exported: &JsonValue) -> (r: Result<VerifyReport, String>)
    ensures
        match r {
            Ok(report) => json_cell_entries(exported@) is Ok && is_drift_of(
                report@.drifts,
                spec_cell_entries(spec_topology@.doors),
                json_cell_entries(exported@)->Ok_0,
            ) && report@.drifts == drift_list(
                spec_cell_entries(spec_topology@.doors),
                json_cell_entries(exported@)->Ok_0,
            ),
            Err(e) => json_cell_entries(exported@) == Err::<Seq<(KeyV, Seq<char>)>, Seq<char>>(e@),
        },
{
    let spec = spec_cells(spec_topology);
    let domain = match json_cells(exported) {
        Ok(d) => d,
        Err(e) => return Err(e),
    };
    let ghost se = entries_view(spec@);
    let ghost de = entries_view(domain@);
    let mut keys: Vec<Key> = Vec::new();
    insert_keys(&mut keys, &spec);
    insert_keys(&mut keys, &domain);
    let ghost kv = keys_view(keys@);
    let mut drifts: Vec<Drift> = Vec::new();
    let ghost mut idx: Seq<int> = Seq::empty();
    let mut i: usize = 0;
    while i < keys.len()
        invariant
            i <= keys@.len(),
            kv == keys_view(keys@),
            se == entries_view(spec@),
            de == entries_view(domain@),
            idx.len() == drifts@.len(),
            forall|a: int| 0 <= a < idx.len() ==> 0 <= #[trigger] idx[a] < i,
            forall|a: int, b: int| 0 <= a < b < idx.len() ==> #[trigger] idx[a] < #[trigger] idx[b],
            forall|a: int| 0 <= a < drifts@.len() ==> {
                let k = drift_key((#[trigger] drifts@[a])@);
                &&& k == kv[idx[a]]
                &&& drifts@[a]@.in_spec == lookup_text(se, k)
                &&& drifts@[a]@.in_domain == lookup_text(de, k)
                &&& drifts@[a]@.in_spec != drifts@[a]@.in_domain
            },
            forall|m: int| 0 <= m < i && lookup_text(se, #[trigger] kv[m]) != lookup_text(de, kv[m])
                ==> exists|a: int| 0 <= a < idx.len() && idx[a] == m,
        decreases keys@.len() - i,
    {
        let key = &keys[i];
        let in_spec = lookup_string(&spec, key);
        let in_domain = lookup_string(&domain, key);
        if in_spec != in_domain {
            let ghost old_drifts = drifts@;
            let ghost old_idx = idx;
            let drift = Drift {
                door: key.0.clone(),
                from: key.1.clone(),
                input: key.2.clone(),
                in_spec,
                in_domain,
            };
            assert(drift_key(drift@) == kv[i as int]);
            drifts.push(drift);
            proof {
                idx = idx.push(i as int);
                assert(drifts@ == old_drifts.push(drift));
                assert forall|a: int| 0 <= a < drifts@.len() implies {
                    let k = drift_key((#[trigger] drifts@[a])@);
                    &&& k == kv[idx[a]]
                    &&& drifts@[a]@.in_spec == lookup_text(se, k)
                    &&& drifts@[a]@.in_domain == lookup_text(de, k)
                    &&& drifts@[a]@.in_spec != drifts@[a]@.in_domain
                } by {
                    if a < old_drifts.len() {
                        assert(drifts@[a] == old_drifts[a]);
                        assert(idx[a] == old_idx[a]);
                    }
                }
                assert forall|m: int| 0 <= m < i + 1 && lookup_text(se, #[trigger] kv[m]) != lookup_text(de, kv[m])
                    implies exists|a: int| 0 <= a < idx.len() && idx[a] == m by {
                    if m < i {
                        let a = choose|a: int| 0 <= a < old_idx.len() && old_idx[a] == m;
                        assert(idx[a] == m);
                    } else {
                        assert(idx[old_idx.len() as int] == m);
                    }
                }
            }
        }
        i = i + 1;
    }
    proof {
        assert forall|a: int, b: int| 0 <= a < b < drifts@.len() implies key_lt(
            drift_key((#[trigger] drifts@[a])@),
            drift_key((#[trigger] drifts@[b])@),
        ) by {
            assert(idx[a] < idx[b]);
            assert(key_lt(kv[idx[a]], kv[idx[b]]));
        }
        assert forall|k: KeyV| #[trigger] lookup_text(se, k) != lookup_text(de, k) implies exists|a: int|
            0 <= a < drifts@.len() && drift_key((#[trigger] drifts@[a])@) == k by {
            assert(lookup(se, k) is Some || lookup(de, k) is Some);
            assert(kv.contains(k));
            let m = choose|m: int| 0 <= m < kv.len() && kv[m] == k;
            assert(lookup_text(se, kv[m]) != lookup_text(de, kv[m]));
            let a = choose|a: int| 0 <= a < idx.len() && idx[a] == m;
            assert(drift_key(drifts@[a]@) == k);
        }
    }
    let report = VerifyReport { drifts };
    proof {
        let rv = report@.drifts;
        assert(rv.len() == report.drifts@.len());
        assert forall|a: int| 0 <= a < rv.len() implies #[trigger] rv[a] == report.drifts@[a]@ by {}
        assert forall|a: int, b: int| 0 <= a < b < rv.len() implies key_lt(
            drift_key(#[trigger] rv[a]),
            drift_key(#[trigger] rv[b]),
        ) by {
            assert(rv[a] == report.drifts@[a]@ && rv[b] == report.drifts@[b]@);
        }
        assert forall|a: int| 0 <= a < rv.len() implies {
            let k = drift_key(#[trigger] rv[a]);
            &&& rv[a].in_spec == lookup_text(se, k)
            &&& rv[a].in_domain == lookup_text(de, k)
            &&& rv[a].in_spec != rv[a].in_domain
        } by {
            assert(rv[a] == report.drifts@[a]@);
        }
        assert forall|k: KeyV| #[trigger] lookup_text(se, k) != lookup_text(de, k) implies exists|a: int|
            0 <= a < rv.len() && drift_key(#[trigger] rv[a]) == k by {
            let a = choose|a: int| 0 <= a < report.drifts@.len() && drift_key((#[trigger] report.drifts@[a])@) == k;
            assert(rv[a] == report.drifts@[a]@);
        }
        assert(is_drift_of(rv, se, de));
        lemma_drift_unique(rv, drift_list(se, de), se, de);
    }
    Ok(report)
}

/// One line of a drift report.
pub open spec fn drift_line(d: DriftV) -> Seq<char> {
    "  "@ + d.door + " ("@ + d.from + ", "@ + d.input + "): spec = "@ + d.in_spec + ", domain = "@ + d.in_domain + "\n"@
}

/// The lines of all the drifts, in order.
pub open spec fn drift_lines(ds: Seq<DriftV>) -> Seq<char>
    decreases ds.len(),
{
    if ds.len() == 0 { Seq::empty() } else { drift_lines(ds.drop_last()) + drift_line(ds.last()) }
}

/// The human-readable drift report.
pub open spec fn report_text(r: VerifyReportV) -> Seq<char> {
    if r.drifts.len() == 0 {
        "MATCHES \u{2014} the domain's topology is identical to the spec.\n"@
    } else {
        "DRIFT \u{2014} the domain disagrees with the spec in "@ + decimal(r.drifts.len()) + " cell(s):\n"@
            + drift_lines(r.drifts)
    }
}

/// Appends one line of a drift report.
fn push_drift_line(out: &mut String, d: &Drift)
    ensures
        final(out)@ == old(out)@ + drift_line(d@),
{
    out.append("  ");
    out.append(d.door.as_str());
    out.append(" (");
    out.append(d.from.as_str());
    out.append(", ");
    out.append(d.input.as_str());
    out.append("): spec = ");
    out.append(d.in_spec.as_str());
    out.append(", domain = ");
    out.append(d.in_domain.as_str());
    out.append("\n");
    assert(final(out)@ =~= old(out)@ + drift_line(d@));
}

/// A human-readable drift report.
pub fn report(outcome: &VerifyReport) -> (r: String)
    ensures
        r@ == report_text(outcome@),
{
    if outcome.matches() {
        return String::from_str("MATCHES \u{2014} the domain's topology is identical to the spec.\n");
    }
    let ghost dv = outcome@.drifts;
    let mut out = String::from_str("DRIFT \u{2014} the domain disagrees with the spec in ");
    crate::text::push_decimal(&mut out, outcome.drifts.len());
    out.append(" cell(s):\n");
    let ghost head = out@;
    let mut i: usize = 0;
    assert(dv.take(0) =~= Seq::<DriftV>::empty());
    assert(head + drift_lines(dv.take(0)) =~= head);
    while i < outcome.drifts.len()
        invariant
            i <= outcome.drifts@.len(),
            dv == outcome@.drifts,
            out@ == head + drift_lines(dv.take(i as int)),
        decreases outcome.drifts@.len() - i,
    {
        let d = &outcome.drifts[i];
        push_drift_line(&mut out, d);
        proof {
            let t = dv.take(i + 1);
            assert(t.drop_last() =~= dv.take(i as int));
            assert(t.last() == d@);
            assert(out@ =~= head + drift_lines(t));
        }
        i = i + 1;
    }
    assert(dv.take(outcome.drifts@.len() as int) =~= dv);
    assert(out@ =~= report_text(outcome@));
    out
}

} // verus!
