//! Derive the transition topology from a spec, and judge whether it is sound.
//!
//! The derivation fills the **full grid**: for every door, every
//! `(state, input)` pair becomes a cell, an authored edge or `no_edge`. Totality
//! is a property of construction. What *can* be wrong is the authored content: an
//! edge to a state that does not exist, an input the door does not accept, two
//! edges answering the same `(state, input)`, a runtime fact pretending to move
//! state. Those are the diagnostics.

use vstd::prelude::*;
use crate::spec::{door_name_text, opt_text, spec_doors, texts, Door, DoorName, DoorV, DomainSpec, DomainSpecV, Edge, EdgeV};

verus! {

/// What a single `(state, input)` cell resolves to.
#[derive(Debug, Clone, PartialEq, Eq)]
pub enum EdgeKind {
    /// A state-only transition.
    Local { to: String },
    /// A transition that reaches out to the world, carrying an effect.
    External { to: String, effect: String },
    /// A runtime pursuit decision (`system_event` door): records an outcome,
    /// moves no state.
    Record { records: String },
    /// The transition does not exist here.
    NoEdge,
}

/// The view of an [`EdgeKind`].
pub enum EdgeKindV {
    Local { to: Seq<char> },
    External { to: Seq<char>, effect: Seq<char> },
    Record { records: Seq<char> },
    NoEdge,
}

impl View for EdgeKind {
    type V = EdgeKindV;

    open spec fn view(&self) -> EdgeKindV {
        match self {
            EdgeKind::Local { to } => EdgeKindV::Local { to: to@ },
            EdgeKind::External { to, effect } => EdgeKindV::External { to: to@, effect: effect@ },
            EdgeKind::Record { records } => EdgeKindV::Record { records: records@ },
            EdgeKind::NoEdge => EdgeKindV::NoEdge,
        }
    }
}

/// One cell of one door's grid.
#[derive(Debug, Clone)]
pub struct Cell {
    pub from: String,
    pub input: String,
    pub kind: EdgeKind,
}

/// The view of a [`Cell`].
pub struct CellV {
    pub from: Seq<char>,
    pub input: Seq<char>,
    pub kind: EdgeKindV,
}

impl View for Cell {
    type V = CellV;

    open spec fn view(&self) -> CellV {
        CellV { from: self.from@, input: self.input@, kind: self.kind@ }
    }
}

/// One door's complete grid: every `(state, input)` pair, in state-major order.
#[derive(Debug, Clone)]
pub struct DoorTopology {
    pub name: DoorName,
    pub fixed_table: bool,
    pub inputs: Vec<String>,
    pub cells: Vec<Cell>,
}

/// The view of a [`DoorTopology`].
pub struct DoorTopologyV {
    pub name: DoorName,
    pub fixed_table: bool,
    pub inputs: Seq<Seq<char>>,
    pub cells: Seq<CellV>,
}

/// The views of a list of cells.
pub open spec fn cells_view(cells: Seq<Cell>) -> Seq<CellV> {
    cells.map_values(|c: Cell| c@)
}

impl View for DoorTopology {
    type V = DoorTopologyV;

    open spec fn view(&self) -> DoorTopologyV {
        DoorTopologyV {
            name: self.name,
            fixed_table: self.fixed_table,
            inputs: texts(self.inputs@),
            cells: cells_view(self.cells@),
        }
    }
}

/// The derived topology for a whole domain.
#[derive(Debug, Clone)]
pub struct Topology {
    pub domain: String,
    pub initial: String,
    pub states: Vec<String>,
    pub doors: Vec<DoorTopology>,
}

/// The view of a [`Topology`].
pub struct TopologyV {
    pub domain: Seq<char>,
    pub initial: Seq<char>,
    pub states: Seq<Seq<char>>,
    pub doors: Seq<DoorTopologyV>,
}

/// The views of a list of door grids.
pub open spec fn doors_view(doors: Seq<DoorTopology>) -> Seq<DoorTopologyV> {
    doors.map_values(|d: DoorTopology| d@)
}

impl View for Topology {
    type V = TopologyV;

    open spec fn view(&self) -> TopologyV {
        TopologyV {
            domain: self.domain@,
            initial: self.initial@,
            states: texts(self.states@),
            doors: doors_view(self.doors@),
        }
    }
}

/// How serious a diagnostic is. An `Error` means the domain is unsound and the
/// artifact must not be trusted; a `Warning` is advisory.
#[derive(Debug, Clone, Copy, PartialEq, Eq, Structural)]
pub enum Severity {
    Error,
    Warning,
}

/// One thing the validator found.
#[derive(Debug, Clone)]
pub struct Diagnostic {
    pub severity: Severity,
    pub message: String,
}

/// The view of a [`Diagnostic`].
pub struct DiagnosticV {
    pub severity: Severity,
    pub message: Seq<char>,
}

impl View for Diagnostic {
    type V = DiagnosticV;

    open spec fn view(&self) -> DiagnosticV {
        DiagnosticV { severity: self.severity, message: self.message@ }
    }
}

/// The views of a list of diagnostics.
pub open spec fn diags_view(d: Seq<Diagnostic>) -> Seq<DiagnosticV> {
    d.map_values(|x: Diagnostic| x@)
}

/// The result of analysing a spec: the derived grid, plus every diagnostic.
#[derive(Debug, Clone)]
pub struct Analysis {
    pub topology: Topology,
    pub diagnostics: Vec<Diagnostic>,
}

/// The view of an [`Analysis`].
pub struct AnalysisV {
    pub topology: TopologyV,
    pub diagnostics: Seq<DiagnosticV>,
}

impl View for Analysis {
    type V = AnalysisV;

    open spec fn view(&self) -> AnalysisV {
        AnalysisV { topology: self.topology@, diagnostics: diags_view(self.diagnostics@) }
    }
}

// ---------------------------------------------------------------------------
// The diagnostics' wording.

pub open spec fn error_of(message: Seq<char>) -> DiagnosticV {
    DiagnosticV { severity: Severity::Error, message }
}

pub open spec fn warning_of(message: Seq<char>) -> DiagnosticV {
    DiagnosticV { severity: Severity::Warning, message }
}

pub open spec fn msg_no_states() -> Seq<char> {
    "the domain declares no states"@
}

pub open spec fn msg_state_twice(state: Seq<char>) -> Seq<char> {
    "state `"@ + state + "` is declared twice"@
}

pub open spec fn msg_initial_undeclared(initial: Seq<char>) -> Seq<char> {
    "initial state `"@ + initial + "` is not one of the declared states"@
}

pub open spec fn msg_no_inputs(door: DoorName) -> Seq<char> {
    "door `"@ + door_name_text(door) + "` declares no inputs"@
}

pub open spec fn msg_two_edges(door: DoorName, e: EdgeV) -> Seq<char> {
    "door `"@ + door_name_text(door) + "` has two edges for (`"@ + e.from + "`, `"@ + e.input
        + "`) \u{2014} a cell can hold only one answer"@
}

pub open spec fn msg_bad_from(door: DoorName, e: EdgeV) -> Seq<char> {
    "door `"@ + door_name_text(door) + "`: edge `from: "@ + e.from + "` is not a declared state"@
}

pub open spec fn msg_bad_input(door: DoorName, e: EdgeV) -> Seq<char> {
    "door `"@ + door_name_text(door) + "`: edge `input: "@ + e.input
        + "` is not one of the door's inputs"@
}

pub open spec fn msg_bad_to(door: DoorName, to: Seq<char>) -> Seq<char> {
    "door `"@ + door_name_text(door) + "`: edge `to: "@ + to + "` is not a declared state"@
}

pub open spec fn msg_needs(door: DoorName, e: EdgeV, field: Seq<char>) -> Seq<char> {
    "door `"@ + door_name_text(door) + "`: edge (`"@ + e.from + "`, `"@ + e.input
        + "`) must carry `"@ + field + "`"@
}

pub open spec fn msg_forbids(door: DoorName, e: EdgeV, field: Seq<char>) -> Seq<char> {
    "door `"@ + door_name_text(door) + "`: edge (`"@ + e.from + "`, `"@ + e.input
        + "`) must not carry `"@ + field + "`"@
}

pub open spec fn msg_unreachable(state: Seq<char>, initial: Seq<char>) -> Seq<char> {
    "state `"@ + state + "` is unreachable from `"@ + initial + "`"@
}

// ---------------------------------------------------------------------------
// The checks, as specifications.

/// One error when `cond` holds, none otherwise.
pub open spec fn error_if(cond: bool, message: Seq<char>) -> Seq<DiagnosticV> {
    if cond { seq![error_of(message)] } else { Seq::empty() }
}

/// An error for every state that repeats an earlier one, in order.
pub open spec fn duplicate_state_diags(states: Seq<Seq<char>>) -> Seq<DiagnosticV>
    decreases states.len(),
{
    if states.len() == 0 {
        Seq::empty()
    } else {
        duplicate_state_diags(states.drop_last())
            + error_if(states.drop_last().contains(states.last()), msg_state_twice(states.last()))
    }
}

/// What the state checks report: no states, repeated states, an undeclared initial.
pub open spec fn state_diags(s: DomainSpecV) -> Seq<DiagnosticV> {
    error_if(s.states.len() == 0, msg_no_states())
        + duplicate_state_diags(s.states)
        + error_if(!s.states.contains(s.initial), msg_initial_undeclared(s.initial))
}

/// The per-door rules on which optional fields an edge must or must not carry.
pub open spec fn field_diags(door: DoorName, e: EdgeV) -> Seq<DiagnosticV> {
    match door {
        DoorName::Proposal =>
            error_if(e.to is None, msg_needs(door, e, "to"@))
            + error_if(e.records is Some, msg_forbids(door, e, "records"@)),
        DoorName::Fact =>
            error_if(e.to is None, msg_needs(door, e, "to"@))
            + error_if(e.records is Some, msg_forbids(door, e, "records"@))
            + error_if(e.effect is Some, msg_forbids(door, e, "effect"@)),
        DoorName::SystemEvent =>
            error_if(e.records is None, msg_needs(door, e, "records"@))
            + error_if(e.to is Some, msg_forbids(door, e, "to"@))
            + error_if(e.effect is Some, msg_forbids(door, e, "effect"@)),
    }
}

/// What one authored edge is reported for: its references, then its fields.
pub open spec fn edge_diags(
    door: DoorName,
    e: EdgeV,
    states: Seq<Seq<char>>,
    inputs: Seq<Seq<char>>,
) -> Seq<DiagnosticV> {
    error_if(!states.contains(e.from), msg_bad_from(door, e))
        + error_if(!inputs.contains(e.input), msg_bad_input(door, e))
        + match e.to {
            Some(to) => error_if(!states.contains(to), msg_bad_to(door, to)),
            None => Seq::empty(),
        }
        + field_diags(door, e)
}

/// Whether some edge in `edges` answers `(from, input)`.
pub open spec fn has_cell(edges: Seq<EdgeV>, from: Seq<char>, input: Seq<char>) -> bool {
    exists|i: int| 0 <= i < edges.len() && (#[trigger] edges[i]).from == from && edges[i].input == input
}

/// Every edge's diagnostics, in order, each followed by an error when an earlier
/// edge already answered the same cell.
pub open spec fn edges_diags(
    door: DoorName,
    edges: Seq<EdgeV>,
    states: Seq<Seq<char>>,
    inputs: Seq<Seq<char>>,
) -> Seq<DiagnosticV>
    decreases edges.len(),
{
    if edges.len() == 0 {
        Seq::empty()
    } else {
        let e = edges.last();
        edges_diags(door, edges.drop_last(), states, inputs)
            + edge_diags(door, e, states, inputs)
            + error_if(has_cell(edges.drop_last(), e.from, e.input), msg_two_edges(door, e))
    }
}

/// What one door is reported for.
pub open spec fn door_diags(door: DoorName, d: DoorV, states: Seq<Seq<char>>) -> Seq<DiagnosticV> {
    error_if(d.inputs.len() == 0, msg_no_inputs(door)) + edges_diags(door, d.edges, states, d.inputs)
}

/// What a list of doors is reported for, door by door.
pub open spec fn doors_diags(doors: Seq<(DoorName, DoorV)>, states: Seq<Seq<char>>) -> Seq<DiagnosticV>
    decreases doors.len(),
{
    if doors.len() == 0 {
        Seq::empty()
    } else {
        doors_diags(doors.drop_last(), states) + door_diags(doors.last().0, doors.last().1, states)
    }
}

// ---------------------------------------------------------------------------
// The grid, as a specification.

/// The kind of cell one authored edge makes on the given door.
pub open spec fn edge_kind_of(door: DoorName, e: EdgeV) -> EdgeKindV {
    if door == DoorName::SystemEvent {
        EdgeKindV::Record {
            records: match e.records { Some(r) => r, None => Seq::empty() },
        }
    } else {
        match (e.to, e.effect) {
            (Some(to), Some(effect)) => EdgeKindV::External { to, effect },
            (Some(to), None) => EdgeKindV::Local { to },
            (None, _) => EdgeKindV::NoEdge,
        }
    }
}

/// The last edge that answers `(from, input)`: a later edge replaces an earlier one.
pub open spec fn last_edge_for(edges: Seq<EdgeV>, from: Seq<char>, input: Seq<char>) -> Option<EdgeV>
    decreases edges.len(),
{
    if edges.len() == 0 {
        None
    } else if edges.last().from == from && edges.last().input == input {
        Some(edges.last())
    } else {
        last_edge_for(edges.drop_last(), from, input)
    }
}

/// The cell of `door` at `(from, input)`.
pub open spec fn cell_of(door: DoorName, d: DoorV, from: Seq<char>, input: Seq<char>) -> CellV {
    CellV {
        from,
        input,
        kind: match last_edge_for(d.edges, from, input) {
            Some(e) => edge_kind_of(door, e),
            None => EdgeKindV::NoEdge,
        },
    }
}

/// One state's row: a cell for each of the door's inputs, in input order.
pub open spec fn row_of(door: DoorName, d: DoorV, from: Seq<char>) -> Seq<CellV> {
    Seq::new(d.inputs.len(), |j: int| cell_of(door, d, from, d.inputs[j]))
}

/// The door's grid: the rows of the states, in state order.
pub open spec fn grid_of(door: DoorName, d: DoorV, states: Seq<Seq<char>>) -> Seq<CellV>
    decreases states.len(),
{
    if states.len() == 0 {
        Seq::empty()
    } else {
        grid_of(door, d, states.drop_last()) + row_of(door, d, states.last())
    }
}

/// One door's derived topology.
pub open spec fn door_topology_of(door: DoorName, d: DoorV, states: Seq<Seq<char>>) -> DoorTopologyV {
    DoorTopologyV { name: door, fixed_table: d.fixed_table, inputs: d.inputs, cells: grid_of(door, d, states) }
}

/// The derived topology of a spec.
pub open spec fn topology_of(s: DomainSpecV) -> TopologyV {
    TopologyV {
        domain: s.domain,
        initial: s.initial,
        states: s.states,
        doors: spec_doors(s).map_values(|p: (DoorName, DoorV)| door_topology_of(p.0, p.1, s.states)),
    }
}

// ---------------------------------------------------------------------------
// Reachability, as a specification.

/// The state a cell moves to, if it moves state at all.
pub open spec fn target_of(k: EdgeKindV) -> Option<Seq<char>> {
    match k {
        EdgeKindV::Local { to } => Some(to),
        EdgeKindV::External { to, .. } => Some(to),
        _ => None,
    }
}

/// Some cell of some door moves from `a` to `b`.
pub open spec fn moves(t: TopologyV, a: Seq<char>, b: Seq<char>) -> bool {
    exists|d: int, c: int|
        0 <= d < t.doors.len() && 0 <= c < t.doors[d].cells.len()
            && (#[trigger] t.doors[d].cells[c]).from == a
            && target_of(t.doors[d].cells[c].kind) == Some(b)
}

/// `p` is a walk from the initial state along state-moving cells.
pub open spec fn is_walk(t: TopologyV, p: Seq<Seq<char>>) -> bool {
    &&& p.len() >= 1
    &&& p[0] == t.initial
    &&& forall|i: int| 0 <= i < p.len() - 1 ==> moves(t, #[trigger] p[i], p[i + 1])
}

/// `s` can be reached from the initial state.
pub open spec fn reachable(t: TopologyV, s: Seq<char>) -> bool {
    exists|p: Seq<Seq<char>>| is_walk(t, p) && p.last() == s
}

/// A warning for every listed state that cannot be reached, in order.
pub open spec fn unreachable_diags(t: TopologyV, states: Seq<Seq<char>>) -> Seq<DiagnosticV>
    decreases states.len(),
{
    if states.len() == 0 {
        Seq::empty()
    } else {
        unreachable_diags(t, states.drop_last())
            + if reachable(t, states.last()) {
                Seq::empty()
            } else {
                seq![warning_of(msg_unreachable(states.last(), t.initial))]
            }
    }
}

/// Every diagnostic of a spec, in the order the analysis reports them.
pub open spec fn diagnostics_of(s: DomainSpecV) -> Seq<DiagnosticV> {
    state_diags(s) + doors_diags(spec_doors(s), s.states)
        + unreachable_diags(topology_of(s), s.states)
}

/// The analysis of a spec.
pub open spec fn analysis_of(s: DomainSpecV) -> AnalysisV {
    AnalysisV { topology: topology_of(s), diagnostics: diagnostics_of(s) }
}


// ---------------------------------------------------------------------------
// Building the diagnostics.

/// Whether `s` is one of `v`.
pub fn contains_text(v: &Vec<String>, s: &String) -> (r: bool)
    ensures
        r == texts(v@).contains(s@),
{
    let mut i: usize = 0;
    while i < v.len()
        invariant
            i <= v.len(),
            forall|k: int| 0 <= k < i ==> v@[k]@ != s@,
        decreases v.len() - i,
    {
        if v[i] == *s {
            assert(texts(v@)[i as int] == s@);
            return true;
        }
        i = i + 1;
    }
    proof {
        if texts(v@).contains(s@) {
            let k = choose|k: int| 0 <= k < texts(v@).len() && texts(v@)[k] == s@;
            assert(v@[k]@ == s@);
        }
    }
    false
}

fn push_diagnostic(diagnostics: &mut Vec<Diagnostic>, severity: Severity, message: String)
    ensures
        diags_view(final(diagnostics)@) == diags_view(old(diagnostics)@).push(
            DiagnosticV { severity, message: message@ },
        ),
{
    diagnostics.push(Diagnostic { severity, message });
    proof {
        assert(diags_view(final(diagnostics)@) =~= diags_view(old(diagnostics)@).push(
            DiagnosticV { severity, message: message@ },
        ));
    }
}

/// Records an error.
fn error(diagnostics: &mut Vec<Diagnostic>, message: String)
    ensures
        diags_view(final(diagnostics)@) == diags_view(old(diagnostics)@) + seq![error_of(message@)],
{
    push_diagnostic(diagnostics, Severity::Error, message);
    proof {
        assert(diags_view(old(diagnostics)@).push(error_of(message@))
            =~= diags_view(old(diagnostics)@) + seq![error_of(message@)]);
    }
}

/// Records a warning.
fn warn(diagnostics: &mut Vec<Diagnostic>, message: String)
    ensures
        diags_view(final(diagnostics)@) == diags_view(old(diagnostics)@) + seq![warning_of(message@)],
{
    push_diagnostic(diagnostics, Severity::Warning, message);
    proof {
        assert(diags_view(old(diagnostics)@).push(warning_of(message@))
            =~= diags_view(old(diagnostics)@) + seq![warning_of(message@)]);
    }
}

/// `a`, then `b`, then `c`.
fn concat3(a: &str, b: &str, c: &str) -> (r: String)
    ensures
        r@ == a@ + b@ + c@,
{
    let mut m = String::from_str(a);
    m.append(b);
    m.append(c);
    m
}

/// `a` through `e`, in order.
fn concat5(a: &str, b: &str, c: &str, d: &str, e: &str) -> (r: String)
    ensures
        r@ == a@ + b@ + c@ + d@ + e@,
{
    let mut m = concat3(a, b, c);
    m.append(d);
    m.append(e);
    m
}

/// `a` through `g`, in order.
fn concat7(a: &str, b: &str, c: &str, d: &str, e: &str, f: &str, g: &str) -> (r: String)
    ensures
        r@ == a@ + b@ + c@ + d@ + e@ + f@ + g@,
{
    let mut m = concat5(a, b, c, d, e);
    m.append(f);
    m.append(g);
    m
}

/// The message for an edge missing (`forbid` false) or carrying (`forbid` true) a field.
fn field_message(door: DoorName, edge: &Edge, field: &str, forbid: bool) -> (r: String)
    ensures
        r@ == if forbid { msg_forbids(door, edge@, field@) } else { msg_needs(door, edge@, field@) },
{
    let mut m = concat7("door `", door.as_str(), "`: edge (`", edge.from.as_str(), "`, `", edge.input.as_str(),
        if forbid { "`) must not carry `" } else { "`) must carry `" });
    m.append(field);
    m.append("`");
    m
}

/// Reports an edge missing a field the door requires.
fn edge_needs(door: DoorName, edge: &Edge, field: &str, diagnostics: &mut Vec<Diagnostic>)
    ensures
        diags_view(final(diagnostics)@) == diags_view(old(diagnostics)@)
            + seq![error_of(msg_needs(door, edge@, field@))],
{
    error(diagnostics, field_message(door, edge, field, false));
}

/// Reports an edge carrying a field the door forbids.
fn edge_forbids(door: DoorName, edge: &Edge, field: &str, diagnostics: &mut Vec<Diagnostic>)
    ensures
        diags_view(final(diagnostics)@) == diags_view(old(diagnostics)@)
            + seq![error_of(msg_forbids(door, edge@, field@))],
{
    error(diagnostics, field_message(door, edge, field, true));
}


/// Reports an error through `diagnostics` when `cond` holds.
fn error_when(cond: bool, diagnostics: &mut Vec<Diagnostic>, message: String)
    ensures
        diags_view(final(diagnostics)@) == diags_view(old(diagnostics)@) + error_if(cond, message@),
{
    if cond {
        error(diagnostics, message);
    } else {
        assert(diags_view(old(diagnostics)@) + error_if(cond, message@) =~= diags_view(old(diagnostics)@));
    }
}

/// The field rules of one door, applied to one edge.
fn check_fields(door: DoorName, edge: &Edge, diagnostics: &mut Vec<Diagnostic>)
    ensures
        diags_view(final(diagnostics)@) == diags_view(old(diagnostics)@) + field_diags(door, edge@),
{
    let ghost d0 = diags_view(diagnostics@);
    proof {
        reveal_strlit("to");
        reveal_strlit("records");
        reveal_strlit("effect");
    }
    match door {
        DoorName::Proposal => {
            if edge.to.is_none() {
                edge_needs(door, edge, "to", diagnostics);
            }
            let ghost d1 = diags_view(diagnostics@);
            assert(d1 =~= d0 + error_if(edge@.to is None, msg_needs(door, edge@, "to"@)));
            if edge.records.is_some() {
                edge_forbids(door, edge, "records", diagnostics);
            }
            assert(diags_view(diagnostics@) =~= d1 + error_if(edge@.records is Some, msg_forbids(door, edge@, "records"@)));
            assert(diags_view(diagnostics@) =~= d0 + field_diags(door, edge@));
        },
        DoorName::Fact => {
            if edge.to.is_none() {
                edge_needs(door, edge, "to", diagnostics);
            }
            let ghost d1 = diags_view(diagnostics@);
            assert(d1 =~= d0 + error_if(edge@.to is None, msg_needs(door, edge@, "to"@)));
            if edge.records.is_some() {
                edge_forbids(door, edge, "records", diagnostics);
            }
            let ghost d2 = diags_view(diagnostics@);
            assert(d2 =~= d1 + error_if(edge@.records is Some, msg_forbids(door, edge@, "records"@)));
            if edge.effect.is_some() {
                // A fact confirms an effect; it does not dispatch one.
                edge_forbids(door, edge, "effect", diagnostics);
            }
            assert(diags_view(diagnostics@) =~= d2 + error_if(edge@.effect is Some, msg_forbids(door, edge@, "effect"@)));
            assert(diags_view(diagnostics@) =~= d0 + field_diags(door, edge@));
        },
        DoorName::SystemEvent => {
            if edge.records.is_none() {
                edge_needs(door, edge, "records", diagnostics);
            }
            let ghost d1 = diags_view(diagnostics@);
            assert(d1 =~= d0 + error_if(edge@.records is None, msg_needs(door, edge@, "records"@)));
            if edge.to.is_some() {
                // A runtime fact records a pursuit decision; it moves no state.
                edge_forbids(door, edge, "to", diagnostics);
            }
            let ghost d2 = diags_view(diagnostics@);
            assert(d2 =~= d1 + error_if(edge@.to is Some, msg_forbids(door, edge@, "to"@)));
            if edge.effect.is_some() {
                edge_forbids(door, edge, "effect", diagnostics);
            }
            assert(diags_view(diagnostics@) =~= d2 + error_if(edge@.effect is Some, msg_forbids(door, edge@, "effect"@)));
            assert(diags_view(diagnostics@) =~= d0 + field_diags(door, edge@));
        },
    }
}

/// Checks one authored edge's references and per-door field rules.
#[verifier::rlimit(40)]
fn validate_edge(
    door: DoorName,
    edge: &Edge,
    states: &Vec<String>,
    inputs: &Vec<String>,
    diagnostics: &mut Vec<Diagnostic>,
)
    ensures
        diags_view(final(diagnostics)@) == diags_view(old(diagnostics)@)
            + edge_diags(door, edge@, texts(states@), texts(inputs@)),
{
    let ghost d0 = diags_view(diagnostics@);
    let from_ok = contains_text(states, &edge.from);
    error_when(!from_ok, diagnostics,
        concat5("door `", door.as_str(), "`: edge `from: ", edge.from.as_str(), "` is not a declared state"));
    let ghost d1 = diags_view(diagnostics@);
    let input_ok = contains_text(inputs, &edge.input);
    error_when(!input_ok, diagnostics,
        concat5("door `", door.as_str(), "`: edge `input: ", edge.input.as_str(),
            "` is not one of the door's inputs"));
    let ghost d2 = diags_view(diagnostics@);
    match &edge.to {
        Some(to) => {
            let to_ok = contains_text(states, to);
            error_when(!to_ok, diagnostics,
                concat5("door `", door.as_str(), "`: edge `to: ", to.as_str(), "` is not a declared state"));
        },
        None => {
            assert(diags_view(diagnostics@) =~= d2 + Seq::<DiagnosticV>::empty());
        },
    }
    let ghost d3 = diags_view(diagnostics@);
    check_fields(door, edge, diagnostics);
    assert(diags_view(diagnostics@) =~= d0 + edge_diags(door, edge@, texts(states@), texts(inputs@)));
}


/// The views of a door's edges.
pub open spec fn edges_view(edges: Seq<Edge>) -> Seq<EdgeV> {
    edges.map_values(|e: Edge| e@)
}

/// Whether an edge before position `k` answers the same cell as edge `k`.
fn has_earlier_edge(edges: &Vec<Edge>, k: usize) -> (r: bool)
    requires
        k < edges@.len(),
    ensures
        r == has_cell(edges_view(edges@).take(k as int), edges@[k as int]@.from, edges@[k as int]@.input),
{
    let ghost prefix = edges_view(edges@).take(k as int);
    let mut i: usize = 0;
    while i < k
        invariant
            i <= k < edges@.len(),
            prefix == edges_view(edges@).take(k as int),
            forall|j: int| 0 <= j < i ==> !((#[trigger] prefix[j]).from == edges@[k as int]@.from
                && prefix[j].input == edges@[k as int]@.input),
        decreases k - i,
    {
        if edges[i].from == edges[k].from && edges[i].input == edges[k].input {
            assert(prefix[i as int] == edges@[i as int]@);
            return true;
        }
        assert(prefix[i as int] == edges@[i as int]@);
        i = i + 1;
    }
    false
}

/// The last edge that answers `(from, input)`, if any.
fn find_last_edge<'a>(edges: &'a Vec<Edge>, from: &String, input: &String) -> (r: Option<&'a Edge>)
    ensures
        match r {
            Some(e) => last_edge_for(edges_view(edges@), from@, input@) == Some(e@),
            None => last_edge_for(edges_view(edges@), from@, input@) is None,
        },
{
    let ghost all = edges_view(edges@);
    let mut i: usize = edges.len();
    assert(all.take(i as int) =~= all);
    while i > 0
        invariant
            i <= edges@.len(),
            all == edges_view(edges@),
            last_edge_for(all, from@, input@) == last_edge_for(all.take(i as int), from@, input@),
        decreases i,
    {
        i = i - 1;
        assert(all.take(i + 1).drop_last() =~= all.take(i as int));
        assert(all.take(i + 1).last() == edges@[i as int]@);
        if edges[i].from == *from && edges[i].input == *input {
            return Some(&edges[i]);
        }
    }
    None
}

/// The kind of cell one authored edge makes.
fn edge_kind(door: DoorName, edge: &Edge) -> (r: EdgeKind)
    ensures
        r@ == edge_kind_of(door, edge@),
{
    if let DoorName::SystemEvent = door {
        return EdgeKind::Record {
            records: match &edge.records {
                Some(records) => records.clone(),
                None => String::new(),
            },
        };
    }
    match (&edge.to, &edge.effect) {
        (Some(to), Some(effect)) => EdgeKind::External { to: to.clone(), effect: effect.clone() },
        (Some(to), None) => EdgeKind::Local { to: to.clone() },
        // A proposal/fact edge missing `to` already produced an error; represent
        // it as NoEdge so the grid stays well-formed.
        (None, _) => EdgeKind::NoEdge,
    }
}

/// A copy of a list of strings.
pub fn clone_texts(v: &Vec<String>) -> (r: Vec<String>)
    ensures
        texts(r@) == texts(v@),
{
    let mut r: Vec<String> = Vec::new();
    let mut i: usize = 0;
    while i < v.len()
        invariant
            i <= v.len(),
            r@.len() == i,
            texts(r@) == texts(v@).take(i as int),
        decreases v.len() - i,
    {
        let c = v[i].clone();
        assert(c@ == v@[i as int]@);
        let ghost old_r = r@;
        r.push(c);
        assert(texts(r@) =~= texts(v@).take(i + 1)) by {
            assert(r@ == old_r.push(c));
            assert forall|k: int| 0 <= k < i + 1 implies #[trigger] texts(r@)[k] == texts(v@).take(i + 1)[k] by {
                if k < i {
                    assert(r@[k] == old_r[k]);
                    assert(texts(old_r)[k] == texts(v@).take(i as int)[k]);
                }
            }
        }
        i = i + 1;
    }
    assert(texts(v@).take(v@.len() as int) =~= texts(v@));
    r
}

/// Builds one door's full grid, reporting every unsound edge.
fn derive_door(
    name: DoorName,
    door: &Door,
    ordered_states: &Vec<String>,
    diagnostics: &mut Vec<Diagnostic>,
) -> (r: DoorTopology)
    ensures
        r@ == door_topology_of(name, door@, texts(ordered_states@)),
        diags_view(final(diagnostics)@) == diags_view(old(diagnostics)@)
            + door_diags(name, door@, texts(ordered_states@)),
{
    let ghost d0 = diags_view(diagnostics@);
    let ghost states = texts(ordered_states@);
    let ghost dv = door@;
    error_when(door.inputs.len() == 0, diagnostics, concat3("door `", name.as_str(), "` declares no inputs"));
    let ghost d1 = diags_view(diagnostics@);

    // A repeated (from, input) is two competing answers for one cell.
    let mut k: usize = 0;
    assert(dv.edges.take(0) =~= Seq::<EdgeV>::empty());
    while k < door.edges.len()
        invariant
            k <= door.edges@.len(),
            dv == door@,
            states == texts(ordered_states@),
            diags_view(diagnostics@) == d1 + edges_diags(name, dv.edges.take(k as int), states, dv.inputs),
        decreases door.edges@.len() - k,
    {
        let edge = &door.edges[k];
        validate_edge(name, edge, ordered_states, &door.inputs, diagnostics);
        let duplicate = has_earlier_edge(&door.edges, k);
        error_when(duplicate, diagnostics,
            concat7("door `", name.as_str(), "` has two edges for (`", edge.from.as_str(), "`, `",
                edge.input.as_str(), "`) \u{2014} a cell can hold only one answer"));
        proof {
            let t = dv.edges.take(k + 1);
            assert(t.drop_last() =~= dv.edges.take(k as int));
            assert(t.last() == edge@);
            assert(edges_view(door.edges@).take(k as int) =~= dv.edges.take(k as int));
            assert(diags_view(diagnostics@) =~= d1 + edges_diags(name, t, states, dv.inputs));
        }
        k = k + 1;
    }
    assert(dv.edges.take(door.edges@.len() as int) =~= dv.edges);
    assert(diags_view(diagnostics@) =~= d0 + door_diags(name, dv, states));

    // Fill the grid: state-major, then input, so the artifact is stable and total.
    let mut cells: Vec<Cell> = Vec::new();
    let mut i: usize = 0;
    assert(states.take(0) =~= Seq::<Seq<char>>::empty());
    while i < ordered_states.len()
        invariant
            i <= ordered_states@.len(),
            dv == door@,
            states == texts(ordered_states@),
            cells_view(cells@) == grid_of(name, dv, states.take(i as int)),
        decreases ordered_states@.len() - i,
    {
        let from = &ordered_states[i];
        let ghost before = cells_view(cells@);
        let mut j: usize = 0;
        assert(row_of(name, dv, from@).take(0) =~= Seq::<CellV>::empty());
        assert(before + Seq::<CellV>::empty() =~= before);
        while j < door.inputs.len()
            invariant
                i < ordered_states@.len(),
                j <= door.inputs@.len(),
                dv == door@,
                states.len() == ordered_states@.len(),
                from@ == states[i as int],
                cells_view(cells@) == before + row_of(name, dv, from@).take(j as int),
            decreases door.inputs@.len() - j,
        {
            let input = &door.inputs[j];
            let kind = match find_last_edge(&door.edges, from, input) {
                Some(edge) => edge_kind(name, edge),
                None => EdgeKind::NoEdge,
            };
            let cell = Cell { from: from.clone(), input: input.clone(), kind };
            assert(cell@ == cell_of(name, dv, from@, input@));
            let ghost old_cells = cells@;
            cells.push(cell);
            proof {
                assert(dv.inputs[j as int] == input@);
                assert(cells@ == old_cells.push(cell));
                assert forall|k: int| 0 <= k < old_cells.len() implies #[trigger] cells_view(cells@)[k] == cells_view(old_cells)[k] by {
                    assert(cells@[k] == old_cells[k]);
                }
                assert(row_of(name, dv, from@)[j as int] == cells@.last()@);
                assert(cells_view(cells@)[old_cells.len() as int] == cell@);
                assert(cells_view(cells@).len() == cells_view(old_cells).len() + 1);
                assert(cells_view(old_cells) =~= before + row_of(name, dv, from@).take(j as int));
                assert(row_of(name, dv, from@).take(j + 1) =~= row_of(name, dv, from@).take(j as int).push(cell@));
                assert(cells_view(cells@) =~= cells_view(old_cells).push(cell@));
                assert(cells_view(cells@) =~= before + row_of(name, dv, from@).take(j + 1));
            }
            j = j + 1;
        }
        proof {
            assert(row_of(name, dv, from@).take(door.inputs@.len() as int) =~= row_of(name, dv, from@));
            let t = states.take(i + 1);
            assert(t.drop_last() =~= states.take(i as int));
            assert(t.last() == from@);
            assert(cells_view(cells@) =~= grid_of(name, dv, t));
        }
        i = i + 1;
    }
    assert(states.take(ordered_states@.len() as int) =~= states);
    let r = DoorTopology { name, fixed_table: door.fixed_table, inputs: clone_texts(&door.inputs), cells };
    assert(r@ =~= door_topology_of(name, dv, states));
    r
}


// ---------------------------------------------------------------------------
// Reachability.

/// Every state some cell moves to, cell by cell.
pub open spec fn cells_targets(cells: Seq<CellV>) -> Seq<Seq<char>>
    decreases cells.len(),
{
    if cells.len() == 0 {
        Seq::empty()
    } else {
        cells_targets(cells.drop_last()) + match target_of(cells.last().kind) {
            Some(x) => seq![x],
            None => Seq::empty(),
        }
    }
}

/// Every state some cell of some door moves to.
pub open spec fn doors_targets(doors: Seq<DoorTopologyV>) -> Seq<Seq<char>>
    decreases doors.len(),
{
    if doors.len() == 0 {
        Seq::empty()
    } else {
        doors_targets(doors.drop_last()) + cells_targets(doors.last().cells)
    }
}

proof fn lemma_cells_targets(cells: Seq<CellV>, c: int, x: Seq<char>)
    requires
        0 <= c < cells.len(),
        target_of(cells[c].kind) == Some(x),
    ensures
        cells_targets(cells).contains(x),
    decreases cells.len(),
{
    if c == cells.len() - 1 {
        let r = cells_targets(cells);
        assert(r[r.len() - 1] == x);
    } else {
        lemma_cells_targets(cells.drop_last(), c, x);
        let w = choose|k: int| 0 <= k < cells_targets(cells.drop_last()).len()
            && cells_targets(cells.drop_last())[k] == x;
        assert(cells_targets(cells)[w] == x);
    }
}

proof fn lemma_doors_targets(doors: Seq<DoorTopologyV>, d: int, c: int, x: Seq<char>)
    requires
        0 <= d < doors.len(),
        0 <= c < doors[d].cells.len(),
        target_of(doors[d].cells[c].kind) == Some(x),
    ensures
        doors_targets(doors).contains(x),
    decreases doors.len(),
{
    if d == doors.len() - 1 {
        lemma_cells_targets(doors[d].cells, c, x);
        let w = choose|k: int| 0 <= k < cells_targets(doors[d].cells).len()
            && cells_targets(doors[d].cells)[k] == x;
        assert(doors_targets(doors)[doors_targets(doors.drop_last()).len() + w] == x);
    } else {
        lemma_doors_targets(doors.drop_last(), d, c, x);
        let w = choose|k: int| 0 <= k < doors_targets(doors.drop_last()).len()
            && doors_targets(doors.drop_last())[k] == x;
        assert(doors_targets(doors)[w] == x);
    }
}

/// A duplicate-free sequence whose items all occur in `b` is no longer than `b`.
proof fn lemma_unique_within<A>(a: Seq<A>, b: Seq<A>)
    requires
        a.no_duplicates(),
        forall|x: A| a.contains(x) ==> b.contains(x),
    ensures
        a.len() <= b.len(),
{
    a.unique_seq_to_set();
    b.lemma_cardinality_of_set();
    vstd::seq_lib::seq_to_set_is_finite(b);
    assert(a.to_set().subset_of(b.to_set()));
    vstd::set_lib::lemma_len_subset(a.to_set(), b.to_set());
}

/// A set of states that holds the initial state and is closed under moves holds
/// the end of every walk.
proof fn lemma_walk_closed(t: TopologyV, r: Seq<Seq<char>>, p: Seq<Seq<char>>)
    requires
        is_walk(t, p),
        r.contains(t.initial),
        forall|x: Seq<char>, y: Seq<char>| r.contains(x) && moves(t, x, y) ==> r.contains(y),
    ensures
        r.contains(p.last()),
    decreases p.len(),
{
    if p.len() > 1 {
        let q = p.drop_last();
        assert forall|i: int| 0 <= i < q.len() - 1 implies moves(t, #[trigger] q[i], q[i + 1]) by {
            assert(q[i] == p[i] && q[i + 1] == p[i + 1]);
        }
        lemma_walk_closed(t, r, q);
        assert(moves(t, p[p.len() - 2], p[p.len() - 1]));
    }
}

/// Extending a walk by one move gives a walk.
proof fn lemma_walk_extend(t: TopologyV, s: Seq<char>, y: Seq<char>)
    requires
        reachable(t, s),
        moves(t, s, y),
    ensures
        reachable(t, y),
{
    let p = choose|p: Seq<Seq<char>>| is_walk(t, p) && p.last() == s;
    let q = p.push(y);
    assert forall|i: int| 0 <= i < q.len() - 1 implies moves(t, #[trigger] q[i], q[i + 1]) by {
        if i < p.len() - 1 {
            assert(q[i] == p[i] && q[i + 1] == p[i + 1]);
        } else {
            assert(q[i] == s && q[i + 1] == y);
        }
    }
    assert(is_walk(t, q) && q.last() == y);
}

/// Every state should be reachable from `initial` by following the state-moving
/// doors (proposal, fact). An unreachable state is dead, probably a modelling
/// slip, so it is a warning, not an error.
fn check_reachability(topology: &Topology, diagnostics: &mut Vec<Diagnostic>)
    ensures
        diags_view(final(diagnostics)@) == diags_view(old(diagnostics)@)
            + unreachable_diags(topology@, topology@.states),
{
    let ghost t = topology@;
    let ghost cand = seq![t.initial] + doors_targets(t.doors);
    let mut seen: Vec<String> = Vec::new();
    let mut frontier: Vec<String> = Vec::new();
    seen.push(topology.initial.clone());
    frontier.push(topology.initial.clone());
    proof {
        assert(texts(seen@) =~= seq![t.initial]);
        assert(texts(frontier@) =~= seq![t.initial]);
        let p = seq![t.initial];
        assert(is_walk(t, p) && p.last() == t.initial);
        assert(cand[0] == t.initial);
    }
    while frontier.len() > 0
        invariant
            t == topology@,
            cand == seq![t.initial] + doors_targets(t.doors),
            texts(seen@).no_duplicates(),
            texts(frontier@).no_duplicates(),
            forall|x: Seq<char>| texts(frontier@).contains(x) ==> texts(seen@).contains(x),
            texts(seen@).contains(t.initial),
            forall|x: Seq<char>| texts(seen@).contains(x) ==> reachable(t, x),
            forall|x: Seq<char>| texts(seen@).contains(x) ==> cand.contains(x),
            forall|x: Seq<char>, y: Seq<char>|
                texts(seen@).contains(x) && !texts(frontier@).contains(x) && moves(t, x, y)
                    ==> texts(seen@).contains(y),
        decreases 2 * (cand.len() - seen@.len()) + frontier@.len(),
    {
        proof {
            lemma_unique_within(texts(seen@), cand);
        }
        let ghost m0 = 2 * (cand.len() - seen@.len()) + frontier@.len();
        let ghost f0 = texts(frontier@);
        let state = frontier.pop().unwrap();
        let ghost s = state@;
        proof {
            assert(texts(frontier@) =~= f0.drop_last());
            assert(f0.last() == s);
            assert(!texts(frontier@).contains(s)) by {
                if texts(frontier@).contains(s) {
                    let k = choose|k: int| 0 <= k < texts(frontier@).len() && texts(frontier@)[k] == s;
                    assert(f0[k] == f0[f0.len() - 1]);
                }
            }
            assert(f0.contains(s)) by { assert(f0[f0.len() - 1] == s); }
            assert forall|x: Seq<char>| !texts(frontier@).contains(x) && x != s implies !f0.contains(x) by {
                if f0.contains(x) {
                    let k = choose|k: int| 0 <= k < f0.len() && f0[k] == x;
                    if k < f0.len() - 1 {
                        assert(texts(frontier@)[k] == x);
                    }
                }
            }
        }
        let mut d: usize = 0;
        while d < topology.doors.len()
            invariant
                t == topology@,
                cand == seq![t.initial] + doors_targets(t.doors),
                state@ == s,
                d <= topology.doors@.len(),
                texts(seen@).contains(s),
                !texts(frontier@).contains(s),
                reachable(t, s),
                texts(seen@).no_duplicates(),
                texts(frontier@).no_duplicates(),
                forall|x: Seq<char>| texts(frontier@).contains(x) ==> texts(seen@).contains(x),
                texts(seen@).contains(t.initial),
                forall|x: Seq<char>| texts(seen@).contains(x) ==> reachable(t, x),
                forall|x: Seq<char>| texts(seen@).contains(x) ==> cand.contains(x),
                forall|x: Seq<char>, y: Seq<char>|
                    texts(seen@).contains(x) && !texts(frontier@).contains(x) && x != s && moves(t, x, y)
                        ==> texts(seen@).contains(y),
                forall|dd: int, cc: int| 0 <= dd < d && 0 <= cc < t.doors[dd].cells.len()
                    && (#[trigger] t.doors[dd].cells[cc]).from == s
                    && target_of(t.doors[dd].cells[cc].kind) is Some
                    ==> texts(seen@).contains(target_of(t.doors[dd].cells[cc].kind)->0),
                2 * (cand.len() - seen@.len()) + frontier@.len() < m0,
            decreases topology.doors@.len() - d,
        {
            let door = &topology.doors[d];
            let mut c: usize = 0;
            while c < door.cells.len()
                invariant
                    t == topology@,
                    cand == seq![t.initial] + doors_targets(t.doors),
                    state@ == s,
                    d < topology.doors@.len(),
                    *door == topology.doors@[d as int],
                    c <= door.cells@.len(),
                    texts(seen@).contains(s),
                    !texts(frontier@).contains(s),
                    reachable(t, s),
                    texts(seen@).no_duplicates(),
                    texts(frontier@).no_duplicates(),
                    forall|x: Seq<char>| texts(frontier@).contains(x) ==> texts(seen@).contains(x),
                    texts(seen@).contains(t.initial),
                    forall|x: Seq<char>| texts(seen@).contains(x) ==> reachable(t, x),
                    forall|x: Seq<char>| texts(seen@).contains(x) ==> cand.contains(x),
                    forall|x: Seq<char>, y: Seq<char>|
                        texts(seen@).contains(x) && !texts(frontier@).contains(x) && x != s && moves(t, x, y)
                            ==> texts(seen@).contains(y),
                    forall|dd: int, cc: int| 0 <= dd < d && 0 <= cc < t.doors[dd].cells.len()
                        && (#[trigger] t.doors[dd].cells[cc]).from == s
                        && target_of(t.doors[dd].cells[cc].kind) is Some
                        ==> texts(seen@).contains(target_of(t.doors[dd].cells[cc].kind)->0),
                    forall|cc: int| 0 <= cc < c
                        && (#[trigger] t.doors[d as int].cells[cc]).from == s
                        && target_of(t.doors[d as int].cells[cc].kind) is Some
                        ==> texts(seen@).contains(target_of(t.doors[d as int].cells[cc].kind)->0),
                    2 * (cand.len() - seen@.len()) + frontier@.len() < m0,
                decreases door.cells@.len() - c,
            {
                let cell = &door.cells[c];
                let ghost cv = t.doors[d as int].cells[c as int];
                assert(cv == cell@);
                if cell.from == state {
                    let to: Option<&String> = match &cell.kind {
                        EdgeKind::Local { to } => Some(to),
                        EdgeKind::External { to, .. } => Some(to),
                        EdgeKind::Record { .. } => None,
                        EdgeKind::NoEdge => None,
                    };
                    if let Some(to) = to {
                        assert(target_of(cv.kind) == Some(to@));
                        if !contains_text(&seen, to) {
                            proof {
                                assert(moves(t, s, to@));
                                lemma_walk_extend(t, s, to@);
                                lemma_doors_targets(t.doors, d as int, c as int, to@);
                                let w = choose|k: int| 0 <= k < doors_targets(t.doors).len()
                                    && doors_targets(t.doors)[k] == to@;
                                assert(cand[w + 1] == to@);
                                assert forall|x: Seq<char>| texts(seen@).push(to@).contains(x)
                                    implies cand.contains(x) by {
                                    if x != to@ {
                                        let k = choose|k: int| 0 <= k < texts(seen@).push(to@).len()
                                            && texts(seen@).push(to@)[k] == x;
                                        assert(texts(seen@)[k] == x);
                                    }
                                }
                                assert(texts(seen@).push(to@).no_duplicates());
                                lemma_unique_within(texts(seen@).push(to@), cand);
                            }
                            let ghost r0 = texts(seen@);
                            let ghost q0 = texts(frontier@);
                            seen.push(to.clone());
                            frontier.push(to.clone());
                            proof {
                                assert(texts(seen@) =~= r0.push(to@));
                                assert(texts(frontier@) =~= q0.push(to@));
                                assert forall|x: Seq<char>| #[trigger] r0.push(to@).contains(x)
                                    <==> (r0.contains(x) || x == to@) by {
                                    if r0.push(to@).contains(x) && x != to@ {
                                        let k = choose|k: int| 0 <= k < r0.push(to@).len() && r0.push(to@)[k] == x;
                                        assert(r0[k] == x);
                                    }
                                    if r0.contains(x) {
                                        let k = choose|k: int| 0 <= k < r0.len() && r0[k] == x;
                                        assert(r0.push(to@)[k] == x);
                                    }
                                    if x == to@ {
                                        assert(r0.push(to@)[r0.len() as int] == x);
                                    }
                                }
                                assert forall|x: Seq<char>| #[trigger] q0.push(to@).contains(x)
                                    <==> (q0.contains(x) || x == to@) by {
                                    if q0.push(to@).contains(x) && x != to@ {
                                        let k = choose|k: int| 0 <= k < q0.push(to@).len() && q0.push(to@)[k] == x;
                                        assert(q0[k] == x);
                                    }
                                    if q0.contains(x) {
                                        let k = choose|k: int| 0 <= k < q0.len() && q0[k] == x;
                                        assert(q0.push(to@)[k] == x);
                                    }
                                    if x == to@ {
                                        assert(q0.push(to@)[q0.len() as int] == x);
                                    }
                                }
                                assert(!q0.contains(to@));
                                assert(to@ != s);
                            }
                        }
                    }
                }
                c = c + 1;
            }
            d = d + 1;
        }
        proof {
            lemma_unique_within(texts(seen@), cand);
            assert forall|y: Seq<char>| moves(t, s, y) implies texts(seen@).contains(y) by {
                let (dd, cc) = choose|dd: int, cc: int|
                    0 <= dd < t.doors.len() && 0 <= cc < t.doors[dd].cells.len()
                        && (#[trigger] t.doors[dd].cells[cc]).from == s
                        && target_of(t.doors[dd].cells[cc].kind) == Some(y);
                assert(t.doors[dd].cells[cc].from == s);
            }
        }
    }
    proof {
        assert forall|x: Seq<char>, y: Seq<char>| texts(seen@).contains(x) && moves(t, x, y)
            implies texts(seen@).contains(y) by {
            assert(!texts(frontier@).contains(x));
        }
    }

    let mut i: usize = 0;
    let ghost d0 = diags_view(diagnostics@);
    assert(t.states.take(0) =~= Seq::<Seq<char>>::empty());
    assert(d0 + Seq::<DiagnosticV>::empty() =~= d0);
    while i < topology.states.len()
        invariant
            t == topology@,
            i <= topology.states@.len(),
            texts(seen@).contains(t.initial),
            forall|x: Seq<char>| texts(seen@).contains(x) ==> reachable(t, x),
            forall|x: Seq<char>, y: Seq<char>| texts(seen@).contains(x) && moves(t, x, y)
                ==> texts(seen@).contains(y),
            diags_view(diagnostics@) == d0 + unreachable_diags(t, t.states.take(i as int)),
        decreases topology.states@.len() - i,
    {
        let state = &topology.states[i];
        let found = contains_text(&seen, state);
        proof {
            if !found {
                assert(!reachable(t, state@)) by {
                    if reachable(t, state@) {
                        let p = choose|p: Seq<Seq<char>>| is_walk(t, p) && p.last() == state@;
                        lemma_walk_closed(t, texts(seen@), p);
                    }
                }
            }
        }
        let ghost before = diags_view(diagnostics@);
        if !found {
            warn(diagnostics, concat5("state `", state.as_str(), "` is unreachable from `",
                topology.initial.as_str(), "`"));
        }
        proof {
            let tk = t.states.take(i + 1);
            assert(tk.drop_last() =~= t.states.take(i as int));
            assert(tk.last() == state@);
            if found {
                assert(diags_view(diagnostics@) =~= d0 + unreachable_diags(t, tk));
            } else {
                assert(diags_view(diagnostics@) =~= d0 + unreachable_diags(t, tk));
            }
        }
        i = i + 1;
    }
    assert(t.states.take(topology.states@.len() as int) =~= t.states);
}


// ---------------------------------------------------------------------------
// The state checks and the whole analysis.

/// Whether state `k` repeats one listed before it.
fn declared_before(v: &Vec<String>, k: usize) -> (r: bool)
    requires
        k < v@.len(),
    ensures
        r == texts(v@).take(k as int).contains(v@[k as int]@),
{
    let ghost prefix = texts(v@).take(k as int);
    let mut i: usize = 0;
    while i < k
        invariant
            i <= k < v@.len(),
            prefix == texts(v@).take(k as int),
            forall|j: int| 0 <= j < i ==> prefix[j] != v@[k as int]@,
        decreases k - i,
    {
        assert(prefix[i as int] == v@[i as int]@);
        if v[i] == v[k] {
            return true;
        }
        i = i + 1;
    }
    false
}

/// Reports an empty state list, every repeated state, and an undeclared initial state.
fn check_states(spec: &DomainSpec, diagnostics: &mut Vec<Diagnostic>)
    ensures
        diags_view(final(diagnostics)@) == diags_view(old(diagnostics)@) + state_diags(spec@),
{
    let ghost d0 = diags_view(diagnostics@);
    let ghost states = texts(spec.states@);
    error_when(spec.states.len() == 0, diagnostics, String::from_str("the domain declares no states"));
    let ghost d1 = diags_view(diagnostics@);
    let mut i: usize = 0;
    assert(states.take(0) =~= Seq::<Seq<char>>::empty());
    assert(d1 + Seq::<DiagnosticV>::empty() =~= d1);
    while i < spec.states.len()
        invariant
            i <= spec.states@.len(),
            states == texts(spec.states@),
            diags_view(diagnostics@) == d1 + duplicate_state_diags(states.take(i as int)),
        decreases spec.states@.len() - i,
    {
        let repeated = declared_before(&spec.states, i);
        error_when(repeated, diagnostics, concat3("state `", spec.states[i].as_str(), "` is declared twice"));
        proof {
            let t = states.take(i + 1);
            assert(t.drop_last() =~= states.take(i as int));
            assert(t.last() == spec.states@[i as int]@);
            assert(diags_view(diagnostics@) =~= d1 + duplicate_state_diags(t));
        }
        i = i + 1;
    }
    assert(states.take(spec.states@.len() as int) =~= states);
    let declared = contains_text(&spec.states, &spec.initial);
    error_when(!declared, diagnostics,
        concat3("initial state `", spec.initial.as_str(), "` is not one of the declared states"));
    assert(diags_view(diagnostics@) =~= d0 + state_diags(spec@));
}

/// Analyses a spec: derives its full grid and collects every diagnostic.
pub fn analyze(spec: &DomainSpec) -> (r: Analysis)
    ensures
        r@ == analysis_of(spec@),
{
    let ghost sv = spec@;
    let mut diagnostics: Vec<Diagnostic> = Vec::new();
    check_states(spec, &mut diagnostics);
    let ghost d1 = diags_view(diagnostics@);
    let door_list = spec.doors();
    let ghost ds = spec_doors(sv);
    let mut doors: Vec<DoorTopology> = Vec::new();
    let mut k: usize = 0;
    assert(ds.take(0) =~= Seq::<(DoorName, DoorV)>::empty());
    assert(doors_view(doors@) =~= Seq::<DoorTopologyV>::empty());
    assert(d1 + Seq::<DiagnosticV>::empty() =~= d1);
    while k < door_list.len()
        invariant
            sv == spec@,
            ds == spec_doors(sv),
            k <= door_list@.len(),
            doors@.len() == k,
            door_list@.len() == ds.len(),
            forall|i: int| 0 <= i < door_list@.len() ==> (#[trigger] door_list@[i]).0 == ds[i].0
                && door_list@[i].1@ == ds[i].1,
            doors_view(doors@) == ds.take(k as int).map_values(
                |p: (DoorName, DoorV)| door_topology_of(p.0, p.1, sv.states),
            ),
            diags_view(diagnostics@) == d1 + doors_diags(ds.take(k as int), sv.states),
        decreases door_list@.len() - k,
    {
        let (name, door) = door_list[k];
        let ghost old_doors = doors@;
        let derived = derive_door(name, door, &spec.states, &mut diagnostics);
        doors.push(derived);
        proof {
            let t = ds.take(k + 1);
            assert(t.drop_last() =~= ds.take(k as int));
            assert(t.last() == ds[k as int]);
            assert(doors@ == old_doors.push(derived));
            assert(doors_view(doors@) =~= t.map_values(
                |p: (DoorName, DoorV)| door_topology_of(p.0, p.1, sv.states),
            )) by {
                assert forall|i: int| 0 <= i < k implies #[trigger] doors_view(doors@)[i] == doors_view(old_doors)[i] by {
                    assert(doors@[i] == old_doors[i]);
                }
            }
            assert(diags_view(diagnostics@) =~= d1 + doors_diags(t, sv.states));
        }
        k = k + 1;
    }
    assert(ds.take(door_list@.len() as int) =~= ds);
    let topology = Topology {
        domain: spec.domain.clone(),
        initial: spec.initial.clone(),
        states: clone_texts(&spec.states),
        doors,
    };
    assert(topology@ =~= topology_of(sv));
    check_reachability(&topology, &mut diagnostics);
    let r = Analysis { topology, diagnostics };
    assert(r@.diagnostics =~= diagnostics_of(sv));
    r
}

/// How many diagnostics have the given severity.
pub open spec fn count_severity(d: Seq<DiagnosticV>, severity: Severity) -> nat
    decreases d.len(),
{
    if d.len() == 0 {
        0
    } else {
        count_severity(d.drop_last(), severity) + if d.last().severity == severity { 1nat } else { 0nat }
    }
}

/// How many of the cells are `no_edge`.
pub open spec fn count_no_edge(cells: Seq<CellV>) -> nat
    decreases cells.len(),
{
    if cells.len() == 0 {
        0
    } else {
        count_no_edge(cells.drop_last()) + if cells.last().kind is NoEdge { 1nat } else { 0nat }
    }
}

/// How many cells of all the doors are `no_edge`.
pub open spec fn doors_no_edge(doors: Seq<DoorTopologyV>) -> nat
    decreases doors.len(),
{
    if doors.len() == 0 {
        0
    } else {
        doors_no_edge(doors.drop_last()) + count_no_edge(doors.last().cells)
    }
}

/// A count never exceeds the length of what it counts.
pub proof fn lemma_count_severity_bound(d: Seq<DiagnosticV>, severity: Severity)
    ensures
        count_severity(d, severity) <= d.len(),
    decreases d.len(),
{
    if d.len() > 0 {
        lemma_count_severity_bound(d.drop_last(), severity);
    }
}

/// A count never exceeds the length of what it counts.
pub proof fn lemma_count_no_edge_bound(cells: Seq<CellV>)
    ensures
        count_no_edge(cells) <= cells.len(),
    decreases cells.len(),
{
    if cells.len() > 0 {
        lemma_count_no_edge_bound(cells.drop_last());
    }
}

/// Counts the diagnostics of one severity.
fn count_diagnostics(diagnostics: &Vec<Diagnostic>, severity: Severity) -> (r: usize)
    ensures
        r == count_severity(diags_view(diagnostics@), severity),
{
    let ghost dv = diags_view(diagnostics@);
    let mut n: usize = 0;
    let mut i: usize = 0;
    while i < diagnostics.len()
        invariant
            i <= diagnostics@.len(),
            dv == diags_view(diagnostics@),
            n == count_severity(dv.take(i as int), severity),
        decreases diagnostics@.len() - i,
    {
        proof {
            let t = dv.take(i + 1);
            assert(t.drop_last() =~= dv.take(i as int));
            assert(t.last() == diagnostics@[i as int]@);
            lemma_count_severity_bound(t, severity);
        }
        if diagnostics[i].severity == severity {
            n = n + 1;
        }
        i = i + 1;
    }
    assert(dv.take(diagnostics@.len() as int) =~= dv);
    n
}

/// Counts the `no_edge` cells of one door.
pub fn door_no_edge_count(door: &DoorTopology) -> (r: usize)
    ensures
        r == count_no_edge(door@.cells),
{
    let ghost cv = door@.cells;
    let mut n: usize = 0;
    let mut i: usize = 0;
    while i < door.cells.len()
        invariant
            i <= door.cells@.len(),
            cv == door@.cells,
            n == count_no_edge(cv.take(i as int)),
        decreases door.cells@.len() - i,
    {
        proof {
            let t = cv.take(i + 1);
            assert(t.drop_last() =~= cv.take(i as int));
            assert(t.last() == door.cells@[i as int]@);
            lemma_count_no_edge_bound(t);
        }
        if let EdgeKind::NoEdge = door.cells[i].kind {
            n = n + 1;
        }
        i = i + 1;
    }
    assert(cv.take(door.cells@.len() as int) =~= cv);
    n
}

impl Analysis {
    /// How many `Error`-severity diagnostics were found.
    pub fn error_count(&self) -> (r: usize)
        ensures
            r == count_severity(self@.diagnostics, Severity::Error),
    {
        count_diagnostics(&self.diagnostics, Severity::Error)
    }

    /// How many `Warning`-severity diagnostics were found.
    pub fn warning_count(&self) -> (r: usize)
        ensures
            r == count_severity(self@.diagnostics, Severity::Warning),
    {
        count_diagnostics(&self.diagnostics, Severity::Warning)
    }

    /// A domain is sound when nothing is an error. Warnings do not block it.
    pub fn is_sound(&self) -> (r: bool)
        ensures
            r == (count_severity(self@.diagnostics, Severity::Error) == 0),
    {
        self.error_count() == 0
    }

    /// The number of `no_edge` cells across all doors: the size of the absence
    /// the topology makes explicit. A count past `usize::MAX` reads as `usize::MAX`.
    pub fn no_edge_count(&self) -> (r: usize)
        ensures
            r == min_usize(doors_no_edge(self@.topology.doors)),
    {
        let ghost dv = self@.topology.doors;
        let mut n: usize = 0;
        let mut i: usize = 0;
        while i < self.topology.doors.len()
            invariant
                i <= self.topology.doors@.len(),
                dv == self@.topology.doors,
                n == min_usize(doors_no_edge(dv.take(i as int))),
            decreases self.topology.doors@.len() - i,
        {
            proof {
                let t = dv.take(i + 1);
                assert(t.drop_last() =~= dv.take(i as int));
                assert(t.last() == self.topology.doors@[i as int]@);
            }
            let k = door_no_edge_count(&self.topology.doors[i]);
            n = n.saturating_add(k);
            i = i + 1;
        }
        assert(dv.take(self.topology.doors@.len() as int) =~= dv);
        n
    }
}

/// A count as `usize` holds it, stopping at `usize::MAX`.
pub open spec fn min_usize(n: nat) -> nat {
    if n <= usize::MAX { n } else { usize::MAX as nat }
}

} // verus!
