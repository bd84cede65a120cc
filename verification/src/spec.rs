//! The domain spec: the document a team authors, as plain data.
//!
//! Reading a spec is *shape only*: it accepts any document that fits the
//! structure and makes no claim that the domain is sound. That judgement belongs
//! to [`crate::topology`], which derives the full grid and validates it, so a
//! malformed document and an unsound domain fail with different messages.

use vstd::prelude::*;
use crate::json::text_equal;
use crate::yaml::{lemma_yaml_entries, lemma_yaml_models, yaml_entries, yaml_models, yaml_parse, YamlModel, YamlValue};

verus! {

/// The three provenance doors. The only ways a state changes.
#[derive(Debug, Clone, Copy, PartialEq, Eq, Structural)]
pub enum DoorName {
    /// The intent door: what someone wants.
    Proposal,
    /// The verified-external-truth door: what the world confirmed.
    Fact,
    /// The deterministic-runtime-fact door: retries, timeouts.
    SystemEvent,
}

/// The canonical text of a door's name.
pub open spec fn door_name_text(name: DoorName) -> Seq<char> {
    match name {
        DoorName::Proposal => "proposal"@,
        DoorName::Fact => "fact"@,
        DoorName::SystemEvent => "system_event"@,
    }
}

impl DoorName {
    /// The door's canonical name (`proposal`, `fact`, `system_event`).
    pub fn as_str(&self) -> (r: &'static str)
        ensures
            r@ == door_name_text(*self),
    {
        match self {
            DoorName::Proposal => "proposal",
            DoorName::Fact => "fact",
            DoorName::SystemEvent => "system_event",
        }
    }
}

/// The view of a list of strings: their character sequences.
pub open spec fn texts(v: Seq<String>) -> Seq<Seq<char>> {
    v.map_values(|s: String| s@)
}

/// The view of an optional string.
pub open spec fn opt_text(o: Option<String>) -> Option<Seq<char>> {
    match o {
        Some(s) => Some(s@),
        None => None,
    }
}

/// One authored transition. Which fields are required is a per-door rule
/// enforced by [`crate::topology`]:
/// - proposal / fact edges carry `to` (and proposal edges may carry `effect`);
/// - `system_event` edges carry `records` and no `to`.
#[derive(Debug, Clone)]
pub struct Edge {
    pub from: String,
    pub input: String,
    pub to: Option<String>,
    pub effect: Option<String>,
    pub records: Option<String>,
}

/// The view of an [`Edge`].
pub struct EdgeV {
    pub from: Seq<char>,
    pub input: Seq<char>,
    pub to: Option<Seq<char>>,
    pub effect: Option<Seq<char>>,
    pub records: Option<Seq<char>>,
}

impl View for Edge {
    type V = EdgeV;

    open spec fn view(&self) -> EdgeV {
        EdgeV {
            from: self.from@,
            input: self.input@,
            to: opt_text(self.to),
            effect: opt_text(self.effect),
            records: opt_text(self.records),
        }
    }
}

/// One door: its inputs, and the edges those inputs open from some states.
/// Every `(state, input)` pair not covered by an edge is a `no_edge`.
#[derive(Debug, Clone)]
pub struct Door {
    /// `true` when the door is decided by `(state, input)` alone; recorded, not
    /// enforced, so a reader knows whether the enumeration is complete.
    pub fixed_table: bool,
    /// Every input this door accepts.
    pub inputs: Vec<String>,
    /// The transitions those inputs open.
    pub edges: Vec<Edge>,
}

/// The view of a [`Door`].
pub struct DoorV {
    pub fixed_table: bool,
    pub inputs: Seq<Seq<char>>,
    pub edges: Seq<EdgeV>,
}

impl View for Door {
    type V = DoorV;

    open spec fn view(&self) -> DoorV {
        DoorV {
            fixed_table: self.fixed_table,
            inputs: texts(self.inputs@),
            edges: self.edges@.map_values(|e: Edge| e@),
        }
    }
}

/// A whole domain, as authored.
#[derive(Debug, Clone)]
pub struct DomainSpec {
    /// The domain's name (`loan-approval`, `town-hall-booking`).
    pub domain: String,
    /// The state a fresh instance starts in. Must be one of `states`.
    pub initial: String,
    /// Every state the domain can be in.
    pub states: Vec<String>,
    /// The intent door. Always present.
    pub proposal: Door,
    /// The verified-external-truth door.
    pub fact: Option<Door>,
    /// The deterministic-runtime-fact door.
    pub system_event: Option<Door>,
}

/// The view of a [`DomainSpec`].
pub struct DomainSpecV {
    pub domain: Seq<char>,
    pub initial: Seq<char>,
    pub states: Seq<Seq<char>>,
    pub proposal: DoorV,
    pub fact: Option<DoorV>,
    pub system_event: Option<DoorV>,
}

/// The view of an optional door.
pub open spec fn opt_door(o: Option<Door>) -> Option<DoorV> {
    match o {
        Some(d) => Some(d@),
        None => None,
    }
}

impl View for DomainSpec {
    type V = DomainSpecV;

    open spec fn view(&self) -> DomainSpecV {
        DomainSpecV {
            domain: self.domain@,
            initial: self.initial@,
            states: texts(self.states@),
            proposal: self.proposal@,
            fact: opt_door(self.fact),
            system_event: opt_door(self.system_event),
        }
    }
}

/// The doors present on a spec, in the fixed provenance order
/// (`proposal`, then `fact`, then `system_event`).
pub open spec fn spec_doors(s: DomainSpecV) -> Seq<(DoorName, DoorV)> {
    seq![(DoorName::Proposal, s.proposal)]
        + match s.fact { Some(d) => seq![(DoorName::Fact, d)], None => Seq::empty() }
        + match s.system_event { Some(d) => seq![(DoorName::SystemEvent, d)], None => Seq::empty() }
}

impl DomainSpec {
    /// The doors present on this spec, paired with their name, in the fixed
    /// provenance order (`proposal`, then `fact`, then `system_event`).
    pub fn doors(&self) -> (r: Vec<(DoorName, &Door)>)
        ensures
            r@.len() == spec_doors(self@).len(),
            forall|i: int| 0 <= i < r@.len() ==> (#[trigger] r@[i]).0 == spec_doors(self@)[i].0
                && r@[i].1@ == spec_doors(self@)[i].1,
    {
        let mut doors: Vec<(DoorName, &Door)> = Vec::new();
        doors.push((DoorName::Proposal, &self.proposal));
        if let Some(door) = &self.fact {
            doors.push((DoorName::Fact, door));
        }
        if let Some(door) = &self.system_event {
            doors.push((DoorName::SystemEvent, door));
        }
        doors
    }
}


// ---------------------------------------------------------------------------
// Reading a spec from YAML.

/// Why a spec could not even be read as a domain.
#[derive(Debug)]
pub enum ParseError {
    /// The file could not be read, with the reader's message.
    Io(String),
    /// The text was not YAML matching the spec shape, with what was wrong.
    Yaml(String),
}

/// The message a parse error is shown with.
pub open spec fn parse_error_text(e: ParseError) -> Seq<char> {
    match e {
        ParseError::Io(m) => "cannot read spec: "@ + m@,
        ParseError::Yaml(m) => "spec is not valid YAML for this format: "@ + m@,
    }
}

impl ParseError {
    /// The message this error is shown with.
    pub fn message(&self) -> (r: String)
        ensures
            r@ == parse_error_text(*self),
    {
        match self {
            ParseError::Io(m) => {
                let mut out = String::from_str("cannot read spec: ");
                out.append(m.as_str());
                out
            },
            ParseError::Yaml(m) => {
                let mut out = String::from_str("spec is not valid YAML for this format: ");
                out.append(m.as_str());
                out
            },
        }
    }
}

/// The three kinds of record a spec is made of.
#[derive(Clone, Copy)]
pub enum Record {
    Spec,
    Door,
    Edge,
}

/// The field names a record accepts.
pub open spec fn field_allowed(r: Record, k: Seq<char>) -> bool {
    match r {
        Record::Spec => k == "domain"@ || k == "initial"@ || k == "states"@ || k == "proposal"@
            || k == "fact"@ || k == "system_event"@,
        Record::Door => k == "fixed_table"@ || k == "inputs"@ || k == "edges"@,
        Record::Edge => k == "from"@ || k == "input"@ || k == "to"@ || k == "effect"@ || k == "records"@,
    }
}

/// How a record is named in messages.
pub open spec fn record_text(r: Record) -> Seq<char> {
    match r {
        Record::Spec => "the domain spec"@,
        Record::Door => "a door"@,
        Record::Edge => "an edge"@,
    }
}

pub open spec fn msg_not_mapping(r: Record) -> Seq<char> {
    record_text(r) + " must be a mapping"@
}

pub open spec fn msg_unknown(k: Seq<char>) -> Seq<char> {
    "unknown field `"@ + k + "`"@
}

pub open spec fn msg_missing(k: Seq<char>) -> Seq<char> {
    "missing field `"@ + k + "`"@
}

pub open spec fn msg_not_text(k: Seq<char>) -> Seq<char> {
    "field `"@ + k + "` must be a string"@
}

pub open spec fn msg_not_list(k: Seq<char>) -> Seq<char> {
    "field `"@ + k + "` must be a list of strings"@
}

pub open spec fn msg_not_bool(k: Seq<char>) -> Seq<char> {
    "field `"@ + k + "` must be true or false"@
}

pub open spec fn msg_not_edges() -> Seq<char> {
    "field `edges` must be a list of edges"@
}

/// A scalar read as text: a string as it is, a number or a boolean by its text.
pub open spec fn scalar_text(m: YamlModel) -> Option<Seq<char>> {
    match m {
        YamlModel::Str(s) => Some(s),
        YamlModel::Number(t) => Some(t),
        YamlModel::Bool(b) => Some(if b { "true"@ } else { "false"@ }),
        _ => None,
    }
}

/// The value of the first entry whose key reads as `name`.
pub open spec fn field_of(es: Seq<(YamlModel, YamlModel)>, name: Seq<char>) -> Option<YamlModel>
    decreases es.len(),
{
    if es.len() == 0 {
        None
    } else if scalar_text(es[0].0) == Some(name) {
        Some(es[0].1)
    } else {
        field_of(es.drop_first(), name)
    }
}

/// The first key the record does not accept (a key that is not a scalar reads as `?`).
pub open spec fn unknown_key(es: Seq<(YamlModel, YamlModel)>, r: Record) -> Option<Seq<char>>
    decreases es.len(),
{
    if es.len() == 0 {
        None
    } else {
        match scalar_text(es[0].0) {
            Some(k) => if field_allowed(r, k) { unknown_key(es.drop_first(), r) } else { Some(k) },
            None => Some("?"@),
        }
    }
}

/// A required text field.
pub open spec fn text_field(es: Seq<(YamlModel, YamlModel)>, name: Seq<char>) -> Result<Seq<char>, Seq<char>> {
    match field_of(es, name) {
        None => Err(msg_missing(name)),
        Some(v) => match scalar_text(v) {
            Some(t) => Ok(t),
            None => Err(msg_not_text(name)),
        },
    }
}

/// An optional text field; null means absent.
pub open spec fn opt_text_field(es: Seq<(YamlModel, YamlModel)>, name: Seq<char>) -> Result<Option<Seq<char>>, Seq<char>> {
    match field_of(es, name) {
        None => Ok(None),
        Some(YamlModel::Null) => Ok(None),
        Some(v) => match scalar_text(v) {
            Some(t) => Ok(Some(t)),
            None => Err(msg_not_text(name)),
        },
    }
}

/// Every item read as text, if every item is a scalar.
pub open spec fn text_items(items: Seq<YamlModel>) -> Option<Seq<Seq<char>>>
    decreases items.len(),
{
    if items.len() == 0 {
        Some(Seq::empty())
    } else {
        match (text_items(items.drop_last()), scalar_text(items.last())) {
            (Some(l), Some(t)) => Some(l.push(t)),
            _ => None,
        }
    }
}

/// A required list-of-text field; null reads as the empty list.
pub open spec fn list_field(es: Seq<(YamlModel, YamlModel)>, name: Seq<char>) -> Result<Seq<Seq<char>>, Seq<char>> {
    match field_of(es, name) {
        None => Err(msg_missing(name)),
        Some(YamlModel::Null) => Ok(Seq::empty()),
        Some(YamlModel::Sequence(items)) => match text_items(items) {
            Some(l) => Ok(l),
            None => Err(msg_not_list(name)),
        },
        Some(_) => Err(msg_not_list(name)),
    }
}

/// An optional boolean field, false when absent.
pub open spec fn bool_field(es: Seq<(YamlModel, YamlModel)>, name: Seq<char>) -> Result<bool, Seq<char>> {
    match field_of(es, name) {
        None => Ok(false),
        Some(YamlModel::Bool(b)) => Ok(b),
        Some(_) => Err(msg_not_bool(name)),
    }
}

/// One edge.
pub open spec fn decode_edge(m: YamlModel) -> Result<EdgeV, Seq<char>> {
    match m {
        YamlModel::Mapping(es) => match unknown_key(es, Record::Edge) {
            Some(k) => Err(msg_unknown(k)),
            None => match text_field(es, "from"@) {
                Err(e) => Err(e),
                Ok(from) => match text_field(es, "input"@) {
                    Err(e) => Err(e),
                    Ok(input) => match opt_text_field(es, "to"@) {
                        Err(e) => Err(e),
                        Ok(to) => match opt_text_field(es, "effect"@) {
                            Err(e) => Err(e),
                            Ok(effect) => match opt_text_field(es, "records"@) {
                                Err(e) => Err(e),
                                Ok(records) => Ok(EdgeV { from, input, to, effect, records }),
                            },
                        },
                    },
                },
            },
        },
        _ => Err(msg_not_mapping(Record::Edge)),
    }
}

/// A list of edges, or the first that does not read.
pub open spec fn decode_edges(items: Seq<YamlModel>) -> Result<Seq<EdgeV>, Seq<char>>
    decreases items.len(),
{
    if items.len() == 0 {
        Ok(Seq::empty())
    } else {
        match decode_edges(items.drop_last()) {
            Err(e) => Err(e),
            Ok(l) => match decode_edge(items.last()) {
                Err(e) => Err(e),
                Ok(x) => Ok(l.push(x)),
            },
        }
    }
}

/// The `edges` field: empty when absent or null.
pub open spec fn edges_field(es: Seq<(YamlModel, YamlModel)>) -> Result<Seq<EdgeV>, Seq<char>> {
    match field_of(es, "edges"@) {
        None => Ok(Seq::empty()),
        Some(YamlModel::Null) => Ok(Seq::empty()),
        Some(YamlModel::Sequence(items)) => decode_edges(items),
        Some(_) => Err(msg_not_edges()),
    }
}

/// One door.
pub open spec fn decode_door(m: YamlModel) -> Result<DoorV, Seq<char>> {
    match m {
        YamlModel::Mapping(es) => match unknown_key(es, Record::Door) {
            Some(k) => Err(msg_unknown(k)),
            None => match bool_field(es, "fixed_table"@) {
                Err(e) => Err(e),
                Ok(fixed_table) => match list_field(es, "inputs"@) {
                    Err(e) => Err(e),
                    Ok(inputs) => match edges_field(es) {
                        Err(e) => Err(e),
                        Ok(edges) => Ok(DoorV { fixed_table, inputs, edges }),
                    },
                },
            },
        },
        _ => Err(msg_not_mapping(Record::Door)),
    }
}

/// An optional door field; null means absent.
pub open spec fn opt_door_field(es: Seq<(YamlModel, YamlModel)>, name: Seq<char>) -> Result<Option<DoorV>, Seq<char>> {
    match field_of(es, name) {
        None => Ok(None),
        Some(YamlModel::Null) => Ok(None),
        Some(v) => match decode_door(v) {
            Err(e) => Err(e),
            Ok(d) => Ok(Some(d)),
        },
    }
}

/// A whole spec.
pub open spec fn decode_spec(m: YamlModel) -> Result<DomainSpecV, Seq<char>> {
    match m {
        YamlModel::Mapping(es) => match unknown_key(es, Record::Spec) {
            Some(k) => Err(msg_unknown(k)),
            None => match text_field(es, "domain"@) {
                Err(e) => Err(e),
                Ok(domain) => match text_field(es, "initial"@) {
                    Err(e) => Err(e),
                    Ok(initial) => match list_field(es, "states"@) {
                        Err(e) => Err(e),
                        Ok(states) => match field_of(es, "proposal"@) {
                            None => Err(msg_missing("proposal"@)),
                            Some(p) => match decode_door(p) {
                                Err(e) => Err(e),
                                Ok(proposal) => match opt_door_field(es, "fact"@) {
                                    Err(e) => Err(e),
                                    Ok(fact) => match opt_door_field(es, "system_event"@) {
                                        Err(e) => Err(e),
                                        Ok(system_event) => Ok(DomainSpecV { domain, initial, states, proposal, fact, system_event }),
                                    },
                                },
                            },
                        },
                    },
                },
            },
        },
        _ => Err(msg_not_mapping(Record::Spec)),
    }
}

/// What reading a spec from YAML text gives: the spec, or what was wrong.
pub open spec fn spec_from_yaml(text: Seq<char>) -> Result<DomainSpecV, Seq<char>> {
    match yaml_parse(text) {
        Err(e) => Err(e),
        Ok(m) => decode_spec(m),
    }
}


// ---------------------------------------------------------------------------
// The reader.

/// `a`, then `b`, then `c`.
fn join3(a: &str, b: &str, c: &str) -> (r: String)
    ensures
        r@ == a@ + b@ + c@,
{
    let mut m = String::from_str(a);
    m.append(b);
    m.append(c);
    m
}

/// A scalar read as text.
fn scalar_string(v: &YamlValue) -> (r: Option<String>)
    ensures
        opt_text(r) == scalar_text(v@),
{
    match v {
        YamlValue::String(s) => Some(s.clone()),
        YamlValue::Number(t) => Some(t.clone()),
        YamlValue::Bool(b) => Some(String::from_str(if *b { "true" } else { "false" })),
        _ => None,
    }
}

/// Whether a record accepts a field name.
fn is_field_allowed(r: Record, k: &str) -> (b: bool)
    ensures
        b == field_allowed(r, k@),
{
    match r {
        Record::Spec => text_equal(k, "domain") || text_equal(k, "initial") || text_equal(k, "states")
            || text_equal(k, "proposal") || text_equal(k, "fact") || text_equal(k, "system_event"),
        Record::Door => text_equal(k, "fixed_table") || text_equal(k, "inputs") || text_equal(k, "edges"),
        Record::Edge => text_equal(k, "from") || text_equal(k, "input") || text_equal(k, "to")
            || text_equal(k, "effect") || text_equal(k, "records"),
    }
}

/// The value of the first entry whose key reads as `name`.
fn find_field<'a>(es: &'a Vec<(YamlValue, YamlValue)>, name: &str) -> (r: Option<&'a YamlValue>)
    ensures
        match r {
            Some(v) => field_of(yaml_entries(es@), name@) == Some(v@),
            None => field_of(yaml_entries(es@), name@) is None,
        },
{
    let ghost all = yaml_entries(es@);
    proof { lemma_yaml_entries(es@); }
    let mut i: usize = 0;
    assert(all.skip(0) =~= all);
    while i < es.len()
        invariant
            i <= es@.len(),
            all == yaml_entries(es@),
            all.len() == es@.len(),
            forall|k: int| 0 <= k < es@.len() ==> #[trigger] all[k] == (es@[k].0@, es@[k].1@),
            field_of(all, name@) == field_of(all.skip(i as int), name@),
        decreases es@.len() - i,
    {
        assert(all.skip(i as int)[0] == all[i as int]);
        assert(all.skip(i as int).drop_first() =~= all.skip(i + 1));
        if let Some(k) = scalar_string(&es[i].0) {
            if text_equal(k.as_str(), name) {
                return Some(&es[i].1);
            }
        }
        i = i + 1;
    }
    None
}

/// The first key a record does not accept.
fn find_unknown_key(es: &Vec<(YamlValue, YamlValue)>, r: Record) -> (u: Option<String>)
    ensures
        opt_text(u) == unknown_key(yaml_entries(es@), r),
{
    let ghost all = yaml_entries(es@);
    proof { lemma_yaml_entries(es@); }
    let mut i: usize = 0;
    assert(all.skip(0) =~= all);
    while i < es.len()
        invariant
            i <= es@.len(),
            all == yaml_entries(es@),
            all.len() == es@.len(),
            forall|k: int| 0 <= k < es@.len() ==> #[trigger] all[k] == (es@[k].0@, es@[k].1@),
            unknown_key(all, r) == unknown_key(all.skip(i as int), r),
        decreases es@.len() - i,
    {
        assert(all.skip(i as int)[0] == all[i as int]);
        assert(all.skip(i as int).drop_first() =~= all.skip(i + 1));
        match scalar_string(&es[i].0) {
            Some(k) => {
                if !is_field_allowed(r, k.as_str()) {
                    return Some(k);
                }
            },
            None => {
                return Some(String::from_str("?"));
            },
        }
        i = i + 1;
    }
    None
}

/// A required text field.
fn read_text_field(es: &Vec<(YamlValue, YamlValue)>, name: &str) -> (r: Result<String, String>)
    ensures
        match r {
            Ok(t) => text_field(yaml_entries(es@), name@) == Ok::<Seq<char>, Seq<char>>(t@),
            Err(e) => text_field(yaml_entries(es@), name@) == Err::<Seq<char>, Seq<char>>(e@),
        },
{
    match find_field(es, name) {
        None => Err(join3("missing field `", name, "`")),
        Some(v) => match scalar_string(v) {
            Some(t) => Ok(t),
            None => Err(join3("field `", name, "` must be a string")),
        },
    }
}

/// An optional text field; null means absent.
fn read_opt_text_field(es: &Vec<(YamlValue, YamlValue)>, name: &str) -> (r: Result<Option<String>, String>)
    ensures
        match r {
            Ok(t) => opt_text_field(yaml_entries(es@), name@) == Ok::<Option<Seq<char>>, Seq<char>>(opt_text(t)),
            Err(e) => opt_text_field(yaml_entries(es@), name@) == Err::<Option<Seq<char>>, Seq<char>>(e@),
        },
{
    match find_field(es, name) {
        None => Ok(None),
        Some(YamlValue::Null) => Ok(None),
        Some(v) => match scalar_string(v) {
            Some(t) => Ok(Some(t)),
            None => Err(join3("field `", name, "` must be a string")),
        },
    }
}

/// Every item read as text, if every item is a scalar.
fn read_text_items(items: &Vec<YamlValue>) -> (r: Option<Vec<String>>)
    ensures
        match r {
            Some(l) => text_items(yaml_models(items@)) == Some(texts(l@)),
            None => text_items(yaml_models(items@)) is None,
        },
{
    let ghost ms = yaml_models(items@);
    proof { lemma_yaml_models(items@); }
    let mut out: Vec<String> = Vec::new();
    let mut i: usize = 0;
    assert(ms.take(0) =~= Seq::<YamlModel>::empty());
    assert(texts(out@) =~= Seq::<Seq<char>>::empty());
    while i < items.len()
        invariant
            i <= items@.len(),
            ms == yaml_models(items@),
            ms.len() == items@.len(),
            forall|k: int| 0 <= k < items@.len() ==> #[trigger] ms[k] == items@[k]@,
            text_items(ms.take(i as int)) == Some(texts(out@)),
        decreases items@.len() - i,
    {
        let ghost t = ms.take(i + 1);
        assert(t.drop_last() =~= ms.take(i as int));
        assert(t.last() == items@[i as int]@);
        match scalar_string(&items[i]) {
            Some(text) => {
                let ghost old_out = out@;
                out.push(text);
                assert(texts(out@) =~= texts(old_out).push(text@));
            },
            None => {
                proof { lemma_text_items_none_persists(ms, i + 1); }
                return None;
            },
        }
        i = i + 1;
    }
    assert(ms.take(items@.len() as int) =~= ms);
    Some(out)
}

/// Once an item is not a scalar, the whole list does not read as text.
proof fn lemma_text_items_none_persists(ms: Seq<YamlModel>, k: int)
    requires
        0 < k <= ms.len(),
        text_items(ms.take(k)) is None,
    ensures
        text_items(ms) is None,
    decreases ms.len(),
{
    if k < ms.len() {
        assert(ms.drop_last().take(k) =~= ms.take(k));
        lemma_text_items_none_persists(ms.drop_last(), k);
    } else {
        assert(ms.take(k) =~= ms);
    }
}

/// A required list-of-text field; null reads as the empty list.
fn read_list_field(es: &Vec<(YamlValue, YamlValue)>, name: &str) -> (r: Result<Vec<String>, String>)
    ensures
        match r {
            Ok(l) => list_field(yaml_entries(es@), name@) == Ok::<Seq<Seq<char>>, Seq<char>>(texts(l@)),
            Err(e) => list_field(yaml_entries(es@), name@) == Err::<Seq<Seq<char>>, Seq<char>>(e@),
        },
{
    match find_field(es, name) {
        None => Err(join3("missing field `", name, "`")),
        Some(YamlValue::Null) => {
            let l: Vec<String> = Vec::new();
            assert(texts(l@) =~= Seq::<Seq<char>>::empty());
            Ok(l)
        },
        Some(YamlValue::Sequence(items)) => match read_text_items(items) {
            Some(l) => Ok(l),
            None => Err(join3("field `", name, "` must be a list of strings")),
        },
        Some(_) => Err(join3("field `", name, "` must be a list of strings")),
    }
}

/// An optional boolean field, false when absent.
fn read_bool_field(es: &Vec<(YamlValue, YamlValue)>, name: &str) -> (r: Result<bool, String>)
    ensures
        match r {
            Ok(b) => bool_field(yaml_entries(es@), name@) == Ok::<bool, Seq<char>>(b),
            Err(e) => bool_field(yaml_entries(es@), name@) == Err::<bool, Seq<char>>(e@),
        },
{
    match find_field(es, name) {
        None => Ok(false),
        Some(YamlValue::Bool(b)) => Ok(*b),
        Some(_) => Err(join3("field `", name, "` must be true or false")),
    }
}

/// The message for a record that is not a mapping.
fn not_mapping(r: Record) -> (m: String)
    ensures
        m@ == msg_not_mapping(r),
{
    let mut m = String::from_str(match r {
        Record::Spec => "the domain spec",
        Record::Door => "a door",
        Record::Edge => "an edge",
    });
    m.append(" must be a mapping");
    m
}

/// One edge.
fn read_edge(m: &YamlValue) -> (r: Result<Edge, String>)
    ensures
        match r {
            Ok(e) => decode_edge(m@) == Ok::<EdgeV, Seq<char>>(e@),
            Err(e) => decode_edge(m@) == Err::<EdgeV, Seq<char>>(e@),
        },
{
    let es = match m {
        YamlValue::Mapping(es) => es,
        _ => return Err(not_mapping(Record::Edge)),
    };
    if let Some(k) = find_unknown_key(es, Record::Edge) {
        return Err(join3("unknown field `", k.as_str(), "`"));
    }
    let from = match read_text_field(es, "from") { Ok(t) => t, Err(e) => return Err(e) };
    let input = match read_text_field(es, "input") { Ok(t) => t, Err(e) => return Err(e) };
    let to = match read_opt_text_field(es, "to") { Ok(t) => t, Err(e) => return Err(e) };
    let effect = match read_opt_text_field(es, "effect") { Ok(t) => t, Err(e) => return Err(e) };
    let records = match read_opt_text_field(es, "records") { Ok(t) => t, Err(e) => return Err(e) };
    Ok(Edge { from, input, to, effect, records })
}

/// A list of edges, or the first that does not read.
fn read_edges(items: &Vec<YamlValue>) -> (r: Result<Vec<Edge>, String>)
    ensures
        match r {
            Ok(l) => decode_edges(yaml_models(items@)) == Ok::<Seq<EdgeV>, Seq<char>>(l@.map_values(|e: Edge| e@)),
            Err(e) => decode_edges(yaml_models(items@)) == Err::<Seq<EdgeV>, Seq<char>>(e@),
        },
{
    let ghost ms = yaml_models(items@);
    proof { lemma_yaml_models(items@); }
    let mut out: Vec<Edge> = Vec::new();
    let mut i: usize = 0;
    assert(ms.take(0) =~= Seq::<YamlModel>::empty());
    assert(out@.map_values(|e: Edge| e@) =~= Seq::<EdgeV>::empty());
    while i < items.len()
        invariant
            i <= items@.len(),
            ms == yaml_models(items@),
            ms.len() == items@.len(),
            forall|k: int| 0 <= k < items@.len() ==> #[trigger] ms[k] == items@[k]@,
            decode_edges(ms.take(i as int)) == Ok::<Seq<EdgeV>, Seq<char>>(out@.map_values(|e: Edge| e@)),
        decreases items@.len() - i,
    {
        let ghost t = ms.take(i + 1);
        assert(t.drop_last() =~= ms.take(i as int));
        assert(t.last() == items@[i as int]@);
        match read_edge(&items[i]) {
            Ok(edge) => {
                let ghost old_out = out@;
                out.push(edge);
                assert(out@.map_values(|e: Edge| e@) =~= old_out.map_values(|e: Edge| e@).push(edge@));
            },
            Err(e) => {
                proof { lemma_edges_error_persists(ms, i + 1); }
                return Err(e);
            },
        }
        i = i + 1;
    }
    assert(ms.take(items@.len() as int) =~= ms);
    Ok(out)
}

/// Once an edge fails to read, so does the list.
proof fn lemma_edges_error_persists(ms: Seq<YamlModel>, k: int)
    requires
        0 < k <= ms.len(),
        decode_edges(ms.take(k)) is Err,
    ensures
        decode_edges(ms) == decode_edges(ms.take(k)),
    decreases ms.len(),
{
    if k < ms.len() {
        assert(ms.drop_last().take(k) =~= ms.take(k));
        lemma_edges_error_persists(ms.drop_last(), k);
    } else {
        assert(ms.take(k) =~= ms);
    }
}

/// The `edges` field: empty when absent or null.
fn read_edges_field(es: &Vec<(YamlValue, YamlValue)>) -> (r: Result<Vec<Edge>, String>)
    ensures
        match r {
            Ok(l) => edges_field(yaml_entries(es@)) == Ok::<Seq<EdgeV>, Seq<char>>(l@.map_values(|e: Edge| e@)),
            Err(e) => edges_field(yaml_entries(es@)) == Err::<Seq<EdgeV>, Seq<char>>(e@),
        },
{
    match find_field(es, "edges") {
        None => {
            let l: Vec<Edge> = Vec::new();
            assert(l@.map_values(|e: Edge| e@) =~= Seq::<EdgeV>::empty());
            Ok(l)
        },
        Some(YamlValue::Null) => {
            let l: Vec<Edge> = Vec::new();
            assert(l@.map_values(|e: Edge| e@) =~= Seq::<EdgeV>::empty());
            Ok(l)
        },
        Some(YamlValue::Sequence(items)) => read_edges(items),
        Some(_) => Err(String::from_str("field `edges` must be a list of edges")),
    }
}

/// One door.
fn read_door(m: &YamlValue) -> (r: Result<Door, String>)
    ensures
        match r {
            Ok(d) => decode_door(m@) == Ok::<DoorV, Seq<char>>(d@),
            Err(e) => decode_door(m@) == Err::<DoorV, Seq<char>>(e@),
        },
{
    let es = match m {
        YamlValue::Mapping(es) => es,
        _ => return Err(not_mapping(Record::Door)),
    };
    if let Some(k) = find_unknown_key(es, Record::Door) {
        return Err(join3("unknown field `", k.as_str(), "`"));
    }
    let fixed_table = match read_bool_field(es, "fixed_table") { Ok(b) => b, Err(e) => return Err(e) };
    let inputs = match read_list_field(es, "inputs") { Ok(l) => l, Err(e) => return Err(e) };
    let edges = match read_edges_field(es) { Ok(l) => l, Err(e) => return Err(e) };
    Ok(Door { fixed_table, inputs, edges })
}

/// An optional door field; null means absent.
fn read_opt_door_field(es: &Vec<(YamlValue, YamlValue)>, name: &str) -> (r: Result<Option<Door>, String>)
    ensures
        match r {
            Ok(d) => opt_door_field(yaml_entries(es@), name@) == Ok::<Option<DoorV>, Seq<char>>(opt_door(d)),
            Err(e) => opt_door_field(yaml_entries(es@), name@) == Err::<Option<DoorV>, Seq<char>>(e@),
        },
{
    match find_field(es, name) {
        None => Ok(None),
        Some(YamlValue::Null) => Ok(None),
        Some(v) => match read_door(v) {
            Ok(d) => Ok(Some(d)),
            Err(e) => Err(e),
        },
    }
}

/// A whole spec.
fn read_spec(m: &YamlValue) -> (r: Result<DomainSpec, String>)
    ensures
        match r {
            Ok(s) => decode_spec(m@) == Ok::<DomainSpecV, Seq<char>>(s@),
            Err(e) => decode_spec(m@) == Err::<DomainSpecV, Seq<char>>(e@),
        },
{
    let es = match m {
        YamlValue::Mapping(es) => es,
        _ => return Err(not_mapping(Record::Spec)),
    };
    if let Some(k) = find_unknown_key(es, Record::Spec) {
        return Err(join3("unknown field `", k.as_str(), "`"));
    }
    let domain = match read_text_field(es, "domain") { Ok(t) => t, Err(e) => return Err(e) };
    let initial = match read_text_field(es, "initial") { Ok(t) => t, Err(e) => return Err(e) };
    let states = match read_list_field(es, "states") { Ok(l) => l, Err(e) => return Err(e) };
    let proposal = match find_field(es, "proposal") {
        None => return Err(join3("missing field `", "proposal", "`")),
        Some(p) => match read_door(p) { Ok(d) => d, Err(e) => return Err(e) },
    };
    let fact = match read_opt_door_field(es, "fact") { Ok(d) => d, Err(e) => return Err(e) };
    let system_event = match read_opt_door_field(es, "system_event") { Ok(d) => d, Err(e) => return Err(e) };
    Ok(DomainSpec { domain, initial, states, proposal, fact, system_event })
}

impl DomainSpec {
    /// Reads a spec from YAML text. Shape only: see the module note.
    ///
    /// Fails with [`ParseError::Yaml`] when the text is not YAML, or does not
    /// fit the spec structure.
    pub fn from_yaml(text: &str) -> (r: Result<DomainSpec, ParseError>)
        ensures
            match r {
                Ok(s) => spec_from_yaml(text@) == Ok::<DomainSpecV, Seq<char>>(s@),
                Err(ParseError::Yaml(e)) => spec_from_yaml(text@) == Err::<DomainSpecV, Seq<char>>(e@),
                Err(ParseError::Io(_)) => false,
            },
    {
        match YamlValue::parse(text) {
            Err(e) => Err(ParseError::Yaml(e)),
            Ok(v) => match read_spec(&v) {
                Ok(s) => Ok(s),
                Err(e) => Err(ParseError::Yaml(e)),
            },
        }
    }
}

} // verus!
