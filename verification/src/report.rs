//! Human-readable reporting of an [`Analysis`], shared by every front end so
//! they all speak with one voice.

use vstd::prelude::*;
use crate::spec::{door_name_text, texts};
use crate::text::{decimal, decimal_string, pad_left, pad_right, push_decimal, push_padded_left, push_padded_right};
use crate::topology::{
    count_no_edge, count_severity, min_usize, diags_view, doors_no_edge, door_no_edge_count, lemma_count_no_edge_bound,
    Analysis, AnalysisV, DiagnosticV, Diagnostic, DoorTopology, DoorTopologyV, Severity, TopologyV,
};

verus! {

/// The heading line of the report.
pub open spec fn header_text(t: TopologyV) -> Seq<char> {
    "domain: "@ + t.domain + "   ("@ + decimal(t.states.len()) + " states, initial: "@ + t.initial + ")\n"@
}

/// One door's summary line: name, inputs, edges, `no_edge` cells, and whether
/// the door is a fixed table.
pub open spec fn door_line(d: DoorTopologyV) -> Seq<char> {
    "  "@ + pad_right(door_name_text(d.name), 13) + " "@ + pad_left(decimal(d.inputs.len()), 2)
        + " inputs   "@ + pad_left(decimal((d.cells.len() - count_no_edge(d.cells)) as nat), 2)
        + " edges   "@ + pad_left(decimal(count_no_edge(d.cells)), 2) + " no_edge"@
        + (if d.fixed_table { "  [fixed_table]"@ } else { ""@ }) + "\n"@
}

/// The summary lines of the doors, in order.
pub open spec fn door_lines(doors: Seq<DoorTopologyV>) -> Seq<char>
    decreases doors.len(),
{
    if doors.len() == 0 {
        Seq::empty()
    } else {
        door_lines(doors.drop_last()) + door_line(doors.last())
    }
}

/// A bullet line for each message of the given severity, in order.
pub open spec fn bullet_lines(d: Seq<DiagnosticV>, severity: Severity) -> Seq<char>
    decreases d.len(),
{
    if d.len() == 0 {
        Seq::empty()
    } else {
        bullet_lines(d.drop_last(), severity) + if d.last().severity == severity {
            "  - "@ + d.last().message + "\n"@
        } else {
            Seq::empty()
        }
    }
}

/// A headed section listing the messages of one severity; nothing when there are none.
pub open spec fn section_text(d: Seq<DiagnosticV>, severity: Severity, heading: Seq<char>) -> Seq<char> {
    if count_severity(d, severity) == 0 {
        Seq::empty()
    } else {
        "\n"@ + heading + ":\n"@ + bullet_lines(d, severity)
    }
}

/// The whole report: heading, the doors, then warnings, then errors.
pub open spec fn human_text(a: AnalysisV) -> Seq<char> {
    header_text(a.topology) + door_lines(a.topology.doors)
        + section_text(a.diagnostics, Severity::Warning, "warnings"@)
        + section_text(a.diagnostics, Severity::Error, "errors"@)
}

/// The one-line verdict.
pub open spec fn verdict_text(a: AnalysisV) -> Seq<char> {
    if count_severity(a.diagnostics, Severity::Error) == 0 {
        "VALID \u{2014} the topology is total ("@ + decimal(min_usize(doors_no_edge(a.topology.doors)))
            + " no_edge cells made explicit) and sound."@
    } else {
        "INVALID \u{2014} "@ + decimal(count_severity(a.diagnostics, Severity::Error))
            + " error(s). The topology is not sound."@
    }
}

/// Appends a section listing the messages of one severity.
fn append_section(out: &mut String, analysis: &Analysis, severity: Severity, heading: &str)
    ensures
        final(out)@ == old(out)@ + section_text(analysis@.diagnostics, severity, heading@),
{
    let ghost dv = analysis@.diagnostics;
    let mut lines = String::new();
    let mut n: usize = 0;
    let mut i: usize = 0;
    assert(dv.take(0) =~= Seq::<DiagnosticV>::empty());
    while i < analysis.diagnostics.len()
        invariant
            i <= analysis.diagnostics@.len(),
            dv == analysis@.diagnostics,
            dv == diags_view(analysis.diagnostics@),
            lines@ == bullet_lines(dv.take(i as int), severity),
            n == count_severity(dv.take(i as int), severity),
            n <= i,
        decreases analysis.diagnostics@.len() - i,
    {
        let d: &Diagnostic = &analysis.diagnostics[i];
        proof {
            let t = dv.take(i + 1);
            assert(t.drop_last() =~= dv.take(i as int));
            assert(t.last() == d@);
        }
        if d.severity == severity {
            lines.append("  - ");
            lines.append(d.message.as_str());
            lines.append("\n");
            n = n + 1;
        }
        proof {
            let t = dv.take(i + 1);
            assert(lines@ =~= bullet_lines(t, severity));
        }
        i = i + 1;
    }
    assert(dv.take(analysis.diagnostics@.len() as int) =~= dv);
    if n == 0 {
        assert(old(out)@ + section_text(dv, severity, heading@) =~= old(out)@);
        return;
    }
    out.append("\n");
    out.append(heading);
    out.append(":\n");
    out.append(lines.as_str());
    assert(final(out)@ =~= old(out)@ + section_text(dv, severity, heading@));
}

/// Appends one door's summary line.
#[verifier::rlimit(40)]
fn push_door_line(out: &mut String, door: &DoorTopology)
    ensures
        final(out)@ == old(out)@ + door_line(door@),
{
    let total = door.cells.len();
    let no_edge = door_no_edge_count(door);
    proof {
        lemma_count_no_edge_bound(door@.cells);
    }
    out.append("  ");
    push_padded_right(out, door.name.as_str(), 13);
    out.append(" ");
    push_padded_left(out, decimal_string(door.inputs.len()).as_str(), 2);
    out.append(" inputs   ");
    push_padded_left(out, decimal_string(total - no_edge).as_str(), 2);
    out.append(" edges   ");
    push_padded_left(out, decimal_string(no_edge).as_str(), 2);
    out.append(" no_edge");
    out.append(if door.fixed_table { "  [fixed_table]" } else { "" });
    out.append("\n");
    assert(door@.inputs.len() == door.inputs@.len());
    assert(final(out)@ =~= old(out)@ + door_line(door@));
}

/// The per-door shape of a spec plus every diagnostic, as a printable block.
pub fn human(analysis: &Analysis) -> (r: String)
    ensures
        r@ == human_text(analysis@),
{
    let topology = &analysis.topology;
    let ghost tv = topology@;
    let mut out = String::from_str("domain: ");
    out.append(topology.domain.as_str());
    out.append("   (");
    push_decimal(&mut out, topology.states.len());
    out.append(" states, initial: ");
    out.append(topology.initial.as_str());
    out.append(")\n");
    assert(out@ =~= header_text(tv));
    let mut i: usize = 0;
    assert(tv.doors.take(0) =~= Seq::<DoorTopologyV>::empty());
    while i < topology.doors.len()
        invariant
            i <= topology.doors@.len(),
            tv == topology@,
            out@ == header_text(tv) + door_lines(tv.doors.take(i as int)),
        decreases topology.doors@.len() - i,
    {
        let door = &topology.doors[i];
        let ghost before = out@;
        push_door_line(&mut out, door);
        proof {
            let t = tv.doors.take(i + 1);
            assert(t.drop_last() =~= tv.doors.take(i as int));
            assert(t.last() == door@);
            assert(out@ =~= header_text(tv) + door_lines(t));
        }
        i = i + 1;
    }
    assert(tv.doors.take(topology.doors@.len() as int) =~= tv.doors);
    append_section(&mut out, analysis, Severity::Warning, "warnings");
    append_section(&mut out, analysis, Severity::Error, "errors");
    proof {
        reveal_strlit("warnings");
        reveal_strlit("errors");
    }
    assert(out@ =~= human_text(analysis@));
    out
}

/// The one-line verdict a caller keys its exit code (or its report) on.
pub fn verdict(analysis: &Analysis) -> (r: String)
    ensures
        r@ == verdict_text(analysis@),
{
    if analysis.is_sound() {
        let mut out = String::from_str("VALID \u{2014} the topology is total (");
        push_decimal(&mut out, analysis.no_edge_count());
        out.append(" no_edge cells made explicit) and sound.");
        assert(out@ =~= verdict_text(analysis@));
        out
    } else {
        let mut out = String::from_str("INVALID \u{2014} ");
        push_decimal(&mut out, analysis.error_count());
        out.append(" error(s). The topology is not sound.");
        assert(out@ =~= verdict_text(analysis@));
        out
    }
}

} // verus!
