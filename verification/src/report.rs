//! The report of the lines that no selected test stands for.

use crate::failure::Failure;
use crate::model::{line_map_wf, PathLineMap};
use crate::select::line_map_view;
use crate::text::{decimal_text, push_decimal};
use crate::warn::{warn, warning_text};
use vstd::prelude::*;
use vstd::string::StringExecFns;

verus! {

/// How a stored range is written: the line itself where it holds one line,
/// else its first and its last line with a hyphen between them.
pub open spec fn span_text(span: (int, int)) -> Seq<char> {
    if span.0 + 1 == span.1 {
        decimal_text(span.0 as nat)
    } else {
        decimal_text(span.0 as nat) + "-"@ + decimal_text((span.1 - 1) as nat)
    }
}

/// One line of the report for each of the first `n` ranges under `path`: four
/// blanks, the path, a colon and the range.
pub open spec fn path_report(path: Seq<char>, spans: Seq<(int, int)>, n: int) -> Seq<char>
    decreases n,
{
    if n <= 0 {
        Seq::empty()
    } else {
        path_report(path, spans, n - 1) + "    "@ + path + ":"@ + span_text(spans[n - 1]) + "\n"@
    }
}

/// The report of the first `n` paths of `left`, each with its ranges, in order.
pub open spec fn lines_report(left: Seq<(Seq<char>, Seq<(int, int)>)>, n: int) -> Seq<char>
    decreases n,
{
    if n <= 0 {
        Seq::empty()
    } else {
        lines_report(left, n - 1) + path_report(left[n - 1].0, left[n - 1].1, left[n - 1].1.len() as int)
    }
}

/// The message of the warning about the lines that were left uncovered.
pub open spec fn uncovered_lines_message(left: Seq<(Seq<char>, Seq<(int, int)>)>) -> Seq<char> {
    "the following lines are not covered by any test:\n"@ + lines_report(left, left.len() as int)
}

/// No line is left under any path.
pub open spec fn nothing_left(left: Seq<(Seq<char>, Seq<(int, int)>)>) -> bool {
    forall|q: int| 0 <= q < left.len() ==> (#[trigger] left[q]).1.len() == 0
}

/// Whether no line is left under any path.
pub fn all_empty(map: &PathLineMap) -> (r: bool)
    requires
        line_map_wf(*map),
    ensures
        r == nothing_left(line_map_view(*map)),
{
    let mut q: usize = 0;
    while q < map.len()
        invariant
            line_map_wf(*map),
            0 <= q <= map.keys().len(),
            forall|p: int| 0 <= p < q ==> (#[trigger] map.values()[p]).spans().len() == 0,
        decreases map.keys().len() - q,
    {
        if !map.value(q).is_empty() {
            assert(line_map_view(*map)[q as int].1.len() != 0);
            return false;
        }
        q += 1;
    }
    assert forall|p: int| 0 <= p < line_map_view(*map).len() implies (#[trigger] line_map_view(
        *map,
    )[p]).1.len() == 0 by {
        assert(map.values()[p].spans().len() == 0);
    }
    true
}

/// What is to be said about the lines that were left uncovered: nothing where
/// none were, else one warning that lists each path with its ranges. Where
/// warnings are denied the warning is a failure.
pub fn warn_about_uncovered_lines(path_line_map: &PathLineMap, deny_warnings: bool) -> (r: Result<
    Option<String>,
    Failure,
>)
    requires
        line_map_wf(*path_line_map),
    ensures
        nothing_left(line_map_view(*path_line_map)) ==> r matches Ok(None),
        !nothing_left(line_map_view(*path_line_map)) && deny_warnings ==> (r matches Err(
            Failure::Warning(m),
        ) && m@ == uncovered_lines_message(line_map_view(*path_line_map))),
        !nothing_left(line_map_view(*path_line_map)) && !deny_warnings ==> (r matches Ok(Some(text))
            && text@ == warning_text(uncovered_lines_message(line_map_view(*path_line_map)))),
{
    if all_empty(path_line_map) {
        return Ok(None);
    }
    let mut msg = String::new();
    msg.append("the following lines are not covered by any test:\n");
    let ghost head = msg@;
    let ghost left = line_map_view(*path_line_map);
    let mut q: usize = 0;
    assert(msg@ =~= head + lines_report(left, 0));
    while q < path_line_map.len()
        invariant
            line_map_wf(*path_line_map),
            0 <= q <= path_line_map.keys().len(),
            left == line_map_view(*path_line_map),
            msg@ == head + lines_report(left, q as int),
        decreases path_line_map.keys().len() - q,
    {
        let path = path_line_map.key(q);
        let set = path_line_map.value(q);
        let ranges = set.clone().into_ranges();
        let ghost spans = set.spans();
        let ghost start = msg@;
        assert(left[q as int] == (path@, spans));
        let mut m: usize = 0;
        assert(msg@ =~= start + path_report(path@, spans, 0));
        while m < ranges.len()
            invariant
                0 <= m <= ranges@.len(),
                ranges@.len() == spans.len(),
                forall|i: int|
                    0 <= i < ranges@.len() ==> (#[trigger] ranges@[i]).start == spans[i].0
                        && ranges@[i].end == spans[i].1,
                forall|i: int| 0 <= i < spans.len() ==> (#[trigger] spans[i]).0 < spans[i].1,
                msg@ == start + path_report(path@, spans, m as int),
            decreases ranges@.len() - m,
        {
            let first = ranges[m].start;
            let end = ranges[m].end;
            assert(spans[m as int].0 == first && spans[m as int].1 == end);
            let ghost line_start = msg@;
            msg.append("    ");
            msg.append(path.as_str());
            msg.append(":");
            push_decimal(&mut msg, first as u64);
            if first + 1 != end {
                msg.append("-");
                push_decimal(&mut msg, (end - 1) as u64);
            }
            msg.append("\n");
            assert(msg@ =~= line_start + "    "@ + path@ + ":"@ + span_text(spans[m as int]) + "\n"@);
            m += 1;
        }
        q += 1;
    }
    assert(msg@ =~= uncovered_lines_message(left));
    match warn(msg.as_str(), deny_warnings) {
        Ok(text) => Ok(Some(text)),
        Err(e) => Err(e),
    }
}

} // verus!
