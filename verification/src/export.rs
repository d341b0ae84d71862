//! Grid-shaped delimited-text rendering of one snapshot's own assignments.
//!
//! A full week is five days of five slots, two subjects per slot: fifty
//! assignment rows, ordered by slot ordering key and then by subject name.
//! The report lays the grid out row by row: for each of the five daily slot
//! positions, one line with the first subject of that position across the
//! five days, then one line with the second. The sheets variant repeats
//! each pair of lines once more.

use vstd::prelude::*;

use crate::error::Error;
use vstd::string::StringExecFns;

verus! {

/// How many assignment rows one report consumes: five days of five slots,
/// two subjects each.
pub const GRID_ROWS: usize = 50;

/// Which format a caller asked for; none means the default.
pub struct ExportQuery {
    pub format: Option<String>,
}

/// One assignment row joined with its display data: the slot's external
/// ordering key and the subject's display name.
#[derive(Debug)]
pub struct SlotAssignment {
    pub slot_w2m_id: i32,
    pub subject_name: String,
}

/// The name standing at day `d`, slot position `s`, rank `w` of the grid.
pub open spec fn grid_name(a: Seq<SlotAssignment>, d: int, s: int, w: int) -> Seq<char> {
    a[10 * d + 2 * s + w].subject_name@
}

/// One output line: the rank-`w` subjects of slot position `s` across the
/// five days, comma-separated.
pub open spec fn csv_row(a: Seq<SlotAssignment>, s: int, w: int) -> Seq<char> {
    grid_name(a, 0, s, w) + ","@ + grid_name(a, 1, s, w) + ","@ + grid_name(a, 2, s, w) + ","@
        + grid_name(a, 3, s, w) + ","@ + grid_name(a, 4, s, w) + "\n"@
}

/// The lines for one slot position: both ranks, doubled for the sheets
/// variant.
pub open spec fn csv_block(a: Seq<SlotAssignment>, s: int, sheets: bool) -> Seq<char> {
    let two = csv_row(a, s, 0) + csv_row(a, s, 1);
    if sheets {
        two + two
    } else {
        two
    }
}

/// The report text for the first `s` slot positions.
pub open spec fn csv_prefix(a: Seq<SlotAssignment>, s: int, sheets: bool) -> Seq<char>
    decreases s,
{
    if s <= 0 {
        Seq::empty()
    } else {
        csv_prefix(a, s - 1, sheets) + csv_block(a, s - 1, sheets)
    }
}

/// The whole report text.
pub open spec fn csv_text(a: Seq<SlotAssignment>, sheets: bool) -> Seq<char> {
    csv_prefix(a, 5, sheets)
}

/// Append one output line to the report being built.
fn push_row(out: &mut String, assignments: &Vec<SlotAssignment>, s: usize, w: usize)
    requires
        assignments@.len() == GRID_ROWS,
        s < 5,
        w < 2,
    ensures
        final(out)@ == old(out)@ + csv_row(assignments@, s as int, w as int),
{
    let mut d: usize = 0;
    while d < 5
        invariant
            assignments@.len() == GRID_ROWS,
            s < 5,
            w < 2,
            0 <= d <= 5,
            out@ == old(out)@ + (if d == 0 {
                Seq::<char>::empty()
            } else if d == 1 {
                grid_name(assignments@, 0, s as int, w as int) + ","@
            } else if d == 2 {
                grid_name(assignments@, 0, s as int, w as int) + ","@ + grid_name(
                    assignments@,
                    1,
                    s as int,
                    w as int,
                ) + ","@
            } else if d == 3 {
                grid_name(assignments@, 0, s as int, w as int) + ","@ + grid_name(
                    assignments@,
                    1,
                    s as int,
                    w as int,
                ) + ","@ + grid_name(assignments@, 2, s as int, w as int) + ","@
            } else if d == 4 {
                grid_name(assignments@, 0, s as int, w as int) + ","@ + grid_name(
                    assignments@,
                    1,
                    s as int,
                    w as int,
                ) + ","@ + grid_name(assignments@, 2, s as int, w as int) + ","@ + grid_name(
                    assignments@,
                    3,
                    s as int,
                    w as int,
                ) + ","@
            } else {
                grid_name(assignments@, 0, s as int, w as int) + ","@ + grid_name(
                    assignments@,
                    1,
                    s as int,
                    w as int,
                ) + ","@ + grid_name(assignments@, 2, s as int, w as int) + ","@ + grid_name(
                    assignments@,
                    3,
                    s as int,
                    w as int,
                ) + ","@ + grid_name(assignments@, 4, s as int, w as int)
            }),
        decreases 5 - d,
    {
        let idx: usize = 10 * d + 2 * s + w;
        out.append(assignments[idx].subject_name.as_str());
        if d < 4 {
            out.append(",");
        }
        d = d + 1;
    }
    out.append("\n");
    proof {
        assert(final(out)@ =~= old(out)@ + csv_row(assignments@, s as int, w as int));
    }
}

/// Render fifty assignment rows into the grid-shaped report; the sheets
/// variant repeats each pair of lines.
pub fn build_csv(assignments: &Vec<SlotAssignment>, sheets_export: bool) -> (r: String)
    requires
        assignments@.len() == GRID_ROWS,
    ensures
        r@ == csv_text(assignments@, sheets_export),
{
    let mut out = String::new();
    let mut s: usize = 0;
    while s < 5
        invariant
            assignments@.len() == GRID_ROWS,
            0 <= s <= 5,
            out@ == csv_prefix(assignments@, s as int, sheets_export),
        decreases 5 - s,
    {
        let ghost before = out@;
        push_row(&mut out, assignments, s, 0);
        push_row(&mut out, assignments, s, 1);
        if sheets_export {
            push_row(&mut out, assignments, s, 0);
            push_row(&mut out, assignments, s, 1);
        }
        proof {
            assert(out@ =~= before + csv_block(assignments@, s as int, sheets_export));
        }
        s = s + 1;
    }
    out
}

/// Pick the report variant a caller asked for: the default grid, the
/// sheets variant, or a malformed-input error for anything else.
pub fn render_export(assignments: &Vec<SlotAssignment>, query: &ExportQuery) -> (r: Result<
    String,
    Error,
>)
    requires
        assignments@.len() == GRID_ROWS,
    ensures
        ({
            let fv = match query.format {
                Option::Some(f) => f@,
                Option::None => "default"@,
            };
            if fv == "default"@ {
                r matches Result::Ok(text) && text@ == csv_text(assignments@, false)
            } else if fv == "sheets-export"@ {
                r matches Result::Ok(text) && text@ == csv_text(assignments@, true)
            } else {
                r == Result::<String, Error>::Err(Error::Input)
            }
        }),
{
    match &query.format {
        Option::None => Ok(build_csv(assignments, false)),
        Option::Some(f) => {
            if f.eq(&String::from_str("default")) {
                Ok(build_csv(assignments, false))
            } else if f.eq(&String::from_str("sheets-export")) {
                Ok(build_csv(assignments, true))
            } else {
                Err(Error::Input)
            }
        },
    }
}

} // verus!
