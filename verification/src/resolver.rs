//! The work-area resolver and its fallback chain.
//!
//! The host windowing layer reports a display's full raw size; a
//! platform-specific strategy may refine it to the usable work area.  A
//! refinement that fails is never fatal: the raw size stands.  Only a
//! missing display is an error, surfaced as a human-readable string.  On the
//! platform that shells out to display tools, the first tool's successful
//! parse wins and the second is the fallback; when both fail, the caller
//! keeps the raw size.

use crate::parse::parse_xprop_output;
use crate::parse::parse_xrandr_output;
use crate::parse::xprop_work_area;
use crate::parse::xrandr_work_area;
use vstd::prelude::*;

verus! {

/// The refinement the two-tool fallback chain yields: the first tool's
/// parse when it succeeds, else the second's.
pub open spec fn fallback_chain(
    first: Option<(u32, u32)>,
    second: Option<(u32, u32)>,
) -> Option<(u32, u32)> {
    if first is Some {
        first
    } else {
        second
    }
}

/// Work area from the display tools' output, first tool first.  A `None`
/// argument stands for a tool that could not be run or did not exit
/// successfully.  Only when neither output names a work area does the
/// chain report an error, and the caller then keeps the raw size.
pub fn get_linux_work_area(xprop_output: Option<&[u8]>, xrandr_output: Option<&[u8]>) -> (r:
    Result<(u32, u32), String>)
    ensures
        ({
            let first = match xprop_output {
                Some(o) => xprop_work_area(o@),
                None => None,
            };
            let second = match xrandr_output {
                Some(o) => xrandr_work_area(o@),
                None => None,
            };
            match fallback_chain(first, second) {
                Some(d) => r == Ok::<(u32, u32), String>(d),
                None => r matches Err(m) && m@ == "Couldn't identify the workspace"@,
            }
        }),
{
    if let Some(o) = xprop_output {
        if let Some(d) = parse_xprop_output(o) {
            return Ok(d);
        }
    }
    if let Some(o) = xrandr_output {
        if let Some(d) = parse_xrandr_output(o) {
            return Ok(d);
        }
    }
    Err("Couldn't identify the workspace".to_owned())
}

/// The dimensions the resolver settles on: the refined work area when a
/// refinement strategy produced one, else the raw monitor size.
pub open spec fn refined_or_raw(raw: (u32, u32), refinement: Option<(u32, u32)>) -> (u32, u32) {
    match refinement {
        Some(d) => d,
        None => raw,
    }
}

/// Resolves a display's usable work area from its raw size and the result
/// of platform refinement, if any strategy produced one.  Refinement
/// failure is silent: without a refinement the raw size is returned
/// exactly.
pub fn resolve_work_area(raw_width: u32, raw_height: u32, refinement: Option<(u32, u32)>) -> (r:
    (u32, u32))
    ensures
        r == refined_or_raw((raw_width, raw_height), refinement),
        refinement is None ==> r == (raw_width, raw_height),
{
    match refinement {
        Some(d) => d,
        None => (raw_width, raw_height),
    }
}

/// Width and height of the work-area rectangle the primary platform query
/// fills in.  The bounds of a well-formed rectangle are ordered, and its
/// sides then always fit in 32 bits; an unordered rectangle yields nothing,
/// and the caller keeps the baseline.
pub fn rect_size(left: i32, top: i32, right: i32, bottom: i32) -> (r: Option<(u32, u32)>)
    ensures
        r is Some <==> left <= right && top <= bottom,
        r matches Some(d) ==> d.0 == right - left && d.1 == bottom - top,
{
    if left <= right && top <= bottom {
        let width = (right as i64 - left as i64) as u32;
        let height = (bottom as i64 - top as i64) as u32;
        Some((width, height))
    } else {
        None
    }
}

/// Answers the front-end's monitor-size request.  Without a display the
/// display-not-found error is reported; with one, the resolved work area.
pub fn monitor_size(raw_size: Option<(u32, u32)>, refinement: Option<(u32, u32)>) -> (r: Result<
    (u32, u32),
    String,
>)
    ensures
        match raw_size {
            None => r matches Err(m) && m@ == "No monitor found"@,
            Some(raw) => r == Ok::<(u32, u32), String>(refined_or_raw(raw, refinement)),
        },
{
    match raw_size {
        None => Err("No monitor found".to_owned()),
        Some((w, h)) => Ok(resolve_work_area(w, h, refinement)),
    }
}

/// A resolved work area is positive whenever the display's raw size is
/// positive and the refinement, where one applies, is positive.
pub proof fn lemma_work_area_positive(raw: (u32, u32), refinement: Option<(u32, u32)>)
    requires
        raw.0 > 0,
        raw.1 > 0,
        refinement matches Some(d) ==> d.0 > 0 && d.1 > 0,
    ensures
        refined_or_raw(raw, refinement).0 > 0,
        refined_or_raw(raw, refinement).1 > 0,
{
}

/// Refinement only shrinks the area, never grows it: when the refined
/// dimensions fit within the raw ones, so does the result.
pub proof fn lemma_refinement_shrinks(raw: (u32, u32), refinement: Option<(u32, u32)>)
    requires
        refinement matches Some(d) ==> d.0 <= raw.0 && d.1 <= raw.1,
    ensures
        refined_or_raw(raw, refinement).0 <= raw.0,
        refined_or_raw(raw, refinement).1 <= raw.1,
{
}

/// With every refinement strategy unavailable, the resolver returns the
/// raw monitor size exactly.
pub proof fn lemma_no_refinement_keeps_raw(raw: (u32, u32))
    ensures
        refined_or_raw(raw, None) == raw,
{
}

/// Fallback ordering: the first tool's successful parse wins, no strategy
/// is retried, and when the first tool yields nothing the chain hands on
/// the second tool's result verbatim.
pub proof fn lemma_fallback_ordering(first: Option<(u32, u32)>, second: Option<(u32, u32)>)
    ensures
        first is Some ==> fallback_chain(first, second) == first,
        first is None ==> fallback_chain(first, second) == second,
{
}

} // verus!
