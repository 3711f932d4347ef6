//! Parsers for the output of the two display-information tools.
//!
//! The first tool prints the root window's workspace property, a line such
//! as `_NET_WORKAREA(CARDINAL) = 0, 0, 1920, 1040`: after the `=`, the third
//! and fourth comma-separated fields are the work area's width and height.
//! The second tool lists outputs, one per line, such as
//! `HDMI-1 connected 1920x1080+0+0`: the first line for a connected display
//! with a position offset carries a `WIDTHxHEIGHT` geometry token, and the
//! height loses a fixed allowance for a typical panel.

use crate::scan::fields_view;
use crate::scan::find_byte;
use crate::scan::find_byte_from;
use crate::scan::lemma_find_byte_is;
use crate::scan::parse_u32;
use crate::scan::parse_u32_bytes;
use crate::scan::split_byte;
use crate::scan::split_bytes;
use crate::scan::tokens;
use crate::scan::tokens_of;
use crate::scan::trim;
use crate::scan::trim_spaces;
use vstd::prelude::*;
use vstd::slice::slice_subrange;

verus! {

/// The byte `=`, which introduces the property's value in the first tool's
/// output.
pub const EQUALS_BYTE: u8 = 61;

/// The byte `,`, which separates the property's fields.
pub const COMMA_BYTE: u8 = 44;

/// The byte `x`, which separates width from height in a geometry token.
pub const X_BYTE: u8 = 120;

/// The byte `+`, which introduces a position offset in a geometry token.
pub const PLUS_BYTE: u8 = 43;

/// The byte that ends a line of tool output.
pub const NEWLINE_BYTE: u8 = 10;

/// Width assumed when a geometry token's width does not read as a number.
pub const DEFAULT_WIDTH: u32 = 1920;

/// Height assumed when a geometry token's height does not read as a number.
pub const DEFAULT_HEIGHT: u32 = 1080;

/// Fixed allowance, in pixels, for a typical panel at the screen's edge.
pub const PANEL_HEIGHT: u32 = 40;

/// The work area named in the first tool's output: everything after the
/// first `=` is split at commas, and the third and fourth fields, trimmed,
/// read as decimal numbers, are the work area's width and height.  Output
/// without `=`, with fewer than four fields, or with an unreadable field
/// names nothing.
pub open spec fn xprop_work_area(s: Seq<u8>) -> Option<(u32, u32)> {
    match find_byte(s, EQUALS_BYTE) {
        None => None,
        Some(i) => {
            let fields = split_byte(s.skip(i + 1), COMMA_BYTE);
            if fields.len() >= 4 {
                match (parse_u32(trim_spaces(fields[2])), parse_u32(trim_spaces(fields[3]))) {
                    (Some(w), Some(h)) => Some((w, h)),
                    _ => None,
                }
            } else {
                None
            }
        },
    }
}

/// Reads the first tool's output for the workspace property's width and
/// height.
pub fn parse_xprop_output(out: &[u8]) -> (r: Option<(u32, u32)>)
    ensures
        r == xprop_work_area(out@),
{
    let n = out.len();
    match find_byte_from(out, EQUALS_BYTE, 0) {
        None => {
            proof {
                lemma_find_byte_is(out@, EQUALS_BYTE, None);
            }
            None
        },
        Some(i) => {
            let rest = slice_subrange(out, i + 1, n);
            let fields = split_bytes(rest, COMMA_BYTE);
            proof {
                lemma_find_byte_is(out@, EQUALS_BYTE, Some(i as int));
                assert(rest@ =~= out@.skip(i + 1));
            }
            if fields.len() >= 4 {
                proof {
                    assert(fields_view(fields@)[2] == fields@[2]@);
                    assert(fields_view(fields@)[3] == fields@[3]@);
                }
                let wt = trim(fields[2].as_slice());
                let ht = trim(fields[3].as_slice());
                match (parse_u32_bytes(wt.as_slice()), parse_u32_bytes(ht.as_slice())) {
                    (Some(w), Some(h)) => Some((w, h)),
                    _ => None,
                }
            } else {
                None
            }
        },
    }
}

/// `l` holds the marker ` connected ` beginning at position `i`.  The bytes
/// spell a space, the word `connected`, and a space.
pub open spec fn connected_at(l: Seq<u8>, i: int) -> bool {
    &&& 0 <= i
    &&& i + 11 <= l.len()
    &&& l[i] == 32
    &&& l[i + 1] == 99
    &&& l[i + 2] == 111
    &&& l[i + 3] == 110
    &&& l[i + 4] == 110
    &&& l[i + 5] == 101
    &&& l[i + 6] == 99
    &&& l[i + 7] == 116
    &&& l[i + 8] == 101
    &&& l[i + 9] == 100
    &&& l[i + 10] == 32
}

/// `l` holds the ` connected ` marker somewhere: how the second tool marks
/// the line of a display that is attached.
pub open spec fn has_connected_marker(l: Seq<u8>) -> bool {
    exists|i: int| connected_at(l, i)
}

/// Whether the marker ` connected ` begins at position `i` of `l`.
fn connected_marker_at(l: &[u8], i: usize) -> (r: bool)
    requires
        i + 11 <= l@.len(),
    ensures
        r == connected_at(l@, i as int),
{
    l[i] == 32 && l[i + 1] == 99 && l[i + 2] == 111 && l[i + 3] == 110 && l[i + 4] == 110 && l[i
        + 5] == 101 && l[i + 6] == 99 && l[i + 7] == 116 && l[i + 8] == 101 && l[i + 9] == 100
        && l[i + 10] == 32
}

/// Whether `l` holds the ` connected ` marker anywhere.
fn has_connected(l: &[u8]) -> (r: bool)
    ensures
        r == has_connected_marker(l@),
{
    let n = l.len();
    if n < 11 {
        proof {
            assert forall|j: int| !connected_at(l@, j) by {}
        }
        return false;
    }
    let mut i: usize = 0;
    while i <= n - 11
        invariant
            n == l@.len(),
            11 <= n,
            i <= n - 10,
            forall|j: int| 0 <= j < i ==> !connected_at(l@, j),
        decreases n - i,
    {
        if connected_marker_at(l, i) {
            proof {
                assert(connected_at(l@, i as int));
            }
            return true;
        }
        i = i + 1;
    }
    proof {
        assert forall|j: int| !connected_at(l@, j) by {
            if 0 <= j < i {
            } else {
                assert(j < 0 || j + 11 > n);
            }
        }
    }
    false
}

/// The first of the tokens `ts` that holds an `x`: the shape of a geometry
/// token.
pub open spec fn first_token_with_x(ts: Seq<Seq<u8>>) -> Option<Seq<u8>>
    decreases ts.len(),
{
    if ts.len() == 0 {
        None
    } else if find_byte(ts[0], X_BYTE) is Some {
        Some(ts[0])
    } else {
        first_token_with_x(ts.skip(1))
    }
}

/// `h` less the fixed panel allowance, stopping at zero.
pub open spec fn panel_adjusted(h: u32) -> u32 {
    if h >= PANEL_HEIGHT {
        (h - PANEL_HEIGHT) as u32
    } else {
        0u32
    }
}

/// The dimensions a geometry token `WIDTHxHEIGHT+X+Y` names: the part
/// before the only `x` is the width; the part after it, up to any `+`, is
/// the height, which then loses the panel allowance.  A part that does not
/// read as a number falls back to a common screen dimension.  A token whose
/// `x` count is not exactly one names nothing.
pub open spec fn geometry_token_dims(t: Seq<u8>) -> Option<(u32, u32)> {
    let parts = split_byte(t, X_BYTE);
    if parts.len() == 2 {
        let w = match parse_u32(parts[0]) {
            Some(w) => w,
            None => DEFAULT_WIDTH,
        };
        let h_text = match find_byte(parts[1], PLUS_BYTE) {
            Some(j) => parts[1].take(j),
            None => parts[1],
        };
        let h = match parse_u32(h_text) {
            Some(h) => h,
            None => DEFAULT_HEIGHT,
        };
        Some((w, panel_adjusted(h)))
    } else {
        None
    }
}

/// Reads a geometry token for its width and height.
fn geometry_dims(t: &[u8]) -> (r: Option<(u32, u32)>)
    ensures
        r == geometry_token_dims(t@),
{
    let parts = split_bytes(t, X_BYTE);
    if parts.len() == 2 {
        proof {
            assert(fields_view(parts@)[0] == parts@[0]@);
            assert(fields_view(parts@)[1] == parts@[1]@);
        }
        let w = match parse_u32_bytes(parts[0].as_slice()) {
            Some(w) => w,
            None => DEFAULT_WIDTH,
        };
        let p1 = parts[1].as_slice();
        let h_slice: &[u8] = match find_byte_from(p1, PLUS_BYTE, 0) {
            Some(j) => {
                proof {
                    lemma_find_byte_is(p1@, PLUS_BYTE, Some(j as int));
                    assert(p1@.take(j as int) =~= p1@.subrange(0, j as int));
                }
                slice_subrange(p1, 0, j)
            },
            None => {
                proof {
                    lemma_find_byte_is(p1@, PLUS_BYTE, None);
                }
                p1
            },
        };
        let h = match parse_u32_bytes(h_slice) {
            Some(h) => h,
            None => DEFAULT_HEIGHT,
        };
        Some((w, if h >= PANEL_HEIGHT {
            h - PANEL_HEIGHT
        } else {
            0
        }))
    } else {
        None
    }
}

/// When the geometry token's width and height both read as numbers and the
/// height covers the panel allowance, the token names exactly the parsed
/// width and the parsed height less that allowance.
pub proof fn lemma_second_tool_height(t: Seq<u8>, w: u32, h: u32)
    requires
        split_byte(t, X_BYTE).len() == 2,
        parse_u32(split_byte(t, X_BYTE)[0]) == Some(w),
        parse_u32(
            match find_byte(split_byte(t, X_BYTE)[1], PLUS_BYTE) {
                Some(j) => split_byte(t, X_BYTE)[1].take(j),
                None => split_byte(t, X_BYTE)[1],
            },
        ) == Some(h),
        h >= PANEL_HEIGHT,
    ensures
        geometry_token_dims(t) == Some((w, (h - PANEL_HEIGHT) as u32)),
{
}

/// What one line of the second tool's output contributes: a connected
/// display's line with a position offset yields its geometry token's
/// dimensions; any other line yields nothing.
pub open spec fn xrandr_line_work_area(l: Seq<u8>) -> Option<(u32, u32)> {
    if has_connected_marker(l) && find_byte(l, PLUS_BYTE) is Some {
        match first_token_with_x(tokens_of(l)) {
            None => None,
            Some(t) => geometry_token_dims(t),
        }
    } else {
        None
    }
}

/// Reads one line of the second tool's output.
fn parse_xrandr_line(l: &[u8]) -> (r: Option<(u32, u32)>)
    ensures
        r == xrandr_line_work_area(l@),
{
    if !has_connected(l) {
        return None;
    }
    let plus = find_byte_from(l, PLUS_BYTE, 0);
    proof {
        lemma_find_byte_is(
            l@,
            PLUS_BYTE,
            match plus {
                Some(p) => Some(p as int),
                None => None,
            },
        );
    }
    if plus.is_none() {
        return None;
    }
    let toks = tokens(l);
    let m = toks.len();
    let mut k: usize = 0;
    proof {
        assert(fields_view(toks@).skip(0) =~= fields_view(toks@));
    }
    loop
        invariant
            m == toks@.len(),
            k <= m,
            fields_view(toks@) == tokens_of(l@),
            has_connected_marker(l@),
            find_byte(l@, PLUS_BYTE) is Some,
            first_token_with_x(tokens_of(l@)) == first_token_with_x(
                fields_view(toks@).skip(k as int),
            ),
        decreases m - k,
    {
        if k == m {
            proof {
                assert(fields_view(toks@).skip(k as int) =~= Seq::<Seq<u8>>::empty());
            }
            return None;
        }
        let t = toks[k].as_slice();
        let ghost ts = fields_view(toks@).skip(k as int);
        proof {
            assert(ts[0] == fields_view(toks@)[k as int]);
            assert(fields_view(toks@)[k as int] == toks@[k as int]@);
        }
        match find_byte_from(t, X_BYTE, 0) {
            Some(x) => {
                proof {
                    lemma_find_byte_is(t@, X_BYTE, Some(x as int));
                }
                return geometry_dims(t);
            },
            None => {
                proof {
                    lemma_find_byte_is(t@, X_BYTE, None);
                    assert(ts.skip(1) =~= fields_view(toks@).skip(k + 1));
                }
                k = k + 1;
            },
        }
    }
}

/// The first line that contributes dimensions decides for the whole output.
pub open spec fn first_line_work_area(ls: Seq<Seq<u8>>) -> Option<(u32, u32)>
    decreases ls.len(),
{
    if ls.len() == 0 {
        None
    } else {
        match xrandr_line_work_area(ls[0]) {
            Some(d) => Some(d),
            None => first_line_work_area(ls.skip(1)),
        }
    }
}

/// The work area the second tool's output names: what its first line for a
/// connected display with a position offset carries, panel allowance
/// already taken off the height.
pub open spec fn xrandr_work_area(s: Seq<u8>) -> Option<(u32, u32)> {
    first_line_work_area(split_byte(s, NEWLINE_BYTE))
}

/// Reads the second tool's output for the first connected display's
/// dimensions.
pub fn parse_xrandr_output(out: &[u8]) -> (r: Option<(u32, u32)>)
    ensures
        r == xrandr_work_area(out@),
{
    let lines = split_bytes(out, NEWLINE_BYTE);
    let m = lines.len();
    let mut k: usize = 0;
    proof {
        assert(fields_view(lines@).skip(0) =~= fields_view(lines@));
    }
    loop
        invariant
            m == lines@.len(),
            k <= m,
            fields_view(lines@) == split_byte(out@, NEWLINE_BYTE),
            xrandr_work_area(out@) == first_line_work_area(fields_view(lines@).skip(k as int)),
        decreases m - k,
    {
        if k == m {
            proof {
                assert(fields_view(lines@).skip(k as int) =~= Seq::<Seq<u8>>::empty());
            }
            return None;
        }
        let ghost ls = fields_view(lines@).skip(k as int);
        proof {
            assert(ls[0] == fields_view(lines@)[k as int]);
            assert(fields_view(lines@)[k as int] == lines@[k as int]@);
        }
        match parse_xrandr_line(lines[k].as_slice()) {
            Some(d) => {
                return Some(d);
            },
            None => {
                proof {
                    assert(ls.skip(1) =~= fields_view(lines@).skip(k + 1));
                }
                k = k + 1;
            },
        }
    }
}

} // verus!
