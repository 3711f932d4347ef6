use work_area::parse::parse_xprop_output;
use work_area::parse::parse_xrandr_output;
use work_area::resolver::get_linux_work_area;
use work_area::resolver::monitor_size;
use work_area::resolver::rect_size;
use work_area::resolver::resolve_work_area;
use work_area::scan::parse_u32_bytes;
use work_area::scan::split_bytes;
use work_area::scan::tokens;
use work_area::scan::trim;

#[test]
fn xprop_workspace_property() {
    let out = b"_NET_WORKAREA(CARDINAL) = 0, 0, 1920, 1040\n";
    assert_eq!(parse_xprop_output(out), Some((1920, 1040)));
}

#[test]
fn xprop_without_type_annotation() {
    let out = b"_NET_WORKAREA = 0, 0, 2560, 1400\n";
    assert_eq!(parse_xprop_output(out), Some((2560, 1400)));
}

#[test]
fn xprop_multi_desktop_list_uses_first_area() {
    let out = b"_NET_WORKAREA = 0, 0, 1920, 1040, 0, 0, 1920, 1040\n";
    assert_eq!(parse_xprop_output(out), Some((1920, 1040)));
}

#[test]
fn xprop_without_equals_sign() {
    assert_eq!(parse_xprop_output(b"_NET_WORKAREA: not set\n"), None);
}

#[test]
fn xprop_with_too_few_fields() {
    assert_eq!(parse_xprop_output(b"_NET_WORKAREA = 0, 0, 1920\n"), None);
}

#[test]
fn xprop_with_unreadable_field() {
    assert_eq!(parse_xprop_output(b"_NET_WORKAREA = 0, 0, wide, 1040\n"), None);
}

#[test]
fn xprop_field_overflowing_32_bits() {
    assert_eq!(parse_xprop_output(b"_NET_WORKAREA = 0, 0, 4294967296, 1040\n"), None);
}

#[test]
fn xprop_field_at_32_bit_limit() {
    let out = b"_NET_WORKAREA = 0, 0, 4294967295, 1040\n";
    assert_eq!(parse_xprop_output(out), Some((4294967295, 1040)));
}

#[test]
fn xprop_empty_output() {
    assert_eq!(parse_xprop_output(b""), None);
}

#[test]
fn xprop_zero_work_area_parses_as_zero() {
    assert_eq!(parse_xprop_output(b"_NET_WORKAREA = 0, 0, 0, 0\n"), Some((0, 0)));
}

#[test]
fn xrandr_connected_output_line() {
    let out = b"HDMI-1 connected 1920x1080+0+0\n";
    assert_eq!(parse_xrandr_output(out), Some((1920, 1040)));
}

#[test]
fn xrandr_full_listing_uses_first_connected_line() {
    let out = b"Screen 0: minimum 320 x 200, current 1920 x 1080, maximum 16384 x 16384\n\
HDMI-2 disconnected (normal left inverted right x axis y axis)\n\
eDP-1 connected primary 1920x1080+0+0 (normal left inverted) 344mm x 193mm\n\
DP-1 connected 2560x1440+1920+0 527mm x 296mm\n\
   1920x1080     60.01*+  59.97\n";
    assert_eq!(parse_xrandr_output(out), Some((1920, 1040)));
}

#[test]
fn xrandr_taller_display_keeps_parsed_height() {
    let out = b"eDP-1 connected 2560x1440+0+0\n";
    assert_eq!(parse_xrandr_output(out), Some((2560, 1400)));
}

#[test]
fn xrandr_line_without_offset_is_skipped() {
    let out = b"eDP-1 connected (normal left inverted)\n";
    assert_eq!(parse_xrandr_output(out), None);
}

#[test]
fn xrandr_disconnected_only_listing() {
    let out = b"HDMI-1 disconnected (normal left inverted right x axis y axis)\n";
    assert_eq!(parse_xrandr_output(out), None);
}

#[test]
fn xrandr_unreadable_height_falls_back_to_common_size() {
    let out = b"DVI-1 connected 1920xABC+0+0\n";
    assert_eq!(parse_xrandr_output(out), Some((1920, 1040)));
}

#[test]
fn xrandr_unreadable_width_falls_back_to_common_size() {
    let out = b"VGA-1 connected wxh+0+0\n";
    assert_eq!(parse_xrandr_output(out), Some((1920, 1040)));
}

#[test]
fn xrandr_height_below_panel_allowance_stops_at_zero() {
    let out = b"LVDS-1 connected 800x30+0+0\n";
    assert_eq!(parse_xrandr_output(out), Some((800, 0)));
}

#[test]
fn xrandr_token_with_two_x_separators_skips_the_line() {
    let out = b"AXB-1 connected 1x2x3+0+0\n";
    assert_eq!(parse_xrandr_output(out), None);
}

#[test]
fn xrandr_empty_output() {
    assert_eq!(parse_xrandr_output(b""), None);
}

#[test]
fn chain_prefers_first_tool() {
    let xprop: &[u8] = b"_NET_WORKAREA = 0, 0, 1920, 1040\n";
    let xrandr: &[u8] = b"HDMI-1 connected 2560x1440+0+0\n";
    assert_eq!(get_linux_work_area(Some(xprop), Some(xrandr)), Ok((1920, 1040)));
}

#[test]
fn chain_falls_back_to_second_tool_verbatim() {
    let xrandr: &[u8] = b"HDMI-1 connected 1920x1080+0+0\n";
    assert_eq!(get_linux_work_area(None, Some(xrandr)), Ok((1920, 1040)));
}

#[test]
fn chain_falls_back_when_first_tool_output_is_malformed() {
    let xprop: &[u8] = b"_NET_WORKAREA: not set\n";
    let xrandr: &[u8] = b"eDP-1 connected 2560x1440+0+0\n";
    assert_eq!(get_linux_work_area(Some(xprop), Some(xrandr)), Ok((2560, 1400)));
}

#[test]
fn chain_reports_error_when_both_tools_fail() {
    assert_eq!(
        get_linux_work_area(None, None),
        Err("Couldn't identify the workspace".to_string())
    );
    let garbage: &[u8] = b"no displays here\n";
    assert_eq!(
        get_linux_work_area(Some(garbage), Some(garbage)),
        Err("Couldn't identify the workspace".to_string())
    );
}

#[test]
fn resolver_without_refinement_keeps_raw_size() {
    assert_eq!(resolve_work_area(1920, 1080, None), (1920, 1080));
}

#[test]
fn resolver_with_refinement_returns_it_verbatim() {
    assert_eq!(resolve_work_area(1920, 1080, Some((1920, 1040))), (1920, 1040));
}

#[test]
fn resolved_area_stays_within_raw_and_positive() {
    let raw = (1920u32, 1080u32);
    let refined = resolve_work_area(raw.0, raw.1, Some((1920, 1040)));
    assert!(refined.0 > 0 && refined.1 > 0);
    assert!(refined.0 <= raw.0 && refined.1 <= raw.1);
    let kept = resolve_work_area(raw.0, raw.1, None);
    assert!(kept.0 > 0 && kept.1 > 0);
    assert!(kept.0 <= raw.0 && kept.1 <= raw.1);
}

#[test]
fn rectangle_bounds_give_its_sides() {
    assert_eq!(rect_size(0, 0, 1920, 1040), Some((1920, 1040)));
    assert_eq!(rect_size(-960, -540, 960, 500), Some((1920, 1040)));
    assert_eq!(rect_size(0, 0, 0, 0), Some((0, 0)));
    assert_eq!(rect_size(i32::MIN, 0, i32::MAX, 0), Some((u32::MAX, 0)));
}

#[test]
fn unordered_rectangle_yields_nothing() {
    assert_eq!(rect_size(10, 0, 0, 100), None);
    assert_eq!(rect_size(0, 10, 100, 0), None);
}

#[test]
fn monitor_size_without_display_reports_not_found() {
    assert_eq!(monitor_size(None, None), Err("No monitor found".to_string()));
    assert_eq!(
        monitor_size(None, Some((1920, 1040))),
        Err("No monitor found".to_string())
    );
}

#[test]
fn monitor_size_with_display_resolves_work_area() {
    assert_eq!(monitor_size(Some((1920, 1080)), Some((1920, 1040))), Ok((1920, 1040)));
    assert_eq!(monitor_size(Some((2560, 1440)), None), Ok((2560, 1440)));
}

#[test]
fn decimal_reader_matches_u32_parsing() {
    assert_eq!(parse_u32_bytes(b"0"), Some(0));
    assert_eq!(parse_u32_bytes(b"1040"), Some(1040));
    assert_eq!(parse_u32_bytes(b"+1040"), Some(1040));
    assert_eq!(parse_u32_bytes(b"4294967295"), Some(4294967295));
    assert_eq!(parse_u32_bytes(b"4294967296"), None);
    assert_eq!(parse_u32_bytes(b"99999999999999999999"), None);
    assert_eq!(parse_u32_bytes(b""), None);
    assert_eq!(parse_u32_bytes(b"+"), None);
    assert_eq!(parse_u32_bytes(b"-1"), None);
    assert_eq!(parse_u32_bytes(b"12a"), None);
    assert_eq!(parse_u32_bytes(b" 12"), None);
}

#[test]
fn splitting_keeps_every_field() {
    let fields = split_bytes(b"a,b,,c", 44);
    let fields: Vec<&[u8]> = fields.iter().map(|f| f.as_slice()).collect();
    assert_eq!(fields, vec![b"a" as &[u8], b"b", b"", b"c"]);
    let whole = split_bytes(b"abc", 44);
    assert_eq!(whole.len(), 1);
    assert_eq!(whole[0].as_slice(), b"abc");
}

#[test]
fn tokens_split_on_whitespace_runs() {
    let toks = tokens(b"  eDP-1   connected\t1920x1080+0+0 \n");
    let toks: Vec<&[u8]> = toks.iter().map(|t| t.as_slice()).collect();
    assert_eq!(toks, vec![b"eDP-1" as &[u8], b"connected", b"1920x1080+0+0"]);
    assert_eq!(tokens(b"   \t \n").len(), 0);
}

#[test]
fn trimming_strips_both_ends() {
    assert_eq!(trim(b"  1040 \n").as_slice(), b"1040");
    assert_eq!(trim(b"1040").as_slice(), b"1040");
    assert_eq!(trim(b" \t\n").as_slice(), b"");
    assert_eq!(trim(b"").as_slice(), b"");
}
