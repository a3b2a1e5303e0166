use dpui::display::{
    display_config_from_report, parse_coordinates, parse_display_string,
    parse_displayplacer_output, toggle_argument, tool_outcome,
};
use dpui::error::CoreError;

const REPORT: &str = "Persistent screen id: 1\n\
Resolution: 2560x1440\n\
Example: displayplacer \"id:1 res:800x600 origin:(0,0) degree:0\"\n\
\n\
Execute the command below to set your screens to the current arrangement:\n\
\n\
displayplacer \"id:AAA res:2560x1440 hz:60 color_depth:8 scaling:off origin:(0,0) degree:0\" \"origin:(2560,0) degree:90 res:1920x1080 id:BBB\"\n";

#[test]
fn test_parse_coordinates() {
    assert_eq!(parse_coordinates("(0,0)"), Some((0, 0)));
    assert_eq!(parse_coordinates("(2560,0)"), Some((2560, 0)));
    assert_eq!(parse_coordinates("(-1920,0)"), Some((-1920, 0)));
}

#[test]
fn test_parse_display_string() {
    let config = "id:1 res:2560x1440 origin:(0,0) degree:0";
    let display = parse_display_string(config).unwrap();

    assert_eq!(display.id, "1");
    assert_eq!(display.resolution, "2560x1440");
    assert_eq!(display.origin, (0, 0));
    assert_eq!(display.rotation, 0);
    assert!(display.enabled);
}

#[test]
fn coordinates_reject_other_shapes() {
    assert_eq!(parse_coordinates("bad"), None);
    assert_eq!(parse_coordinates("(1,2,3)"), None);
    assert_eq!(parse_coordinates("(1)"), None);
    assert_eq!(parse_coordinates("(,)"), None);
    assert_eq!(parse_coordinates("((1,2))"), None);
    assert_eq!(parse_coordinates("(2147483648,0)"), None);
    assert_eq!(parse_coordinates("(-,0)"), None);
}

#[test]
fn coordinates_accept_signs_and_missing_parens() {
    assert_eq!(parse_coordinates("1,2"), Some((1, 2)));
    assert_eq!(parse_coordinates("(+5,-7)"), Some((5, -7)));
    assert_eq!(parse_coordinates("(-2147483648,2147483647)"), Some((i32::MIN, i32::MAX)));
    assert_eq!(parse_coordinates("(3,4"), Some((3, 4)));
}

#[test]
fn two_segments_give_two_displays_in_any_token_order() {
    let displays = parse_displayplacer_output(REPORT).unwrap();
    assert_eq!(displays.len(), 2);
    assert_eq!(displays[0].id, "AAA");
    assert_eq!(displays[0].resolution, "2560x1440");
    assert_eq!(displays[0].origin, (0, 0));
    assert_eq!(displays[0].rotation, 0);
    assert!(displays[0].enabled);
    assert_eq!(displays[1].id, "BBB");
    assert_eq!(displays[1].resolution, "1920x1080");
    assert_eq!(displays[1].origin, (2560, 0));
    assert_eq!(displays[1].rotation, 90);
    assert!(displays[1].enabled);
}

#[test]
fn report_without_marker_fails() {
    let text = "Example: displayplacer \"id:1 res:800x600 origin:(0,0) degree:0\"\n";
    assert!(matches!(parse_displayplacer_output(text), Err(CoreError::ParseFailure)));
}

#[test]
fn marker_without_invocation_fails() {
    let text = "Execute the command below:\n\nid:1 origin:(0,0)\ndisplayplacer list\n";
    assert!(matches!(parse_displayplacer_output(text), Err(CoreError::ParseFailure)));
    assert!(matches!(parse_displayplacer_output(""), Err(CoreError::ParseFailure)));
}

#[test]
fn marker_line_itself_is_not_parsed() {
    let text = "Execute the command below: displayplacer \"id:X origin:(1,1)\"\n";
    assert!(matches!(parse_displayplacer_output(text), Err(CoreError::ParseFailure)));
}

#[test]
fn crlf_lines_and_indented_invocation() {
    let text = "Execute the command below\r\n   displayplacer \"id:Q res:10x10 origin:(5,-5) degree:180\"\r\n";
    let displays = parse_displayplacer_output(text).unwrap();
    assert_eq!(displays.len(), 1);
    assert_eq!(displays[0].id, "Q");
    assert_eq!(displays[0].origin, (5, -5));
    assert_eq!(displays[0].rotation, 180);
}

#[test]
fn disabled_anywhere_marks_display_off() {
    let d = parse_display_string("id:7 res:1x1 origin:(0,0) enabled:false disabled").unwrap();
    assert!(!d.enabled);
    let d = parse_display_string("id:8 origin:(0,0) note:notdisabledreally").unwrap();
    assert!(!d.enabled);
    let d = parse_display_string("id:9 origin:(0,0) enabled:true").unwrap();
    assert!(d.enabled);
}

#[test]
fn lenient_fields_fall_back() {
    let d = parse_display_string("id:Z origin:(oops) degree:ninety").unwrap();
    assert_eq!(d.origin, (0, 0));
    assert_eq!(d.rotation, 0);
    assert_eq!(d.resolution, "");
    let d = parse_display_string("id:Z origin:(3,3) origin:bad degree:90 degree:x").unwrap();
    assert_eq!(d.origin, (3, 3));
    assert_eq!(d.rotation, 0);
}

#[test]
fn clause_without_id_is_dropped() {
    assert!(parse_display_string("res:1x1 origin:(0,0)").is_none());
    assert!(parse_display_string("id: origin:(0,0)").is_none());
    assert!(parse_display_string("").is_none());
}

#[test]
fn later_key_overrides_earlier() {
    let d = parse_display_string("id:A id:B origin:(0,0)").unwrap();
    assert_eq!(d.id, "B");
}

#[test]
fn config_keeps_report_text() {
    let c = display_config_from_report(REPORT).unwrap();
    assert_eq!(c.displays.len(), 2);
    assert_eq!(c.raw_command, REPORT);
    assert!(matches!(display_config_from_report("nothing"), Err(CoreError::ParseFailure)));
}

#[test]
fn toggle_argument_is_exact() {
    assert_eq!(toggle_argument("37D8832A", false), "id:37D8832A enabled:false");
    assert_eq!(toggle_argument("1", true), "id:1 enabled:true");
}

#[test]
fn tool_outcome_carries_stderr() {
    assert!(tool_outcome(true, String::from("ignored")).is_ok());
    assert_eq!(
        tool_outcome(false, String::from("boom")),
        Err(CoreError::ExternalToolFailed(String::from("boom")))
    );
}

#[test]
fn segment_without_origin_still_counts() {
    let text = "Execute the command below\ndisplayplacer \"id:A origin:(0,0)\" \"id:B res:800x600\"\n";
    let displays = parse_displayplacer_output(text).unwrap();
    assert_eq!(displays.len(), 2);
    assert_eq!(displays[1].id, "B");
    assert_eq!(displays[1].origin, (0, 0));
    assert_eq!(displays[1].resolution, "800x600");
}
