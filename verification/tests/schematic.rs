use asc_mcp_server::edit::{
    add_net_pin_bytes, add_net_pin_text, clear_all_nets_text, part_summary, read_sch_bytes,
    update_component_bytes, update_component_text, update_position_text,
};
use asc_mcp_server::format::format_sch_content;
use asc_mcp_server::model::{Attr, Net, Part, SchData, Segment};
use asc_mcp_server::parse::parse_sch_txt_content;

fn attrs_of(data: &SchData, designator: &str) -> Option<Vec<(String, String)>> {
    data.parts
        .iter()
        .find(|p| p.designator == designator)
        .map(|p| p.attrs.iter().map(|a| (a.key.clone(), a.value.clone())).collect())
}

fn pins_of(data: &SchData, net: &str) -> Option<Vec<String>> {
    data.nets.iter().find(|n| n.name == net).map(|n| n.pins.clone())
}

fn kv(k: &str, v: &str) -> (String, String) {
    (k.to_string(), v.to_string())
}

fn segs(data: &SchData) -> Vec<[String; 4]> {
    data.lines
        .iter()
        .map(|s| [s.x1.clone(), s.y1.clone(), s.x2.clone(), s.y2.clone()])
        .collect()
}

fn seg(a: &str, b: &str, c: &str, d: &str) -> [String; 4] {
    [a.to_string(), b.to_string(), c.to_string(), d.to_string()]
}

fn part(designator: &str, attrs: &[(&str, &str)]) -> Part {
    Part {
        designator: designator.to_string(),
        attrs: attrs
            .iter()
            .map(|(k, v)| Attr { key: k.to_string(), value: v.to_string() })
            .collect(),
    }
}

#[test]
fn part_list_gives_device_and_footprint() {
    let data = parse_sch_txt_content("*PART*\r\nR1 RES@0603\r\nC1 CAP\r\n");
    assert_eq!(data.parts.len(), 2);
    assert_eq!(attrs_of(&data, "R1").unwrap(), vec![kv("Device", "RES"), kv("Footprint", "0603")]);
    assert_eq!(attrs_of(&data, "C1").unwrap(), vec![kv("Device", "CAP")]);
    assert!(data.nets.is_empty());
    assert!(data.lines.is_empty());
}

#[test]
fn part_list_keeps_only_second_at_piece() {
    let data = parse_sch_txt_content("*PART*\nU7 MCU@QFP48@extra\n");
    assert_eq!(attrs_of(&data, "U7").unwrap(), vec![kv("Device", "MCU"), kv("Footprint", "QFP48")]);
}

#[test]
fn net_list_collects_pins_once_and_skips_open_and_markers() {
    let text = "*NET*\r\n*SIGNAL* GND\r\nR1.1 C1.2\r\nOPEN C1.1\r\nR1.1 C1.1\r\n*SIGNAL* VCC\r\nR1.2 @@@D0 2 0\r\n";
    let data = parse_sch_txt_content(text);
    assert_eq!(pins_of(&data, "GND").unwrap(), vec!["R1.1", "C1.2", "C1.1"]);
    assert_eq!(pins_of(&data, "VCC").unwrap(), vec!["R1.2"]);
    assert_eq!(data.nets[0].name, "GND");
    assert_eq!(data.nets[1].name, "VCC");
}

#[test]
fn connection_section_gives_pins_and_segments() {
    let text = "*CONNECTION*\r\n*SIGNAL* N1\r\nU1.1 U2.1\r\n100 200\r\n300 200\r\n300 400\r\nU2.1 U3.1\r\n";
    let data = parse_sch_txt_content(text);
    assert_eq!(pins_of(&data, "N1").unwrap(), vec!["U1.1", "U2.1", "U3.1"]);
    assert_eq!(
        segs(&data),
        vec![seg("100", "200", "300", "200"), seg("300", "200", "300", "400")]
    );
}

#[test]
fn lines_section_polylines_become_segments() {
    let text = "*LINES*\nBORDER1 LINES\n0 0\n1000 0\n1000 800\nOPEN 1\n-5 2.5\n7e1 -1\n";
    let data = parse_sch_txt_content(text);
    assert_eq!(
        segs(&data),
        vec![
            seg("0", "0", "1000", "0"),
            seg("1000", "0", "1000", "800"),
            seg("-5", "2.5", "7e1", "-1"),
        ]
    );
}

#[test]
fn non_coordinate_line_breaks_the_polyline() {
    let text = "*LINES*\n0 0\n1 1\n2 2\nBREAK\n5 5\n6 6\n";
    let data = parse_sch_txt_content(text);
    assert_eq!(
        segs(&data),
        vec![seg("0", "0", "1", "1"), seg("1", "1", "2", "2"), seg("5", "5", "6", "6")]
    );
}

#[test]
fn single_point_gives_no_segment() {
    let data = parse_sch_txt_content("*LINES*\n5 5\nx\n");
    assert!(data.lines.is_empty());
}

#[test]
fn sch_section_sets_attributes_and_first_position() {
    let text = "*SCH*\r\nPART U1\r\n\"Value\" \"10k\"\r\n100 200\r\n300 400\r\n";
    let data = parse_sch_txt_content(text);
    assert_eq!(
        attrs_of(&data, "U1").unwrap(),
        vec![kv("Value", "10k"), kv("x", "100"), kv("y", "200")]
    );
}

#[test]
fn quoted_value_is_trimmed_of_spaces_and_quotes() {
    let text = "*SCH*\nPART U1\n\"Device\"   \"\"LM358\"\"  \n1 2\n";
    let data = parse_sch_txt_content(text);
    assert_eq!(attrs_of(&data, "U1").unwrap(), vec![kv("Device", "LM358"), kv("x", "1"), kv("y", "2")]);
}

#[test]
fn parts_without_position_or_device_are_dropped() {
    let text = "*SCH*\nPART U2\nPART A-1\n\"Device\" \"X\"\nPART K\"1\n1 1\nPART U3\n\"Device\" \"Y\"\n";
    let data = parse_sch_txt_content(text);
    let names: Vec<&str> = data.parts.iter().map(|p| p.designator.as_str()).collect();
    assert_eq!(names, vec!["U3"]);
}

#[test]
fn text_record_ends_the_current_part() {
    let text = "*SCH*\nPART U1\nTEXT 1 2\n100 200\n";
    let data = parse_sch_txt_content(text);
    assert!(data.parts.is_empty());
}

#[test]
fn ignored_section_reads_nothing() {
    let text = "*MISC*\nR9 RES\n*PART*\nR1 RES\n*TEXT*\nR2 RES\n";
    let data = parse_sch_txt_content(text);
    let names: Vec<&str> = data.parts.iter().map(|p| p.designator.as_str()).collect();
    assert_eq!(names, vec!["R1"]);
}

#[test]
fn coordinate_line_in_part_list_sets_position_of_previous_part() {
    let data = parse_sch_txt_content("*PART*\nR1 RES\n-10 20\n");
    assert_eq!(attrs_of(&data, "R1").unwrap(), vec![kv("Device", "RES"), kv("x", "-10"), kv("y", "20")]);
}

#[test]
fn empty_text_reads_nothing() {
    let data = parse_sch_txt_content("");
    assert!(data.parts.is_empty() && data.nets.is_empty() && data.lines.is_empty());
}

fn sample() -> SchData {
    SchData {
        parts: vec![
            part("R1", &[("Device", "RES"), ("Footprint", "0603"), ("x", "10"), ("y", "20")]),
            part("C1", &[("Device", "CAP")]),
        ],
        nets: vec![Net { name: "GND".to_string(), pins: vec!["R1.1".to_string(), "C1.2".to_string()] }],
        lines: vec![Segment {
            x1: "0".to_string(),
            y1: "0".to_string(),
            x2: "1".to_string(),
            y2: "1".to_string(),
        }],
    }
}

const SAMPLE_TEXT: &str = "!PADS-POWERLOGIC-V3.0-ANSIC! DESIGN-UNITS-ENGLISH\r\n\r\n*PART*\r\nR1 RES@0603\r\nC1 CAP\r\n\r\n*NET*\r\n*SIGNAL* GND\r\nR1.1\r\nC1.2\r\n\r\n*SCH*\r\nPART R1 10 20 0 0\r\n\"Device\" \"RES\"\r\nPART C1 0 0 0 0\r\n\"Device\" \"CAP\"\r\n\r\n*END*\r\n";

#[test]
fn format_writes_pads_text() {
    assert_eq!(format_sch_content(&sample()), SAMPLE_TEXT);
}

#[test]
fn format_of_empty_schematic() {
    let data = SchData { parts: vec![], nets: vec![], lines: vec![] };
    assert_eq!(
        format_sch_content(&data),
        "!PADS-POWERLOGIC-V3.0-ANSIC! DESIGN-UNITS-ENGLISH\r\n\r\n*PART*\r\n\r\n*NET*\r\n\r\n*SCH*\r\n\r\n*END*\r\n"
    );
}

#[test]
fn written_text_reads_back_parts_and_nets() {
    let data = parse_sch_txt_content(&format_sch_content(&sample()));
    assert_eq!(
        attrs_of(&data, "R1").unwrap(),
        vec![kv("Device", "RES"), kv("Footprint", "0603"), kv("x", "10"), kv("y", "20")]
    );
    assert_eq!(attrs_of(&data, "C1").unwrap(), vec![kv("Device", "CAP"), kv("x", "0"), kv("y", "0")]);
    assert_eq!(pins_of(&data, "GND").unwrap(), vec!["R1.1", "C1.2"]);
    assert_eq!(data.parts.len(), 2);
    assert!(data.lines.is_empty());
}

#[test]
fn written_negative_position_reads_back() {
    let data = SchData {
        parts: vec![part("U1", &[("Device", "IC"), ("x", "-5"), ("y", "3")])],
        nets: vec![],
        lines: vec![],
    };
    let back = parse_sch_txt_content(&format_sch_content(&data));
    assert_eq!(attrs_of(&back, "U1").unwrap(), vec![kv("Device", "IC"), kv("x", "-5"), kv("y", "3")]);
    assert_eq!(back.parts.len(), 1);
}

#[test]
fn part_record_reads_designator_and_position() {
    let data = parse_sch_txt_content("*SCH*\r\nPART U1 150.5 -20 0 0\r\n\"Device\" \"IC\"\r\nPART U2 a b 0 0\r\n\"Device\" \"X\"\r\n");
    assert_eq!(attrs_of(&data, "U1").unwrap(), vec![kv("x", "150.5"), kv("y", "-20"), kv("Device", "IC")]);
    assert_eq!(attrs_of(&data, "U2").unwrap(), vec![kv("Device", "X")]);
    assert_eq!(data.parts.len(), 2);
}

#[test]
fn nets_read_back_whatever_the_parts_hold() {
    let data = SchData {
        parts: vec![part("1R", &[("Device", "A B"), ("x", "p"), ("y", "q")])],
        nets: vec![Net { name: "N1".to_string(), pins: vec!["1R.1".to_string(), "U2.3".to_string()] }],
        lines: vec![],
    };
    let back = parse_sch_txt_content(&format_sch_content(&data));
    assert_eq!(back.nets.len(), 1);
    assert_eq!(pins_of(&back, "N1").unwrap(), vec!["1R.1", "U2.3"]);
    assert!(back.lines.is_empty());
}

#[test]
fn update_component_renames_and_sets_device() {
    let out = update_component_text("*PART*\r\nR1 RES@0603\r\nC1 CAP\r\n", "R1", "R2", "RES10K");
    let data = parse_sch_txt_content(&out);
    assert!(attrs_of(&data, "R1").is_none());
    assert_eq!(
        attrs_of(&data, "R2").unwrap(),
        vec![kv("Device", "RES10K"), kv("Footprint", "0603"), kv("x", "0"), kv("y", "0")]
    );
    assert_eq!(attrs_of(&data, "C1").unwrap(), vec![kv("Device", "CAP"), kv("x", "0"), kv("y", "0")]);
    assert!(out.contains("R2 RES10K@0603\r\n"));
}

#[test]
fn quoted_device_reads_back_unchanged() {
    let out = update_component_text("*PART*\r\nR1 RES@0603\r\n", "R1", "R1", "ab\"");
    let data = parse_sch_txt_content(&out);
    assert_eq!(
        attrs_of(&data, "R1").unwrap(),
        vec![kv("Device", "ab\""), kv("Footprint", "0603"), kv("x", "0"), kv("y", "0")]
    );
}

#[test]
fn attribute_line_keeps_an_attribute_already_set() {
    let data = parse_sch_txt_content("*SCH*\nPART U1\n\"Device\" \"A\"\n\"Device\" \"B\"\n");
    assert_eq!(attrs_of(&data, "U1"), Some(vec![kv("Device", "A")]));
}

#[test]
fn nets_survive_a_part_without_device() {
    let data = SchData {
        parts: vec![part("U9", &[("x", "1"), ("y", "2")])],
        nets: vec![Net { name: "N".to_string(), pins: vec!["U9.1".to_string()] }],
        lines: vec![],
    };
    let once = parse_sch_txt_content(&format_sch_content(&data));
    assert_eq!(pins_of(&once, "N").unwrap(), vec!["U9.1"]);
    assert_eq!(attrs_of(&once, "U9").unwrap(), vec![kv("x", "1"), kv("y", "2"), kv("Device", "")]);
    let mut again = once;
    again.add_net_pin("N", "U9.1");
    let twice = parse_sch_txt_content(&format_sch_content(&again));
    assert_eq!(pins_of(&twice, "N").unwrap(), vec!["U9.1"]);
    assert_eq!(twice.nets.len(), 1);
}

#[test]
fn edits_read_back_beside_parts_that_do_not_read_back() {
    let text = "*PART*\r\nR1 RES@0603\r\nU2 OP AMP\r\n*SCH*\r\nPART U3 5 6\r\n";
    let moved = parse_sch_txt_content(&update_position_text(text, "R1", "7", "8"));
    assert_eq!(
        attrs_of(&moved, "R1").unwrap(),
        vec![kv("Device", "RES"), kv("Footprint", "0603"), kv("x", "7"), kv("y", "8")]
    );
    let renamed = parse_sch_txt_content(&update_component_text(text, "R1", "R9", "RES2"));
    assert!(attrs_of(&renamed, "R1").is_none());
    assert_eq!(
        attrs_of(&renamed, "R9").unwrap(),
        vec![kv("Device", "RES2"), kv("Footprint", "0603"), kv("x", "0"), kv("y", "0")]
    );
}

#[test]
fn update_component_of_missing_part_changes_nothing() {
    let mut data = sample();
    data.update_component("Q9", "Q10", "NPN");
    assert_eq!(format_sch_content(&data), SAMPLE_TEXT);
}

#[test]
fn update_component_onto_existing_name_replaces_it() {
    let mut data = sample();
    data.update_component("C1", "R1", "CAP2");
    assert_eq!(data.parts.len(), 1);
    assert_eq!(data.parts[0].designator, "R1");
    let attrs: Vec<(String, String)> =
        data.parts[0].attrs.iter().map(|a| (a.key.clone(), a.value.clone())).collect();
    assert_eq!(attrs, vec![kv("Device", "CAP2")]);
}

#[test]
fn update_position_sets_coordinates() {
    let out = update_position_text("*PART*\r\nR1 RES\r\n", "R1", "150.5", "-20");
    assert!(out.contains("PART R1 150.5 -20 0 0\r\n"));
    let back = parse_sch_txt_content(&out);
    assert_eq!(attrs_of(&back, "R1").unwrap(), vec![kv("Device", "RES"), kv("x", "150.5"), kv("y", "-20")]);
    let mut data = sample();
    data.update_position("C1", "7", "8");
    let s = part_summary(&data.parts[1]);
    assert_eq!(s.x.as_deref(), Some("7"));
    assert_eq!(s.y.as_deref(), Some("8"));
}

#[test]
fn update_position_of_missing_part_changes_nothing() {
    let mut data = sample();
    data.update_position("Z1", "1", "2");
    assert_eq!(format_sch_content(&data), SAMPLE_TEXT);
}

#[test]
fn clear_all_nets_removes_every_net() {
    let out = clear_all_nets_text("*NET*\n*SIGNAL* GND\nR1.1 C1.2\n*PART*\nR1 RES\n");
    let data = parse_sch_txt_content(&out);
    assert!(data.nets.is_empty());
    assert_eq!(attrs_of(&data, "R1").unwrap(), vec![kv("Device", "RES"), kv("x", "0"), kv("y", "0")]);
    assert!(out.contains("*NET*\r\n\r\n*SCH*"));
}

#[test]
fn add_net_pin_creates_net_and_is_idempotent() {
    let mut data = sample();
    data.add_net_pin("VCC", "R1.2");
    data.add_net_pin("VCC", "R1.2");
    data.add_net_pin("GND", "R1.1");
    assert_eq!(pins_of(&data, "VCC").unwrap(), vec!["R1.2"]);
    assert_eq!(pins_of(&data, "GND").unwrap(), vec!["R1.1", "C1.2"]);
    let out = add_net_pin_text("*NET*\n*SIGNAL* GND\nR1.1\n", "GND", "C1.1");
    assert_eq!(pins_of(&parse_sch_txt_content(&out), "GND").unwrap(), vec!["R1.1", "C1.1"]);
    let again = add_net_pin_text(&out, "GND", "C1.1");
    assert_eq!(parse_sch_txt_content(&again).nets.len(), 1);
    assert_eq!(pins_of(&parse_sch_txt_content(&again), "GND").unwrap(), vec!["R1.1", "C1.1"]);
}

#[test]
fn part_summary_defaults_to_empty_texts() {
    let s = part_summary(&part("C1", &[("Device", "CAP")]));
    assert_eq!(s.designator, "C1");
    assert_eq!(s.device, "CAP");
    assert_eq!(s.footprint, "");
    assert!(s.x.is_none() && s.y.is_none());
}

#[test]
fn gbk_bytes_are_decoded() {
    let mut bytes = b"*PART*\r\nU1 ".to_vec();
    bytes.extend_from_slice(&[0xD6, 0xD0, 0xCE, 0xC4]);
    bytes.extend_from_slice(b"\r\n");
    let data = read_sch_bytes(&bytes);
    assert_eq!(attrs_of(&data, "U1").unwrap(), vec![kv("Device", "中文")]);
}

#[test]
fn gbk_bytes_are_encoded_on_rewrite() {
    let out = update_component_bytes(b"*PART*\r\nU1 IC\r\n", "U1", "U1", "中文").unwrap();
    assert!(out.windows(4).any(|w| w == [0xD6, 0xD0, 0xCE, 0xC4]));
    assert!(!out.windows(3).any(|w| w == "中".as_bytes()));
    let back = read_sch_bytes(&out);
    assert_eq!(attrs_of(&back, "U1").unwrap(), vec![kv("Device", "中文"), kv("x", "0"), kv("y", "0")]);
}

#[test]
fn ascii_rewrite_is_plain_bytes() {
    let out = add_net_pin_bytes(b"*NET*\n*SIGNAL* GND\nR1.1\n", "GND", "C1.1").unwrap();
    let text = String::from_utf8(out).unwrap();
    assert!(text.contains("*SIGNAL* GND\r\nR1.1\r\nC1.1\r\n"));
}
