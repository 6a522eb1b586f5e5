use asc_mcp_server::archive::{
    choose_txt, is_directory_entry, is_modified_entry, is_zip_path, strip_file_scheme,
    temp_zip_path, ExtractedFile,
};
use asc_mcp_server::number::float_literal;
use asc_mcp_server::rpc::{
    add_net_pin_message, route_method, route_tool, save_file_message, Method, Tool,
};

fn file(entry: &str, out: &str, name: &str) -> ExtractedFile {
    ExtractedFile {
        entry_name: entry.to_string(),
        out_path: out.to_string(),
        file_name: name.to_string(),
    }
}

fn lit(s: &str) -> bool {
    float_literal(&s.chars().collect())
}

#[test]
fn file_scheme_is_stripped() {
    assert_eq!(strip_file_scheme("file:///tmp/a.zip"), "/tmp/a.zip");
    assert_eq!(strip_file_scheme("/tmp/a.zip"), "/tmp/a.zip");
    assert_eq!(strip_file_scheme("file:/x"), "file:/x");
    assert_eq!(strip_file_scheme("file://"), "");
}

#[test]
fn zip_suffix_in_any_case() {
    assert!(is_zip_path("project.zip"));
    assert!(is_zip_path("PROJECT.ZIP"));
    assert!(is_zip_path("a.Zip"));
    assert!(!is_zip_path("a.zip.txt"));
    assert!(!is_zip_path("zip"));
    assert!(!is_zip_path(""));
}

#[test]
fn directory_entries_end_with_slash() {
    assert!(is_directory_entry("dir/"));
    assert!(!is_directory_entry("dir/a.txt"));
    assert!(!is_directory_entry(""));
}

#[test]
fn shallowest_txt_is_chosen() {
    let files = vec![
        file("a/b/deep.txt", "/t/a/b/deep.txt", "deep.txt"),
        file("readme.md", "/t/readme.md", "readme.md"),
        file("a/top.TXT", "/t/a/top.TXT", "top.TXT"),
        file("b/other.txt", "/t/b/other.txt", "other.txt"),
    ];
    assert_eq!(choose_txt(&files), Ok("/t/a/top.TXT".to_string()));
}

#[test]
fn macos_metadata_is_not_chosen() {
    let files = vec![
        file("__MACOSX/s.txt", "/t/__MACOSX/s.txt", "s.txt"),
        file("._s.txt", "/t/._s.txt", "._s.txt"),
        file("x\\y\\s.txt", "/t/x\\y\\s.txt", "s.txt"),
    ];
    assert_eq!(choose_txt(&files), Ok("/t/x\\y\\s.txt".to_string()));
}

#[test]
fn no_txt_is_an_error() {
    let files = vec![file("a.sch", "/t/a.sch", "a.sch")];
    assert_eq!(choose_txt(&files), Err("No .txt found".to_string()));
    assert_eq!(choose_txt(&vec![]), Err("No .txt found".to_string()));
}

#[test]
fn modified_entry_matches_by_suffix_with_either_separator() {
    assert!(is_modified_entry("C:\\tmp\\sch_1\\proj\\s.txt", "proj/s.txt"));
    assert!(is_modified_entry("/tmp/sch_1/proj/s.txt", "proj\\s.txt"));
    assert!(!is_modified_entry("/tmp/sch_1/proj/s.txt", "other/s.txt"));
    assert!(!is_modified_entry("s.txt", "proj/s.txt"));
    assert!(is_modified_entry("anything", ""));
}

#[test]
fn temp_path_adds_tmp() {
    assert_eq!(temp_zip_path("/a/b.zip"), "/a/b.zip.tmp");
}

#[test]
fn methods_are_routed() {
    assert_eq!(route_method("initialize"), Method::Initialize);
    assert_eq!(route_method("tools/call"), Method::ToolsCall);
    assert_eq!(route_method("tools/list"), Method::NotFound);
    assert_eq!(route_method(""), Method::NotFound);
}

#[test]
fn tools_are_routed() {
    assert_eq!(route_tool("get_full_data"), Tool::GetFullData);
    assert_eq!(route_tool("update_component"), Tool::UpdateComponent);
    assert_eq!(route_tool("update_position"), Tool::UpdatePosition);
    assert_eq!(route_tool("save_file"), Tool::SaveFile);
    assert_eq!(route_tool("clear_all_nets"), Tool::ClearAllNets);
    assert_eq!(route_tool("add_net_pin"), Tool::AddNetPin);
    assert_eq!(route_tool("Get_Full_Data"), Tool::Other);
}

#[test]
fn reply_texts() {
    assert_eq!(add_net_pin_message("R1.2", "VCC"), "Pin R1.2 added to net VCC");
    assert_eq!(save_file_message(true), "Successfully saved to ZIP");
    assert_eq!(save_file_message(false), "TXT file is already up-to-date");
}

#[test]
fn float_literals_follow_f64_syntax() {
    for s in ["0", "-5", "+5", "2.5", ".5", "5.", "1e3", "1E-3", "-7.25e+10", "inf", "-Infinity", "NaN"] {
        assert!(lit(s), "{s}");
        assert!(s.parse::<f64>().is_ok(), "{s}");
    }
    for s in ["", "-", ".", "e5", "1e", "1e+", "1.2.3", "0x10", "1_000", "--1", "infinit", "R1.1"] {
        assert!(!lit(s), "{s}");
        assert!(s.parse::<f64>().is_err(), "{s}");
    }
}
