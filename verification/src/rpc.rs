//! Request routing of the JSON-RPC server: which method and which tool a
//! request names, and the texts of the replies that do not depend on a file.
use vstd::prelude::*;
use crate::text::{Text, chars_of, eq_lit};

verus! {

/// The JSON-RPC methods the server answers.
#[derive(PartialEq, Eq, Structural, Clone, Copy, Debug)]
pub enum Method {
    Initialize,
    ToolsCall,
    NotFound,
}

/// The tools of `tools/call`.
#[derive(PartialEq, Eq, Structural, Clone, Copy, Debug)]
pub enum Tool {
    GetFullData,
    UpdateComponent,
    UpdatePosition,
    SaveFile,
    ClearAllNets,
    AddNetPin,
    Other,
}

pub open spec fn method_of(name: Text) -> Method {
    if name == "initialize"@ {
        Method::Initialize
    } else if name == "tools/call"@ {
        Method::ToolsCall
    } else {
        Method::NotFound
    }
}

pub open spec fn tool_of(name: Text) -> Tool {
    if name == "get_full_data"@ {
        Tool::GetFullData
    } else if name == "update_component"@ {
        Tool::UpdateComponent
    } else if name == "update_position"@ {
        Tool::UpdatePosition
    } else if name == "save_file"@ {
        Tool::SaveFile
    } else if name == "clear_all_nets"@ {
        Tool::ClearAllNets
    } else if name == "add_net_pin"@ {
        Tool::AddNetPin
    } else {
        Tool::Other
    }
}

/// The method a request's `method` field names.
pub fn route_method(name: &str) -> (m: Method)
    ensures
        m == method_of(name@),
{
    let v = chars_of(name);
    if eq_lit(&v, "initialize") {
        Method::Initialize
    } else if eq_lit(&v, "tools/call") {
        Method::ToolsCall
    } else {
        Method::NotFound
    }
}

/// The tool a `tools/call` request's `name` field names.
pub fn route_tool(name: &str) -> (t: Tool)
    ensures
        t == tool_of(name@),
{
    let v = chars_of(name);
    if eq_lit(&v, "get_full_data") {
        Tool::GetFullData
    } else if eq_lit(&v, "update_component") {
        Tool::UpdateComponent
    } else if eq_lit(&v, "update_position") {
        Tool::UpdatePosition
    } else if eq_lit(&v, "save_file") {
        Tool::SaveFile
    } else if eq_lit(&v, "clear_all_nets") {
        Tool::ClearAllNets
    } else if eq_lit(&v, "add_net_pin") {
        Tool::AddNetPin
    } else {
        Tool::Other
    }
}

/// The reply to a successful `add_net_pin`.
pub fn add_net_pin_message(pin: &str, net: &str) -> (r: String)
    ensures
        r@ == "Pin "@ + pin@ + " added to net "@ + net@,
{
    let mut r = String::from_str("Pin ");
    r.append(pin);
    r.append(" added to net ");
    r.append(net);
    r
}

/// The reply to `save_file`, given whether the file saved was a ZIP
/// archive (a plain text file is written by each edit already).
pub fn save_file_message(was_zip: bool) -> (r: String)
    ensures
        r@ == (if was_zip {
            "Successfully saved to ZIP"@
        } else {
            "TXT file is already up-to-date"@
        }),
{
    if was_zip {
        String::from_str("Successfully saved to ZIP")
    } else {
        String::from_str("TXT file is already up-to-date")
    }
}

} // verus!
