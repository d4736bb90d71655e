//! What every description of an MCP server must satisfy.

use vstd::prelude::*;

use crate::dsh_config::{has_text, holds_text};
use crate::error::{AppError, ErrorView};
use crate::text::text_eq;
use crate::tree::{is_json, text_field, Tree};
use crate::value::Datum;

verus! {

/// The type of a server: `stdio` where it gives none.
pub open spec fn type_of(spec: Tree) -> Seq<char> {
    match text_field(spec, "type"@) {
        Some(t) => t,
        None => "stdio"@,
    }
}

/// The type of a server.
pub fn server_type(spec: &Datum) -> (r: &str)
    requires
        is_json(spec@),
    ensures
        r@ == type_of(spec@),
{
    match spec.get_str("type") {
        Some(t) => t,
        None => "stdio",
    }
}

/// What is wrong with the description of a server, if anything: it must be an
/// object of type `stdio`, `http` or `sse`, with a `command` or a `url` that is not
/// blank.
pub open spec fn server_fault(spec: Tree) -> Option<ErrorView> {
    let t = type_of(spec);
    if !(spec is Mapping) {
        Some(ErrorView::McpValidation("MCP 服务器连接定义必须为 JSON 对象"@))
    } else if t == "stdio"@ {
        if has_text(spec, "command"@) {
            None
        } else {
            Some(ErrorView::McpValidation("stdio 类型的 MCP 服务器缺少 command 字段"@))
        }
    } else if t == "http"@ || t == "sse"@ {
        if has_text(spec, "url"@) {
            None
        } else {
            Some(ErrorView::McpValidation(t + " 类型的 MCP 服务器缺少 url 字段"@))
        }
    } else {
        Some(
            ErrorView::McpValidation(
                "MCP 服务器 type 必须是 'stdio'、'http' 或 'sse'（或省略表示 stdio）"@,
            ),
        )
    }
}

/// Checks the description of a server.
pub fn validate_server_spec(spec: &Datum) -> (r: Result<(), AppError>)
    requires
        is_json(spec@),
    ensures
        match r {
            Ok(_) => server_fault(spec@) is None,
            Err(e) => server_fault(spec@) == Some(e@),
        },
{
    match spec {
        Datum::Mapping(_) => {},
        _ => {
            return Err(
                AppError::McpValidation("MCP 服务器连接定义必须为 JSON 对象".to_owned()),
            );
        },
    }
    let t = server_type(spec);
    if text_eq(t, "stdio") {
        if holds_text(spec, "command") {
            Ok(())
        } else {
            Err(AppError::McpValidation("stdio 类型的 MCP 服务器缺少 command 字段".to_owned()))
        }
    } else if text_eq(t, "http") || text_eq(t, "sse") {
        if holds_text(spec, "url") {
            Ok(())
        } else {
            Err(AppError::McpValidation(crate::text::glue(t, " 类型的 MCP 服务器缺少 url 字段")))
        }
    } else {
        Err(
            AppError::McpValidation(
                "MCP 服务器 type 必须是 'stdio'、'http' 或 'sse'（或省略表示 stdio）".to_owned(),
            ),
        )
    }
}

} // verus!
