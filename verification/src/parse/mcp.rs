//! `.mcp.json`: the MCP server table.
use vstd::prelude::*;

use crate::generate::cursor::servers_key;
use crate::ir::McpConfig;
use crate::json::{json_document, json_parse, json_syntax_error, Json, JsonView};
use crate::text::push_str;

verus! {

/// The error for a `.mcp.json` at `path` that is not one JSON value.
pub open spec fn invalid_json_message(path: Seq<char>, detail: Seq<char>) -> Seq<char> {
    "Invalid JSON in "@ + path + ": "@ + detail
}

/// The value of the first member of `ms` named `key`.
pub open spec fn member_of(ms: Seq<(Seq<char>, JsonView)>, key: Seq<char>) -> Option<JsonView>
    decreases ms.len(),
{
    if ms.len() == 0 {
        None
    } else if ms[0].0 == key {
        Some(ms[0].1)
    } else {
        member_of(ms.skip(1), key)
    }
}

/// The server table of a `.mcp.json` document: its `mcpServers` member, or
/// the whole document where it has none.
pub open spec fn servers_of(doc: JsonView) -> JsonView {
    match doc {
        JsonView::Object(ms) => match member_of(ms, servers_key()) {
            Some(v) => v,
            None => doc,
        },
        _ => doc,
    }
}

/// The server table of a document, as `servers_of` says.
pub fn servers_in(doc: Json) -> (res: Json)
    ensures
        res@ == servers_of(doc@),
{
    match doc {
        Json::Object(mut ms) => {
            let ghost dv = Json::Object(ms)@;
            let ghost msv = match dv {
                JsonView::Object(x) => x,
                _ => Seq::empty(),
            };
            assert(msv.len() == ms@.len());
            let mut i: usize = 0;
            assert(msv.skip(0) =~= msv);
            while i < ms.len()
                invariant
                    i <= ms.len(),
                    msv.len() == ms@.len(),
                    dv == Json::Object(ms)@,
                    dv == doc@,
                    dv == JsonView::Object(msv),
                    forall|k: int| 0 <= k < msv.len() ==> #[trigger] msv[k] == (ms@[k].0@, ms@[k].1@),
                    member_of(msv, servers_key()) == member_of(msv.skip(i as int), servers_key()),
                decreases ms.len() - i,
            {
                assert(msv.skip(i as int)[0] == msv[i as int]);
                if crate::text::str_eq(ms[i].0.as_str(), "mcpServers") {
                    proof {
                        reveal_strlit("mcpServers");
                    }
                    let ghost old_ms = ms@;
                    let pair = ms.remove(i);
                    assert(pair == old_ms[i as int]);
                    assert(msv.skip(i as int)[0].0 == servers_key());
                    assert(member_of(msv.skip(i as int), servers_key()) == Some(msv[i as int].1));
                    assert(doc@ == dv);
                    return pair.1;
                }
                assert(msv.skip(i as int).skip(1) =~= msv.skip(i + 1));
                i = i + 1;
            }
            Json::Object(ms)
        },
        other => other,
    }
}

/// Reads the text of the `.mcp.json` found at `path`. The server table is
/// the `mcpServers` member of the value read, or the whole value where it
/// has none. Fails exactly when the text is not one JSON value, with a
/// message that names the file and the error.
pub fn parse_mcp_text(path: &str, content: &str) -> (res: Result<McpConfig, String>)
    ensures
        res is Ok <==> json_syntax_error(content@) is None,
        res matches Ok(c) ==> c.servers@ == servers_of(json_document(content@)),
        res matches Err(m) ==> json_syntax_error(content@) matches Some(d) && m@
            == invalid_json_message(path@, d),
{
    match json_parse(content) {
        Ok(value) => Ok(McpConfig { servers: servers_in(value) }),
        Err(e) => {
            let mut m = String::new();
            push_str(&mut m, "Invalid JSON in ");
            push_str(&mut m, path);
            push_str(&mut m, ": ");
            push_str(&mut m, e.as_str());
            Err(m)
        },
    }
}

} // verus!
