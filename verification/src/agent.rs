//! The agent protocol's rules: which request goes to which handler, and the
//! sandbox an agent is held in. An agent sees one folder, `AgentWorkspace`
//! at the root, as its whole drive; it may act only on what lies below it.
use vstd::prelude::*;
use crate::dav::ids_match;
use crate::text::{chars_of, push_str_chars, str_eq, string_from_chars};
use crate::vfs::{children_of, entry_keys, generations, in_subtree, is_entry_list, VfsNode, VfsTree};

verus! {

broadcast use vstd::std_specs::hash::group_hash_axioms;

/// An error answer of the protocol.
#[derive(Debug, Clone)]
pub struct JsonRpcError {
    pub code: i32,
    pub message: String,
}

/// The error code of a method or tool that does not exist.
pub const METHOD_NOT_FOUND: i32 = -32601;

/// The error code of a refused or failed operation.
pub const SERVER_ERROR: i32 = -32000;

// ----------------------------------------------------------------------
// Routing
// ----------------------------------------------------------------------

/// The tools an agent may call.
#[derive(Debug, Clone, Copy, PartialEq, Eq, Structural)]
pub enum McpTool {
    ReadVfs,
    SearchCloud,
    CreateFolder,
    RenameItem,
    DeleteItem,
    AgentUpload,
    AgentDownload,
}

/// What a request asks for.
#[derive(Debug, Clone, Copy, PartialEq, Eq, Structural)]
pub enum McpRoute {
    Initialize,
    Initialized,
    PromptsList,
    PromptsGet,
    ToolsList,
    Tool(McpTool),
}

pub open spec fn tool_of(name: Seq<char>) -> Option<McpTool> {
    if name == "read_vfs"@ {
        Some(McpTool::ReadVfs)
    } else if name == "search_cloud"@ {
        Some(McpTool::SearchCloud)
    } else if name == "create_folder"@ {
        Some(McpTool::CreateFolder)
    } else if name == "rename_item"@ {
        Some(McpTool::RenameItem)
    } else if name == "delete_item"@ {
        Some(McpTool::DeleteItem)
    } else if name == "agent_upload"@ {
        Some(McpTool::AgentUpload)
    } else if name == "agent_download"@ {
        Some(McpTool::AgentDownload)
    } else {
        None
    }
}

/// Where a request goes, or the error it is answered with: an unknown
/// method, or for `tools/call` an unknown tool.
pub open spec fn route_spec(method: Seq<char>, tool: Seq<char>) -> Result<McpRoute, (i32, Seq<char>)> {
    if method == "initialize"@ {
        Ok(McpRoute::Initialize)
    } else if method == "notifications/initialized"@ {
        Ok(McpRoute::Initialized)
    } else if method == "prompts/list"@ {
        Ok(McpRoute::PromptsList)
    } else if method == "prompts/get"@ {
        Ok(McpRoute::PromptsGet)
    } else if method == "tools/list"@ {
        Ok(McpRoute::ToolsList)
    } else if method == "tools/call"@ {
        match tool_of(tool) {
            Some(t) => Ok(McpRoute::Tool(t)),
            None => Err((METHOD_NOT_FOUND, "Tool "@ + tool + " not found"@)),
        }
    } else {
        Err((METHOD_NOT_FOUND, "Method "@ + method + " not found"@))
    }
}

pub open spec fn error_view(e: JsonRpcError) -> (i32, Seq<char>) {
    (e.code, e.message@)
}

fn not_found(kind: &str, name: &str) -> (r: JsonRpcError)
    ensures
        r.code == METHOD_NOT_FOUND,
        r.message@ == kind@ + " "@ + name@ + " not found"@,
{
    let mut out: Vec<char> = chars_of(kind);
    push_str_chars(&mut out, " ");
    push_str_chars(&mut out, name);
    push_str_chars(&mut out, " not found");
    JsonRpcError { code: METHOD_NOT_FOUND, message: string_from_chars(out.as_slice()) }
}

/// Routes a request by its method and, for `tools/call`, the tool's name
/// (empty when the request names none).
pub fn route_mcp(method: &str, tool_name: &str) -> (r: Result<McpRoute, JsonRpcError>)
    ensures
        match r {
            Ok(x) => route_spec(method@, tool_name@) == Ok::<McpRoute, (i32, Seq<char>)>(x),
            Err(e) => route_spec(method@, tool_name@) == Err::<McpRoute, (i32, Seq<char>)>(error_view(e)),
        },
{
    if str_eq(method, "initialize") {
        Ok(McpRoute::Initialize)
    } else if str_eq(method, "notifications/initialized") {
        Ok(McpRoute::Initialized)
    } else if str_eq(method, "prompts/list") {
        Ok(McpRoute::PromptsList)
    } else if str_eq(method, "prompts/get") {
        Ok(McpRoute::PromptsGet)
    } else if str_eq(method, "tools/list") {
        Ok(McpRoute::ToolsList)
    } else if str_eq(method, "tools/call") {
        if str_eq(tool_name, "read_vfs") {
            Ok(McpRoute::Tool(McpTool::ReadVfs))
        } else if str_eq(tool_name, "search_cloud") {
            Ok(McpRoute::Tool(McpTool::SearchCloud))
        } else if str_eq(tool_name, "create_folder") {
            Ok(McpRoute::Tool(McpTool::CreateFolder))
        } else if str_eq(tool_name, "rename_item") {
            Ok(McpRoute::Tool(McpTool::RenameItem))
        } else if str_eq(tool_name, "delete_item") {
            Ok(McpRoute::Tool(McpTool::DeleteItem))
        } else if str_eq(tool_name, "agent_upload") {
            Ok(McpRoute::Tool(McpTool::AgentUpload))
        } else if str_eq(tool_name, "agent_download") {
            Ok(McpRoute::Tool(McpTool::AgentDownload))
        } else {
            let e = not_found("Tool", tool_name);
            proof {
                reveal_strlit("Tool");
                reveal_strlit(" ");
                reveal_strlit("Tool ");
                assert("Tool"@ + " "@ =~= "Tool "@);
            }
            Err(e)
        }
    } else {
        let e = not_found("Method", method);
        proof {
            reveal_strlit("Method");
            reveal_strlit(" ");
            reveal_strlit("Method ");
            assert("Method"@ + " "@ =~= "Method "@);
        }
        Err(e)
    }
}

// ----------------------------------------------------------------------
// The sandbox
// ----------------------------------------------------------------------

pub open spec fn sandbox_name() -> Seq<char> {
    "AgentWorkspace"@
}

/// A live folder entry at the root named `AgentWorkspace`.
pub open spec fn is_sandbox_node(m: Map<u64, VfsNode>, k: u64) -> bool {
    m.contains_key(k) && m[k].pid == 0 && m[k].name@ == sandbox_name() && !m[k].is_deleted
        && !m[k].is_trashed
}

/// The agent's workspace, if the tree has one (any one of them where there
/// are several).
pub fn find_sandbox(tree: &VfsTree) -> (r: Option<u64>)
    ensures
        match r {
            Some(id) => exists|k: u64| #[trigger] is_sandbox_node(tree.nodes@, k) && tree.nodes@[k].id == id,
            None => forall|k: u64| !(#[trigger] is_sandbox_node(tree.nodes@, k)),
        },
{
    let ghost m = tree.nodes@;
    let es = tree.entries();
    let mut i: usize = 0;
    while i < es.len()
        invariant
            i <= es@.len(),
            m == tree.nodes@,
            is_entry_list(es@, m),
            forall|j: int| 0 <= j < i ==> !is_sandbox_node(m, (#[trigger] es@[j]).0),
        decreases es.len() - i,
    {
        let e = &es[i];
        proof {
            assert(es@[i as int].1 == m[es@[i as int].0]);
            assert(entry_keys(es@)[i as int] == es@[i as int].0);
            assert(entry_keys(es@).contains(es@[i as int].0));
        }
        if e.1.pid == 0 && str_eq(e.1.name.as_str(), "AgentWorkspace") && !e.1.is_deleted && !e.1.is_trashed {
            proof {
                assert(is_sandbox_node(m, e.0));
            }
            return Some(e.1.id);
        }
        i = i + 1;
    }
    proof {
        assert forall|k: u64| !(#[trigger] is_sandbox_node(m, k)) by {
            if is_sandbox_node(m, k) {
                assert(entry_keys(es@).contains(k));
                let j = choose|j: int| 0 <= j < entry_keys(es@).len() && entry_keys(es@)[j] == k;
                assert(es@[j].0 == k);
            }
        }
    }
    None
}

/// The folder an agent means: 0 is its workspace.
pub fn sandbox_target(requested: u64, sandbox_id: u64) -> (r: u64)
    ensures
        r == (if requested == 0 {
            sandbox_id
        } else {
            requested
        }),
{
    if requested == 0 {
        sandbox_id
    } else {
        requested
    }
}

/// How many parents the sandbox check climbs at most.
pub const SANDBOX_CLIMB_LIMIT: u64 = 50;

/// Climbing from `curr` by parents, within `fuel` steps, meets a node whose
/// parent is the sandbox before one whose parent is the root.
pub open spec fn sandbox_climb(m: Map<u64, VfsNode>, curr: u64, sandbox: u64, fuel: nat) -> bool
    decreases fuel,
{
    if fuel == 0 || !m.contains_key(curr) {
        false
    } else if m[curr].pid == sandbox {
        true
    } else if m[curr].pid == 0 {
        false
    } else {
        sandbox_climb(m, m[curr].pid, sandbox, (fuel - 1) as nat)
    }
}

/// What the sandbox admits: the workspace itself, and what a climb of at
/// most fifty parents leads into it from.
pub open spec fn in_sandbox_spec(m: Map<u64, VfsNode>, target: u64, sandbox: u64) -> bool {
    target == sandbox || sandbox_climb(m, target, sandbox, SANDBOX_CLIMB_LIMIT as nat)
}

pub fn is_in_sandbox(tree: &VfsTree, target_id: u64, sandbox_id: u64) -> (r: bool)
    ensures
        r == in_sandbox_spec(tree.nodes@, target_id, sandbox_id),
{
    if target_id == sandbox_id {
        return true;
    }
    let ghost m = tree.nodes@;
    let mut curr = target_id;
    let mut step: u64 = 0;
    while step < SANDBOX_CLIMB_LIMIT
        invariant
            step <= SANDBOX_CLIMB_LIMIT,
            m == tree.nodes@,
            target_id != sandbox_id,
            sandbox_climb(m, target_id, sandbox_id, SANDBOX_CLIMB_LIMIT as nat) == sandbox_climb(
                m,
                curr,
                sandbox_id,
                (SANDBOX_CLIMB_LIMIT - step) as nat,
            ),
        decreases SANDBOX_CLIMB_LIMIT - step,
    {
        match tree.nodes.get(&curr) {
            Some(node) => {
                if node.pid == sandbox_id {
                    return true;
                }
                if node.pid == 0 {
                    return false;
                }
                curr = node.pid;
            },
            None => {
                return false;
            },
        }
        step = step + 1;
    }
    false
}

/// The sandbox admits nothing outside the workspace: in a tree whose nodes
/// are stored under their ids, whatever it admits lies in the workspace's
/// subtree.
pub proof fn law_sandbox_admits_only_its_subtree(m: Map<u64, VfsNode>, target: u64, sandbox: u64)
    requires
        ids_match(m),
        in_sandbox_spec(m, target, sandbox),
    ensures
        in_subtree(m, sandbox, target),
{
    if target == sandbox {
        assert(generations(m, sandbox, 0).contains(sandbox));
    } else {
        lemma_climb_in_subtree(m, target, sandbox, SANDBOX_CLIMB_LIMIT as nat);
    }
}

proof fn lemma_climb_in_subtree(m: Map<u64, VfsNode>, curr: u64, sandbox: u64, fuel: nat)
    requires
        ids_match(m),
        sandbox_climb(m, curr, sandbox, fuel),
    ensures
        in_subtree(m, sandbox, curr),
    decreases fuel,
{
    assert(m[curr].id == curr);
    if m[curr].pid == sandbox {
        assert(generations(m, sandbox, 0).contains(sandbox));
        assert(children_of(m, generations(m, sandbox, 0)).contains(curr));
        assert(generations(m, sandbox, 1).contains(curr));
    } else {
        let p = m[curr].pid;
        lemma_climb_in_subtree(m, p, sandbox, (fuel - 1) as nat);
        let n = choose|n: nat| #[trigger] generations(m, sandbox, n).contains(p);
        assert(children_of(m, generations(m, sandbox, n)).contains(curr));
        assert(generations(m, sandbox, n + 1).contains(curr));
    }
}

/// What an agent may do to a node.
#[derive(Debug, Clone, Copy, PartialEq, Eq, Structural)]
pub enum SandboxAccess {
    /// Read, create in, upload to or download.
    Use,
    /// Rename: not the workspace itself.
    Modify,
    /// Delete: not the workspace itself.
    Delete,
}

pub open spec fn access_error(m: Map<u64, VfsNode>, id: u64, sandbox: u64, access: SandboxAccess) -> Option<Seq<char>> {
    match access {
        SandboxAccess::Use => if in_sandbox_spec(m, id, sandbox) {
            None
        } else {
            Some("Sandbox Violation: Access Denied"@)
        },
        SandboxAccess::Modify => if in_sandbox_spec(m, id, sandbox) && id != sandbox {
            None
        } else {
            Some("Sandbox Violation: Cannot modify root or external items"@)
        },
        SandboxAccess::Delete => if in_sandbox_spec(m, id, sandbox) && id != sandbox {
            None
        } else {
            Some("Sandbox Violation: Cannot delete root or external items"@)
        },
    }
}

/// Whether an agent may act on `id`; the refusal it gets when not.
pub fn check_sandbox_access(tree: &VfsTree, id: u64, sandbox_id: u64, access: SandboxAccess) -> (r: Result<(), JsonRpcError>)
    ensures
        match r {
            Ok(_) => access_error(tree.nodes@, id, sandbox_id, access) is None,
            Err(e) => e.code == SERVER_ERROR && access_error(tree.nodes@, id, sandbox_id, access) == Some(e.message@),
        },
{
    let inside = is_in_sandbox(tree, id, sandbox_id);
    match access {
        SandboxAccess::Use => if inside {
            Ok(())
        } else {
            Err(JsonRpcError { code: SERVER_ERROR, message: "Sandbox Violation: Access Denied".to_string() })
        },
        SandboxAccess::Modify => if inside && id != sandbox_id {
            Ok(())
        } else {
            Err(
                JsonRpcError {
                    code: SERVER_ERROR,
                    message: "Sandbox Violation: Cannot modify root or external items".to_string(),
                },
            )
        },
        SandboxAccess::Delete => if inside && id != sandbox_id {
            Ok(())
        } else {
            Err(
                JsonRpcError {
                    code: SERVER_ERROR,
                    message: "Sandbox Violation: Cannot delete root or external items".to_string(),
                },
            )
        },
    }
}

// ----------------------------------------------------------------------
// What an agent is shown of a folder
// ----------------------------------------------------------------------

/// The name an agent is shown: names stored in base64 are shown decoded,
/// others as they are.
pub open spec fn shown_name(name: Seq<char>) -> Seq<char> {
    match crate::external::base64_standard_decoded(name) {
        Some(b) => if vstd::utf8::valid_utf8(b) {
            vstd::utf8::decode_utf8(b)
        } else {
            name
        },
        None => name,
    }
}

/// An entry of a folder as an agent reads it.
pub struct AgentEntry {
    pub id: u64,
    pub name: String,
    pub is_folder: bool,
    pub size: String,
    pub md5: String,
}

pub open spec fn entry_shows(e: AgentEntry, n: VfsNode) -> bool {
    &&& e.id == n.id
    &&& e.name@ == shown_name(n.name@)
    &&& e.is_folder == (n.node_type == crate::vfs::NodeType::Directory)
    &&& e.size == n.size
    &&& e.md5 == n.md5
}

/// How node `n` is shown to an agent.
pub fn agent_entry(n: &VfsNode) -> (r: AgentEntry)
    ensures
        entry_shows(r, *n),
{
    let name = match crate::external::base64_standard_decode(n.name.as_str()) {
        Some(b) => match crate::external::utf8_to_string(b) {
            Some(s) => s,
            None => n.name.clone(),
        },
        None => n.name.clone(),
    };
    AgentEntry {
        id: n.id,
        name,
        is_folder: match n.node_type {
            crate::vfs::NodeType::Directory => true,
            crate::vfs::NodeType::File => false,
        },
        size: n.size.clone(),
        md5: n.md5.clone(),
    }
}

/// The live entries of folder `pid` outside the recycle bin, as an agent
/// reads them, in table order.
pub fn agent_listing(tree: &VfsTree, pid: u64) -> (r: Vec<AgentEntry>)
    ensures
        exists|s: Seq<VfsNode>|
            crate::vfs::is_selection(s, tree.nodes@, crate::vfs::child_filter(pid, true)) && s.len() == r@.len()
                && forall|i: int| 0 <= i < s.len() ==> entry_shows(#[trigger] r@[i], s[i]),
{
    let picked = tree.select_children(pid, true);
    let mut out: Vec<AgentEntry> = Vec::new();
    let mut i: usize = 0;
    while i < picked.len()
        invariant
            i <= picked@.len(),
            out@.len() == i,
            forall|j: int| 0 <= j < i ==> entry_shows(#[trigger] out@[j], picked@[j]),
        decreases picked.len() - i,
    {
        out.push(agent_entry(&picked[i]));
        i = i + 1;
    }
    out
}

/// What a tool answers when the folder it made has id `id`.
pub fn folder_created_message(id: u64) -> (r: String)
    ensures
        r@ == "Folder created successfully. ID: "@ + crate::text::decimal(id as nat),
{
    let mut out = chars_of("Folder created successfully. ID: ");
    crate::text::push_decimal(&mut out, id);
    string_from_chars(out.as_slice())
}

/// A failed tool's error: the tool's failure prefix, then the failure.
pub fn tool_failure(prefix: &str, error: &str) -> (r: JsonRpcError)
    ensures
        r.code == SERVER_ERROR,
        r.message@ == prefix@ + error@,
{
    let mut out = chars_of(prefix);
    push_str_chars(&mut out, error);
    JsonRpcError { code: SERVER_ERROR, message: string_from_chars(out.as_slice()) }
}

} // verus!
