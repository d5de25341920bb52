//! mcp_tools — the embedded tools: their advertised specifications, the
//! dispatch from a tool name, and the decisions each tool takes on its
//! arguments and on what it has read.
use vstd::prelude::*;
use vstd::string::StringSliceAdditionalSpecFns;
use crate::guard::{read_only_denial, Guard};
use crate::profile::full_names;
use vstd::utf8::encode_utf8;
use crate::text::{
    all_digits, is_digit, lemma_decimal_reads_back,
    lemma_occurs_means_inside,
    cut_at_boundary, floor_boundary,
    chars_of, decimal, decimal_text, lines, lines_of, lowercase, occurs, occurs_in, parse_usize, parsed_usize, same_text, texts_of, to_lowercase, to_uppercase,
    trim, trimmed, uppercase,
};

verus! {

// --- specifications ---------------------------------------------------------

/// One embedded tool as advertised: its name, its description, and its input
/// schema as JSON text.
#[derive(Clone, Copy, Debug)]
pub struct ToolSpec {
    pub name: &'static str,
    pub description: &'static str,
    pub schema: &'static str,
}

/// The names of the embedded tools, in the order they are advertised.
pub open spec fn spec_tool_names() -> Seq<Seq<char>> {
    seq![
        "read_file"@,
        "write_file"@,
        "list_dir"@,
        "search_file"@,
        "smart_exec"@,
        "http_request"@,
        "psession_create"@,
        "psession_run"@,
        "psession_destroy"@,
        "psession_list"@,
        "psession_read"@,
    ]
}

/// The advertised tools are exactly the ones the full profile allows, each
/// named once, and every one of them dispatches to an executor.
pub proof fn lemma_catalogue_is_full(name: Seq<char>)
    ensures
        spec_tool_names().no_duplicates(),
        spec_tool_names().contains(name) <==> full_names().contains(name),
        spec_tool_names().len() == full_names().len(),
{
    reveal_strlit("read_file");
    reveal_strlit("write_file");
    reveal_strlit("list_dir");
    reveal_strlit("search_file");
    reveal_strlit("smart_exec");
    reveal_strlit("http_request");
    reveal_strlit("psession_create");
    reveal_strlit("psession_run");
    reveal_strlit("psession_destroy");
    reveal_strlit("psession_list");
    reveal_strlit("psession_read");
    let c = spec_tool_names();
    let f = full_names();
    assert("write_file"@[0] != "smart_exec"@[0]);
    assert("http_request"@[0] != "psession_run"@[0]);
    assert("psession_list"@[9] != "psession_read"@[9]);
    assert forall|i: int, j: int| 0 <= i < c.len() && 0 <= j < c.len() && i != j implies c[i] != c[j] by {
        if c[i] == c[j] {
            assert(c[i].len() == c[j].len());
            assert(c[i][0] == c[j][0]);
            if c[i].len() == 13 {
                assert(c[i][9] == c[j][9]);
            }
        }
    }
    // the two lists hold the same names: the catalogue lists `psession_create`
    // before `psession_run`, the profile after
    let perm = |k: int| if k == 6 { 7int } else if k == 7 { 6int } else { k };
    assert forall|k: int| 0 <= k < c.len() implies c[k] == f[perm(k)] by {}
    assert forall|k: int| 0 <= k < f.len() implies f[k] == c[perm(k)] by {}
    if c.contains(name) {
        let k = choose|k: int| 0 <= k < c.len() && c[k] == name;
        assert(f[perm(k)] == name);
    }
    if f.contains(name) {
        let k = choose|k: int| 0 <= k < f.len() && f[k] == name;
        assert(c[perm(k)] == name);
    }
}

/// The names of a list of tool specifications.
pub open spec fn spec_names(v: Seq<ToolSpec>) -> Seq<Seq<char>> {
    v.map_values(|t: ToolSpec| t.name@)
}

/// The advertised specifications, in order.
pub open spec fn tool_specs() -> Seq<ToolSpec> {
    seq![
        ToolSpec {
            name: "read_file",
            description: "Read a UTF-8 text file inside the safe root. Optional: search='pattern' returns only matching lines; lines='start:end' returns a 1-indexed range; max_kb caps full reads (default 200).",
            schema: "{\"type\":\"object\",\"properties\":{\"path\":{\"type\":\"string\",\"description\":\"File path (absolute under the safe root, or relative to it)\"},\"search\":{\"type\":\"string\",\"description\":\"Optional: return only lines containing this substring (case-insensitive)\"},\"lines\":{\"type\":\"string\",\"description\":\"Optional: line range like '50:100' (1-indexed)\"},\"max_kb\":{\"type\":\"integer\",\"description\":\"Optional: max KB to return for a full read (default 200)\"}},\"required\":[\"path\"]}",
        },
        ToolSpec {
            name: "write_file",
            description: "Write a UTF-8 text file inside the safe root (creates parent dirs). Denied in --read-only mode.",
            schema: "{\"type\":\"object\",\"properties\":{\"path\":{\"type\":\"string\",\"description\":\"File path (absolute under the safe root, or relative to it)\"},\"content\":{\"type\":\"string\",\"description\":\"Full file content to write\"}},\"required\":[\"path\",\"content\"]}",
        },
        ToolSpec {
            name: "list_dir",
            description: "List a directory tree inside the safe root, up to `depth` levels (default 2).",
            schema: "{\"type\":\"object\",\"properties\":{\"path\":{\"type\":\"string\",\"description\":\"Directory path (absolute under the safe root, or relative to it)\"},\"depth\":{\"type\":\"integer\",\"description\":\"Levels to descend (default 2)\"}},\"required\":[\"path\"]}",
        },
        ToolSpec {
            name: "search_file",
            description: "Search for files by name or by content under a directory inside the safe root.",
            schema: "{\"type\":\"object\",\"properties\":{\"path\":{\"type\":\"string\",\"description\":\"Directory to search (absolute under the safe root, or relative to it)\"},\"pattern\":{\"type\":\"string\",\"description\":\"Substring/glob fragment to match\"},\"search_type\":{\"type\":\"string\",\"enum\":[\"files\",\"content\"],\"default\":\"files\",\"description\":\"Match file names ('files') or file contents ('content')\"},\"max_results\":{\"type\":\"integer\",\"description\":\"Cap on results (default 100)\"}},\"required\":[\"path\",\"pattern\"]}",
        },
        ToolSpec {
            name: "smart_exec",
            description: "Run a single shell command once and return stdout/stderr/exit code. Uses PowerShell when PS syntax is detected, otherwise cmd. One-shot (no persistent state). Denied in --read-only mode.",
            schema: "{\"type\":\"object\",\"properties\":{\"command\":{\"type\":\"string\",\"description\":\"Command line to execute\"},\"cwd\":{\"type\":\"string\",\"description\":\"Optional working directory (must be inside the safe root)\"},\"timeout_secs\":{\"type\":\"integer\",\"description\":\"Timeout in seconds (default 60)\"}},\"required\":[\"command\"]}",
        },
        ToolSpec {
            name: "http_request",
            description: "Make an outbound HTTP request (GET/POST/PUT/DELETE/PATCH/HEAD). Returns status, headers, body (capped), and timing.",
            schema: "{\"type\":\"object\",\"properties\":{\"url\":{\"type\":\"string\",\"description\":\"Absolute URL\"},\"method\":{\"type\":\"string\",\"default\":\"GET\",\"description\":\"HTTP method\"},\"headers\":{\"type\":\"object\",\"description\":\"Request headers as key/value pairs\"},\"body\":{\"type\":\"string\",\"description\":\"Request body (POST/PUT/PATCH)\"},\"timeout_secs\":{\"type\":\"integer\",\"default\":30,\"description\":\"Timeout in seconds\"}},\"required\":[\"url\"]}",
        },
        ToolSpec {
            name: "psession_create",
            description: "Create a persistent PowerShell session that survives across calls (state: cwd, env, variables). Returns a session_id. Denied in --read-only mode.",
            schema: "{\"type\":\"object\",\"properties\":{\"name\":{\"type\":\"string\",\"default\":\"default\",\"description\":\"Session label\"},\"cwd\":{\"type\":\"string\",\"description\":\"Optional working directory (must be inside the safe root)\"}}}",
        },
        ToolSpec {
            name: "psession_run",
            description: "Run a command in a persistent PowerShell session. State persists between calls. Denied in --read-only mode.",
            schema: "{\"type\":\"object\",\"properties\":{\"session_id\":{\"type\":\"string\",\"description\":\"Session id from psession_create\"},\"command\":{\"type\":\"string\",\"description\":\"Command to run\"},\"timeout_secs\":{\"type\":\"integer\",\"default\":30,\"description\":\"Timeout in seconds\"}},\"required\":[\"session_id\",\"command\"]}",
        },
        ToolSpec {
            name: "psession_destroy",
            description: "Terminate a persistent PowerShell session.",
            schema: "{\"type\":\"object\",\"properties\":{\"session_id\":{\"type\":\"string\",\"description\":\"Session id to destroy\"}},\"required\":[\"session_id\"]}",
        },
        ToolSpec {
            name: "psession_list",
            description: "List active persistent PowerShell sessions.",
            schema: "{\"type\":\"object\",\"properties\":{}}",
        },
        ToolSpec {
            name: "psession_read",
            description: "Read the tail of a persistent session's output buffer.",
            schema: "{\"type\":\"object\",\"properties\":{\"session_id\":{\"type\":\"string\",\"description\":\"Session id\"},\"tail\":{\"type\":\"integer\",\"default\":20,\"description\":\"Lines from the end\"}},\"required\":[\"session_id\"]}",
        },
    ]
}

/// All tools the gateway knows how to execute.
pub fn all_specs() -> (r: Vec<ToolSpec>)
    ensures
        r@ == tool_specs(),
        spec_names(r@) == spec_tool_names(),
{
    let r = vec![
        ToolSpec {
            name: "read_file",
            description: "Read a UTF-8 text file inside the safe root. Optional: search='pattern' returns only matching lines; lines='start:end' returns a 1-indexed range; max_kb caps full reads (default 200).",
            schema: "{\"type\":\"object\",\"properties\":{\"path\":{\"type\":\"string\",\"description\":\"File path (absolute under the safe root, or relative to it)\"},\"search\":{\"type\":\"string\",\"description\":\"Optional: return only lines containing this substring (case-insensitive)\"},\"lines\":{\"type\":\"string\",\"description\":\"Optional: line range like '50:100' (1-indexed)\"},\"max_kb\":{\"type\":\"integer\",\"description\":\"Optional: max KB to return for a full read (default 200)\"}},\"required\":[\"path\"]}",
        },
        ToolSpec {
            name: "write_file",
            description: "Write a UTF-8 text file inside the safe root (creates parent dirs). Denied in --read-only mode.",
            schema: "{\"type\":\"object\",\"properties\":{\"path\":{\"type\":\"string\",\"description\":\"File path (absolute under the safe root, or relative to it)\"},\"content\":{\"type\":\"string\",\"description\":\"Full file content to write\"}},\"required\":[\"path\",\"content\"]}",
        },
        ToolSpec {
            name: "list_dir",
            description: "List a directory tree inside the safe root, up to `depth` levels (default 2).",
            schema: "{\"type\":\"object\",\"properties\":{\"path\":{\"type\":\"string\",\"description\":\"Directory path (absolute under the safe root, or relative to it)\"},\"depth\":{\"type\":\"integer\",\"description\":\"Levels to descend (default 2)\"}},\"required\":[\"path\"]}",
        },
        ToolSpec {
            name: "search_file",
            description: "Search for files by name or by content under a directory inside the safe root.",
            schema: "{\"type\":\"object\",\"properties\":{\"path\":{\"type\":\"string\",\"description\":\"Directory to search (absolute under the safe root, or relative to it)\"},\"pattern\":{\"type\":\"string\",\"description\":\"Substring/glob fragment to match\"},\"search_type\":{\"type\":\"string\",\"enum\":[\"files\",\"content\"],\"default\":\"files\",\"description\":\"Match file names ('files') or file contents ('content')\"},\"max_results\":{\"type\":\"integer\",\"description\":\"Cap on results (default 100)\"}},\"required\":[\"path\",\"pattern\"]}",
        },
        ToolSpec {
            name: "smart_exec",
            description: "Run a single shell command once and return stdout/stderr/exit code. Uses PowerShell when PS syntax is detected, otherwise cmd. One-shot (no persistent state). Denied in --read-only mode.",
            schema: "{\"type\":\"object\",\"properties\":{\"command\":{\"type\":\"string\",\"description\":\"Command line to execute\"},\"cwd\":{\"type\":\"string\",\"description\":\"Optional working directory (must be inside the safe root)\"},\"timeout_secs\":{\"type\":\"integer\",\"description\":\"Timeout in seconds (default 60)\"}},\"required\":[\"command\"]}",
        },
        ToolSpec {
            name: "http_request",
            description: "Make an outbound HTTP request (GET/POST/PUT/DELETE/PATCH/HEAD). Returns status, headers, body (capped), and timing.",
            schema: "{\"type\":\"object\",\"properties\":{\"url\":{\"type\":\"string\",\"description\":\"Absolute URL\"},\"method\":{\"type\":\"string\",\"default\":\"GET\",\"description\":\"HTTP method\"},\"headers\":{\"type\":\"object\",\"description\":\"Request headers as key/value pairs\"},\"body\":{\"type\":\"string\",\"description\":\"Request body (POST/PUT/PATCH)\"},\"timeout_secs\":{\"type\":\"integer\",\"default\":30,\"description\":\"Timeout in seconds\"}},\"required\":[\"url\"]}",
        },
        ToolSpec {
            name: "psession_create",
            description: "Create a persistent PowerShell session that survives across calls (state: cwd, env, variables). Returns a session_id. Denied in --read-only mode.",
            schema: "{\"type\":\"object\",\"properties\":{\"name\":{\"type\":\"string\",\"default\":\"default\",\"description\":\"Session label\"},\"cwd\":{\"type\":\"string\",\"description\":\"Optional working directory (must be inside the safe root)\"}}}",
        },
        ToolSpec {
            name: "psession_run",
            description: "Run a command in a persistent PowerShell session. State persists between calls. Denied in --read-only mode.",
            schema: "{\"type\":\"object\",\"properties\":{\"session_id\":{\"type\":\"string\",\"description\":\"Session id from psession_create\"},\"command\":{\"type\":\"string\",\"description\":\"Command to run\"},\"timeout_secs\":{\"type\":\"integer\",\"default\":30,\"description\":\"Timeout in seconds\"}},\"required\":[\"session_id\",\"command\"]}",
        },
        ToolSpec {
            name: "psession_destroy",
            description: "Terminate a persistent PowerShell session.",
            schema: "{\"type\":\"object\",\"properties\":{\"session_id\":{\"type\":\"string\",\"description\":\"Session id to destroy\"}},\"required\":[\"session_id\"]}",
        },
        ToolSpec {
            name: "psession_list",
            description: "List active persistent PowerShell sessions.",
            schema: "{\"type\":\"object\",\"properties\":{}}",
        },
        ToolSpec {
            name: "psession_read",
            description: "Read the tail of a persistent session's output buffer.",
            schema: "{\"type\":\"object\",\"properties\":{\"session_id\":{\"type\":\"string\",\"description\":\"Session id\"},\"tail\":{\"type\":\"integer\",\"default\":20,\"description\":\"Lines from the end\"}},\"required\":[\"session_id\"]}",
        },
    ];
    assert(r@ =~= tool_specs());
    assert(spec_names(r@) =~= spec_tool_names());
    r
}

// --- dispatch ---------------------------------------------------------------

/// The embedded tools.
#[derive(Clone, Copy, Debug, PartialEq, Eq, Structural)]
pub enum Tool {
    ReadFile,
    WriteFile,
    ListDir,
    SearchFile,
    SmartExec,
    HttpRequest,
    PsessionCreate,
    PsessionRun,
    PsessionDestroy,
    PsessionList,
    PsessionRead,
}

/// The name a tool is called by.
pub open spec fn tool_name(t: Tool) -> Seq<char> {
    match t {
        Tool::ReadFile => "read_file"@,
        Tool::WriteFile => "write_file"@,
        Tool::ListDir => "list_dir"@,
        Tool::SearchFile => "search_file"@,
        Tool::SmartExec => "smart_exec"@,
        Tool::HttpRequest => "http_request"@,
        Tool::PsessionCreate => "psession_create"@,
        Tool::PsessionRun => "psession_run"@,
        Tool::PsessionDestroy => "psession_destroy"@,
        Tool::PsessionList => "psession_list"@,
        Tool::PsessionRead => "psession_read"@,
    }
}

/// The message for a tool name that is not embedded.
pub open spec fn not_embedded_error(name: Seq<char>) -> Seq<char> {
    "tool '"@ + name + "' is not embedded in this gateway"@
}

/// Whether a tool writes files or runs or ends a shell process, and so is
/// refused in read-only mode. The session helpers that only read
/// (`psession_list`, `psession_read`) stay available.
pub open spec fn is_mutating(t: Tool) -> bool {
    t == Tool::WriteFile || t == Tool::SmartExec || t == Tool::PsessionCreate || t
        == Tool::PsessionRun || t == Tool::PsessionDestroy
}

/// Read-only mode refuses exactly the tools that write files or start, drive
/// or end a shell; every tool that only reads, and the outbound request,
/// stays available.
pub proof fn lemma_read_only_refuses(t: Tool)
    ensures
        is_mutating(t) <==> (t == Tool::WriteFile || t == Tool::SmartExec || t == Tool::PsessionCreate
            || t == Tool::PsessionRun || t == Tool::PsessionDestroy),
        !is_mutating(Tool::ReadFile),
        !is_mutating(Tool::ListDir),
        !is_mutating(Tool::SearchFile),
        !is_mutating(Tool::HttpRequest),
        !is_mutating(Tool::PsessionList),
        !is_mutating(Tool::PsessionRead),
{
}

/// How a refused mutation is labelled in the read-only message.
pub open spec fn mutation_label(t: Tool) -> Seq<char> {
    match t {
        Tool::SmartExec => "shell execution"@,
        _ => tool_name(t),
    }
}

/// The read-only gate in front of every tool: in read-only mode a mutating
/// tool is refused before it looks at its arguments; anything else passes.
pub fn read_only_gate(guard: &Guard, t: Tool) -> (r: Result<(), String>)
    ensures
        r is Err <==> (guard.read_only_flag() && is_mutating(t)),
        r matches Err(e) ==> e@ == read_only_denial(mutation_label(t)),
        !guard.read_only_flag() ==> r is Ok,
        (t == Tool::ReadFile || t == Tool::ListDir || t == Tool::SearchFile || t == Tool::HttpRequest
            || t == Tool::PsessionList || t == Tool::PsessionRead) ==> r is Ok,
        guard.read_only_flag() && (t == Tool::WriteFile || t == Tool::SmartExec || t
            == Tool::PsessionCreate || t == Tool::PsessionRun || t == Tool::PsessionDestroy)
            ==> r is Err,
{
    match t {
        Tool::WriteFile => guard.deny_if_read_only("write_file"),
        Tool::SmartExec => guard.deny_if_read_only("shell execution"),
        Tool::PsessionCreate => guard.deny_if_read_only("psession_create"),
        Tool::PsessionRun => guard.deny_if_read_only("psession_run"),
        Tool::PsessionDestroy => guard.deny_if_read_only("psession_destroy"),
        _ => Ok(()),
    }
}

/// The tool called `name`, when one is embedded.
pub fn tool_for(name: &str) -> (r: Option<Tool>)
    ensures
        r matches Some(t) ==> tool_name(t) == name@,
        r is None <==> !spec_tool_names().contains(name@),
{
    let r = if same_text(name, "read_file") {
        Some(Tool::ReadFile)
    } else if same_text(name, "write_file") {
        Some(Tool::WriteFile)
    } else if same_text(name, "list_dir") {
        Some(Tool::ListDir)
    } else if same_text(name, "search_file") {
        Some(Tool::SearchFile)
    } else if same_text(name, "smart_exec") {
        Some(Tool::SmartExec)
    } else if same_text(name, "http_request") {
        Some(Tool::HttpRequest)
    } else if same_text(name, "psession_create") {
        Some(Tool::PsessionCreate)
    } else if same_text(name, "psession_run") {
        Some(Tool::PsessionRun)
    } else if same_text(name, "psession_destroy") {
        Some(Tool::PsessionDestroy)
    } else if same_text(name, "psession_list") {
        Some(Tool::PsessionList)
    } else if same_text(name, "psession_read") {
        Some(Tool::PsessionRead)
    } else {
        None
    };
    proof {
        let names = spec_tool_names();
        if r is None {
            assert forall|k: int| 0 <= k < names.len() implies names[k] != name@ by {}
        } else {
            let t = r->0;
            assert(names.contains(tool_name(t))) by {
                let k: int = match t {
                    Tool::ReadFile => 0,
                    Tool::WriteFile => 1,
                    Tool::ListDir => 2,
                    Tool::SearchFile => 3,
                    Tool::SmartExec => 4,
                    Tool::HttpRequest => 5,
                    Tool::PsessionCreate => 6,
                    Tool::PsessionRun => 7,
                    Tool::PsessionDestroy => 8,
                    Tool::PsessionList => 9,
                    Tool::PsessionRead => 10,
                };
                assert(names[k] == tool_name(t));
            }
        }
    }
    r
}

/// The error text for a tool name that is not embedded.
pub fn not_embedded(name: &str) -> (r: String)
    ensures
        r@ == not_embedded_error(name@),
{
    let mut msg = "tool '".to_owned();
    msg.append(name);
    msg.append("' is not embedded in this gateway");
    msg
}

// --- read_file --------------------------------------------------------------

/// How `read_file` reads: by search pattern, by line range, or whole.
#[derive(Clone, Copy, Debug, PartialEq, Eq, Structural)]
pub enum ReadMode {
    Search,
    Lines,
    Full,
}

/// The read mode the arguments ask for: a search pattern wins over a line
/// range, and with neither the whole file is read (up to `max_kb`).
pub fn read_mode(has_search: bool, has_lines: bool) -> (r: ReadMode)
    ensures
        r == (if has_search {
            ReadMode::Search
        } else if has_lines {
            ReadMode::Lines
        } else {
            ReadMode::Full
        }),
{
    if has_search {
        ReadMode::Search
    } else if has_lines {
        ReadMode::Lines
    } else {
        ReadMode::Full
    }
}

/// The number of `:` in a text.
pub open spec fn colons(s: Seq<char>) -> nat
    decreases s.len(),
{
    if s.len() == 0 {
        0
    } else {
        colons(s.drop_last()) + if s.last() == ':' {
            1nat
        } else {
            0nat
        }
    }
}

/// The position of the first `:` in a text (its length when there is none).
pub open spec fn first_colon(s: Seq<char>) -> int
    decreases s.len(),
{
    if s.len() == 0 {
        0
    } else if s[0] == ':' {
        0
    } else {
        1 + first_colon(s.drop_first())
    }
}

/// The message for a range without exactly one `:`.
pub open spec fn range_format_error() -> Seq<char> {
    "lines format: 'start:end'"@
}

/// The message for a range that is empty or starts before line one.
pub open spec fn range_value_error() -> Seq<char> {
    "invalid line range"@
}

/// The inclusive, 1-indexed line range written as `start:end`. A side that
/// does not read as a number defaults: the start to 1, the end to the start.
pub open spec fn line_range(range: Seq<char>) -> Result<(nat, nat), Seq<char>> {
    if colons(range) != 1 {
        Err(range_format_error())
    } else {
        let k = first_colon(range);
        let start = match parsed_usize(range.take(k)) {
            Some(v) => v,
            None => 1nat,
        };
        let end = match parsed_usize(range.skip(k + 1)) {
            Some(v) => v,
            None => start,
        };
        if start < 1 || end < start {
            Err(range_value_error())
        } else {
            Ok((start, end))
        }
    }
}

proof fn lemma_colon_scan(s: Seq<char>, i: int)
    requires
        0 <= i <= s.len(),
        forall|j: int| 0 <= j < i ==> s[j] != ':',
    ensures
        colons(s.take(i)) == 0,
        first_colon(s) == i + first_colon(s.skip(i)),
    decreases i,
{
    if i > 0 {
        lemma_colon_scan(s, i - 1);
        assert(s.take(i).drop_last() =~= s.take(i - 1));
        assert(s.skip(i - 1).drop_first() =~= s.skip(i));
        assert(s.skip(i - 1)[0] == s[i - 1]);
    } else {
        assert(s.take(0) =~= Seq::<char>::empty());
        assert(s.skip(0) =~= s);
    }
}

proof fn lemma_colons_concat(x: Seq<char>, y: Seq<char>)
    ensures
        colons(x + y) == colons(x) + colons(y),
    decreases y.len(),
{
    if y.len() == 0 {
        assert(x + y =~= x);
    } else {
        lemma_colons_concat(x, y.drop_last());
        assert((x + y).drop_last() =~= x + y.drop_last());
        assert((x + y).last() == y.last());
    }
}

proof fn lemma_digits_no_colon(d: Seq<char>)
    requires
        all_digits(d),
    ensures
        colons(d) == 0,
        forall|j: int| 0 <= j < d.len() ==> d[j] != ':',
    decreases d.len(),
{
    if d.len() > 0 {
        assert(all_digits(d.drop_last())) by {
            assert forall|i: int| 0 <= i < d.drop_last().len() implies is_digit(#[trigger] d.drop_last()[i]) by {
                assert(d.drop_last()[i] == d[i]);
            }
        }
        lemma_digits_no_colon(d.drop_last());
        assert(is_digit(d.last()));
    }
    assert forall|j: int| 0 <= j < d.len() implies d[j] != ':' by {
        assert(is_digit(d[j]));
    }
}

/// A range written `a:b` in decimal reads as lines `a` through `b` when
/// `1 <= a <= b`, and is refused as invalid when `b < a`; a text without a
/// `:` is refused for its format.
pub proof fn lemma_line_range_reads(a: nat, b: nat)
    requires
        1 <= a <= usize::MAX,
        b <= usize::MAX,
    ensures
        a <= b ==> line_range(decimal(a) + seq![':'] + decimal(b)) == Ok::<(nat, nat), Seq<char>>((a, b)),
        b < a ==> line_range(decimal(a) + seq![':'] + decimal(b)) == Err::<(nat, nat), Seq<char>>(
            range_value_error(),
        ),
        line_range(decimal(a)) == Err::<(nat, nat), Seq<char>>(range_format_error()),
{
    lemma_decimal_reads_back(a);
    lemma_decimal_reads_back(b);
    let da = decimal(a);
    let db = decimal(b);
    let r = da + seq![':'] + db;
    lemma_digits_no_colon(da);
    lemma_digits_no_colon(db);
    lemma_colons_concat(da + seq![':'], db);
    lemma_colons_concat(da, seq![':']);
    let c = seq![':'];
    assert(c.drop_last() =~= Seq::<char>::empty());
    assert(colons(c.drop_last()) == 0);
    assert(c.last() == ':');
    assert(colons(c) == 1);
    assert(colons(r) == 1);
    assert forall|j: int| 0 <= j < da.len() implies r[j] != ':' by {
        assert(r[j] == da[j]);
    }
    lemma_colon_scan(r, da.len() as int);
    assert(r.skip(da.len() as int)[0] == ':');
    assert(first_colon(r) == da.len());
    assert(r.take(da.len() as int) =~= da);
    assert(r.skip((da.len() + 1) as int) =~= db);
}

/// Counts the `:` in a character sequence.
fn count_colons(cs: &Vec<char>) -> (r: usize)
    ensures
        r == colons(cs@),
{
    let n = cs.len();
    let mut c: usize = 0;
    proof {
        assert(cs@.take(0) =~= Seq::<char>::empty());
    }
    for i in 0..n
        invariant
            n == cs@.len(),
            c == colons(cs@.take(i as int)),
            c <= i,
    {
        proof {
            assert(cs@.take(i + 1).drop_last() =~= cs@.take(i as int));
        }
        if cs[i] == ':' {
            c += 1;
        }
    }
    proof {
        assert(cs@.take(n as int) =~= cs@);
    }
    c
}

/// Reads a `start:end` line range.
pub fn parse_line_range(range: &str) -> (r: Result<(usize, usize), String>)
    ensures
        match r {
            Ok((a, b)) => line_range(range@) == Ok::<(nat, nat), Seq<char>>((a as nat, b as nat)),
            Err(e) => line_range(range@) == Err::<(nat, nat), Seq<char>>(e@),
        },
{
    let cs = chars_of(range);
    if count_colons(&cs) != 1 {
        return Err("lines format: 'start:end'".to_owned());
    }
    let n = cs.len();
    let mut k: usize = 0;
    while k < n && cs[k] != ':'
        invariant
            n == cs@.len(),
            k <= n,
            forall|j: int| 0 <= j < k ==> cs@[j] != ':',
        decreases n - k,
    {
        k += 1;
    }
    proof {
        lemma_colon_scan(cs@, k as int);
        if k == n {
            assert(cs@.take(n as int) =~= cs@);
        }
        assert(k < n);
        assert(cs@.skip(k as int)[0] == ':');
        assert(first_colon(cs@) == k);
    }
    let left = range.substring_char(0, k);
    let right = range.substring_char(k + 1, n);
    proof {
        assert(left@ =~= range@.take(k as int));
        assert(right@ =~= range@.skip(k + 1));
    }
    let start: usize = match parse_usize(left) {
        Some(v) => v,
        None => 1,
    };
    let end: usize = match parse_usize(right) {
        Some(v) => v,
        None => start,
    };
    if start < 1 || end < start {
        return Err("invalid line range".to_owned());
    }
    Ok((start, end))
}

/// What a search of a file's lines found.
pub struct SearchHits {
    /// `number:text` for each matching line, followed by a truncation note
    /// when the cap was reached.
    pub matches: Vec<String>,
    /// The number of lines looked at.
    pub lines_scanned: usize,
}

/// The cap on reported matches.
pub const MATCH_CAP: usize = 200;

/// The note that ends a capped match list.
pub open spec fn truncation_note() -> Seq<char> {
    "[...truncated at 200 matches]"@
}

/// `number:text`.
pub open spec fn numbered(n: nat, text: Seq<char>) -> Seq<char> {
    decimal(n) + ":"@ + text
}

/// The state of a line search after the first `k` lines: the matches so far,
/// the lines looked at, and whether the cap stopped it.
pub open spec fn search_upto(lines: Seq<Option<Seq<char>>>, needle: Seq<char>, k: int) -> (
    Seq<Seq<char>>,
    nat,
    bool,
)
    decreases k,
{
    if k <= 0 {
        (Seq::empty(), 0, false)
    } else {
        let prev = search_upto(lines, needle, k - 1);
        if prev.2 {
            prev
        } else {
            match lines[k - 1] {
                Some(t) => if occurs(lowercase(t), needle) {
                    let m = prev.0.push(numbered(k as nat, t));
                    if m.len() >= MATCH_CAP {
                        (m.push(truncation_note()), k as nat, true)
                    } else {
                        (m, k as nat, false)
                    }
                } else {
                    (prev.0, k as nat, false)
                },
                None => (prev.0, k as nat, false),
            }
        }
    }
}

/// The texts of lines that were read (a line that could not be read is
/// absent).
pub open spec fn line_views(v: Seq<Option<String>>) -> Seq<Option<Seq<char>>> {
    v.map_values(
        |x: Option<String>|
            match x {
                Some(s) => Some(s@),
                None => None,
            },
    )
}

proof fn lemma_search_stopped(lines: Seq<Option<Seq<char>>>, needle: Seq<char>, k: int, m: int)
    requires
        0 <= k <= m,
        search_upto(lines, needle, k).2,
    ensures
        search_upto(lines, needle, m) == search_upto(lines, needle, k),
    decreases m - k,
{
    if m > k {
        lemma_search_stopped(lines, needle, k, m - 1);
    }
}

/// A search stops only after `MATCH_CAP` lines have been looked at, and
/// until it stops it holds no more matches than lines looked at.
proof fn lemma_search_bound(lines: Seq<Option<Seq<char>>>, needle: Seq<char>, m: int)
    requires
        0 <= m,
    ensures
        search_upto(lines, needle, m).2 ==> m >= MATCH_CAP,
        !search_upto(lines, needle, m).2 ==> search_upto(lines, needle, m).0.len() <= m
            && search_upto(lines, needle, m).0.len() < MATCH_CAP,
    decreases m,
{
    if m > 0 {
        lemma_search_bound(lines, needle, m - 1);
    }
}

/// A match once found stays among the matches as more lines are looked at.
proof fn lemma_search_keeps(lines: Seq<Option<Seq<char>>>, needle: Seq<char>, m: int, m2: int, e: Seq<char>)
    requires
        0 <= m <= m2,
        search_upto(lines, needle, m).0.contains(e),
    ensures
        search_upto(lines, needle, m2).0.contains(e),
    decreases m2 - m,
{
    if m2 > m {
        lemma_search_keeps(lines, needle, m, m2 - 1, e);
        let prev = search_upto(lines, needle, m2 - 1);
        let i = choose|i: int| 0 <= i < prev.0.len() && prev.0[i] == e;
        if !prev.2 {
            match lines[m2 - 1] {
                Some(t) => if occurs(lowercase(t), needle) {
                    let ms = prev.0.push(numbered(m2 as nat, t));
                    assert(ms[i] == e);
                    assert(ms.push(truncation_note())[i] == e);
                },
                None => {},
            }
        }
    }
}

/// Every line among the first `MATCH_CAP` that contains the pattern, once
/// both are lower-cased, anywhere in the line, is reported as
/// `number:text` with its 1-based number.
pub proof fn lemma_search_reports_every_match(lines: Seq<Option<Seq<char>>>, needle: Seq<char>, k: int)
    requires
        0 <= k < lines.len(),
        k < MATCH_CAP,
        lines[k] is Some,
        occurs(lowercase(lines[k]->0), needle),
    ensures
        search_upto(lines, needle, lines.len() as int).0.contains(numbered((k + 1) as nat, lines[k]->0)),
{
    lemma_search_bound(lines, needle, k);
    let prev = search_upto(lines, needle, k);
    let t = lines[k]->0;
    let ms = prev.0.push(numbered((k + 1) as nat, t));
    assert(ms[prev.0.len() as int] == numbered((k + 1) as nat, t));
    assert(ms.push(truncation_note())[prev.0.len() as int] == numbered((k + 1) as nat, t));
    assert(search_upto(lines, needle, k + 1).0.contains(numbered((k + 1) as nat, t)));
    lemma_search_keeps(lines, needle, k + 1, lines.len() as int, numbered((k + 1) as nat, t));
}

/// Every reported entry is the truncation note or `number:text` for a line
/// that contains the pattern, once both are lower-cased.
pub proof fn lemma_search_reports_only_matches(lines: Seq<Option<Seq<char>>>, needle: Seq<char>, m: int)
    requires
        0 <= m <= lines.len(),
    ensures
        forall|i: int|
            0 <= i < search_upto(lines, needle, m).0.len() ==> #[trigger] search_upto(lines, needle, m).0[i]
                == truncation_note() || exists|k: int|
                0 <= k < m && #[trigger] lines[k] is Some && occurs(lowercase(lines[k]->0), needle)
                    && search_upto(lines, needle, m).0[i] == numbered((k + 1) as nat, lines[k]->0),
    decreases m,
{
    if m > 0 {
        lemma_search_reports_only_matches(lines, needle, m - 1);
        let prev = search_upto(lines, needle, m - 1);
        let cur = search_upto(lines, needle, m);
        assert forall|i: int| 0 <= i < cur.0.len() implies #[trigger] cur.0[i] == truncation_note()
            || exists|k: int|
            0 <= k < m && #[trigger] lines[k] is Some && occurs(lowercase(lines[k]->0), needle)
                && cur.0[i] == numbered((k + 1) as nat, lines[k]->0) by {
            if i < prev.0.len() {
                assert(cur.0[i] == prev.0[i]);
                if prev.0[i] != truncation_note() {
                    let k = choose|k: int|
                        0 <= k < m - 1 && #[trigger] lines[k] is Some && occurs(lowercase(lines[k]->0), needle)
                            && prev.0[i] == numbered((k + 1) as nat, lines[k]->0);
                    assert(0 <= k < m);
                }
            } else if i == prev.0.len() {
                let k = m - 1;
                assert(lines[k] is Some);
            }
        }
    }
}

/// Case-insensitive search of a file's lines for `pattern`: each matching
/// line as `number:text`, stopping after `MATCH_CAP` matches with a note.
pub fn search_lines(lines: &Vec<Option<String>>, pattern: &str) -> (r: SearchHits)
    ensures
        search_upto(line_views(lines@), lowercase(pattern@), lines@.len() as int) == (
            texts_of(r.matches@),
            r.lines_scanned as nat,
            texts_of(r.matches@).len() > MATCH_CAP,
        ),
{
    let needle_text = to_lowercase(pattern);
    let needle = chars_of(needle_text.as_str());
    let ghost lv = line_views(lines@);
    let ghost nd = lowercase(pattern@);
    let mut matches: Vec<String> = Vec::new();
    let mut total: usize = 0;
    let n = lines.len();
    let mut i: usize = 0;
    let mut stopped = false;
    proof {
        assert(texts_of(matches@) =~= Seq::<Seq<char>>::empty());
    }
    while i < n && !stopped
        invariant
            n == lines@.len(),
            lv == line_views(lines@),
            nd == lowercase(pattern@),
            needle@ == nd,
            i <= n,
            search_upto(lv, nd, i as int) == (texts_of(matches@), total as nat, stopped),
            !stopped ==> texts_of(matches@).len() < MATCH_CAP,
            stopped ==> texts_of(matches@).len() == MATCH_CAP + 1,
            total <= i,
        decreases n - i,
    {
        total = i + 1;
        proof {
            assert(lv[i as int] == match lines@[i as int] {
                Some(s) => Some(s@),
                None => None,
            });
        }
        match &lines[i] {
            Some(text) => {
                let lowered = to_lowercase(text.as_str());
                let hay = chars_of(lowered.as_str());
                if occurs_in(&hay, &needle) {
                    let mut entry = decimal_text(i + 1);
                    entry.append(":");
                    entry.append(text.as_str());
                    proof {
                        assert(texts_of(matches@.push(entry)) =~= texts_of(matches@).push(entry@));
                    }
                    matches.push(entry);
                    if matches.len() >= MATCH_CAP {
                        let note = "[...truncated at 200 matches]".to_owned();
                        proof {
                            assert(texts_of(matches@.push(note)) =~= texts_of(matches@).push(
                                note@,
                            ));
                        }
                        matches.push(note);
                        stopped = true;
                    }
                }
            },
            None => {},
        }
        i += 1;
    }
    proof {
        if stopped {
            lemma_search_stopped(lv, nd, i as int, n as int);
        }
    }
    SearchHits { matches, lines_scanned: total }
}

/// The lines of a range, each as `number:text`, skipping lines that could
/// not be read.
pub open spec fn select_upto(lines: Seq<Option<Seq<char>>>, start: nat, end: nat, k: int) -> Seq<
    Seq<char>,
>
    decreases k,
{
    if k <= 0 {
        Seq::empty()
    } else {
        let prev = select_upto(lines, start, end, k - 1);
        match lines[k - 1] {
            Some(t) => if start <= k <= end {
                prev.push(numbered(k as nat, t))
            } else {
                prev
            },
            None => prev,
        }
    }
}

proof fn lemma_select_past_end(
    lines: Seq<Option<Seq<char>>>,
    start: nat,
    end: nat,
    k: int,
    m: int,
)
    requires
        end <= k <= m,
    ensures
        select_upto(lines, start, end, m) == select_upto(lines, start, end, k),
    decreases m - k,
{
    if m > k {
        lemma_select_past_end(lines, start, end, k, m - 1);
    }
}

/// Every line that could be read and whose 1-based number lies in
/// `start..=end` is returned as `number:text`.
pub proof fn lemma_select_returns_every_line_in_range(
    lines: Seq<Option<Seq<char>>>,
    start: nat,
    end: nat,
    k: int,
)
    requires
        0 <= k < lines.len(),
        start <= k + 1 <= end,
        lines[k] is Some,
    ensures
        select_upto(lines, start, end, lines.len() as int).contains(numbered((k + 1) as nat, lines[k]->0)),
{
    let e = numbered((k + 1) as nat, lines[k]->0);
    let prev = select_upto(lines, start, end, k);
    assert(prev.push(e)[prev.len() as int] == e);
    assert(select_upto(lines, start, end, k + 1).contains(e));
    lemma_select_keeps(lines, start, end, k + 1, lines.len() as int, e);
}

proof fn lemma_select_keeps(lines: Seq<Option<Seq<char>>>, start: nat, end: nat, m: int, m2: int, e: Seq<char>)
    requires
        0 <= m <= m2,
        select_upto(lines, start, end, m).contains(e),
    ensures
        select_upto(lines, start, end, m2).contains(e),
    decreases m2 - m,
{
    if m2 > m {
        lemma_select_keeps(lines, start, end, m, m2 - 1, e);
        let prev = select_upto(lines, start, end, m2 - 1);
        let i = choose|i: int| 0 <= i < prev.len() && prev[i] == e;
        match lines[m2 - 1] {
            Some(t) => {
                assert(prev.push(numbered(m2 as nat, t))[i] == e);
            },
            None => {},
        }
    }
}

/// Every returned entry is `number:text` for a line that could be read and
/// whose 1-based number lies in `start..=end`.
pub proof fn lemma_select_returns_only_lines_in_range(
    lines: Seq<Option<Seq<char>>>,
    start: nat,
    end: nat,
    m: int,
)
    requires
        0 <= m <= lines.len(),
    ensures
        forall|i: int|
            0 <= i < select_upto(lines, start, end, m).len() ==> exists|k: int|
                0 <= k < m && start <= k + 1 <= end && #[trigger] lines[k] is Some
                    && #[trigger] select_upto(lines, start, end, m)[i] == numbered((k + 1) as nat, lines[k]->0),
    decreases m,
{
    if m > 0 {
        lemma_select_returns_only_lines_in_range(lines, start, end, m - 1);
        let prev = select_upto(lines, start, end, m - 1);
        let cur = select_upto(lines, start, end, m);
        assert forall|i: int| 0 <= i < cur.len() implies exists|k: int|
            0 <= k < m && start <= k + 1 <= end && #[trigger] lines[k] is Some
                && #[trigger] cur[i] == numbered((k + 1) as nat, lines[k]->0) by {
            if i < prev.len() {
                assert(cur[i] == prev[i]);
                let k = choose|k: int|
                    0 <= k < m - 1 && start <= k + 1 <= end && #[trigger] lines[k] is Some
                        && #[trigger] prev[i] == numbered((k + 1) as nat, lines[k]->0);
                assert(lines[k] is Some && cur[i] == numbered((k + 1) as nat, lines[k]->0));
            } else {
                let k = m - 1;
                assert(lines[k] is Some && cur[i] == numbered((k + 1) as nat, lines[k]->0));
            }
        }
    }
}

/// The lines numbered `start..=end` (1-indexed), each as `number:text`.
pub fn select_lines(lines: &Vec<Option<String>>, start: usize, end: usize) -> (r: Vec<String>)
    ensures
        texts_of(r@) == select_upto(line_views(lines@), start as nat, end as nat, lines@.len() as int),
{
    let ghost lv = line_views(lines@);
    let mut out: Vec<String> = Vec::new();
    let n = lines.len();
    let mut i: usize = 0;
    proof {
        assert(texts_of(out@) =~= Seq::<Seq<char>>::empty());
    }
    while i < n
        invariant
            n == lines@.len(),
            lv == line_views(lines@),
            i <= n,
            texts_of(out@) == select_upto(lv, start as nat, end as nat, i as int),
        decreases n - i,
    {
        let k = i + 1;
        proof {
            assert(lv[i as int] == match lines@[i as int] {
                Some(s) => Some(s@),
                None => None,
            });
        }
        if k >= start && k <= end {
            match &lines[i] {
                Some(text) => {
                    let mut entry = decimal_text(k);
                    entry.append(":");
                    entry.append(text.as_str());
                    proof {
                        assert(texts_of(out@.push(entry)) =~= texts_of(out@).push(entry@));
                    }
                    out.push(entry);
                },
                None => {},
            }
        }
        if k > end {
            proof {
                lemma_select_past_end(lv, start as nat, end as nat, k as int, n as int);
            }
            return out;
        }
        i += 1;
    }
    out
}

/// A whole-file read, possibly cut short.
pub struct FullRead {
    /// The text returned.
    pub content: String,
    /// When cut short, the file's size in KB.
    pub truncated_kb: Option<i64>,
}

/// The byte cap that `max_kb` sets on a full read; a negative value caps at
/// nothing.
pub open spec fn byte_cap(max_kb: int) -> int {
    if max_kb < 0 {
        0
    } else {
        max_kb * 1024
    }
}

/// What a full read of a file keeps: the longest prefix of its bytes that
/// fits within the cap and ends on a character boundary.
pub open spec fn kept_bytes(bytes: Seq<u8>, max_kb: int) -> Seq<u8> {
    bytes.take(floor_boundary(bytes, byte_cap(max_kb)))
}

/// Whether a full read is cut short: the file holds more bytes than the cap.
pub open spec fn read_truncated(bytes: Seq<u8>, max_kb: int) -> bool {
    bytes.len() > byte_cap(max_kb)
}

/// Applies the `max_kb` cap to a file's text: a file within `max_kb * 1024`
/// bytes comes back whole; a larger one is cut to the longest prefix that
/// fits and ends on a character boundary, and its size in KB is noted.
pub fn cap_full_read(content: &str, max_kb: i64) -> (r: FullRead)
    requires
        content.spec_bytes().len() <= usize::MAX,
    ensures
        r.truncated_kb is Some <==> read_truncated(content.spec_bytes(), max_kb as int),
        r.truncated_kb matches Some(k) ==> k == content.spec_bytes().len() / 1024,
        encode_utf8(r.content@) == kept_bytes(content.spec_bytes(), max_kb as int),
        r.content@ == content@.take(r.content@.len() as int),
        !read_truncated(content.spec_bytes(), max_kb as int) ==> r.content@ == content@,
{
    let n = content.len();
    let limit: u128 = if max_kb < 0 {
        0
    } else {
        (max_kb as u128) * 1024
    };
    if (n as u128) > limit {
        let kept = cut_at_boundary(content, limit as usize);
        let kb: i64 = (n / 1024) as i64;
        FullRead { content: kept.to_owned(), truncated_kb: Some(kb) }
    } else {
        proof {
            assert(floor_boundary(content.spec_bytes(), byte_cap(max_kb as int)) == n);
            assert(content.spec_bytes().take(n as int) =~= content.spec_bytes());
            assert(content@.take(content@.len() as int) =~= content@);
        }
        FullRead { content: content.to_owned(), truncated_kb: None }
    }
}

// --- list_dir ---------------------------------------------------------------

/// The most entries listed from one directory.
pub const DIR_ENTRY_CAP: usize = 500;

/// How many of a directory's entries (sorted by name) are listed.
pub fn entries_listed(n_entries: usize) -> (r: usize)
    ensures
        r == (if n_entries <= DIR_ENTRY_CAP {
            n_entries
        } else {
            DIR_ENTRY_CAP
        }),
{
    if n_entries <= DIR_ENTRY_CAP {
        n_entries
    } else {
        DIR_ENTRY_CAP
    }
}

/// Whether a listed entry at `depth` is opened in turn: only a directory,
/// and only while the tree is shallower than `max_depth`, so nothing deeper
/// than `max_depth` is listed.
pub fn descends(depth: usize, max_depth: usize, is_dir: bool) -> (r: bool)
    ensures
        r == (is_dir && depth < max_depth),
        r ==> depth + 1 <= max_depth,
{
    is_dir && depth < max_depth
}

/// `n` copies of two spaces.
pub open spec fn indent(n: nat) -> Seq<char>
    decreases n,
{
    if n == 0 {
        Seq::empty()
    } else {
        indent((n - 1) as nat) + "  "@
    }
}

/// The indentation of a tree line is two spaces per level.
pub proof fn lemma_indent(n: nat)
    ensures
        indent(n).len() == 2 * n,
        forall|i: int| 0 <= i < indent(n).len() ==> #[trigger] indent(n)[i] == ' ',
    decreases n,
{
    reveal_strlit("  ");
    if n > 0 {
        lemma_indent((n - 1) as nat);
        let p = indent((n - 1) as nat);
        assert forall|i: int| 0 <= i < indent(n).len() implies #[trigger] indent(n)[i] == ' ' by {
            if i < p.len() {
                assert(indent(n)[i] == p[i]);
            }
        }
    }
}

/// One line of a directory tree: the entry's name, indented two spaces per
/// level, with a trailing `/` for a directory.
pub open spec fn tree_line(depth: nat, name: Seq<char>, is_dir: bool) -> Seq<char> {
    if is_dir {
        indent(depth) + name + "/"@
    } else {
        indent(depth) + name
    }
}

/// One line of a directory tree.
pub fn tree_entry(depth: usize, name: &str, is_dir: bool) -> (r: String)
    ensures
        r@ == tree_line(depth as nat, name@, is_dir),
{
    proof {
        reveal_strlit("");
    }
    let mut out = "".to_owned();
    for i in 0..depth
        invariant
            out@ == indent(i as nat),
    {
        out.append("  ");
    }
    out.append(name);
    if is_dir {
        out.append("/");
    }
    out
}

// --- search_file ------------------------------------------------------------

/// Search results gathered up to a cap: a result offered once the cap is
/// reached is not kept, so the list never holds more than the cap.
pub struct CappedList<T> {
    items: Vec<T>,
    cap: usize,
}

impl<T> CappedList<T> {
    /// The results kept, in the order they were offered.
    pub closed spec fn kept(&self) -> Seq<T> {
        self.items@
    }

    /// The most results the list keeps.
    pub closed spec fn limit(&self) -> nat {
        self.cap as nat
    }

    #[verifier::type_invariant]
    closed spec fn within_cap(&self) -> bool {
        self.items@.len() <= self.cap
    }

    /// An empty list that keeps at most `cap` results.
    pub fn new(cap: usize) -> (r: Self)
        ensures
            r.kept() == Seq::<T>::empty(),
            r.limit() == cap,
    {
        CappedList { items: Vec::new(), cap }
    }

    /// Whether the cap has been reached, so the search stops.
    pub fn is_full(&self) -> (r: bool)
        ensures
            r == (self.kept().len() >= self.limit()),
    {
        self.items.len() >= self.cap
    }

    /// Offers a result: it is kept when the cap has not been reached.
    pub fn push(&mut self, item: T) -> (added: bool)
        ensures
            added == (old(self).kept().len() < old(self).limit()),
            final(self).kept() == (if added {
                old(self).kept().push(item)
            } else {
                old(self).kept()
            }),
            final(self).limit() == old(self).limit(),
    {
        if self.items.len() < self.cap {
            let mut items: Vec<T> = Vec::new();
            std::mem::swap(&mut items, &mut self.items);
            items.push(item);
            self.items = items;
            true
        } else {
            false
        }
    }

    /// The number of results kept, never more than the cap.
    pub fn len(&self) -> (r: usize)
        ensures
            r == self.kept().len(),
            r <= self.limit(),
    {
        proof {
            use_type_invariant(self);
        }
        self.items.len()
    }

    /// The results kept, never more than the cap.
    pub fn into_vec(self) -> (r: Vec<T>)
        ensures
            r@ == self.kept(),
            r@.len() <= self.limit(),
    {
        proof {
            use_type_invariant(&self);
        }
        self.items
    }
}


/// The message for a missing search pattern.
pub open spec fn missing_pattern_error() -> Seq<char> {
    "pattern is required"@
}

/// The lower-cased needle of a file search; an empty pattern is refused.
pub fn search_needle(pattern: &str) -> (r: Result<String, String>)
    ensures
        r is Err <==> pattern@.len() == 0,
        r matches Ok(n) ==> n@ == lowercase(pattern@),
        r matches Err(e) ==> e@ == missing_pattern_error(),
{
    if pattern.unicode_len() == 0 {
        Err("pattern is required".to_owned())
    } else {
        Ok(to_lowercase(pattern))
    }
}

/// Whether a file name matches a (lower-cased) needle, ignoring case.
pub fn name_matches(name: &str, needle: &str) -> (r: bool)
    ensures
        r == occurs(lowercase(name@), needle@),
{
    let lowered = to_lowercase(name);
    occurs_in(&chars_of(lowered.as_str()), &chars_of(needle))
}

/// The first line that matches, as its number (1-indexed) and trimmed text.
pub open spec fn first_match(ls: Seq<Seq<char>>, needle: Seq<char>, from: int) -> Option<(nat, Seq<char>)>
    decreases ls.len() - from,
{
    if from < 0 || from >= ls.len() {
        None
    } else if occurs(lowercase(ls[from]), needle) {
        Some(((from + 1) as nat, trimmed(ls[from])))
    } else {
        first_match(ls, needle, from + 1)
    }
}

/// The content search reports the first line, counting from line 1, that
/// contains the needle once lower-cased, together with that line trimmed;
/// it reports nothing only when no line, the first included, contains it.
pub proof fn lemma_first_match(ls: Seq<Seq<char>>, needle: Seq<char>, from: int)
    requires
        0 <= from,
    ensures
        match first_match(ls, needle, from) {
            Some((n, t)) => {
                &&& from + 1 <= n <= ls.len()
                &&& occurs(lowercase(ls[n - 1]), needle)
                &&& t == trimmed(ls[n - 1])
                &&& forall|j: int| from <= j < n - 1 ==> !occurs(lowercase(#[trigger] ls[j]), needle)
            },
            None => forall|j: int| from <= j < ls.len() ==> !occurs(lowercase(#[trigger] ls[j]), needle),
        },
    decreases ls.len() - from,
{
    if from < ls.len() && !occurs(lowercase(ls[from]), needle) {
        lemma_first_match(ls, needle, from + 1);
    }
}

/// The first line of `content` that contains the (lower-cased) needle,
/// ignoring case, with its number and trimmed text.
pub fn first_matching_line(content: &str, needle: &str) -> (r: Option<(usize, String)>)
    ensures
        match r {
            Some((n, t)) => first_match(lines(content@), needle@, 0) == Some((n as nat, t@)),
            None => first_match(lines(content@), needle@, 0) is None,
        },
{
    let ls = lines_of(content);
    let nd = chars_of(needle);
    let n = ls.len();
    let ghost lv = lines(content@);
    for i in 0..n
        invariant
            n == ls@.len(),
            lv == texts_of(ls@),
            lv == lines(content@),
            lv.len() == n,
            nd@ == needle@,
            first_match(lv, needle@, 0) == first_match(lv, needle@, i as int),
    {
        let lowered = to_lowercase(ls[i].as_str());
        proof {
            assert(lv[i as int] == ls@[i as int]@);
        }
        if occurs_in(&chars_of(lowered.as_str()), &nd) {
            proof {
                assert(lv.len() == n);
                assert(first_match(lv, needle@, i as int) == Some(((i + 1) as nat, trimmed(lv[i as int]))));
            }
            return Some((i + 1, trim(ls[i].as_str())));
        }
    }
    None
}

// --- smart_exec -------------------------------------------------------------

/// The fragments that mark a command as PowerShell.
pub open spec fn powershell_markers() -> Seq<Seq<char>> {
    seq![
        "$"@,
        "Get-"@,
        "Set-"@,
        "New-Item"@,
        "Remove-Item"@,
        "Where-Object"@,
        "Select-Object"@,
        "-ErrorAction"@,
        "Format-Table"@,
    ]
}

/// A command runs under PowerShell when it holds one of the markers.
pub open spec fn is_powershell(command: Seq<char>) -> bool {
    exists|i: int| 0 <= i < powershell_markers().len() && occurs(command, #[trigger] powershell_markers()[i])
}

/// A command runs under PowerShell exactly when it holds, anywhere, one of
/// `$`, `Get-`, `Set-`, `New-Item`, `Remove-Item`, `Where-Object`,
/// `Select-Object`, `-ErrorAction` or `Format-Table`.
pub proof fn lemma_powershell_markers(command: Seq<char>, a: Seq<char>, b: Seq<char>)
    ensures
        is_powershell(command) <==> (occurs(command, "$"@) || occurs(command, "Get-"@) || occurs(
            command,
            "Set-"@,
        ) || occurs(command, "New-Item"@) || occurs(command, "Remove-Item"@) || occurs(
            command,
            "Where-Object"@,
        ) || occurs(command, "Select-Object"@) || occurs(command, "-ErrorAction"@) || occurs(
            command,
            "Format-Table"@,
        )),
        is_powershell(a + "$"@ + b),
        is_powershell(a + "Get-"@ + b),
        is_powershell(a + "Set-"@ + b),
        is_powershell(a + "New-Item"@ + b),
        is_powershell(a + "Remove-Item"@ + b),
        is_powershell(a + "Where-Object"@ + b),
        is_powershell(a + "Select-Object"@ + b),
        is_powershell(a + "-ErrorAction"@ + b),
        is_powershell(a + "Format-Table"@ + b),
{
    let pm = powershell_markers();
    if is_powershell(command) {
        let i = choose|i: int| 0 <= i < pm.len() && occurs(command, #[trigger] pm[i]);
        assert(i == 0 || i == 1 || i == 2 || i == 3 || i == 4 || i == 5 || i == 6 || i == 7 || i == 8);
    }
    if occurs(command, "$"@) { assert(occurs(command, pm[0])); }
    if occurs(command, "Get-"@) { assert(occurs(command, pm[1])); }
    if occurs(command, "Set-"@) { assert(occurs(command, pm[2])); }
    if occurs(command, "New-Item"@) { assert(occurs(command, pm[3])); }
    if occurs(command, "Remove-Item"@) { assert(occurs(command, pm[4])); }
    if occurs(command, "Where-Object"@) { assert(occurs(command, pm[5])); }
    if occurs(command, "Select-Object"@) { assert(occurs(command, pm[6])); }
    if occurs(command, "-ErrorAction"@) { assert(occurs(command, pm[7])); }
    if occurs(command, "Format-Table"@) { assert(occurs(command, pm[8])); }
    lemma_occurs_means_inside(a + pm[0] + b, pm[0]);
    lemma_occurs_means_inside(a + pm[1] + b, pm[1]);
    lemma_occurs_means_inside(a + pm[2] + b, pm[2]);
    lemma_occurs_means_inside(a + pm[3] + b, pm[3]);
    lemma_occurs_means_inside(a + pm[4] + b, pm[4]);
    lemma_occurs_means_inside(a + pm[5] + b, pm[5]);
    lemma_occurs_means_inside(a + pm[6] + b, pm[6]);
    lemma_occurs_means_inside(a + pm[7] + b, pm[7]);
    lemma_occurs_means_inside(a + pm[8] + b, pm[8]);
    assert(is_powershell(a + pm[0] + b));
    assert(is_powershell(a + pm[1] + b));
    assert(is_powershell(a + pm[2] + b));
    assert(is_powershell(a + pm[3] + b));
    assert(is_powershell(a + pm[4] + b));
    assert(is_powershell(a + pm[5] + b));
    assert(is_powershell(a + pm[6] + b));
    assert(is_powershell(a + pm[7] + b));
    assert(is_powershell(a + pm[8] + b));
}

/// Whether a command is PowerShell syntax rather than a `cmd` line.
pub fn needs_powershell(command: &str) -> (r: bool)
    ensures
        r == is_powershell(command@),
{
    let cs = chars_of(command);
    let markers: Vec<&str> = vec![
        "$",
        "Get-",
        "Set-",
        "New-Item",
        "Remove-Item",
        "Where-Object",
        "Select-Object",
        "-ErrorAction",
        "Format-Table",
    ];
    let ghost pm = powershell_markers();
    assert(markers@.map_values(|s: &str| s@) =~= pm);
    let n = markers.len();
    for i in 0..n
        invariant
            n == markers@.len(),
            n == pm.len(),
            pm == powershell_markers(),
            forall|j: int| 0 <= j < n ==> #[trigger] markers@[j]@ == pm[j],
            cs@ == command@,
            forall|j: int| 0 <= j < i ==> !occurs(command@, #[trigger] pm[j]),
    {
        if occurs_in(&cs, &chars_of(markers[i])) {
            return true;
        }
    }
    false
}

/// The shells a one-shot command can run under.
#[derive(Clone, Copy, Debug, PartialEq, Eq, Structural)]
pub enum Shell {
    PowerShell,
    Cmd,
}

/// The shell a command runs under.
pub fn shell_for(command: &str) -> (r: Shell)
    ensures
        r == (if is_powershell(command@) {
            Shell::PowerShell
        } else {
            Shell::Cmd
        }),
{
    if needs_powershell(command) {
        Shell::PowerShell
    } else {
        Shell::Cmd
    }
}

impl Shell {
    /// The label reported for the shell.
    pub open spec fn label_text(self) -> Seq<char> {
        match self {
            Shell::PowerShell => "powershell"@,
            Shell::Cmd => "cmd"@,
        }
    }

    /// The program that is started, which is also the reported label.
    pub fn program(&self) -> (r: &'static str)
        ensures
            r@ == self.label_text(),
    {
        match self {
            Shell::PowerShell => "powershell",
            Shell::Cmd => "cmd",
        }
    }

    /// The arguments that run `command` once.
    pub open spec fn args_text(self, command: Seq<char>) -> Seq<Seq<char>> {
        match self {
            Shell::PowerShell => seq!["-NoProfile"@, "-NonInteractive"@, "-Command"@, command],
            Shell::Cmd => seq!["/C"@, command],
        }
    }

    /// The arguments that run `command` once.
    pub fn args(&self, command: &str) -> (r: Vec<String>)
        ensures
            texts_of(r@) == self.args_text(command@),
    {
        let r = match self {
            Shell::PowerShell => vec![
                "-NoProfile".to_owned(),
                "-NonInteractive".to_owned(),
                "-Command".to_owned(),
                command.to_owned(),
            ],
            Shell::Cmd => vec!["/C".to_owned(), command.to_owned()],
        };
        assert(texts_of(r@) =~= self.args_text(command@));
        r
    }
}

/// What a finished command reports: its output streams with surrounding
/// white space removed, its exit code, and whether it succeeded.
pub struct ExecOutcome {
    pub stdout: String,
    pub stderr: String,
    /// The exit code; -1 when the process ended without one (by a signal).
    pub exit_code: i32,
    pub success: bool,
    /// The reply is an error exactly when the command did not succeed.
    pub is_error: bool,
}

/// Reports a finished command from its decoded output streams, its exit
/// code when it has one, and whether its status was success.
pub fn exec_outcome(stdout: &str, stderr: &str, code: Option<i32>, success: bool) -> (r: ExecOutcome)
    ensures
        r.stdout@ == trimmed(stdout@),
        r.stderr@ == trimmed(stderr@),
        r.exit_code == (match code {
            Some(c) => c,
            None => -1i32,
        }),
        r.success == success,
        r.is_error == !success,
{
    let exit_code = match code {
        Some(c) => c,
        None => -1,
    };
    ExecOutcome { stdout: trim(stdout), stderr: trim(stderr), exit_code, success, is_error: !success }
}

// --- http_request -----------------------------------------------------------

/// The request methods the HTTP tool sends.
#[derive(Clone, Copy, Debug, PartialEq, Eq, Structural)]
pub enum HttpMethod {
    Get,
    Post,
    Put,
    Delete,
    Patch,
    Head,
}

/// The method named by an upper-cased method text.
pub open spec fn method_named(upper: Seq<char>) -> Option<HttpMethod> {
    if upper == "GET"@ {
        Some(HttpMethod::Get)
    } else if upper == "POST"@ {
        Some(HttpMethod::Post)
    } else if upper == "PUT"@ {
        Some(HttpMethod::Put)
    } else if upper == "DELETE"@ {
        Some(HttpMethod::Delete)
    } else if upper == "PATCH"@ {
        Some(HttpMethod::Patch)
    } else if upper == "HEAD"@ {
        Some(HttpMethod::Head)
    } else {
        None
    }
}

/// The message for a method the tool does not send.
pub open spec fn unsupported_method_error(upper: Seq<char>) -> Seq<char> {
    "unsupported method: "@ + upper
}

/// Each of the six advertised methods is named by its own upper-case name,
/// and no other text names a method.
pub proof fn lemma_method_names(upper: Seq<char>)
    ensures
        method_named("GET"@) == Some(HttpMethod::Get),
        method_named("POST"@) == Some(HttpMethod::Post),
        method_named("PUT"@) == Some(HttpMethod::Put),
        method_named("DELETE"@) == Some(HttpMethod::Delete),
        method_named("PATCH"@) == Some(HttpMethod::Patch),
        method_named("HEAD"@) == Some(HttpMethod::Head),
        method_named(upper) is Some <==> (upper == "GET"@ || upper == "POST"@ || upper == "PUT"@
            || upper == "DELETE"@ || upper == "PATCH"@ || upper == "HEAD"@),
{
    reveal_strlit("GET");
    reveal_strlit("POST");
    reveal_strlit("PUT");
    reveal_strlit("DELETE");
    reveal_strlit("PATCH");
    reveal_strlit("HEAD");
    assert("GET"@.len() == 3 && "PUT"@.len() == 3 && "POST"@.len() == 4 && "HEAD"@.len() == 4);
    assert("DELETE"@.len() == 6 && "PATCH"@.len() == 5);
    assert("GET"@[0] != "PUT"@[0]);
    assert("POST"@[0] != "HEAD"@[0]);
    assert("GET"@ != "PUT"@);
    assert("POST"@ != "PUT"@);
    assert("GET"@ != "PATCH"@ && "POST"@ != "PATCH"@ && "PUT"@ != "PATCH"@ && "DELETE"@ != "PATCH"@);
}

/// The method named by an already upper-cased text.
pub fn method_from_upper(upper: &str) -> (r: Result<HttpMethod, String>)
    ensures
        match r {
            Ok(m) => method_named(upper@) == Some(m),
            Err(e) => method_named(upper@) is None && e@ == unsupported_method_error(upper@),
        },
        upper@ == "GET"@ ==> r == Ok::<HttpMethod, String>(HttpMethod::Get),
        upper@ == "POST"@ ==> r == Ok::<HttpMethod, String>(HttpMethod::Post),
        upper@ == "PUT"@ ==> r == Ok::<HttpMethod, String>(HttpMethod::Put),
        upper@ == "DELETE"@ ==> r == Ok::<HttpMethod, String>(HttpMethod::Delete),
        upper@ == "PATCH"@ ==> r == Ok::<HttpMethod, String>(HttpMethod::Patch),
        upper@ == "HEAD"@ ==> r == Ok::<HttpMethod, String>(HttpMethod::Head),
        r is Ok ==> (upper@ == "GET"@ || upper@ == "POST"@ || upper@ == "PUT"@ || upper@
            == "DELETE"@ || upper@ == "PATCH"@ || upper@ == "HEAD"@),
{
    proof {
        lemma_method_names(upper@);
    }
    if same_text(upper, "GET") {
        Ok(HttpMethod::Get)
    } else if same_text(upper, "POST") {
        Ok(HttpMethod::Post)
    } else if same_text(upper, "PUT") {
        Ok(HttpMethod::Put)
    } else if same_text(upper, "DELETE") {
        Ok(HttpMethod::Delete)
    } else if same_text(upper, "PATCH") {
        Ok(HttpMethod::Patch)
    } else if same_text(upper, "HEAD") {
        Ok(HttpMethod::Head)
    } else {
        let mut msg = "unsupported method: ".to_owned();
        msg.append(upper);
        Err(msg)
    }
}

/// The method named by `method`, whatever its case.
pub fn parse_method(method: &str) -> (r: Result<HttpMethod, String>)
    ensures
        match r {
            Ok(m) => method_named(uppercase(method@)) == Some(m),
            Err(e) => method_named(uppercase(method@)) is None && e@ == unsupported_method_error(
                uppercase(method@),
            ),
        },
{
    let upper = to_uppercase(method);
    method_from_upper(upper.as_str())
}

/// The cap on a response body, in bytes.
pub const BODY_CAP: usize = 500_000;

/// A response body cut to at most `BODY_CAP` bytes, at the last character
/// boundary that fits, and whether it was cut.
pub fn cap_body(text: &str) -> (r: (&str, bool))
    requires
        text.spec_bytes().len() <= usize::MAX,
    ensures
        r.1 == (text.spec_bytes().len() > BODY_CAP),
        r.0.spec_bytes() == text.spec_bytes().take(floor_boundary(text.spec_bytes(), BODY_CAP as int)),
        r.0@ == text@.take(r.0@.len() as int),
        !r.1 ==> r.0@ == text@,
{
    let head = cut_at_boundary(text, BODY_CAP);
    proof {
        if text.spec_bytes().len() <= BODY_CAP {
            assert(text.spec_bytes().take(text.spec_bytes().len() as int) =~= text.spec_bytes());
            assert(head.spec_bytes() == text.spec_bytes());
            vstd::utf8::encode_utf8_decode_utf8(head@);
            vstd::utf8::encode_utf8_decode_utf8(text@);
        }
    }
    (head, text.len() > BODY_CAP)
}

/// A status in the 2xx range.
pub fn is_success_status(status: u16) -> (r: bool)
    ensures
        r == (200 <= status < 300),
{
    200 <= status && status < 300
}

} // verus!
