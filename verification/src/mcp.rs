//! mcp — the gateway handler: which tools are listed, which calls are
//! admitted, and how the gateway describes itself.
//!
//! The active profile filters both the tool list and the calls, so a tool
//! outside the profile is neither listed nor callable.
use vstd::prelude::*;
use crate::guard::Guard;
use crate::mcp_tools::{all_specs, spec_names, spec_tool_names, tool_specs, ToolSpec};
use crate::profile::Profile;
use crate::text::{blank, is_blank, same_text};

verus! {

/// The names among `names` that `allowed` admits, in order.
pub open spec fn visible_names(names: Seq<Seq<char>>, allowed: Seq<Seq<char>>) -> Seq<Seq<char>>
    decreases names.len(),
{
    if names.len() == 0 {
        Seq::empty()
    } else {
        let prev = visible_names(names.drop_last(), allowed);
        if allowed.contains(names.last()) {
            prev.push(names.last())
        } else {
            prev
        }
    }
}

/// The specifications among `specs` whose names `allowed` admits, in order.
pub open spec fn visible_specs(specs: Seq<ToolSpec>, allowed: Seq<Seq<char>>) -> Seq<ToolSpec>
    decreases specs.len(),
{
    if specs.len() == 0 {
        Seq::empty()
    } else {
        let prev = visible_specs(specs.drop_last(), allowed);
        if allowed.contains(specs.last().name@) {
            prev.push(specs.last())
        } else {
            prev
        }
    }
}

/// Filtering specifications filters their names alike.
pub proof fn lemma_visible_specs_names(specs: Seq<ToolSpec>, allowed: Seq<Seq<char>>)
    ensures
        spec_names(visible_specs(specs, allowed)) == visible_names(spec_names(specs), allowed),
    decreases specs.len(),
{
    if specs.len() > 0 {
        lemma_visible_specs_names(specs.drop_last(), allowed);
        assert(spec_names(specs).drop_last() =~= spec_names(specs.drop_last()));
        let prev = visible_specs(specs.drop_last(), allowed);
        assert(spec_names(prev.push(specs.last())) =~= spec_names(prev).push(specs.last().name@));
    }
}

/// The message for a call to a tool outside the profile.
pub open spec fn not_permitted_error(tool: Seq<char>, profile: Seq<char>) -> Seq<char> {
    "tool '"@ + tool + "' is not permitted by the active '"@ + profile + "' profile"@
}

/// How the gateway describes itself.
pub open spec fn description_text(profile: Seq<char>, root: Seq<char>, read_only: bool) -> Seq<char> {
    "Remote MCP gateway exposing the '"@ + profile + "' tool profile, root-scoped to "@ + root + (
    if read_only {
        " (read-only)"@
    } else {
        ""@
    }) + "."@
}

/// The instructions handed to a client.
pub open spec fn instructions_text(profile: Seq<char>, root: Seq<char>) -> Seq<char> {
    "Local-Pass gateway. Active profile: '"@ + profile + "'. All file paths are scoped to "@ + root
        + ". Tools not in the profile are neither listed nor callable."@
}

/// The safe root: the explicit one, else a non-blank environment setting,
/// else the home directory, else the current directory.
pub open spec fn chosen_root(
    explicit: Option<Seq<char>>,
    env_root: Option<Seq<char>>,
    home: Option<Seq<char>>,
) -> Seq<char> {
    match explicit {
        Some(p) => p,
        None => match env_root {
            Some(e) if !blank(e) => e,
            _ => match home {
                Some(h) => h,
                None => "."@,
            },
        },
    }
}

pub open spec fn opt_text(o: Option<String>) -> Option<Seq<char>> {
    match o {
        Some(s) => Some(s@),
        None => None,
    }
}

/// Picks the safe root from the command line, the environment and the home
/// directory, in that precedence.
pub fn resolve_root(explicit: Option<String>, env_root: Option<String>, home: Option<String>) -> (r:
    String)
    ensures
        r@ == chosen_root(opt_text(explicit), opt_text(env_root), opt_text(home)),
{
    if let Some(p) = explicit {
        return p;
    }
    if let Some(e) = env_root {
        if !is_blank(e.as_str()) {
            return e;
        }
    }
    match home {
        Some(h) => h,
        None => ".".to_owned(),
    }
}

/// Gateway state handed to every session.
pub struct GatewayHandler {
    profile: Profile,
    guard: Guard,
}

impl GatewayHandler {
    /// The active profile.
    pub closed spec fn profile_view(&self) -> Profile {
        self.profile
    }

    /// The guard applied to every call.
    pub closed spec fn guard_view(&self) -> Guard {
        self.guard
    }

    /// The names this handler lists, in order.
    pub open spec fn listed(&self) -> Seq<Seq<char>> {
        visible_names(spec_tool_names(), self.profile_view().allowed_names())
    }

    /// The specifications this handler lists, in order.
    pub open spec fn listed_specs(&self) -> Seq<ToolSpec> {
        visible_specs(tool_specs(), self.profile_view().allowed_names())
    }

    pub fn new(profile: Profile, guard: Guard) -> (h: Self)
        ensures
            h.profile_view() == profile,
            h.guard_view() == guard,
    {
        GatewayHandler { profile, guard }
    }

    /// The active profile.
    pub fn profile(&self) -> (r: &Profile)
        ensures
            *r == self.profile_view(),
    {
        &self.profile
    }

    /// The guard.
    pub fn guard(&self) -> (r: &Guard)
        ensures
            *r == self.guard_view(),
    {
        &self.guard
    }

    /// The tool specifications the profile lets through, in order.
    pub fn visible_tools(&self) -> (r: Vec<ToolSpec>)
        ensures
            r@ == self.listed_specs(),
            spec_names(r@) == self.listed(),
    {
        let specs = all_specs();
        let n = specs.len();
        let mut out: Vec<ToolSpec> = Vec::new();
        let ghost allowed = self.profile.allowed_names();
        proof {
            assert(specs@.take(0) =~= Seq::<ToolSpec>::empty());
        }
        for i in 0..n
            invariant
                n == specs@.len(),
                specs@ == tool_specs(),
                allowed == self.profile.allowed_names(),
                out@ == visible_specs(specs@.take(i as int), allowed),
        {
            let t = specs[i];
            proof {
                assert(specs@.take(i + 1).drop_last() =~= specs@.take(i as int));
                assert(specs@.take(i + 1).last() == t);
            }
            if self.profile.allows(t.name) {
                out.push(t);
            }
        }
        proof {
            assert(specs@.take(n as int) =~= specs@);
            lemma_visible_specs_names(tool_specs(), allowed);
            assert(spec_names(tool_specs()) =~= spec_tool_names());
        }
        out
    }

    /// The listed tool called `name`.
    pub fn get_tool(&self, name: &str) -> (r: Option<ToolSpec>)
        ensures
            r is Some <==> self.listed().contains(name@),
            r matches Some(t) ==> t.name@ == name@ && self.listed_specs().contains(t),
    {
        let tools = self.visible_tools();
        let n = tools.len();
        for i in 0..n
            invariant
                n == tools@.len(),
                spec_names(tools@) == self.listed(),
                tools@ == self.listed_specs(),
                forall|j: int| 0 <= j < i ==> #[trigger] tools@[j].name@ != name@,
        {
            if same_text(tools[i].name, name) {
                proof {
                    assert(spec_names(tools@)[i as int] == name@);
                    assert(tools@[i as int] == tools[i as int]);
                }
                return Some(tools[i]);
            }
        }
        proof {
            if self.listed().contains(name@) {
                let k = choose|k: int| 0 <= k < self.listed().len() && self.listed()[k] == name@;
                assert(spec_names(tools@)[k] == tools@[k].name@);
            }
        }
        None
    }

    /// Admits a call when the profile allows the tool; otherwise the call is
    /// refused and nothing runs.
    pub fn admit_call(&self, name: &str) -> (r: Result<(), String>)
        ensures
            r is Ok <==> self.profile_view().allowed_names().contains(name@),
            r matches Err(e) ==> e@ == not_permitted_error(name@, self.profile_view().name_text()),
    {
        if self.profile.allows(name) {
            Ok(())
        } else {
            let mut msg = "tool '".to_owned();
            msg.append(name);
            msg.append("' is not permitted by the active '");
            msg.append(self.profile.name());
            msg.append("' profile");
            Err(msg)
        }
    }

    /// How the gateway describes itself to a client.
    pub fn description(&self) -> (r: String)
        ensures
            r@ == description_text(
                self.profile_view().name_text(),
                self.guard_view().root_text(),
                self.guard_view().read_only_flag(),
            ),
    {
        let mut s = "Remote MCP gateway exposing the '".to_owned();
        s.append(self.profile.name());
        s.append("' tool profile, root-scoped to ");
        s.append(self.guard.root());
        if self.guard.is_read_only() {
            s.append(" (read-only)");
        } else {
            s.append("");
        }
        s.append(".");
        s
    }

    /// The instructions handed to a client.
    pub fn instructions(&self) -> (r: String)
        ensures
            r@ == instructions_text(self.profile_view().name_text(), self.guard_view().root_text()),
    {
        let mut s = "Local-Pass gateway. Active profile: '".to_owned();
        s.append(self.profile.name());
        s.append("'. All file paths are scoped to ");
        s.append(self.guard.root());
        s.append(". Tools not in the profile are neither listed nor callable.");
        s
    }
}

impl Clone for GatewayHandler {
    fn clone(&self) -> (r: Self)
        ensures
            r.profile_view().name_text() == self.profile_view().name_text(),
            r.profile_view().allowed_names() == self.profile_view().allowed_names(),
            r.guard_view().root_text() == self.guard_view().root_text(),
            r.guard_view().read_only_flag() == self.guard_view().read_only_flag(),
    {
        GatewayHandler { profile: self.profile.clone(), guard: self.guard.clone() }
    }
}

/// A tool is listed exactly when it is embedded and the profile allows it.
pub proof fn lemma_visible_names(names: Seq<Seq<char>>, allowed: Seq<Seq<char>>, tool: Seq<char>)
    ensures
        visible_names(names, allowed).contains(tool) <==> (names.contains(tool) && allowed.contains(
            tool,
        )),
    decreases names.len(),
{
    if names.len() > 0 {
        let init = names.drop_last();
        lemma_visible_names(init, allowed, tool);
        let prev = visible_names(init, allowed);
        if names.contains(tool) && allowed.contains(tool) {
            let k = choose|k: int| 0 <= k < names.len() && names[k] == tool;
            if k < init.len() {
                assert(init[k] == tool);
                assert(init.contains(tool));
                if allowed.contains(names.last()) {
                    let j = choose|j: int| 0 <= j < prev.len() && prev[j] == tool;
                    assert(prev.push(names.last())[j] == tool);
                }
            } else {
                assert(visible_names(names, allowed) == prev.push(names.last()));
                assert(prev.push(names.last())[prev.len() as int] == tool);
            }
        }
        if visible_names(names, allowed).contains(tool) {
            let v = visible_names(names, allowed);
            let j = choose|j: int| 0 <= j < v.len() && v[j] == tool;
            if allowed.contains(names.last()) && j == prev.len() {
                assert(names[names.len() - 1] == tool);
            } else {
                assert(prev[j] == tool);
                let k = choose|k: int| 0 <= k < init.len() && init[k] == tool;
                assert(names[k] == tool);
            }
        }
    }
}

/// Listing and calling apply one profile check: a listed tool is one the
/// profile allows, and an embedded tool appears in the list exactly when the
/// profile allows it.
pub proof fn lemma_list_and_call_agree(h: GatewayHandler, tool: Seq<char>)
    ensures
        h.listed().contains(tool) ==> h.profile_view().allowed_names().contains(tool),
        h.listed().contains(tool) <==> (spec_tool_names().contains(tool)
            && h.profile_view().allowed_names().contains(tool)),
{
    lemma_visible_names(spec_tool_names(), h.profile_view().allowed_names(), tool);
}

} // verus!
