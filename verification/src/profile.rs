//! profile — tool-exposure allowlists for the gateway.
//!
//! A profile is a fixed set of tool names that the gateway may advertise and
//! execute. An unknown profile name is refused, so a typo can never widen or
//! empty the surface.
use vstd::prelude::*;
use crate::text::same_text;

verus! {

/// The texts of a list of names.
pub open spec fn name_views(v: Seq<&str>) -> Seq<Seq<char>> {
    v.map_values(|s: &str| s@)
}

/// The lean profile: the curated remote surface, and the default.
pub open spec fn lean_names() -> Seq<Seq<char>> {
    seq![
        "read_file"@,
        "write_file"@,
        "list_dir"@,
        "search_file"@,
        "smart_exec"@,
        "http_request"@,
        "psession_run"@,
        "psession_create"@,
        "psession_destroy"@,
    ]
}

/// The full profile: the lean surface plus the read-only session helpers.
pub open spec fn full_names() -> Seq<Seq<char>> {
    seq![
        "read_file"@,
        "write_file"@,
        "list_dir"@,
        "search_file"@,
        "smart_exec"@,
        "http_request"@,
        "psession_run"@,
        "psession_create"@,
        "psession_destroy"@,
        "psession_list"@,
        "psession_read"@,
    ]
}

/// The names a profile called `name` allows, when it is a known profile.
pub open spec fn profile_names(name: Seq<char>) -> Option<Seq<Seq<char>>> {
    if name == "lean"@ {
        Some(lean_names())
    } else if name == "full"@ {
        Some(full_names())
    } else {
        None
    }
}

/// The message for an unknown profile name.
pub open spec fn unknown_profile_error(name: Seq<char>) -> Seq<char> {
    "unknown profile '"@ + name + "' (valid: lean, full)"@
}

/// The lean tool names.
pub fn lean() -> (r: Vec<&'static str>)
    ensures
        name_views(r@) == lean_names(),
{
    let r = vec![
        "read_file",
        "write_file",
        "list_dir",
        "search_file",
        "smart_exec",
        "http_request",
        "psession_run",
        "psession_create",
        "psession_destroy",
    ];
    assert(name_views(r@) =~= lean_names());
    r
}

/// The full tool names.
pub fn full() -> (r: Vec<&'static str>)
    ensures
        name_views(r@) == full_names(),
{
    let r = vec![
        "read_file",
        "write_file",
        "list_dir",
        "search_file",
        "smart_exec",
        "http_request",
        "psession_run",
        "psession_create",
        "psession_destroy",
        "psession_list",
        "psession_read",
    ];
    assert(name_views(r@) =~= full_names());
    r
}

/// A resolved, validated tool-exposure profile.
#[derive(Debug)]
pub struct Profile {
    name: String,
    allowed: Vec<&'static str>,
}

impl Profile {
    /// The profile's name.
    pub closed spec fn name_text(&self) -> Seq<char> {
        self.name@
    }

    /// The tool names the profile allows, in order.
    pub closed spec fn allowed_names(&self) -> Seq<Seq<char>> {
        name_views(self.allowed@)
    }

    /// A profile is one of the known ones, with its own list.
    #[verifier::type_invariant]
    closed spec fn known(&self) -> bool {
        profile_names(self.name@) == Some(name_views(self.allowed@))
    }

    /// Resolves a profile by name; an unknown name is refused.
    pub fn resolve(name: &str) -> (r: Result<Self, String>)
        ensures
            r is Ok <==> profile_names(name@) is Some,
            r matches Ok(p) ==> p.name_text() == name@ && Some(p.allowed_names())
                == profile_names(name@),
            r matches Err(e) ==> e@ == unknown_profile_error(name@),
    {
        proof {
            reveal_strlit("lean");
            reveal_strlit("full");
        }
        if same_text(name, "lean") {
            Ok(Profile { name: name.to_owned(), allowed: lean() })
        } else if same_text(name, "full") {
            Ok(Profile { name: name.to_owned(), allowed: full() })
        } else {
            let mut msg = "unknown profile '".to_owned();
            msg.append(name);
            msg.append("' (valid: lean, full)");
            Err(msg)
        }
    }

    /// The profile's name.
    pub fn name(&self) -> (r: &str)
        ensures
            r@ == self.name_text(),
            profile_names(self.name_text()) == Some(self.allowed_names()),
    {
        proof {
            use_type_invariant(self);
        }
        self.name.as_str()
    }

    /// Whether a tool is permitted under this profile.
    pub fn allows(&self, tool: &str) -> (r: bool)
        ensures
            r == self.allowed_names().contains(tool@),
    {
        let n = self.allowed.len();
        for i in 0..n
            invariant
                n == self.allowed@.len(),
                forall|j: int| 0 <= j < i ==> #[trigger] self.allowed@[j]@ != tool@,
        {
            if same_text(self.allowed[i], tool) {
                proof {
                    assert(self.allowed_names()[i as int] == tool@);
                }
                return true;
            }
        }
        proof {
            if self.allowed_names().contains(tool@) {
                let k = choose|k: int|
                    0 <= k < self.allowed_names().len() && self.allowed_names()[k] == tool@;
                assert(self.allowed@[k]@ == tool@);
            }
        }
        false
    }

    /// The allowed tool names.
    pub fn allowed(&self) -> (r: &[&'static str])
        ensures
            name_views(r@) == self.allowed_names(),
            profile_names(self.name_text()) == Some(self.allowed_names()),
    {
        proof {
            use_type_invariant(self);
        }
        self.allowed.as_slice()
    }
}

impl Clone for Profile {
    fn clone(&self) -> (r: Self)
        ensures
            r.name_text() == self.name_text(),
            r.allowed_names() == self.allowed_names(),
    {
        proof {
            use_type_invariant(self);
        }
        let allowed = self.allowed.clone();
        proof {
            assert(name_views(allowed@) =~= name_views(self.allowed@));
        }
        Profile { name: self.name.clone(), allowed }
    }
}

/// Every tool of the lean profile is in the full profile.
pub proof fn lemma_full_covers_lean(tool: Seq<char>)
    ensures
        lean_names().contains(tool) ==> full_names().contains(tool),
{
    if lean_names().contains(tool) {
        let k = choose|k: int| 0 <= k < lean_names().len() && lean_names()[k] == tool;
        assert(full_names()[k] == lean_names()[k]);
    }
}

} // verus!
