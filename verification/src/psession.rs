//! psession — persistent shell sessions that survive across calls.
//!
//! The table of live sessions is keyed by session id; each `psession_run`
//! writes a command followed by a unique completion marker and reads the
//! output back up to that marker. The processes themselves are driven by the
//! caller; this module holds the table and the decisions.
use vstd::prelude::*;
use vstd::string::StringSliceAdditionalSpecFns;
use vstd::utf8::{
    decode_utf8, encode_utf8, encode_utf8_decode_utf8, encode_utf8_valid_utf8, is_ascii_chars,
    is_ascii_chars_encode_utf8, is_char_boundary, is_char_boundary_iff_not_is_continuation_byte,
    is_char_boundary_start_end_of_seq,
};
use crate::text::{chars_of, join_texts, joined, occurs, occurs_in, same_text, texts_of};

verus! {

// --- the session table ------------------------------------------------------

/// Live sessions by id. No id occurs twice.
pub struct SessionTable<S> {
    ids: Vec<String>,
    sessions: Vec<S>,
}

impl<S> SessionTable<S> {
    /// The table is consistent: one session per id, and no id twice.
    pub closed spec fn wf(&self) -> bool {
        &&& self.ids@.len() == self.sessions@.len()
        &&& forall|i: int, j: int|
            0 <= i < self.ids@.len() && 0 <= j < self.ids@.len() && i != j ==> #[trigger] self.ids@[i]@
                != #[trigger] self.ids@[j]@
    }

    /// Whether a session has id `k`.
    pub closed spec fn has(&self, k: Seq<char>) -> bool {
        exists|i: int| 0 <= i < self.ids@.len() && #[trigger] self.ids@[i]@ == k
    }

    /// Where the session with id `k` is kept.
    pub closed spec fn slot(&self, k: Seq<char>) -> int {
        choose|i: int| 0 <= i < self.ids@.len() && #[trigger] self.ids@[i]@ == k
    }

    /// The sessions by id.
    pub closed spec fn sessions_by_id(&self) -> Map<Seq<char>, S> {
        Map::new(|k: Seq<char>| self.has(k), |k: Seq<char>| self.sessions@[self.slot(k)])
    }

    /// The number of sessions.
    pub closed spec fn count(&self) -> nat {
        self.ids@.len()
    }

    /// The id kept at position `i`.
    pub closed spec fn id_at(&self, i: int) -> Seq<char> {
        self.ids@[i]@
    }

    /// The session kept at position `i`.
    pub closed spec fn session_at(&self, i: int) -> S {
        self.sessions@[i]
    }

    proof fn lemma_slot(&self, i: int)
        requires
            self.wf(),
            0 <= i < self.ids@.len(),
        ensures
            self.has(self.ids@[i]@),
            self.slot(self.ids@[i]@) == i,
    {
        let k = self.ids@[i]@;
        assert(self.has(k));
        let j = self.slot(k);
        if j != i {
            assert(self.ids@[i]@ != self.ids@[j]@);
        }
    }

    /// An empty table.
    pub fn new() -> (t: Self)
        ensures
            t.wf(),
            t.sessions_by_id() == Map::<Seq<char>, S>::empty(),
            t.count() == 0,
    {
        let t = SessionTable { ids: Vec::new(), sessions: Vec::new() };
        assert(t.sessions_by_id() =~= Map::<Seq<char>, S>::empty());
        t
    }

    /// The position of the session with id `id`.
    pub fn find(&self, id: &str) -> (r: Option<usize>)
        requires
            self.wf(),
        ensures
            r is Some <==> self.sessions_by_id().contains_key(id@),
            r matches Some(i) ==> i < self.count() && self.id_at(i as int) == id@,
    {
        let n = self.ids.len();
        for i in 0..n
            invariant
                n == self.ids@.len(),
                forall|j: int| 0 <= j < i ==> #[trigger] self.ids@[j]@ != id@,
        {
            if same_text(self.ids[i].as_str(), id) {
                proof {
                    assert(self.has(id@));
                }
                return Some(i);
            }
        }
        None
    }

    /// Adds a session under `id`; a session already under that id is
    /// replaced and handed back.
    pub fn insert(&mut self, id: String, session: S) -> (r: Option<S>)
        requires
            old(self).wf(),
        ensures
            final(self).wf(),
            final(self).sessions_by_id() == old(self).sessions_by_id().insert(id@, session),
            r is Some <==> old(self).sessions_by_id().contains_key(id@),
            r matches Some(s) ==> s == old(self).sessions_by_id()[id@],
    {
        match self.find(id.as_str()) {
            Some(i) => {
                let ghost before = *self;
                proof {
                    before.lemma_slot(i as int);
                }
                let mut s = session;
                self.sessions.set_and_swap(i, &mut s);
                proof {
                    assert(self.ids@ == before.ids@);
                    assert forall|k: Seq<char>| #[trigger] self.has(k) == before.has(k) by {}
                    assert forall|j: int| 0 <= j < self.ids@.len() implies self.slot(self.ids@[j]@)
                        == j by {
                        self.lemma_slot(j);
                    }
                    assert forall|k: Seq<char>| #[trigger] self.has(k) implies self.sessions@[self.slot(k)]
                        == (if k == id@ {
                        session
                    } else {
                        before.sessions@[before.slot(k)]
                    }) by {
                        let j = self.slot(k);
                        before.lemma_slot(j);
                        if k != id@ {
                            assert(j != i);
                        }
                    }
                    assert(self.sessions_by_id() =~= before.sessions_by_id().insert(id@, session));
                }
                Some(s)
            },
            None => {
                let ghost before = *self;
                let ghost k0 = id@;
                self.ids.push(id);
                self.sessions.push(session);
                proof {
                    let n = before.ids@.len() as int;
                    assert(self.ids@[n]@ == k0);
                    assert forall|i: int, j: int|
                        0 <= i < self.ids@.len() && 0 <= j < self.ids@.len() && i != j implies #[trigger] self.ids@[i]@
                        != #[trigger] self.ids@[j]@ by {
                        if i < n && j < n {
                            assert(before.ids@[i] == self.ids@[i]);
                            assert(before.ids@[j] == self.ids@[j]);
                        } else if i == n {
                            assert(self.ids@[j] == before.ids@[j]);
                            if self.ids@[j]@ == k0 {
                                assert(before.has(k0));
                            }
                        } else {
                            assert(self.ids@[i] == before.ids@[i]);
                            if self.ids@[i]@ == k0 {
                                assert(before.has(k0));
                            }
                        }
                    }
                    assert forall|k: Seq<char>| #[trigger] self.has(k) == (before.has(k) || k == k0) by {
                        if before.has(k) {
                            let j = before.slot(k);
                            assert(self.ids@[j] == before.ids@[j]);
                        }
                        if self.has(k) && k != k0 {
                            let j = self.slot(k);
                            assert(j < n);
                            assert(self.ids@[j] == before.ids@[j]);
                        }
                    }
                    assert forall|k: Seq<char>| #[trigger] self.has(k) implies self.sessions@[self.slot(k)]
                        == (if k == k0 {
                        session
                    } else {
                        before.sessions@[before.slot(k)]
                    }) by {
                        let j = self.slot(k);
                        self.lemma_slot(j);
                        if k == k0 {
                            self.lemma_slot(n);
                        } else {
                            assert(j < n);
                            assert(self.ids@[j] == before.ids@[j]);
                            before.lemma_slot(j);
                        }
                    }
                    assert(self.sessions_by_id() =~= before.sessions_by_id().insert(k0, session));
                }
                None
            },
        }
    }

    /// Removes the session under `id`, handing it back.
    pub fn remove(&mut self, id: &str) -> (r: Option<S>)
        requires
            old(self).wf(),
        ensures
            final(self).wf(),
            final(self).sessions_by_id() == old(self).sessions_by_id().remove(id@),
            r is Some <==> old(self).sessions_by_id().contains_key(id@),
            r matches Some(s) ==> s == old(self).sessions_by_id()[id@],
    {
        match self.find(id) {
            Some(i) => {
                let ghost before = *self;
                proof {
                    before.lemma_slot(i as int);
                }
                let ghost n = before.ids@.len() as int;
                let _gone_id = self.ids.swap_remove(i);
                let s = self.sessions.swap_remove(i);
                proof {
                    // where each surviving id came from
                    assert forall|j: int| 0 <= j < self.ids@.len() implies #[trigger] self.ids@[j]
                        == before.ids@[if j == i {
                        n - 1
                    } else {
                        j
                    }] && self.sessions@[j] == before.sessions@[if j == i {
                        n - 1
                    } else {
                        j
                    }] by {}
                    assert forall|a: int, b: int|
                        0 <= a < self.ids@.len() && 0 <= b < self.ids@.len() && a != b implies #[trigger] self.ids@[a]@
                        != #[trigger] self.ids@[b]@ by {
                        let sa = if a == i {
                            n - 1
                        } else {
                            a
                        };
                        let sb = if b == i {
                            n - 1
                        } else {
                            b
                        };
                        assert(self.ids@[a] == before.ids@[sa]);
                        assert(self.ids@[b] == before.ids@[sb]);
                        assert(sa != sb);
                    }
                    assert forall|k: Seq<char>| #[trigger] self.has(k) == (before.has(k) && k != id@) by {
                        if self.has(k) {
                            let j = self.slot(k);
                            let sj = if j == i {
                                n - 1
                            } else {
                                j
                            };
                            assert(self.ids@[j] == before.ids@[sj]);
                            assert(sj != i);
                            if k == id@ {
                                assert(before.ids@[sj]@ != before.ids@[i as int]@);
                            }
                        }
                        if before.has(k) && k != id@ {
                            let j = before.slot(k);
                            assert(j != i);
                            if j == n - 1 {
                                assert(self.ids@[i as int] == before.ids@[j]);
                            } else {
                                assert(self.ids@[j] == before.ids@[j]);
                            }
                        }
                    }
                    assert forall|k: Seq<char>| #[trigger] self.has(k) implies self.sessions@[self.slot(k)]
                        == before.sessions@[before.slot(k)] by {
                        let j = self.slot(k);
                        self.lemma_slot(j);
                        let sj = if j == i {
                            n - 1
                        } else {
                            j
                        };
                        assert(self.ids@[j] == before.ids@[sj]);
                        before.lemma_slot(sj);
                    }
                    assert(self.sessions_by_id() =~= before.sessions_by_id().remove(id@));
                }
                Some(s)
            },
            None => {
                proof {
                    assert(self.sessions_by_id() =~= self.sessions_by_id().remove(id@));
                }
                None
            },
        }
    }

    /// The session under `id`.
    pub fn get(&self, id: &str) -> (r: Option<&S>)
        requires
            self.wf(),
        ensures
            r is Some <==> self.sessions_by_id().contains_key(id@),
            r matches Some(s) ==> *s == self.sessions_by_id()[id@],
    {
        match self.find(id) {
            Some(i) => {
                proof {
                    self.lemma_slot(i as int);
                }
                Some(&self.sessions[i])
            },
            None => None,
        }
    }

    /// A consistent table lists each id once, and lists as many entries as
    /// it holds sessions.
    pub proof fn lemma_listing(&self)
        requires
            self.wf(),
        ensures
            forall|i: int, j: int|
                0 <= i < self.count() && 0 <= j < self.count() && i != j ==> #[trigger] self.id_at(i)
                    != #[trigger] self.id_at(j),
            forall|i: int| 0 <= i < self.count() ==> self.sessions_by_id().contains_key(#[trigger] self.id_at(i)),
            self.sessions_by_id().dom().finite(),
            self.sessions_by_id().len() == self.count(),
    {
        let ids = texts_of(self.ids@);
        assert(ids.no_duplicates()) by {
            assert forall|i: int, j: int| 0 <= i < ids.len() && 0 <= j < ids.len() && i != j implies ids[i]
                != ids[j] by {
                assert(ids[i] == self.ids@[i]@);
                assert(ids[j] == self.ids@[j]@);
            }
        }
        ids.unique_seq_to_set();
        assert(self.sessions_by_id().dom() =~= ids.to_set()) by {
            assert forall|k: Seq<char>| #[trigger] self.has(k) implies ids.to_set().contains(k) by {
                let i = choose|i: int| 0 <= i < self.ids@.len() && #[trigger] self.ids@[i]@ == k;
                assert(ids[i] == k);
            }
            assert forall|k: Seq<char>| ids.to_set().contains(k) implies #[trigger] self.has(k) by {
                let i = choose|i: int| 0 <= i < ids.len() && ids[i] == k;
                assert(self.ids@[i]@ == k);
            }
        }
        assert forall|i: int| 0 <= i < self.count() implies self.sessions_by_id().contains_key(
            #[trigger] self.id_at(i),
        ) by {
            self.lemma_slot(i);
        }
    }

    /// The number of sessions; in a consistent table, the number of ids it
    /// maps.
    pub fn len(&self) -> (r: usize)
        ensures
            r == self.count(),
            self.wf() ==> r == self.sessions_by_id().len(),
    {
        proof {
            if self.wf() {
                self.lemma_listing();
            }
        }
        self.ids.len()
    }

    /// The id and session kept at position `i`, for listing.
    pub fn entry(&self, i: usize) -> (r: (&str, &S))
        requires
            self.wf(),
            i < self.count(),
        ensures
            r.0@ == self.id_at(i as int),
            *r.1 == self.session_at(i as int),
            self.sessions_by_id().contains_key(r.0@),
            self.sessions_by_id()[r.0@] == *r.1,
    {
        proof {
            self.lemma_slot(i as int);
        }
        (self.ids[i].as_str(), &self.sessions[i])
    }

    /// Replacing the session at position `i` keeps the table consistent and
    /// changes only the session under that position's id.
    proof fn lemma_replaced(before: Self, after: Self, i: int, s: S)
        requires
            before.wf(),
            0 <= i < before.ids@.len(),
            after.ids@ == before.ids@,
            after.sessions@ == before.sessions@.update(i, s),
        ensures
            after.wf(),
            after.sessions_by_id() == before.sessions_by_id().insert(before.ids@[i]@, s),
    {
        before.lemma_slot(i);
        let k0 = before.ids@[i]@;
        assert forall|k: Seq<char>| #[trigger] after.has(k) == before.has(k) by {}
        assert forall|k: Seq<char>| #[trigger] after.has(k) implies after.sessions@[after.slot(k)]
            == (if k == k0 {
            s
        } else {
            before.sessions@[before.slot(k)]
        }) by {
            let j = after.slot(k);
            before.lemma_slot(j);
            after.lemma_slot(j);
        }
        assert(after.sessions_by_id() =~= before.sessions_by_id().insert(k0, s));
    }

    /// The session kept at position `i`, to be changed in place; the table
    /// then holds the changed session under the same id.
    pub fn session_at_mut(&mut self, i: usize) -> (r: &mut S)
        requires
            old(self).wf(),
            i < old(self).count(),
        ensures
            *r == old(self).session_at(i as int),
            final(self).wf(),
            final(self).sessions_by_id() == old(self).sessions_by_id().insert(
                old(self).id_at(i as int),
                *final(r),
            ),
    {
        proof {
            let before = *self;
            assert forall|after: Self| after.ids@ == before.ids@ && after.sessions@.len()
                == before.sessions@.len() implies #[trigger] after.wf() by {}
            assert forall|after: Self, s: S|
                after.ids@ == before.ids@ && after.sessions@ == before.sessions@.update(
                    i as int,
                    s,
                ) implies #[trigger] after.sessions_by_id() == #[trigger] before.sessions_by_id().insert(
                before.ids@[i as int]@,
                s,
            ) by {
                Self::lemma_replaced(before, after, i as int, s);
            }
        }
        &mut self.sessions[i]
    }
}

// --- session decisions ------------------------------------------------------

/// The psession operations.
#[derive(Clone, Copy, Debug, PartialEq, Eq, Structural)]
pub enum SessionOp {
    Create,
    Run,
    Destroy,
    List,
    Read,
}

/// The name an operation is called by.
pub open spec fn op_name(op: SessionOp) -> Seq<char> {
    match op {
        SessionOp::Create => "psession_create"@,
        SessionOp::Run => "psession_run"@,
        SessionOp::Destroy => "psession_destroy"@,
        SessionOp::List => "psession_list"@,
        SessionOp::Read => "psession_read"@,
    }
}

/// The operation called `name`, when there is one.
pub fn op_for(name: &str) -> (r: Option<SessionOp>)
    ensures
        r matches Some(op) ==> op_name(op) == name@,
        r is None ==> (forall|op: SessionOp| op_name(op) != name@),
{
    if same_text(name, "psession_create") {
        Some(SessionOp::Create)
    } else if same_text(name, "psession_run") {
        Some(SessionOp::Run)
    } else if same_text(name, "psession_destroy") {
        Some(SessionOp::Destroy)
    } else if same_text(name, "psession_list") {
        Some(SessionOp::List)
    } else if same_text(name, "psession_read") {
        Some(SessionOp::Read)
    } else {
        proof {
            assert forall|op: SessionOp| op_name(op) != name@ by {
                match op {
                    SessionOp::Create => {},
                    SessionOp::Run => {},
                    SessionOp::Destroy => {},
                    SessionOp::List => {},
                    SessionOp::Read => {},
                }
            }
        }
        None
    }
}

/// The message for an unknown operation name.
pub open spec fn unknown_op_error(name: Seq<char>) -> Seq<char> {
    "unknown psession tool: "@ + name
}

/// The message for an unknown operation name.
pub fn unknown_op(name: &str) -> (r: String)
    ensures
        r@ == unknown_op_error(name@),
{
    let mut msg = "unknown psession tool: ".to_owned();
    msg.append(name);
    msg
}

/// The id of the PowerShell session named `name`.
pub open spec fn session_id_of(name: Seq<char>) -> Seq<char> {
    "powershell_"@ + name
}

/// The id of the PowerShell session named `name`.
pub fn session_id_for(name: &str) -> (r: String)
    ensures
        r@ == session_id_of(name@),
{
    let mut id = "powershell_".to_owned();
    id.append(name);
    id
}

/// The message for an unknown session id.
pub open spec fn not_found_error(id: Seq<char>) -> Seq<char> {
    "session not found: "@ + id
}

/// The message for an unknown session id.
pub fn not_found(id: &str) -> (r: String)
    ensures
        r@ == not_found_error(id@),
{
    let mut msg = "session not found: ".to_owned();
    msg.append(id);
    msg
}

/// A run needs both a session id and a command.
pub fn check_run_request(session_id: &str, command: &str) -> (r: Result<(), String>)
    ensures
        r is Ok <==> session_id@.len() > 0 && command@.len() > 0,
        r matches Err(e) ==> e@ == "session_id and command are required"@,
{
    if session_id.unicode_len() == 0 || command.unicode_len() == 0 {
        Err("session_id and command are required".to_owned())
    } else {
        Ok(())
    }
}

/// Destroying or reading needs a session id.
pub fn check_session_id(session_id: &str) -> (r: Result<(), String>)
    ensures
        r is Ok <==> session_id@.len() > 0,
        r matches Err(e) ==> e@ == "session_id is required"@,
{
    if session_id.unicode_len() == 0 {
        Err("session_id is required".to_owned())
    } else {
        Ok(())
    }
}

/// A lower-case hex digit.
pub open spec fn is_lower_hex(c: char) -> bool {
    ('0' <= c <= '9') || ('a' <= c <= 'f')
}

/// The hyphenated UUID layout: 36 characters, hyphens at positions 8, 13, 18
/// and 23, lower-case hex digits elsewhere.
pub open spec fn is_hyphenated_uuid(t: Seq<char>) -> bool {
    &&& t.len() == 36
    &&& forall|i: int|
        0 <= i < 36 ==> (if i == 8 || i == 13 || i == 18 || i == 23 {
            #[trigger] t[i] == '-'
        } else {
            is_lower_hex(t[i])
        })
}

/// `uuid::Uuid::new_v4().to_string()`: a random version-4 UUID in its
/// hyphenated lower-case text form (`Display` for `Uuid`). Promised: that
/// layout; which digits is random. Generation panics when the operating
/// system's random source fails, which no input decides.
#[verifier::external_body]
fn new_uuid_text() -> (r: String)
    ensures
        is_hyphenated_uuid(r@),
{
    uuid::Uuid::new_v4().to_string()
}

/// The head of a completion marker: the first eight bytes of the
/// identifier's UTF-8 text when it has that many and they end on a
/// character boundary, otherwise eight zeros.
pub open spec fn marker_head(id: Seq<char>) -> Seq<char> {
    let b = encode_utf8(id);
    if b.len() >= 8 && is_char_boundary(b, 8) {
        decode_utf8(b.take(8))
    } else {
        "00000000"@
    }
}

/// The completion marker built from an identifier text: `__DONE_`, its
/// head, `__`.
pub open spec fn marker_of(id: Seq<char>) -> Seq<char> {
    "__DONE_"@ + marker_head(id) + "__"@
}

/// For an ASCII identifier of at least eight characters the head is its
/// first eight characters.
proof fn lemma_ascii_head(id: Seq<char>)
    requires
        is_ascii_chars(id),
        id.len() >= 8,
    ensures
        marker_head(id) == id.take(8),
{
    let b = encode_utf8(id);
    let x = id.take(8);
    assert(is_ascii_chars(x));
    is_ascii_chars_encode_utf8(id);
    is_ascii_chars_encode_utf8(x);
    encode_utf8_valid_utf8(id);
    is_char_boundary_start_end_of_seq(b);
    if b.len() > 8 {
        is_char_boundary_iff_not_is_continuation_byte(b, 8);
        assert(id[8] as u8 == b[8]);
        let c = id[8];
        assert('\0' <= c <= '\u{7f}');
        assert((c as u32) < 128);
        assert(b[8] < 0x80) by {
            assert(b[8] == c as u8);
        }
    }
    assert(b.take(8) =~= encode_utf8(x)) by {
        assert forall|i: int| 0 <= i < 8 implies b.take(8)[i] == encode_utf8(x)[i] by {
            assert(x[i] == id[i]);
            assert(id[i] as u8 == b[i]);
            assert(x[i] as u8 == encode_utf8(x)[i]);
        }
    }
    encode_utf8_decode_utf8(x);
}

/// The completion marker for an identifier.
pub fn marker_from(id: &str) -> (r: String)
    requires
        id.spec_bytes().len() <= usize::MAX,
    ensures
        r@ == marker_of(id@),
{
    let mut m = "__DONE_".to_owned();
    if id.len() >= 8 && id.is_char_boundary(8) {
        let (head, _) = id.split_at(8);
        proof {
            encode_utf8_decode_utf8(head@);
            assert(id.spec_bytes().subrange(0, 8) =~= id.spec_bytes().take(8));
        }
        m.append(head);
    } else {
        m.append("00000000");
    }
    m.append("__");
    m
}

/// A fresh completion marker: `__DONE_`, eight random lower-case hex
/// digits, `__`.
pub fn fresh_marker() -> (r: String)
    ensures
        exists|id: Seq<char>| #![trigger marker_of(id)] is_hyphenated_uuid(id) && r@ == marker_of(id),
        r@.len() == 17,
        r@.take(7) == "__DONE_"@,
        r@.skip(15) == "__"@,
        forall|i: int| 7 <= i < 15 ==> is_lower_hex(#[trigger] r@[i]),
{
    let id = new_uuid_text();
    proof {
        assert(is_ascii_chars(id@)) by {
            assert forall|i: int| 0 <= i < id@.len() implies '\0' <= #[trigger] id@[i] <= '\u{7f}' by {
                assert(i == 8 || i == 13 || i == 18 || i == 23 || is_lower_hex(id@[i]));
            }
        }
        is_ascii_chars_encode_utf8(id@);
        lemma_ascii_head(id@);
    }
    let r = marker_from(id.as_str());
    proof {
        reveal_strlit("__DONE_");
        reveal_strlit("__");
        assert(is_hyphenated_uuid(id@) && r@ == marker_of(id@));
        let mid = id@.take(8);
        assert(r@ =~= "__DONE_"@ + mid + "__"@);
        assert(r@.take(7) =~= "__DONE_"@);
        assert(r@.skip(15) =~= "__"@);
        assert forall|i: int| 7 <= i < 15 implies is_lower_hex(#[trigger] r@[i]) by {
            assert(r@[i] == id@[i - 7]);
            assert(i - 7 != 8 && i - 7 != 13 && i - 7 != 18 && i - 7 != 23);
        }
    }
    r
}

/// The text written to the session for one run: the command, then a line
/// that echoes the marker.
pub open spec fn run_script(command: Seq<char>, marker: Seq<char>) -> Seq<char> {
    command + "\nWrite-Output '"@ + marker + "'\n"@
}

/// The text written to the session for one run.
pub fn script_for(command: &str, marker: &str) -> (r: String)
    ensures
        r@ == run_script(command@, marker@),
{
    let mut s = command.to_owned();
    s.append("\nWrite-Output '");
    s.append(marker);
    s.append("'\n");
    s
}

/// The first line at or after `from` that holds the marker.
pub open spec fn marker_line(buf: Seq<Seq<char>>, from: int, marker: Seq<char>) -> Option<int>
    decreases buf.len() - from,
{
    if from < 0 || from >= buf.len() {
        None
    } else if occurs(buf[from], marker) {
        Some(from)
    } else {
        marker_line(buf, from + 1, marker)
    }
}

/// The marker line is the first line at or after `from` that holds the
/// marker anywhere; there is none only when no such line holds it.
pub proof fn lemma_marker_line(buf: Seq<Seq<char>>, from: int, marker: Seq<char>)
    requires
        0 <= from,
    ensures
        match marker_line(buf, from, marker) {
            Some(k) => {
                &&& from <= k < buf.len()
                &&& occurs(buf[k], marker)
                &&& forall|j: int| from <= j < k ==> !occurs(#[trigger] buf[j], marker)
            },
            None => forall|j: int| from <= j < buf.len() ==> !occurs(#[trigger] buf[j], marker),
        },
    decreases buf.len() - from,
{
    if from < buf.len() && !occurs(buf[from], marker) {
        lemma_marker_line(buf, from + 1, marker);
    }
}

/// A completed run reports exactly the lines written after `start` and
/// before the first line holding the marker, so never a marker line; a run
/// still waiting reports every line after `start`.
pub proof fn lemma_run_output(buf: Seq<Seq<char>>, start: int, marker: Seq<char>)
    requires
        0 <= start,
    ensures
        run_output(buf, start, marker).1 ==> exists|k: int|
            start <= k < buf.len() && occurs(buf[k], marker) && run_output(buf, start, marker).0
                == buf.subrange(start, k),
        forall|i: int|
            0 <= i < run_output(buf, start, marker).0.len() && run_output(buf, start, marker).1
                ==> !occurs(#[trigger] run_output(buf, start, marker).0[i], marker),
        !run_output(buf, start, marker).1 ==> run_output(buf, start, marker).0 == (if start < buf.len() {
            buf.subrange(start, buf.len() as int)
        } else {
            Seq::empty()
        }),
{
    lemma_marker_line(buf, start, marker);
    let out = run_output(buf, start, marker);
    if out.1 {
        let k = marker_line(buf, start, marker)->0;
        assert forall|i: int| 0 <= i < out.0.len() implies !occurs(#[trigger] out.0[i], marker) by {
            assert(out.0[i] == buf[start + i]);
        }
    }
}

/// The tail of a buffer: its last `tail` lines, or all of it when shorter,
/// in order and ending with the buffer's last line.
pub proof fn lemma_tail(buf: Seq<Seq<char>>, tail: nat)
    ensures
        tail_of(buf, tail).len() == (if tail < buf.len() {
            tail
        } else {
            buf.len()
        }),
        buf == buf.take(buf.len() - tail_of(buf, tail).len()) + tail_of(buf, tail),
{
    assert(buf =~= buf.take(buf.len() - tail_of(buf, tail).len()) + tail_of(buf, tail));
}

/// The output of a run, read from the buffer from `start` on: the lines
/// before the marker when it has appeared, otherwise everything after
/// `start`.
pub open spec fn run_output(buf: Seq<Seq<char>>, start: int, marker: Seq<char>) -> (Seq<Seq<char>>, bool) {
    match marker_line(buf, start, marker) {
        Some(k) => (buf.subrange(start, k), true),
        None => if buf.len() > start {
            (buf.subrange(start, buf.len() as int), false)
        } else {
            (Seq::empty(), false)
        },
    }
}

/// Reads a run's output from the buffer, reporting whether the marker was
/// seen.
pub fn collect_output(buf: &Vec<String>, start: usize, marker: &str) -> (r: (Vec<String>, bool))
    ensures
        run_output(texts_of(buf@), start as int, marker@) == (texts_of(r.0@), r.1),
{
    let ghost bv = texts_of(buf@);
    let mk = chars_of(marker);
    let n = buf.len();
    if start >= n {
        let none: Vec<String> = Vec::new();
        proof {
            assert(texts_of(none@) =~= Seq::<Seq<char>>::empty());
        }
        return (none, false);
    }
    let mut k: usize = start;
    let mut found = false;
    while k < n && !found
        invariant
            n == buf@.len(),
            bv == texts_of(buf@),
            bv.len() == n,
            mk@ == marker@,
            start <= k <= n,
            start < n,
            found ==> k < n && occurs(bv[k as int], marker@),
            marker_line(bv, start as int, marker@) == marker_line(bv, k as int, marker@),
        decreases n - k, (if found { 0int } else { 1int }),
    {
        proof {
            assert(bv[k as int] == buf@[k as int]@);
        }
        if occurs_in(&chars_of(buf[k].as_str()), &mk) {
            found = true;
        } else {
            k += 1;
        }
    }
    let mut out: Vec<String> = Vec::new();
    let end = if found {
        k
    } else {
        n
    };
    let mut i = start;
    proof {
        assert(texts_of(out@) =~= bv.subrange(start as int, start as int));
    }
    while i < end
        invariant
            start <= i <= end,
            end <= n,
            n == buf@.len(),
            bv == texts_of(buf@),
            texts_of(out@) == bv.subrange(start as int, i as int),
        decreases end - i,
    {
        let line = buf[i].clone();
        proof {
            assert(texts_of(out@.push(line)) =~= texts_of(out@).push(line@));
            assert(bv.subrange(start as int, i + 1) =~= bv.subrange(start as int, i as int).push(
                bv[i as int],
            ));
        }
        out.push(line);
        i += 1;
    }
    (out, found)
}

/// What a run reports: its output lines joined by line feeds, how many there
/// are, and whether the marker was seen before the wait ended.
pub struct RunReport {
    pub output: String,
    pub lines: usize,
    pub completed: bool,
    pub timed_out: bool,
}

/// The lines of a buffer from `start` on (none when `start` is past its end).
pub open spec fn lines_from(buf: Seq<Seq<char>>, start: int) -> Seq<Seq<char>> {
    if start < buf.len() {
        buf.subrange(start, buf.len() as int)
    } else {
        Seq::empty()
    }
}

/// The report of a run whose marker has appeared: the lines written after
/// `start` up to the marker line, not including it. `None` while the marker
/// has not appeared.
pub fn completed_report(buf: &Vec<String>, start: usize, marker: &str) -> (r: Option<RunReport>)
    ensures
        r is Some <==> marker_line(texts_of(buf@), start as int, marker@) is Some,
        r matches Some(rep) ==> {
            &&& rep.completed
            &&& !rep.timed_out
            &&& rep.output@ == joined(run_output(texts_of(buf@), start as int, marker@).0, "\n"@)
            &&& rep.lines == run_output(texts_of(buf@), start as int, marker@).0.len()
        },
{
    let (lines, seen) = collect_output(buf, start, marker);
    if seen {
        let n = lines.len();
        Some(RunReport { output: join_texts(lines.as_slice(), "\n"), lines: n, completed: true, timed_out: false })
    } else {
        None
    }
}

/// The report of a run whose wait ended before the marker appeared: every
/// line written after `start`.
pub fn timed_out_report(buf: &Vec<String>, start: usize) -> (r: RunReport)
    ensures
        !r.completed,
        r.timed_out,
        r.output@ == joined(lines_from(texts_of(buf@), start as int), "\n"@),
        r.lines == lines_from(texts_of(buf@), start as int).len(),
{
    let total = buf.len();
    let from = if start < total {
        start
    } else {
        total
    };
    let slice = &buf.as_slice()[from..total];
    proof {
        assert(texts_of(slice@) =~= lines_from(texts_of(buf@), start as int));
    }
    RunReport { output: join_texts(slice, "\n"), lines: total - from, completed: false, timed_out: true }
}

/// Records a command in a session's history once it has been written to the
/// session; a command that could not be written is not recorded.
pub fn record_command(history: &mut Vec<String>, command: &str, written: bool)
    ensures
        texts_of(final(history)@) == (if written {
            texts_of(old(history)@).push(command@)
        } else {
            texts_of(old(history)@)
        }),
{
    if written {
        let ghost before = history@;
        let c = command.to_owned();
        history.push(c);
        proof {
            assert(texts_of(history@) =~= texts_of(before).push(command@));
        }
    }
}

/// The last `tail` lines of a buffer (all of them when it is shorter).
pub open spec fn tail_of(buf: Seq<Seq<char>>, tail: nat) -> Seq<Seq<char>> {
    if tail >= buf.len() {
        buf
    } else {
        buf.subrange(buf.len() - tail, buf.len() as int)
    }
}

/// The last `tail` lines of a buffer joined by line feeds.
pub fn tail_text(buf: &Vec<String>, tail: usize) -> (r: String)
    ensures
        r@ == joined(tail_of(texts_of(buf@), tail as nat), "\n"@),
{
    let total = buf.len();
    let start = total.saturating_sub(tail);
    let slice = &buf.as_slice()[start..total];
    proof {
        if tail >= total {
            assert(texts_of(slice@) =~= texts_of(buf@));
        } else {
            assert(texts_of(slice@) =~= texts_of(buf@).subrange(total - tail, total as int));
        }
    }
    crate::text::join_texts(slice, "\n")
}

} // verus!
