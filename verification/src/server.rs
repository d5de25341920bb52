//! server — the decisions of the HTTP front: `serve` option parsing and the
//! bearer-token check that guards the MCP endpoint.
use vstd::prelude::*;
use crate::text::{prefixed, same_text, strip_prefix_text};
use vstd::string::StringSliceAdditionalSpecFns;

verus! {

// --- serve options ----------------------------------------------------------

/// The texts of parsed `serve` options.
pub struct OptsView {
    pub bind: Seq<char>,
    pub profile: Seq<char>,
    pub root: Option<Seq<char>>,
    pub read_only: bool,
}

/// Parsed `serve` options. `bind` is still text: it is checked as a socket
/// address where the listener is opened.
pub struct ServeOpts {
    pub bind: String,
    pub profile: String,
    pub root: Option<String>,
    pub read_only: bool,
}

impl View for ServeOpts {
    type V = OptsView;

    open spec fn view(&self) -> OptsView {
        OptsView {
            bind: self.bind@,
            profile: self.profile@,
            root: match self.root {
                Some(r) => Some(r@),
                None => None,
            },
            read_only: self.read_only,
        }
    }
}

/// The options in force before any argument is read.
pub open spec fn default_opts() -> OptsView {
    OptsView { bind: "127.0.0.1:9100"@, profile: "lean"@, root: None, read_only: false }
}

/// The message for a flag given last, without its value.
pub open spec fn missing_value(flag: Seq<char>) -> Seq<char> {
    flag + " requires a value"@
}

pub open spec fn with_bind(st: OptsView, v: Seq<char>) -> OptsView {
    OptsView { bind: v, profile: st.profile, root: st.root, read_only: st.read_only }
}

pub open spec fn with_profile(st: OptsView, v: Seq<char>) -> OptsView {
    OptsView { bind: st.bind, profile: v, root: st.root, read_only: st.read_only }
}

pub open spec fn with_root(st: OptsView, v: Seq<char>) -> OptsView {
    OptsView { bind: st.bind, profile: st.profile, root: Some(v), read_only: st.read_only }
}

pub open spec fn with_read_only(st: OptsView) -> OptsView {
    OptsView { bind: st.bind, profile: st.profile, root: st.root, read_only: true }
}

/// Reads the arguments from position `i` on: `--bind`/`-b`, `--profile`/`-p`
/// and `--root`/`-r` take the next argument (or the text after `=` in their
/// long form), `--read-only` sets the flag, anything else is skipped. A
/// later occurrence overrides an earlier one.
pub open spec fn parse_from(args: Seq<Seq<char>>, i: int, st: OptsView) -> Result<OptsView, Seq<char>>
    decreases args.len() - i,
{
    if i < 0 || i >= args.len() {
        Ok(st)
    } else {
        let a = args[i];
        if a == "--bind"@ || a == "-b"@ {
            if i + 1 < args.len() {
                parse_from(args, i + 2, with_bind(st, args[i + 1]))
            } else {
                Err(missing_value("--bind"@))
            }
        } else if prefixed(a, "--bind="@) {
            parse_from(args, i + 1, with_bind(st, a.skip("--bind="@.len() as int)))
        } else if a == "--profile"@ || a == "-p"@ {
            if i + 1 < args.len() {
                parse_from(args, i + 2, with_profile(st, args[i + 1]))
            } else {
                Err(missing_value("--profile"@))
            }
        } else if prefixed(a, "--profile="@) {
            parse_from(args, i + 1, with_profile(st, a.skip("--profile="@.len() as int)))
        } else if a == "--root"@ || a == "-r"@ {
            if i + 1 < args.len() {
                parse_from(args, i + 2, with_root(st, args[i + 1]))
            } else {
                Err(missing_value("--root"@))
            }
        } else if prefixed(a, "--root="@) {
            parse_from(args, i + 1, with_root(st, a.skip("--root="@.len() as int)))
        } else if a == "--read-only"@ {
            parse_from(args, i + 1, with_read_only(st))
        } else {
            parse_from(args, i + 1, st)
        }
    }
}

/// The texts of a list of strings.
pub open spec fn texts(v: Seq<String>) -> Seq<Seq<char>> {
    v.map_values(|s: String| s@)
}

/// The outcome of reading `serve` arguments.
pub open spec fn serve_opts(args: Seq<Seq<char>>) -> Result<OptsView, Seq<char>> {
    parse_from(args, 0, default_opts())
}

/// Arguments that parse leave the parse at their end: what follows them is
/// read from the options they produced.
proof fn lemma_parse_append(args: Seq<Seq<char>>, tail: Seq<Seq<char>>, i: int, st: OptsView)
    requires
        0 <= i <= args.len(),
        parse_from(args, i, st) is Ok,
    ensures
        parse_from(args + tail, i, st) == parse_from(args + tail, args.len() as int, parse_from(args, i, st)->Ok_0),
    decreases args.len() - i,
{
    let ext = args + tail;
    if i < args.len() {
        let a = args[i];
        assert(ext[i] == a);
        if i + 1 < args.len() {
            assert(ext[i + 1] == args[i + 1]);
        }
        if a == "--bind"@ || a == "-b"@ {
            lemma_parse_append(args, tail, i + 2, with_bind(st, args[i + 1]));
        } else if prefixed(a, "--bind="@) {
            lemma_parse_append(args, tail, i + 1, with_bind(st, a.skip("--bind="@.len() as int)));
        } else if a == "--profile"@ || a == "-p"@ {
            lemma_parse_append(args, tail, i + 2, with_profile(st, args[i + 1]));
        } else if prefixed(a, "--profile="@) {
            lemma_parse_append(args, tail, i + 1, with_profile(st, a.skip("--profile="@.len() as int)));
        } else if a == "--root"@ || a == "-r"@ {
            lemma_parse_append(args, tail, i + 2, with_root(st, args[i + 1]));
        } else if prefixed(a, "--root="@) {
            lemma_parse_append(args, tail, i + 1, with_root(st, a.skip("--root="@.len() as int)));
        } else if a == "--read-only"@ {
            lemma_parse_append(args, tail, i + 1, with_read_only(st));
        } else {
            lemma_parse_append(args, tail, i + 1, st);
        }
    }
}

/// With no arguments the gateway binds 127.0.0.1:9100 with the lean
/// profile, no explicit root, read-write.
pub proof fn lemma_serve_defaults()
    ensures
        serve_opts(Seq::empty()) == Ok::<OptsView, Seq<char>>(
            OptsView { bind: "127.0.0.1:9100"@, profile: "lean"@, root: None, read_only: false },
        ),
{
}

/// `--bind=v`, `--bind v` and `-b v` each set the bind address to `v`,
/// whatever `v` is and whatever came before, leaving the other options as
/// they were; a later setting overrides an earlier one.
pub proof fn lemma_bind_option(args: Seq<Seq<char>>, v: Seq<char>)
    requires
        serve_opts(args) is Ok,
    ensures
        ({
            let o = serve_opts(args)->Ok_0;
            let set = Ok::<OptsView, Seq<char>>(
                OptsView { bind: v, profile: o.profile, root: o.root, read_only: o.read_only },
            );
            &&& serve_opts(args + seq!["--bind="@ + v]) == set
            &&& serve_opts(args + seq!["--bind"@, v]) == set
            &&& serve_opts(args + seq!["-b"@, v]) == set
        }),
{
    reveal_strlit("--bind");
    reveal_strlit("-b");
    reveal_strlit("--bind=");
    reveal_strlit("--profile");
    reveal_strlit("-p");
    reveal_strlit("--profile=");
    reveal_strlit("--root");
    reveal_strlit("-r");
    reveal_strlit("--root=");
    reveal_strlit("--read-only");
    let o = serve_opts(args)->Ok_0;
    let n = args.len() as int;
    let x = "--bind="@ + v;
    lemma_parse_append(args, seq![x], 0, default_opts());
    lemma_parse_append(args, seq!["--bind"@, v], 0, default_opts());
    lemma_parse_append(args, seq!["-b"@, v], 0, default_opts());
    assert(x.take(7) =~= "--bind="@);
    assert(x.skip(7) =~= v);
    assert((args + seq![x])[n] == x);
    assert((args + seq!["--bind"@, v])[n] == "--bind"@);
    assert((args + seq!["--bind"@, v])[n + 1] == v);
    assert((args + seq!["-b"@, v])[n] == "-b"@);
    assert((args + seq!["-b"@, v])[n + 1] == v);
    assert("-b"@ != "--bind"@);
    let e1 = args + seq![x];
    let e2 = args + seq!["--bind"@, v];
    let e3 = args + seq!["-b"@, v];
    assert(x != "--bind"@ && x != "-b"@);
    assert(parse_from(e1, n + 1, with_bind(o, v)) == Ok::<OptsView, Seq<char>>(with_bind(o, v)));
    assert(parse_from(e1, n, o) == Ok::<OptsView, Seq<char>>(with_bind(o, v)));
    assert(parse_from(e2, n + 2, with_bind(o, v)) == Ok::<OptsView, Seq<char>>(with_bind(o, v)));
    assert(parse_from(e2, n, o) == Ok::<OptsView, Seq<char>>(with_bind(o, v)));
    assert(parse_from(e3, n + 2, with_bind(o, v)) == Ok::<OptsView, Seq<char>>(with_bind(o, v)));
    assert(parse_from(e3, n, o) == Ok::<OptsView, Seq<char>>(with_bind(o, v)));
}

/// `--profile=v`, `--profile v` and `-p v` each set the profile name to
/// `v`, leaving the other options as they were.
pub proof fn lemma_profile_option(args: Seq<Seq<char>>, v: Seq<char>)
    requires
        serve_opts(args) is Ok,
    ensures
        ({
            let o = serve_opts(args)->Ok_0;
            let set = Ok::<OptsView, Seq<char>>(
                OptsView { bind: o.bind, profile: v, root: o.root, read_only: o.read_only },
            );
            &&& serve_opts(args + seq!["--profile="@ + v]) == set
            &&& serve_opts(args + seq!["--profile"@, v]) == set
            &&& serve_opts(args + seq!["-p"@, v]) == set
        }),
{
    reveal_strlit("--bind");
    reveal_strlit("-b");
    reveal_strlit("--bind=");
    reveal_strlit("--profile");
    reveal_strlit("-p");
    reveal_strlit("--profile=");
    reveal_strlit("--root");
    reveal_strlit("-r");
    reveal_strlit("--root=");
    reveal_strlit("--read-only");
    let n = args.len() as int;
    let x = "--profile="@ + v;
    lemma_parse_append(args, seq![x], 0, default_opts());
    lemma_parse_append(args, seq!["--profile"@, v], 0, default_opts());
    lemma_parse_append(args, seq!["-p"@, v], 0, default_opts());
    assert(x.take(10) =~= "--profile="@);
    assert(x.skip(10) =~= v);
    assert(x[2] == 'p');
    assert(x.len() >= 10);
    assert(x != "--bind"@ && x != "-b"@);
    assert(!prefixed(x, "--bind="@)) by {
        assert(x.take(7)[2] != "--bind="@[2]);
    }
    assert((args + seq![x])[n] == x);
    assert((args + seq!["--profile"@, v])[n] == "--profile"@);
    assert((args + seq!["--profile"@, v])[n + 1] == v);
    assert((args + seq!["-p"@, v])[n] == "-p"@);
    assert((args + seq!["-p"@, v])[n + 1] == v);
    assert(!prefixed("--profile"@, "--bind="@)) by {
        assert("--profile"@.take(7)[2] != "--bind="@[2]);
    }
    assert("-p"@ != "-b"@) by {
        assert("-p"@[1] != "-b"@[1]);
    }
    let o = serve_opts(args)->Ok_0;
    let w = with_profile(o, v);
    let e1 = args + seq![x];
    let e2 = args + seq!["--profile"@, v];
    let e3 = args + seq!["-p"@, v];
    assert(x != "--profile"@ && x != "-p"@);
    assert("--profile"@ != "--bind"@ && "--profile"@ != "-b"@);
    assert("-p"@ != "--bind"@ && !prefixed("-p"@, "--bind="@));
    assert(parse_from(e1, n + 1, w) == Ok::<OptsView, Seq<char>>(w));
    assert(parse_from(e1, n, o) == Ok::<OptsView, Seq<char>>(w));
    assert(parse_from(e2, n + 2, w) == Ok::<OptsView, Seq<char>>(w));
    assert(parse_from(e2, n, o) == Ok::<OptsView, Seq<char>>(w));
    assert(parse_from(e3, n + 2, w) == Ok::<OptsView, Seq<char>>(w));
    assert(parse_from(e3, n, o) == Ok::<OptsView, Seq<char>>(w));
}

/// `--root=v`, `--root v` and `-r v` each set the root to `v`, leaving the
/// other options as they were.
pub proof fn lemma_root_option(args: Seq<Seq<char>>, v: Seq<char>)
    requires
        serve_opts(args) is Ok,
    ensures
        ({
            let o = serve_opts(args)->Ok_0;
            let set = Ok::<OptsView, Seq<char>>(
                OptsView { bind: o.bind, profile: o.profile, root: Some(v), read_only: o.read_only },
            );
            &&& serve_opts(args + seq!["--root="@ + v]) == set
            &&& serve_opts(args + seq!["--root"@, v]) == set
            &&& serve_opts(args + seq!["-r"@, v]) == set
        }),
{
    reveal_strlit("--bind");
    reveal_strlit("-b");
    reveal_strlit("--bind=");
    reveal_strlit("--profile");
    reveal_strlit("-p");
    reveal_strlit("--profile=");
    reveal_strlit("--root");
    reveal_strlit("-r");
    reveal_strlit("--root=");
    reveal_strlit("--read-only");
    let n = args.len() as int;
    let x = "--root="@ + v;
    lemma_parse_append(args, seq![x], 0, default_opts());
    lemma_parse_append(args, seq!["--root"@, v], 0, default_opts());
    lemma_parse_append(args, seq!["-r"@, v], 0, default_opts());
    assert(x.take(7) =~= "--root="@);
    assert(x.skip(7) =~= v);
    assert(x[2] == 'r');
    assert(x != "--bind"@ && x != "-b"@ && x != "--profile"@ && x != "-p"@);
    assert(!prefixed(x, "--bind="@)) by {
        assert(x.take(7)[2] != "--bind="@[2]);
    }
    assert(!prefixed(x, "--profile="@)) by {
        if x.len() >= 10 {
            assert(x.take(10)[2] != "--profile="@[2]);
        }
    }
    assert((args + seq![x])[n] == x);
    assert((args + seq!["--root"@, v])[n] == "--root"@);
    assert((args + seq!["--root"@, v])[n + 1] == v);
    assert((args + seq!["-r"@, v])[n] == "-r"@);
    assert((args + seq!["-r"@, v])[n + 1] == v);
    assert("--root"@ != "--bind"@) by {
        assert("--root"@[2] != "--bind"@[2]);
    }
    assert("-r"@ != "-b"@ && "-r"@ != "-p"@) by {
        assert("-r"@[1] != "-b"@[1]);
        assert("-r"@[1] != "-p"@[1]);
    }
    let o = serve_opts(args)->Ok_0;
    let w = with_root(o, v);
    let e1 = args + seq![x];
    let e2 = args + seq!["--root"@, v];
    let e3 = args + seq!["-r"@, v];
    assert(x != "--root"@ && x != "-r"@);
    assert("--root"@ != "-b"@ && "--root"@ != "--profile"@ && "--root"@ != "-p"@);
    assert(!prefixed("--root"@, "--bind="@) && !prefixed("--root"@, "--profile="@));
    assert("-r"@ != "--bind"@ && "-r"@ != "--profile"@);
    assert(!prefixed("-r"@, "--bind="@) && !prefixed("-r"@, "--profile="@));
    assert(parse_from(e1, n + 1, w) == Ok::<OptsView, Seq<char>>(w));
    assert(parse_from(e1, n, o) == Ok::<OptsView, Seq<char>>(w));
    assert(parse_from(e2, n + 2, w) == Ok::<OptsView, Seq<char>>(w));
    assert(parse_from(e2, n, o) == Ok::<OptsView, Seq<char>>(w));
    assert(parse_from(e3, n + 2, w) == Ok::<OptsView, Seq<char>>(w));
    assert(parse_from(e3, n, o) == Ok::<OptsView, Seq<char>>(w));
}

/// `--read-only` turns read-only mode on, leaving the other options as they
/// were.
pub proof fn lemma_read_only_option(args: Seq<Seq<char>>)
    requires
        serve_opts(args) is Ok,
    ensures
        ({
            let o = serve_opts(args)->Ok_0;
            serve_opts(args + seq!["--read-only"@]) == Ok::<OptsView, Seq<char>>(
                OptsView { bind: o.bind, profile: o.profile, root: o.root, read_only: true },
            )
        }),
{
    reveal_strlit("--bind");
    reveal_strlit("-b");
    reveal_strlit("--bind=");
    reveal_strlit("--profile");
    reveal_strlit("-p");
    reveal_strlit("--profile=");
    reveal_strlit("--root");
    reveal_strlit("-r");
    reveal_strlit("--root=");
    reveal_strlit("--read-only");
    let n = args.len() as int;
    let x = "--read-only"@;
    lemma_parse_append(args, seq![x], 0, default_opts());
    assert((args + seq![x])[n] == x);
    assert(!prefixed(x, "--bind="@)) by {
        assert(x.take(7)[2] != "--bind="@[2]);
    }
    assert(!prefixed(x, "--profile="@)) by {
        assert(x.take(10)[2] != "--profile="@[2]);
    }
    assert(!prefixed(x, "--root="@)) by {
        assert(x.take(7)[3] != "--root="@[3]);
    }
    let o = serve_opts(args)->Ok_0;
    let w = with_read_only(o);
    let e1 = args + seq![x];
    assert(x != "--bind"@ && x != "-b"@ && x != "--profile"@ && x != "-p"@ && x != "--root"@ && x
        != "-r"@);
    assert(parse_from(e1, n + 1, w) == Ok::<OptsView, Seq<char>>(w));
    assert(parse_from(e1, n, o) == Ok::<OptsView, Seq<char>>(w));
}

/// Takes the value following the flag at `*i`, advancing `*i` onto it.
pub fn next_value(args: &[String], i: &mut usize, flag: &str) -> (r: Result<String, String>)
    requires
        *old(i) < usize::MAX,
    ensures
        *old(i) + 1 < args@.len() ==> (r matches Ok(v) && v@ == args@[*old(i) + 1]@),
        *old(i) + 1 < args@.len() ==> *final(i) == *old(i) + 1,
        *old(i) + 1 >= args@.len() ==> (r matches Err(e) && e@ == missing_value(flag@)),
        *old(i) + 1 >= args@.len() ==> *final(i) == *old(i),
{
    let k = *i + 1;
    if k < args.len() {
        *i = k;
        Ok(args[k].clone())
    } else {
        let mut msg = flag.to_owned();
        msg.append(" requires a value");
        Err(msg)
    }
}

/// Parses the `serve` arguments.
pub fn parse_opts(args: &[String]) -> (r: Result<ServeOpts, String>)
    ensures
        match r {
            Ok(o) => serve_opts(texts(args@)) == Ok::<OptsView, Seq<char>>(o@),
            Err(e) => serve_opts(texts(args@)) == Err::<OptsView, Seq<char>>(e@),
        },
{
    let ghost av = texts(args@);
    let mut st = ServeOpts {
        bind: "127.0.0.1:9100".to_owned(),
        profile: "lean".to_owned(),
        root: None,
        read_only: false,
    };
    let n = args.len();
    let mut i: usize = 0;
    while i < n
        invariant
            n == args@.len(),
            av == texts(args@),
            i <= n,
            serve_opts(av) == parse_from(av, i as int, st@),
        decreases n - i,
    {
        let ghost at = i;
        let a = args[i].as_str();
        proof {
            assert(av[i as int] == a@);
        }
        if same_text(a, "--bind") || same_text(a, "-b") {
            match next_value(args, &mut i, "--bind") {
                Ok(v) => {
                    proof {
                        assert(av[at + 1] == v@);
                    }
                    st.bind = v;
                },
                Err(e) => {
                    return Err(e);
                },
            }
        } else if let Some(v) = strip_prefix_text(a, "--bind=") {
            st.bind = v;
        } else if same_text(a, "--profile") || same_text(a, "-p") {
            match next_value(args, &mut i, "--profile") {
                Ok(v) => {
                    proof {
                        assert(av[at + 1] == v@);
                    }
                    st.profile = v;
                },
                Err(e) => {
                    return Err(e);
                },
            }
        } else if let Some(v) = strip_prefix_text(a, "--profile=") {
            st.profile = v;
        } else if same_text(a, "--root") || same_text(a, "-r") {
            match next_value(args, &mut i, "--root") {
                Ok(v) => {
                    proof {
                        assert(av[at + 1] == v@);
                    }
                    st.root = Some(v);
                },
                Err(e) => {
                    return Err(e);
                },
            }
        } else if let Some(v) = strip_prefix_text(a, "--root=") {
            st.root = Some(v);
        } else if same_text(a, "--read-only") {
            st.read_only = true;
        }
        i += 1;
    }
    Ok(st)
}

// --- bearer authentication --------------------------------------------------

/// Why a request to the MCP endpoint was refused.
#[derive(Clone, Copy, Debug, PartialEq, Eq, Structural)]
pub enum AuthFailure {
    MissingHeader,
    NonAscii,
    NotBearer,
    Mismatch,
}

impl AuthFailure {
    /// The reason written to the failure log.
    pub open spec fn reason_text(self) -> Seq<char> {
        match self {
            AuthFailure::MissingHeader => "missing Authorization header"@,
            AuthFailure::NonAscii => "non-ASCII Authorization header"@,
            AuthFailure::NotBearer => "Authorization header must start with 'Bearer '"@,
            AuthFailure::Mismatch => "bearer token mismatch"@,
        }
    }

    /// The reason written to the failure log.
    pub fn reason(&self) -> (r: &'static str)
        ensures
            r@ == self.reason_text(),
    {
        match self {
            AuthFailure::MissingHeader => "missing Authorization header",
            AuthFailure::NonAscii => "non-ASCII Authorization header",
            AuthFailure::NotBearer => "Authorization header must start with 'Bearer '",
            AuthFailure::Mismatch => "bearer token mismatch",
        }
    }
}

/// A header byte that reads as text: visible ASCII or tab.
pub open spec fn visible(b: u8) -> bool {
    (32 <= b && b < 127) || b == 9
}

pub open spec fn all_visible(s: Seq<u8>) -> bool {
    forall|i: int| 0 <= i < s.len() ==> visible(#[trigger] s[i])
}

/// The bytes of `Bearer `.
pub open spec fn bearer_prefix() -> Seq<u8> {
    seq![66u8, 101u8, 97u8, 114u8, 101u8, 114u8, 32u8]
}

/// The verdict on an `Authorization` header (its bytes, when present)
/// against the expected token bytes.
pub open spec fn bearer_verdict(header: Option<Seq<u8>>, expected: Seq<u8>) -> Result<(), AuthFailure> {
    match header {
        None => Err(AuthFailure::MissingHeader),
        Some(h) => if !all_visible(h) {
            Err(AuthFailure::NonAscii)
        } else if !(bearer_prefix().len() <= h.len() && h.take(bearer_prefix().len() as int)
            == bearer_prefix()) {
            Err(AuthFailure::NotBearer)
        } else if h.skip(bearer_prefix().len() as int) == expected {
            Ok(())
        } else {
            Err(AuthFailure::Mismatch)
        },
    }
}

pub open spec fn header_view(h: Option<&[u8]>) -> Option<Seq<u8>> {
    match h {
        Some(b) => Some(b@),
        None => None,
    }
}

/// Whether two byte strings are equal, examining every byte of equal-length
/// inputs whatever their contents.
pub fn constant_time_eq(a: &[u8], b: &[u8]) -> (r: bool)
    ensures
        r == (a@ == b@),
{
    if a.len() != b.len() {
        return false;
    }
    let n = a.len();
    let mut acc: u8 = 0;
    for i in 0..n
        invariant
            n == a@.len(),
            n == b@.len(),
            acc == 0 <==> forall|j: int| 0 <= j < i ==> #[trigger] a@[j] == b@[j],
    {
        let x = a[i];
        let y = b[i];
        assert((acc | (x ^ y)) == 0 <==> (acc == 0 && x == y)) by (bit_vector);
        acc = acc | (x ^ y);
    }
    proof {
        if acc == 0 {
            assert(a@ =~= b@);
        }
    }
    acc == 0
}

/// Checks the `Authorization` header of a request (its raw bytes, when
/// present) against the expected bearer token.
pub fn check_bearer(header: Option<&[u8]>, expected: &str) -> (r: Result<(), AuthFailure>)
    ensures
        r == bearer_verdict(header_view(header), expected.spec_bytes()),
{
    let h = match header {
        None => return Err(AuthFailure::MissingHeader),
        Some(h) => h,
    };
    let n = h.len();
    for i in 0..n
        invariant
            n == h@.len(),
            header_view(header) == Some(h@),
            forall|j: int| 0 <= j < i ==> visible(#[trigger] h@[j]),
    {
        let b = h[i];
        if !((32 <= b && b < 127) || b == 9) {
            return Err(AuthFailure::NonAscii);
        }
    }
    let prefix: [u8; 7] = [66u8, 101u8, 97u8, 114u8, 101u8, 114u8, 32u8];
    assert(prefix@ =~= bearer_prefix());
    if n < 7 {
        return Err(AuthFailure::NotBearer);
    }
    for i in 0..7
        invariant
            n == h@.len(),
            n >= 7,
            header_view(header) == Some(h@),
            all_visible(h@),
            prefix@ == bearer_prefix(),
            forall|j: int| 0 <= j < i ==> #[trigger] h@[j] == bearer_prefix()[j],
    {
        if h[i] != prefix[i] {
            proof {
                assert(h@.take(7)[i as int] != bearer_prefix()[i as int]);
            }
            return Err(AuthFailure::NotBearer);
        }
    }
    proof {
        assert(h@.take(7) =~= bearer_prefix());
    }
    let (_, token) = h.split_at(7);
    if constant_time_eq(token, expected.as_bytes()) {
        Ok(())
    } else {
        Err(AuthFailure::Mismatch)
    }
}

/// A request is let through exactly when its header is `Bearer ` followed by
/// the expected token, and that token reads as header text.
pub proof fn lemma_bearer_accepts_exactly(header: Option<Seq<u8>>, expected: Seq<u8>)
    ensures
        bearer_verdict(header, expected) is Ok <==> (header == Some(bearer_prefix() + expected)
            && all_visible(expected)),
{
    let p = bearer_prefix();
    match header {
        None => {},
        Some(h) => {
            if bearer_verdict(header, expected) is Ok {
                assert(h =~= p + expected) by {
                    assert(h.take(p.len() as int) + h.skip(p.len() as int) =~= h);
                }
                assert forall|i: int| 0 <= i < expected.len() implies visible(#[trigger] expected[i]) by {
                    assert(expected[i] == h[i + p.len()]);
                }
            }
            if h == p + expected && all_visible(expected) {
                assert(all_visible(h)) by {
                    assert forall|i: int| 0 <= i < h.len() implies visible(#[trigger] h[i]) by {
                        if i < p.len() {
                            assert(h[i] == p[i]);
                        } else {
                            assert(h[i] == expected[i - p.len()]);
                        }
                    }
                }
                assert(h.take(p.len() as int) =~= p);
                assert(h.skip(p.len() as int) =~= expected);
            }
        },
    }
}

/// The access-log line for an admitted request.
pub open spec fn access_line_text(timestamp: Seq<char>, peer: Seq<char>) -> Seq<char> {
    timestamp + " access /mcp peer="@ + peer + "\n"@
}

/// The failure-log line for a refused request.
pub open spec fn failure_line_text(timestamp: Seq<char>, peer: Seq<char>, reason: Seq<char>) -> Seq<char> {
    timestamp + " auth_fail peer="@ + peer + " reason="@ + reason + "\n"@
}

/// The access-log line for an admitted request.
pub fn access_line(timestamp: &str, peer: &str) -> (r: String)
    ensures
        r@ == access_line_text(timestamp@, peer@),
{
    let mut s = timestamp.to_owned();
    s.append(" access /mcp peer=");
    s.append(peer);
    s.append("\n");
    s
}

/// The failure-log line for a refused request.
pub fn failure_line(timestamp: &str, peer: &str, reason: &str) -> (r: String)
    ensures
        r@ == failure_line_text(timestamp@, peer@, reason@),
{
    let mut s = timestamp.to_owned();
    s.append(" auth_fail peer=");
    s.append(peer);
    s.append(" reason=");
    s.append(reason);
    s.append("\n");
    s
}

/// After a rotation the previous token no longer opens the endpoint: a
/// header carrying the old token is refused as a mismatch.
pub proof fn lemma_rotation_refuses_old_token(old_token: Seq<u8>, new_token: Seq<u8>)
    requires
        old_token != new_token,
        all_visible(old_token),
    ensures
        bearer_verdict(Some(bearer_prefix() + old_token), new_token) == Err::<(), AuthFailure>(
            AuthFailure::Mismatch,
        ),
{
    let h = bearer_prefix() + old_token;
    let p = bearer_prefix();
    assert(all_visible(h)) by {
        assert forall|i: int| 0 <= i < h.len() implies visible(#[trigger] h[i]) by {
            if i < p.len() {
                assert(h[i] == p[i]);
            } else {
                assert(h[i] == old_token[i - p.len()]);
            }
        }
    }
    assert(h.take(p.len() as int) =~= p);
    assert(h.skip(p.len() as int) =~= old_token);
}

} // verus!
