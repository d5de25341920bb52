//! auth — bearer-token generation and the decisions around storing it.
//!
//! Token format: 32 random bytes, hex-encoded in lower case (64 ASCII
//! characters).
use vstd::prelude::*;
use crate::text::{digit_text, hex_digit, same_text, trim, trimmed};

verus! {

/// The number of random bytes in a token.
pub const TOKEN_BYTES: usize = 32;

/// Lower-case hex encoding: two digits per byte, high nibble first.
pub open spec fn hex(bytes: Seq<u8>) -> Seq<char>
    decreases bytes.len(),
{
    if bytes.len() == 0 {
        Seq::empty()
    } else {
        hex(bytes.drop_last()) + seq![
            hex_digit((bytes.last() / 16) as int),
            hex_digit((bytes.last() % 16) as int),
        ]
    }
}

/// A lower-case hex digit.
pub open spec fn is_hex_digit(c: char) -> bool {
    ('0' <= c <= '9') || ('a' <= c <= 'f')
}

/// A token: the hex encoding of some `TOKEN_BYTES` bytes.
pub open spec fn is_token(t: Seq<char>) -> bool {
    exists|b: Seq<u8>| b.len() == TOKEN_BYTES && t == #[trigger] hex(b)
}

/// The text of a list of strings.
pub open spec fn arg_views(v: Seq<String>) -> Seq<Seq<char>> {
    v.map_values(|s: String| s@)
}

/// The arguments ask for an existing token to be overwritten.
pub open spec fn forced(args: Seq<Seq<char>>) -> bool {
    exists|i: int| 0 <= i < args.len() && (#[trigger] args[i] == "--force"@ || args[i] == "-f"@)
}

/// The hex encoding has two digits per byte, all of them lower-case hex.
pub proof fn lemma_hex_shape(bytes: Seq<u8>)
    ensures
        hex(bytes).len() == 2 * bytes.len(),
        forall|i: int| 0 <= i < hex(bytes).len() ==> is_hex_digit(#[trigger] hex(bytes)[i]),
    decreases bytes.len(),
{
    if bytes.len() > 0 {
        lemma_hex_shape(bytes.drop_last());
        let prev = hex(bytes.drop_last());
        let hi = bytes.last() / 16;
        let lo = bytes.last() % 16;
        assert(is_hex_digit(hex_digit(hi as int)));
        assert(is_hex_digit(hex_digit(lo as int)));
        assert forall|i: int| 0 <= i < hex(bytes).len() implies is_hex_digit(#[trigger] hex(bytes)[i]) by {
            if i < prev.len() {
                assert(hex(bytes)[i] == prev[i]);
            }
        }
    }
}

/// Lower-case hex encoding of `bytes`.
pub fn hex_encode(bytes: &[u8]) -> (r: String)
    ensures
        r@ == hex(bytes@),
{
    proof {
        reveal_strlit("");
    }
    let mut out = "".to_owned();
    let n = bytes.len();
    proof {
        assert(bytes@.take(0) =~= Seq::<u8>::empty());
    }
    for i in 0..n
        invariant
            n == bytes@.len(),
            out@ == hex(bytes@.take(i as int)),
    {
        let b = bytes[i];
        let hi = b >> 4;
        let lo = b & 0x0f;
        assert((b >> 4u8) == b / 16 && (b & 0x0fu8) == b % 16 && (b >> 4u8) < 16 && (b & 0x0fu8) < 16) by (bit_vector);
        out.append(digit_text(hi));
        out.append(digit_text(lo));
        proof {
            assert(bytes@.take(i + 1).drop_last() =~= bytes@.take(i as int));
            assert(bytes@.take(i + 1).last() == b);
            assert(hex(bytes@.take(i + 1)) =~= hex(bytes@.take(i as int)) + seq![
                hex_digit(hi as int),
                hex_digit(lo as int),
            ]);
        }
    }
    proof {
        assert(bytes@.take(n as int) =~= bytes@);
    }
    out
}

/// `n` bytes from `rand::thread_rng()` (a generator seeded from the operating
/// system) through `RngCore::fill_bytes`. Only the length is stated: the
/// contents are random. The generator panics when the operating system cannot
/// seed it, which no input decides.
#[verifier::external_body]
fn random_bytes(n: usize) -> (r: Vec<u8>)
    ensures
        r@.len() == n,
{
    let mut buf = vec![0u8; n];
    rand::RngCore::fill_bytes(&mut rand::thread_rng(), &mut buf);
    buf
}

/// A fresh bearer token: `TOKEN_BYTES` random bytes, hex-encoded.
pub fn generate_token() -> (t: String)
    ensures
        is_token(t@),
        t@.len() == 2 * TOKEN_BYTES,
        forall|i: int| 0 <= i < t@.len() ==> is_hex_digit(#[trigger] t@[i]),
{
    let bytes = random_bytes(TOKEN_BYTES);
    let t = hex_encode(bytes.as_slice());
    proof {
        lemma_hex_shape(bytes@);
        assert(is_token(t@)) by {
            assert(bytes@.len() == TOKEN_BYTES && t@ == hex(bytes@));
        }
    }
    t
}

/// Whether the arguments carry `--force` or `-f`.
pub fn has_force_flag(args: &[String]) -> (r: bool)
    ensures
        r == forced(arg_views(args@)),
{
    let n = args.len();
    for i in 0..n
        invariant
            n == args@.len(),
            forall|j: int| 0 <= j < i ==> !(#[trigger] args@[j]@ == "--force"@ || args@[j]@ == "-f"@),
    {
        if same_text(args[i].as_str(), "--force") || same_text(args[i].as_str(), "-f") {
            proof {
                assert(arg_views(args@)[i as int] == args@[i as int]@);
            }
            return true;
        }
    }
    proof {
        if forced(arg_views(args@)) {
            let k = choose|k: int|
                0 <= k < arg_views(args@).len() && (#[trigger] arg_views(args@)[k] == "--force"@
                    || arg_views(args@)[k] == "-f"@);
            assert(arg_views(args@)[k] == args@[k]@);
        }
    }
    false
}

/// Whether `init` may write a token: only when none exists yet, or when
/// forced. Refusing protects the sessions that use the current token.
pub fn init_may_write(token_exists: bool, force: bool) -> (r: bool)
    ensures
        r == (!token_exists || force),
{
    !token_exists || force
}

/// The token held by the text of a token file: the text without surrounding
/// white space.
pub fn token_from_file(text: &str) -> (r: String)
    ensures
        r@ == trimmed(text@),
{
    trim(text)
}

} // verus!
