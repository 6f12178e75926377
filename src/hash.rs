//! Password hashing: PBKDF2-HMAC-SHA512 under a fixed salt, stored as
//! uppercase hexadecimal.
use vstd::prelude::*;
use vstd::string::StringSliceAdditionalSpecFns;
use vstd::utf8::encode_utf8;
use crate::errors::EngineError;

verus! {

/// The error of a failed hexadecimal decoding.
#[verifier::external_type_specification]
#[verifier::external_body]
pub struct ExDecodeError(data_encoding::DecodeError);

/// The error of a failed PBKDF2 verification.
#[verifier::external_type_specification]
#[verifier::external_body]
pub struct ExUnspecified(ring::error::Unspecified);

pub const SALT: &'static str = "Hh_XSJN!";

pub const ITERATIONS: u32 = 20000;

pub const HASH_LEN: usize = 32;

/// The upper bound PBKDF2 puts on a derived key: `(2^32 - 1)` blocks of a
/// SHA-512 output.
pub const MAX_KEY_LEN: u64 = 274877906880;

/// The `len`-byte key PBKDF2-HMAC-SHA512 derives from `secret` under `salt`
/// in `iterations` rounds.
pub uninterp spec fn pbkdf2_hmac_sha512(iterations: u32, salt: Seq<u8>, secret: Seq<u8>, len: nat) -> Seq<u8>;

/// The sixteen digits of uppercase hexadecimal.
pub open spec fn hex_upper_digits() -> Seq<char> {
    seq!['0', '1', '2', '3', '4', '5', '6', '7', '8', '9', 'A', 'B', 'C', 'D', 'E', 'F']
}

/// Bytes in uppercase hexadecimal, two digits each, high half first.
pub open spec fn hex_upper(b: Seq<u8>) -> Seq<char>
    decreases b.len(),
{
    if b.len() == 0 {
        Seq::empty()
    } else {
        hex_upper(b.drop_last()) + seq![
            hex_upper_digits()[(b.last() / 16) as int],
            hex_upper_digits()[(b.last() % 16) as int],
        ]
    }
}

/// What a password is stored as.
pub open spec fn password_digest(password: Seq<char>) -> Seq<char> {
    hex_upper(pbkdf2_hmac_sha512(ITERATIONS, SALT.spec_bytes(), encode_utf8(password), HASH_LEN as nat))
}

/// Relies on ring::pbkdf2::derive with PBKDF2_HMAC_SHA512: fills a buffer of
/// `len` bytes with the derived key; it panics on a zero iteration count and
/// on a key longer than `MAX_KEY_LEN`.
#[verifier::external_body]
fn pbkdf2_derive(iterations: u32, salt: &[u8], secret: &[u8], len: usize) -> (r: Vec<u8>)
    requires
        iterations > 0,
        len <= MAX_KEY_LEN,
    ensures
        r@ == pbkdf2_hmac_sha512(iterations, salt@, secret@, len as nat),
        r@.len() == len,
{
    let mut out = vec![0u8; len];
    let n = std::num::NonZeroU32::new(iterations).unwrap();
    ring::pbkdf2::derive(ring::pbkdf2::PBKDF2_HMAC_SHA512, n, salt, secret, &mut out);
    out
}

/// Relies on ring::pbkdf2::verify with PBKDF2_HMAC_SHA512: `Ok` exactly when
/// `derived` is not empty and equals the key of its own length that `derive`
/// gives; it panics on a zero iteration count and on a key longer than
/// `MAX_KEY_LEN`.
#[verifier::external_body]
fn pbkdf2_verify(iterations: u32, salt: &[u8], secret: &[u8], derived: &[u8]) -> (r: Result<(), ring::error::Unspecified>)
    requires
        iterations > 0,
        derived@.len() <= MAX_KEY_LEN,
    ensures
        r is Ok == (derived@.len() > 0 && derived@ == pbkdf2_hmac_sha512(iterations, salt@, secret@, derived@.len())),
{
    let n = std::num::NonZeroU32::new(iterations).unwrap();
    ring::pbkdf2::verify(ring::pbkdf2::PBKDF2_HMAC_SHA512, n, salt, secret, derived)
}

/// Relies on data_encoding::HEXUPPER.encode: two uppercase digits per byte,
/// high half first.
#[verifier::external_body]
fn hex_upper_encode(b: &[u8]) -> (r: String)
    ensures
        r@ == hex_upper(b@),
{
    data_encoding::HEXUPPER.encode(b)
}

/// Relies on data_encoding::HEXUPPER.decode of the string's bytes: the
/// encoding has no padding and reads uppercase digits only, so it decodes
/// exactly the strings `encode` makes.
#[verifier::external_body]
fn hex_upper_decode(s: &str) -> (r: Result<Vec<u8>, data_encoding::DecodeError>)
    ensures
        match r {
            Ok(d) => hex_upper(d@) == s@,
            Err(_) => forall|d: Seq<u8>| #[trigger] hex_upper(d) != s@,
        },
{
    data_encoding::HEXUPPER.decode(s.as_bytes())
}

/// The stored form of a password: its PBKDF2-HMAC-SHA512 key in uppercase
/// hexadecimal.
pub fn hash_password(password: &str) -> (r: String)
    ensures
        r@ == password_digest(password@),
        pbkdf2_hmac_sha512(ITERATIONS, SALT.spec_bytes(), encode_utf8(password@), HASH_LEN as nat).len() == HASH_LEN,
        r@.len() == 2 * HASH_LEN,
{
    let key = pbkdf2_derive(ITERATIONS, SALT.as_bytes(), password.as_bytes(), HASH_LEN);
    proof {
        lemma_hex_upper_len(key@);
    }
    hex_upper_encode(key.as_slice())
}

/// A password verifies against its own stored form: given the key length
/// that `hash_password` reports, the digest decodes to a key that PBKDF2
/// derives from the password.
pub proof fn lemma_hash_then_verify(password: Seq<char>)
    requires
        pbkdf2_hmac_sha512(ITERATIONS, SALT.spec_bytes(), encode_utf8(password), HASH_LEN as nat).len() == HASH_LEN,
    ensures
        exists|d: Seq<u8>|
            #[trigger] hex_upper(d) == password_digest(password) && 0 < d.len() <= MAX_KEY_LEN
                && d == pbkdf2_hmac_sha512(ITERATIONS, SALT.spec_bytes(), encode_utf8(password), d.len()),
{
    let d = pbkdf2_hmac_sha512(ITERATIONS, SALT.spec_bytes(), encode_utf8(password), HASH_LEN as nat);
    assert(d.len() == HASH_LEN as nat);
    assert(hex_upper(d) == password_digest(password));
}

/// Checking a password against the form `hash_password` stored for it
/// succeeds.
pub fn hash_then_verify(password: &str) -> (r: Result<(), EngineError>)
    ensures
        r is Ok,
{
    let hashed = hash_password(password);
    proof {
        lemma_hash_then_verify(password@);
    }
    verify_password(password, hashed.as_str())
}

/// Whether `password` matches the stored `hashed_encoded_password`: the
/// stored string must be uppercase hexadecimal of a key that PBKDF2 derives
/// from the password. A mismatch, or a stored string that does not decode, is
/// unauthorized.
pub fn verify_password(password: &str, hashed_encoded_password: &str) -> (r: Result<(), EngineError>)
    ensures
        r is Ok <==> exists|d: Seq<u8>|
            #[trigger] hex_upper(d) == hashed_encoded_password@ && 0 < d.len() <= MAX_KEY_LEN
                && d == pbkdf2_hmac_sha512(ITERATIONS, SALT.spec_bytes(), encode_utf8(password@), d.len()),
        r matches Err(e) ==> e matches EngineError::Unauthorized(_),
{
    let decoded = match hex_upper_decode(hashed_encoded_password) {
        Ok(d) => d,
        Err(_) => {
            return Err(EngineError::Unauthorized("the stored password does not decode".to_owned()));
        },
    };
    proof {
        lemma_hex_upper_injective_all();
    }
    if decoded.len() as u64 > MAX_KEY_LEN {
        return Err(EngineError::Unauthorized("the stored password is too long".to_owned()));
    }
    match pbkdf2_verify(ITERATIONS, SALT.as_bytes(), password.as_bytes(), decoded.as_slice()) {
        Ok(()) => Ok(()),
        Err(_) => Err(EngineError::Unauthorized("the password does not match".to_owned())),
    }
}

proof fn lemma_hex_upper_len(b: Seq<u8>)
    ensures
        hex_upper(b).len() == 2 * b.len(),
    decreases b.len(),
{
    if b.len() > 0 {
        lemma_hex_upper_len(b.drop_last());
    }
}

proof fn lemma_hex_digit_injective(i: int, j: int)
    requires
        0 <= i < 16,
        0 <= j < 16,
        hex_upper_digits()[i] == hex_upper_digits()[j],
    ensures
        i == j,
{
    let d = hex_upper_digits();
    assert(d[0] == '0' && d[1] == '1' && d[2] == '2' && d[3] == '3' && d[4] == '4' && d[5] == '5'
        && d[6] == '6' && d[7] == '7' && d[8] == '8' && d[9] == '9' && d[10] == 'A' && d[11] == 'B'
        && d[12] == 'C' && d[13] == 'D' && d[14] == 'E' && d[15] == 'F');
}

proof fn lemma_hex_upper_injective(a: Seq<u8>, b: Seq<u8>)
    requires
        hex_upper(a) == hex_upper(b),
    ensures
        a == b,
    decreases a.len(),
{
    lemma_hex_upper_len(a);
    lemma_hex_upper_len(b);
    if a.len() > 0 {
        let ha = hex_upper(a.drop_last());
        let hb = hex_upper(b.drop_last());
        lemma_hex_upper_len(a.drop_last());
        lemma_hex_upper_len(b.drop_last());
        let n = ha.len() as int;
        assert(hex_upper(a)[n] == hex_upper(b)[n]);
        assert(hex_upper(a)[n + 1] == hex_upper(b)[n + 1]);
        assert(hex_upper(a).subrange(0, n) =~= ha);
        assert(hex_upper(b).subrange(0, n) =~= hb);
        lemma_hex_upper_injective(a.drop_last(), b.drop_last());
        let x = a.last();
        let y = b.last();
        let da = seq![hex_upper_digits()[(x / 16) as int], hex_upper_digits()[(x % 16) as int]];
        let db = seq![hex_upper_digits()[(y / 16) as int], hex_upper_digits()[(y % 16) as int]];
        assert(hex_upper(a) == ha + da);
        assert(hex_upper(b) == hb + db);
        assert(hex_upper(a)[n] == da[0]);
        assert(hex_upper(b)[n] == db[0]);
        assert(hex_upper(a)[n + 1] == da[1]);
        assert(hex_upper(b)[n + 1] == db[1]);
        lemma_hex_digit_injective((x / 16) as int, (y / 16) as int);
        lemma_hex_digit_injective((x % 16) as int, (y % 16) as int);
        assert(x == y) by (nonlinear_arith)
            requires x / 16 == y / 16, x % 16 == y % 16;
        assert(a =~= a.drop_last().push(x));
        assert(b =~= b.drop_last().push(y));
    }
}

proof fn lemma_hex_upper_injective_all()
    ensures
        forall|a: Seq<u8>, b: Seq<u8>| #[trigger] hex_upper(a) == #[trigger] hex_upper(b) ==> a == b,
{
    assert forall|a: Seq<u8>, b: Seq<u8>| #[trigger] hex_upper(a) == #[trigger] hex_upper(b) implies a == b by {
        lemma_hex_upper_injective(a, b);
    }
}

} // verus!
