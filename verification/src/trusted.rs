//! The few calls that leave the verified world: fresh identifiers, the
//! clock, the HMAC-based one-time-password primitive, secure wiping and two
//! string helpers of std.  Each wrapper's contract states what the outside
//! function's source or documentation promises, and nothing more.

use vstd::prelude::*;

verus! {

/// What `str::to_lowercase` returns: a function of the characters alone.
pub uninterp spec fn lower_of(s: Seq<char>) -> Seq<char>;

/// What `totp_lite::totp_custom` returns for a 30-second step and 6 digits:
/// a function of the secret and of the 30-second window alone.
pub uninterp spec fn totp_code(secret: Seq<u8>, window: u64) -> Seq<char>;

/// `needle` occurs as a contiguous run of characters inside `hay`.
pub open spec fn contains_seq(hay: Seq<char>, needle: Seq<char>) -> bool {
    exists|k: int|
        0 <= k && k + needle.len() <= hay.len() && #[trigger] hay.subrange(k, k + needle.len())
            == needle
}

/// Relies on `uuid::Uuid::new_v4` and its `Display` form: a fresh random
/// identifier printed as 36 hyphenated ASCII characters.  Randomness allows
/// no promise of uniqueness here; callers that need a locally unused
/// identifier test for collisions themselves.
#[verifier::external_body]
pub fn fresh_id() -> (r: String)
    ensures
        r@.len() == 36,
{
    uuid::Uuid::new_v4().to_string()
}

/// Relies on `std::time::SystemTime::now` and on chrono's conversion
/// from it (`DateTime::<Utc>::from`, total on either side of the Unix
/// epoch): the clock's idea of the current Unix time, in whole seconds,
/// negative for instants before the epoch.  Nothing is promised of the
/// value.  A clock beyond chrono's representable range, hundreds of
/// millennia away, would abort inside chrono.
#[verifier::external_body]
pub fn now_timestamp() -> (t: i64) {
    chrono::DateTime::<chrono::Utc>::from(std::time::SystemTime::now()).timestamp()
}

/// Relies on `zeroize::Zeroize` for `String`: the buffer is overwritten
/// with zeros and the string is cleared, so the value left behind is empty.
#[verifier::external_body]
pub fn wipe_string(s: &mut String)
    ensures
        final(s)@ == Seq::<char>::empty(),
{
    zeroize::Zeroize::zeroize(s);
}

/// Relies on `zeroize::Zeroize` for `Vec<u8>`: the bytes are overwritten
/// with zeros and the vector is cleared, so the value left behind is
/// empty.
#[verifier::external_body]
pub fn wipe_bytes(v: &mut Vec<u8>)
    ensures
        final(v)@ == Seq::<u8>::empty(),
{
    zeroize::Zeroize::zeroize(v);
}

/// Relies on `totp_lite::totp_custom` with SHA-1, a 30-second step and 6
/// digits: the code depends only on the secret and on `time / 30`, and is
/// printed zero-padded as exactly 6 decimal digits.
#[verifier::external_body]
pub fn hotp_digits(secret: &Vec<u8>, time: u64) -> (r: String)
    ensures
        r@ == totp_code(secret@, time / 30),
        r@.len() == 6,
        forall|i: int| 0 <= i < r@.len() ==> '0' <= #[trigger] r@[i] && r@[i] <= '9',
{
    totp_lite::totp_custom::<totp_lite::Sha1>(30, 6, secret, time)
}

/// Relies on `str::to_lowercase`: the result depends on the characters
/// alone.
#[verifier::external_body]
pub fn lowercase(s: &str) -> (r: String)
    ensures
        r@ == lower_of(s@),
        s@.len() == 0 ==> r@.len() == 0,
{
    s.to_lowercase()
}

/// Relies on `str::contains` with a string pattern: true exactly when the
/// needle matches a sub-slice of the haystack.
#[verifier::external_body]
pub fn str_contains(hay: &str, needle: &str) -> (r: bool)
    ensures
        r == contains_seq(hay@, needle@),
{
    hay.contains(needle)
}

} // verus!
