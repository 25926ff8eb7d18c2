//! Byte-level digests and their textual form: lowercase hexadecimal and the
//! personalised BLAKE2b hash that rolls commitment roots into the application hash.
use vstd::prelude::*;

verus! {

/// The lowercase hexadecimal digit for a value below sixteen.
pub open spec fn hex_digit(v: u8) -> char {
    if v < 10 {
        (('0' as u8) + v) as char
    } else {
        (('a' as u8) + (v - 10)) as char
    }
}

/// Two lowercase hexadecimal digits for each byte, most significant nibble first.
pub open spec fn hex_of(b: Seq<u8>) -> Seq<char>
    decreases b.len(),
{
    if b.len() == 0 {
        Seq::empty()
    } else {
        hex_of(b.drop_last()) + seq![hex_digit(b.last() / 16), hex_digit(b.last() % 16)]
    }
}

/// `r` holds `b` whenever `s` is the lowercase hexadecimal form of `b`.
pub open spec fn decodes_hex(s: Seq<char>, r: Option<Vec<u8>>) -> bool {
    forall|b: Seq<u8>| hex_of(b) == s ==> (r matches Some(v) && v@ == b)
}

/// Relies on `hex::decode`: a string of two lowercase hexadecimal digits per byte decodes
/// to those bytes.
#[verifier::external_body]
pub(crate) fn from_hex(s: &String) -> (r: Option<Vec<u8>>)
    ensures
        decodes_hex(s@, r),
{
    hex::decode(s).ok()
}

/// BLAKE2b with an output of `len` bytes and personalisation `personal`, applied to `input`.
pub uninterp spec fn blake2b_personal_digest(len: nat, personal: Seq<u8>, input: Seq<u8>) -> Seq<u8>;

/// Relies on `hex::encode`: two lowercase hexadecimal digits per byte, in order.
#[verifier::external_body]
pub(crate) fn to_hex(b: &[u8]) -> (r: String)
    ensures
        r@ == hex_of(b@),
{
    hex::encode(b)
}

/// Relies on `blake2b_simd::Params` (`hash_length`, `personal`, `hash`): the digest has
/// exactly the requested length and is a function of the length, the personalisation and
/// the input alone. `hash_length` panics outside 1..=64 and `personal` beyond 16 bytes.
#[verifier::external_body]
fn blake2b_personal(len: usize, personal: &[u8], input: &[u8]) -> (r: Vec<u8>)
    requires
        1 <= len <= 64,
        personal@.len() <= 16,
    ensures
        r@ == blake2b_personal_digest(len as nat, personal@, input@),
        r@.len() == len,
{
    blake2b_simd::Params::new().hash_length(len).personal(personal).hash(input).as_bytes().to_vec()
}

/// Personalisation of the application-hash rollup: the ASCII bytes of `Zcash_Vote_CmBFT`.
pub const VOTE_BFT_PERSONAL: [u8; 16] = [
    90, 99, 97, 115, 104, 95, 86, 111, 116, 101, 95, 67, 109, 66, 70, 84,
];

/// The 32-byte application digest of a byte string.
pub open spec fn vote_bft_hash(input: Seq<u8>) -> Seq<u8> {
    blake2b_personal_digest(32, VOTE_BFT_PERSONAL@, input)
}

/// Hashes `input` into the 32-byte application digest.
pub fn vote_bft_digest(input: &[u8]) -> (r: Vec<u8>)
    ensures
        r@ == vote_bft_hash(input@),
        r@.len() == 32,
{
    let personal: [u8; 16] = VOTE_BFT_PERSONAL;
    blake2b_personal(32, &personal, input)
}

} // verus!
