//! Mining a coin: the least number that, written behind a key, gives an MD5
//! digest whose hexadecimal form starts with enough zeros.

use vstd::prelude::*;
use vstd::string::*;
use crate::text::string_of;
use crate::text::trim;
use crate::text::trimmed;

verus! {

/// The MD5 digest of `data`, as the `md5` crate computes it.
pub uninterp spec fn md5_of(data: Seq<u8>) -> Seq<u8>;

/// `md5::compute`: the sixteen bytes of the digest. The contract only gives
/// the outcome its name, [`md5_of`].
#[verifier::external_body]
pub(crate) fn md5_digest(data: &Vec<u8>) -> (digest: [u8; 16])
    ensures
        digest@ == md5_of(data@),
{
    md5::compute(data).0
}

/// A number written in base ten, in ASCII.
pub open spec fn decimal_bytes(n: nat) -> Seq<u8>
    decreases n,
{
    if n < 10 {
        seq![(48 + n) as u8]
    } else {
        decimal_bytes(n / 10).push((48 + n % 10) as u8)
    }
}

fn push_decimal_bytes(out: &mut Vec<u8>, n: u64)
    ensures
        final(out)@ == old(out)@ + decimal_bytes(n as nat),
    decreases n,
{
    if n >= 10 {
        push_decimal_bytes(out, n / 10);
    }
    out.push(48 + (n % 10) as u8);
}

/// Hexadecimal digit `k` of a digest, the first digit of a byte being its
/// upper half.
pub open spec fn hex_digit(digest: Seq<u8>, k: int) -> int {
    if k % 2 == 0 {
        digest[k / 2] as int / 16
    } else {
        digest[k / 2] as int % 16
    }
}

/// The hexadecimal form of the digest starts with `n` zeros.
pub open spec fn starts_with_zeros(digest: Seq<u8>, n: nat) -> bool {
    n <= 2 * digest.len() && forall|k: int| 0 <= k < n ==> #[trigger] hex_digit(digest, k) == 0
}

/// Whether the hexadecimal form of a digest starts with `n` zeros.
pub fn leading_zeros(digest: &[u8; 16], n: usize) -> (r: bool)
    ensures
        r == starts_with_zeros(digest@, n as nat),
{
    if n > 32 {
        return false;
    }
    let mut k: usize = 0;
    while k < n
        invariant
            k <= n <= 32,
            forall|j: int| 0 <= j < k ==> #[trigger] hex_digit(digest@, j) == 0,
        decreases n - k,
    {
        let byte = digest[k / 2];
        let digit = if k % 2 == 0 {
            byte / 16
        } else {
            byte % 16
        };
        assert(digit == hex_digit(digest@, k as int));
        if digit != 0 {
            return false;
        }
        k += 1;
    }
    true
}

/// What is hashed for the number `i`: the key in UTF-8, then the number in
/// base ten.
pub open spec fn coin_text(key: Seq<char>, i: nat) -> Seq<u8> {
    vstd::utf8::encode_utf8(key) + decimal_bytes(i)
}

/// The number `i` is a coin for the key: the digest of its text starts with
/// `n` zeros.
pub open spec fn is_coin(key: Seq<char>, i: nat, n: nat) -> bool {
    starts_with_zeros(md5_of(coin_text(key, i)), n)
}

/// The least number that is a coin for `input` without the white space at
/// its ends, where there is one below 2 to the 64.
pub fn check_md5(input: &str, num_of_zeros: usize) -> (r: Option<u64>)
    ensures
        match r {
            Some(i) => is_coin(trimmed(input@), i as nat, num_of_zeros as nat) && forall|j: nat|
                j < i ==> !#[trigger] is_coin(trimmed(input@), j, num_of_zeros as nat),
            None => forall|j: nat|
                j <= u64::MAX ==> !#[trigger] is_coin(trimmed(input@), j, num_of_zeros as nat),
        },
{
    let key = string_of(&trim(input));
    let prefix = key.as_str().as_bytes_vec();
    let ghost text = trimmed(input@);
    let mut i: u64 = 0;
    loop
        invariant_except_break
            forall|j: nat| j < i ==> !#[trigger] is_coin(text, j, num_of_zeros as nat),
        invariant
            text == trimmed(input@),
            prefix@ == vstd::utf8::encode_utf8(text),
        ensures
            i == u64::MAX,
            forall|j: nat| j <= u64::MAX ==> !#[trigger] is_coin(text, j, num_of_zeros as nat),
        decreases u64::MAX - i,
    {
        let mut k = prefix.clone();
        push_decimal_bytes(&mut k, i);
        let digest = md5_digest(&k);
        if leading_zeros(&digest, num_of_zeros) {
            return Some(i);
        }
        if i == u64::MAX {
            break ;
        }
        i += 1;
    }
    None
}

} // verus!
