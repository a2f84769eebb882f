//! Mixed case checksums of addresses (EIP-55).
use crate::bignum::{hex_digit_value, all_hex_digits};
use crate::output::push_char;
use vstd::prelude::*;

verus! {

/// The Keccak-256 hash of the bytes.
pub uninterp spec fn keccak_256(data: Seq<u8>) -> Seq<u8>;

/// Keccak-256 of the bytes; `tiny_keccak`'s `keccak256`, whose result has 32 bytes.
#[verifier::external_body]
pub(crate) fn keccak256(data: &[u8]) -> (r: Vec<u8>)
    ensures
        r@ == keccak_256(data@),
        r@.len() == 32,
{
    tiny_keccak::keccak256(data).to_vec()
}

/// A hexadecimal digit in lower case.
pub open spec fn lower_hex(c: char) -> char {
    if 'A' <= c && c <= 'F' { ((c as int) + 32) as char } else { c }
}

/// A hexadecimal digit in upper case.
pub open spec fn upper_hex(c: char) -> char {
    if 'a' <= c && c <= 'f' { ((c as int) - 32) as char } else { c }
}

/// The digits after the two character prefix, in lower case.
pub open spec fn address_digits(src: Seq<char>) -> Seq<char> {
    if src.len() >= 2 {
        src.skip(2).map_values(|c: char| lower_hex(c))
    } else {
        Seq::empty()
    }
}

/// The bytes of ASCII characters.
pub open spec fn ascii_bytes(s: Seq<char>) -> Seq<u8> {
    s.map_values(|c: char| c as u8)
}

/// A letter digit is upper case where bit 3 of its nibble of the hash is set:
/// the high nibble of byte `i / 2` for an even position, the low one for an
/// odd position.
pub open spec fn eip55_char(c: char, i: int, hash: Seq<u8>) -> char {
    if 'a' <= c && c <= 'f' {
        let set = if i % 2 == 1 { (hash[i / 2] / 8) % 2 == 1 } else { (hash[i / 2] / 128) % 2 == 1 };
        if set { upper_hex(c) } else { c }
    } else {
        c
    }
}

/// The checksummed form of an address: `0x` and its digits, each letter in
/// the case that the hash of the lower case digits gives.
pub open spec fn eip55_text(src: Seq<char>) -> Seq<char> {
    let digits = address_digits(src);
    let hash = keccak_256(ascii_bytes(digits));
    seq!['0', 'x'] + Seq::new(digits.len(), |i: int| eip55_char(digits[i], i, hash))
}

/// The address with the checksum of EIP-55: the first two characters are
/// replaced by `0x` and the hexadecimal digits that follow are put in upper or
/// lower case. An address is correctly checksummed when this gives it back.
/// The hash gives the case of the first 64 digits; the digits after those
/// must not be letters.
pub fn to_hexstr_eip55(src: &str) -> (r: String)
    requires
        src@.len() >= 2 ==> all_hex_digits(src@.skip(2)),
        forall|j: int| 66 <= j < src@.len() ==> '0' <= #[trigger] src@[j] <= '9',
    ensures
        r@ == eip55_text(src@),
{
    let n = src.unicode_len();
    if n < 2 {
        proof { reveal_strlit("0x"); }
        let r = String::from_str("0x");
        assert(r@ =~= eip55_text(src@));
        return r;
    }
    let ghost digits = address_digits(src@);
    let mut lower: Vec<char> = Vec::new();
    let mut bytes: Vec<u8> = Vec::new();
    let mut i: usize = 2;
    while i < n
        invariant
            n == src@.len(),
            2 <= i <= n,
            all_hex_digits(src@.skip(2)),
            digits == address_digits(src@),
            lower@ == digits.take(i - 2),
            bytes@ == ascii_bytes(digits.take(i - 2)),
            forall|j: int| 66 <= j < src@.len() ==> '0' <= #[trigger] src@[j] <= '9',
        decreases n - i,
    {
        let c = src.get_char(i);
        assert(src@.skip(2)[i - 2] == c);
        assert(hex_digit_value(src@.skip(2)[i - 2]) is Some);
        let l = if 'A' <= c && c <= 'F' { ((c as u32) + 32) as u8 as char } else { c };
        assert(l == lower_hex(c));
        lower.push(l);
        bytes.push(l as u8);
        i += 1;
        assert(lower@ =~= digits.take(i - 2));
        assert(bytes@ =~= ascii_bytes(digits.take(i - 2)));
    }
    assert(digits.take(n - 2) =~= digits);
    assert forall|j: int| 64 <= j < digits.len() implies !('a' <= #[trigger] digits[j] <= 'f') by {
        assert(src@[j + 2] == src@.skip(2)[j]);
        assert('0' <= src@[j + 2] <= '9');
    }
    let hash = keccak256(bytes.as_slice());
    let mut r = String::from_str("0x");
    proof { reveal_strlit("0x"); }
    let ghost want = Seq::new(digits.len(), |k: int| eip55_char(digits[k], k, hash@));
    let mut k: usize = 0;
    while k < lower.len()
        invariant
            lower@ == digits,
            forall|j: int| 64 <= j < digits.len() ==> !('a' <= #[trigger] digits[j] <= 'f'),
            hash@.len() == 32,
            want == Seq::new(digits.len(), |k: int| eip55_char(digits[k], k, hash@)),
            0 <= k <= lower@.len(),
            r@ == seq!['0', 'x'] + want.take(k as int),
        decreases lower@.len() - k,
    {
        let c = lower[k];
        let out = if 'a' <= c && c <= 'f' {
            let byte = hash[k / 2];
            let set = if k % 2 == 1 { (byte / 8) % 2 == 1 } else { (byte / 128) % 2 == 1 };
            if set { ((c as u32) - 32) as u8 as char } else { c }
        } else {
            c
        };
        assert(out == eip55_char(digits[k as int], k as int, hash@));
        push_char(&mut r, out);
        k += 1;
        assert(r@ =~= seq!['0', 'x'] + want.take(k as int));
    }
    assert(want.take(digits.len() as int) =~= want);
    r
}

/// Checksumming an address that is already checksummed gives it back: the
/// checksum depends only on the digits in lower case.
pub proof fn lemma_eip55_idempotent(src: Seq<char>)
    ensures
        eip55_text(eip55_text(src)) == eip55_text(src),
{
    let digits = address_digits(src);
    let out = eip55_text(src);
    let digits2 = address_digits(out);
    assert forall|i: int| 0 <= i < digits.len() implies #[trigger] digits2[i] == digits[i] by {
        let c = digits[i];
        assert(out.skip(2)[i] == eip55_char(c, i, keccak_256(ascii_bytes(digits))));
        assert(lower_hex(c) == c) by {
            if src.len() >= 2 {
                let d = src.skip(2)[i];
                assert(c == lower_hex(d));
            }
        }
    }
    assert(digits2 =~= digits);
}

} // verus!
