//! The server's access token: sixteen random bytes written as thirty-two
//! upper-case hexadecimal digits.

use vstd::prelude::*;
use crate::text::push_char;

verus! {

/// `getrandom::Error`, what [`fill_random`] gives back when the system's
/// random source fails.
#[verifier::external_type_specification]
#[verifier::external_body]
pub struct ExRandomError(getrandom::Error);

/// `getrandom::fill`: fills `buf` from the system's random source. What it
/// writes is chance, so nothing is stated of it; on an error the buffer's
/// contents are not stated either.
#[verifier::external_body]
fn fill_random(buf: &mut [u8; 16]) -> (r: Result<(), getrandom::Error>) {
    getrandom::fill(buf)
}

/// The upper-case hexadecimal digit of `n` (below sixteen).
pub open spec fn hex_digit(n: int) -> char {
    if n < 10 {
        (n + 48) as char
    } else {
        (n + 55) as char
    }
}

/// `bytes` in upper-case hexadecimal, two digits per byte, high digit first.
pub open spec fn hex_upper(bytes: Seq<u8>) -> Seq<char> {
    Seq::new(
        2 * bytes.len(),
        |i: int|
            hex_digit(
                if i % 2 == 0 {
                    bytes[i / 2] / 16
                } else {
                    bytes[i / 2] % 16
                } as int,
            ),
    )
}

fn hex_char(n: u8) -> (c: char)
    requires
        n < 16,
    ensures
        c == hex_digit(n as int),
{
    if n < 10 {
        (n + 48) as char
    } else {
        (n + 55) as char
    }
}

/// The token written for `raw`: its bytes in upper-case hexadecimal.
pub fn token_from_bytes(raw: &[u8; 16]) -> (token: String)
    ensures
        token@ == hex_upper(raw@),
{
    let mut token = String::new();
    let mut i: usize = 0;
    while i < 16
        invariant
            i <= 16,
            raw@.len() == 16,
            token@ == hex_upper(raw@.take(i as int)),
        decreases 16 - i,
    {
        let b = raw[i];
        push_char(&mut token, hex_char(b / 16));
        push_char(&mut token, hex_char(b % 16));
        i = i + 1;
        assert(token@ =~= hex_upper(raw@.take(i as int))) by {
            let t = raw@.take(i as int);
            assert forall|k: int| 0 <= k < 2 * t.len() implies #[trigger] token@[k] == hex_upper(t)[k] by {
                assert(t[k / 2] == raw@[k / 2]);
                if k < 2 * (i - 1) {
                    assert(raw@.take(i - 1)[k / 2] == raw@[k / 2]);
                }
            }
        }
    }
    assert(raw@.take(16) =~= raw@);
    token
}

/// A fresh token from sixteen random bytes, with the random source's error
/// when it failed (for the caller to report). Whatever the random source
/// gives, and also when it fails, the token is thirty-two upper-case
/// hexadecimal digits of sixteen bytes.
pub fn generate_token() -> (r: Result<(String, Option<getrandom::Error>), ()>)
    ensures
        r matches Ok((t, _)) && exists|raw: Seq<u8>| raw.len() == 16 && t@ == hex_upper(raw),
{
    let mut token_raw = [0u8; 16];
    let failure = match fill_random(&mut token_raw) {
        Ok(()) => None,
        Err(err) => Some(err),
    };
    let token = token_from_bytes(&token_raw);
    assert(token_raw@.len() == 16 && token@ == hex_upper(token_raw@));
    Ok((token, failure))
}

proof fn lemma_hex_digit_injective(x: int, y: int)
    requires
        0 <= x < 16,
        0 <= y < 16,
        hex_digit(x) == hex_digit(y),
    ensures
        x == y,
{
    let cx: u32 = (if x < 10 { x + 48 } else { x + 55 }) as u32;
    let cy: u32 = (if y < 10 { y + 48 } else { y + 55 }) as u32;
    assert(hex_digit(x) as u32 == cx);
    assert(hex_digit(y) as u32 == cy);
}

/// Distinct byte strings give distinct tokens: the hexadecimal writing loses
/// nothing.
pub proof fn lemma_hex_upper_injective(a: Seq<u8>, b: Seq<u8>)
    requires
        hex_upper(a) == hex_upper(b),
    ensures
        a == b,
{
    assert(hex_upper(a).len() == hex_upper(b).len());
    assert(hex_upper(a).len() == 2 * a.len());
    assert(hex_upper(b).len() == 2 * b.len());
    assert(a.len() == b.len());
    assert forall|k: int| 0 <= k < a.len() implies a[k] == b[k] by {
        let hi = hex_upper(a)[2 * k];
        let lo = hex_upper(a)[2 * k + 1];
        assert(hi == hex_upper(b)[2 * k]);
        assert(lo == hex_upper(b)[2 * k + 1]);
        assert((2 * k) / 2 == k && (2 * k) % 2 == 0);
        assert((2 * k + 1) / 2 == k && (2 * k + 1) % 2 == 1);
        let (ah, al, bh, bl) = (a[k] / 16, a[k] % 16, b[k] / 16, b[k] % 16);
        assert(ah < 16 && al < 16 && bh < 16 && bl < 16);
        assert(hi == hex_digit(ah as int) && lo == hex_digit(al as int));
        assert(hex_upper(b)[2 * k] == hex_digit(bh as int));
        assert(hex_upper(b)[2 * k + 1] == hex_digit(bl as int));
        lemma_hex_digit_injective(ah as int, bh as int);
        lemma_hex_digit_injective(al as int, bl as int);
        assert(a[k] == 16 * ah + al);
        assert(b[k] == 16 * bh + bl);
    }
    assert(a =~= b);
}

/// The digit of each nibble is the standard upper-case hexadecimal digit:
/// the nibble's place in `0123456789ABCDEF`.
pub proof fn lemma_hex_digit_standard(n: int)
    requires
        0 <= n < 16,
    ensures
        hex_digit(n) == "0123456789ABCDEF"@[n],
{
    reveal_strlit("0123456789ABCDEF");
    assert(hex_digit(n) as u32 == (if n < 10 { n + 48 } else { n + 55 }) as u32);
    assert("0123456789ABCDEF"@[n] as u32 == (if n < 10 { n + 48 } else { n + 55 }) as u32);
}

/// The token is the `{:02X}` text of the bytes: byte `k` is written at
/// places `2k` and `2k + 1` as the upper-case hexadecimal digits of its high
/// and low nibbles.
pub proof fn lemma_hex_upper_digits(raw: Seq<u8>, k: int)
    requires
        0 <= k < raw.len(),
    ensures
        hex_upper(raw).len() == 2 * raw.len(),
        hex_upper(raw)[2 * k] == "0123456789ABCDEF"@[(raw[k] / 16) as int],
        hex_upper(raw)[2 * k + 1] == "0123456789ABCDEF"@[(raw[k] % 16) as int],
{
    assert((2 * k) / 2 == k && (2 * k) % 2 == 0);
    assert((2 * k + 1) / 2 == k && (2 * k + 1) % 2 == 1);
    lemma_hex_digit_standard((raw[k] / 16) as int);
    lemma_hex_digit_standard((raw[k] % 16) as int);
}

} // verus!
