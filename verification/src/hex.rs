//! Lowercase hexadecimal encoding of byte strings.
//!
//! Node hashes travel on the wire as their 96-character lowercase hex
//! form; this module converts between that form and the raw 48 bytes.

use vstd::prelude::*;

verus! {

use vstd::string::StrSliceExecFns;

/// The lowercase hex digit for a value below 16.
pub open spec fn hex_digit_char(n: u8) -> char
    recommends
        n < 16,
{
    if n < 10 {
        ((48 + n) as u8) as char
    } else {
        ((87 + n) as u8) as char
    }
}

/// The lowercase hex form of a byte string: two digits for each byte,
/// high nibble first.
pub open spec fn hex_of(b: Seq<u8>) -> Seq<char> {
    Seq::new(
        2 * b.len(),
        |i: int|
            if i % 2 == 0 {
                hex_digit_char((b[i / 2] >> 4) as u8)
            } else {
                hex_digit_char((b[i / 2] & 0xf) as u8)
            },
    )
}

/// The value of a hex digit character; `None` for any other character.
pub open spec fn hex_val(c: char) -> Option<u8> {
    let u = c as u32;
    if 48 <= u <= 57 {
        Some((u - 48) as u8)
    } else if 97 <= u <= 102 {
        Some((u - 87) as u8)
    } else {
        None
    }
}

/// Both nibbles of a byte are below 16.
pub proof fn lemma_nibbles_small(x: u8)
    ensures
        (x >> 4) < 16,
        (x & 0xf) < 16,
{
    assert((x >> 4) < 16 && (x & 0xf) < 16) by (bit_vector);
}

/// Hex digits decode back to their value, and every hex digit is ASCII.
pub proof fn lemma_hex_digit_round_trip(n: u8)
    requires
        n < 16,
    ensures
        hex_val(hex_digit_char(n)) == Some(n),
        hex_digit_char(n) <= '\u{7f}',
{
}

/// A character that decodes as a hex digit is the digit of its value.
pub proof fn lemma_hex_val_round_trip(c: char)
    requires
        hex_val(c) is Some,
    ensures
        hex_val(c).unwrap() < 16,
        hex_digit_char(hex_val(c).unwrap()) == c,
        c <= '\u{7f}',
{
}

/// Builds the lowercase hex digits of `data` as ASCII bytes.
fn to_hex_ascii(data: &[u8]) -> (r: Vec<u8>)
    ensures
        r@.len() == 2 * data@.len(),
        forall|j: int|
            0 <= j < r@.len() ==> #[trigger] r@[j] < 128 && r@[j] as char == hex_of(data@)[j],
{
    let n = data.len();
    let mut out: Vec<u8> = Vec::new();
    let mut i: usize = 0;
    while i < n
        invariant
            n == data@.len(),
            i <= n,
            out@.len() == 2 * i,
            forall|j: int|
                0 <= j < out@.len() ==> #[trigger] out@[j] < 128 && out@[j] as char == hex_of(
                    data@,
                )[j],
        decreases n - i,
    {
        let b = data[i];
        let hi: u8 = b >> 4;
        let lo: u8 = b & 0xf;
        proof {
            assert(hi < 16 && lo < 16) by (bit_vector)
                requires
                    hi == b >> 4 && lo == b & 0xf,
            ;
        }
        let hc: u8 = if hi < 10 {
            48 + hi
        } else {
            87 + hi
        };
        let lc: u8 = if lo < 10 {
            48 + lo
        } else {
            87 + lo
        };
        out.push(hc);
        out.push(lc);
        proof {
            assert((2 * i as int) / 2 == i as int);
            assert((2 * i as int + 1) / 2 == i as int);
            assert(out@[2 * i as int] as char == hex_of(data@)[2 * i as int]);
            assert(out@[2 * i as int + 1] as char == hex_of(data@)[2 * i as int + 1]);
        }
        i = i + 1;
    }
    out
}

/// Relies on `String::from_utf8`: bytes below 128 are valid UTF-8 and
/// decode to the characters with the same code points.
#[verifier::external_body]
fn ascii_bytes_to_string(v: Vec<u8>) -> (r: String)
    requires
        forall|i: int| 0 <= i < v@.len() ==> v@[i] < 128,
    ensures
        r@.len() == v@.len(),
        forall|i: int| 0 <= i < v@.len() ==> #[trigger] r@[i] == v@[i] as char,
{
    match String::from_utf8(v) {
        Ok(s) => s,
        Err(_) => String::new(),
    }
}

/// Encodes bytes as their lowercase hex string.
pub fn to_hex(data: &[u8]) -> (r: String)
    ensures
        r@ == hex_of(data@),
{
    let ascii = to_hex_ascii(data);
    let s = ascii_bytes_to_string(ascii);
    proof {
        assert(s@ =~= hex_of(data@));
    }
    s
}

/// Decodes a lowercase hex string back to bytes.  Succeeds exactly on the
/// strings that `hex_of` produces, and inverts it.
pub fn from_hex(s: &str) -> (r: Option<Vec<u8>>)
    ensures
        r matches Some(d) ==> s@ == hex_of(d@),
        r is None ==> forall|b: Seq<u8>| s@ != hex_of(b),
{
    let n = s.unicode_len();
    if n % 2 != 0 {
        proof {
            assert forall|b: Seq<u8>| s@ != hex_of(b) by {
                assert(hex_of(b).len() % 2 == 0);
            }
        }
        return None;
    }
    if !s.is_ascii() {
        proof {
            let i = choose|i: int| 0 <= i < s@.len() && !('\0' <= #[trigger] s@[i] <= '\u{7f}');
            assert forall|b: Seq<u8>| s@ != hex_of(b) by {
                if s@.len() == hex_of(b).len() {
                    lemma_nibbles_small(b[i / 2]);
                    let v: u8 = if i % 2 == 0 {
                        (b[i / 2] >> 4) as u8
                    } else {
                        (b[i / 2] & 0xf) as u8
                    };
                    lemma_hex_digit_round_trip(v);
                    assert(hex_of(b)[i] <= '\u{7f}');
                    assert(s@[i] != hex_of(b)[i]);
                }
            }
        }
        return None;
    }
    let mut out: Vec<u8> = Vec::new();
    let mut i: usize = 0;
    while i + 1 < n
        invariant
            n == s@.len(),
            n % 2 == 0,
            vstd::string::is_ascii(s),
            i % 2 == 0,
            i <= n,
            out@.len() * 2 == i,
            forall|j: int| 0 <= j < i ==> hex_val(#[trigger] s@[j]) is Some,
            forall|j: int|
                0 <= j < out@.len() ==> #[trigger] hex_of(out@)[2 * j] == s@[2 * j] && hex_of(
                    out@,
                )[2 * j + 1] == s@[2 * j + 1],
        decreases n - i,
    {
        let hc = s.get_ascii(i);
        let lc = s.get_ascii(i + 1);
        proof {
            assert(s@[i as int] <= '\u{7f}');
            assert(s@[i as int + 1] <= '\u{7f}');
        }
        proof {
            assert(s@[i as int] as u32 == hc);
            assert(s@[i as int + 1] as u32 == lc);
        }
        let hv: u8 = if 48 <= hc && hc <= 57 {
            hc - 48
        } else if 97 <= hc && hc <= 102 {
            hc - 87
        } else {
            proof {
                assert(hex_val(s@[i as int]) is None);
                lemma_none_when_bad_digit(s@, i as int);
            }
            return None;
        };
        let lv: u8 = if 48 <= lc && lc <= 57 {
            lc - 48
        } else if 97 <= lc && lc <= 102 {
            lc - 87
        } else {
            proof {
                assert(hex_val(s@[i as int + 1]) is None);
                lemma_none_when_bad_digit(s@, i as int + 1);
            }
            return None;
        };
        let byte: u8 = hv * 16 + lv;
        let ghost prev = out@;
        out.push(byte);
        proof {
            assert(out@ == prev.push(byte));
            assert(hv < 16 && lv < 16);
            assert(byte >> 4 == hv && byte & 0xf == lv) by (bit_vector)
                requires
                    hv < 16 && lv < 16 && byte == hv * 16 + lv,
            ;
            assert(hex_val(s@[i as int]) == Some(hv));
            assert(hex_val(s@[i as int + 1]) == Some(lv));
            lemma_hex_val_round_trip(s@[i as int]);
            lemma_hex_val_round_trip(s@[i as int + 1]);
            let m = prev.len() as int;
            assert(out@[m] == byte);
            assert(2 * m == i as int);
            assert forall|j: int|
                0 <= j < out@.len() implies #[trigger] hex_of(out@)[2 * j] == s@[2 * j] && hex_of(
                out@,
            )[2 * j + 1] == s@[2 * j + 1] by {
                assert((2 * j) / 2 == j);
                assert((2 * j + 1) / 2 == j);
                if j < m {
                    assert(out@[j] == prev[j]);
                    assert(hex_of(prev)[2 * j] == s@[2 * j]);
                    assert(hex_of(prev)[2 * j + 1] == s@[2 * j + 1]);
                    assert(hex_of(prev)[2 * j] == hex_digit_char((prev[j] >> 4) as u8));
                    assert(hex_of(out@)[2 * j] == hex_digit_char((out@[j] >> 4) as u8));
                    assert(hex_of(prev)[2 * j + 1] == hex_digit_char((prev[j] & 0xf) as u8));
                    assert(hex_of(out@)[2 * j + 1] == hex_digit_char((out@[j] & 0xf) as u8));
                } else {
                    assert(j == m);
                    assert(out@[j] == byte);
                    assert(hex_of(out@)[2 * j] == hex_digit_char((byte >> 4) as u8));
                    assert(hex_of(out@)[2 * j + 1] == hex_digit_char((byte & 0xf) as u8));
                }
            }
        }
        i = i + 2;
    }
    proof {
        assert(i == n);
        assert forall|k: int| 0 <= k < n implies s@[k] == hex_of(out@)[k] by {
            let j = k / 2;
            if k % 2 == 0 {
                assert(k == 2 * j);
                assert(hex_of(out@)[2 * j] == s@[2 * j]);
            } else {
                assert(k == 2 * j + 1);
                assert(hex_of(out@)[2 * j] == s@[2 * j]);
                assert(hex_of(out@)[2 * j + 1] == s@[2 * j + 1]);
            }
        }
        assert(s@ =~= hex_of(out@));
    }
    Some(out)
}

/// When some character of `s` is not a hex digit, `s` is not the hex form
/// of any byte string.
proof fn lemma_none_when_bad_digit(s: Seq<char>, i: int)
    requires
        0 <= i < s.len(),
        hex_val(s[i]) is None,
    ensures
        forall|b: Seq<u8>| s != hex_of(b),
{
    assert forall|b: Seq<u8>| s != hex_of(b) by {
        if s.len() == hex_of(b).len() {
            lemma_nibbles_small(b[i / 2]);
            let v: u8 = if i % 2 == 0 {
                (b[i / 2] >> 4) as u8
            } else {
                (b[i / 2] & 0xf) as u8
            };
            lemma_hex_digit_round_trip(v);
            assert(hex_val(hex_of(b)[i]) is Some);
            assert(s[i] != hex_of(b)[i]);
        }
    }
}

} // verus!
