use vstd::prelude::*;

verus! {

#[verifier::external_type_specification]
#[verifier::external_body]
pub struct ExRandomError(getrandom::Error);

/// Whether `c` is a lower-case hexadecimal digit.
pub open spec fn is_lower_hex(c: char) -> bool {
    ('0' <= c && c <= '9') || ('a' <= c && c <= 'f')
}

/// Whether `s` has the shape of a random (version 4) UUID in hyphenated
/// lower-case form: 36 characters in groups of 8-4-4-4-12 hexadecimal digits
/// separated by `-`, with the version digit `4` and a variant digit among
/// `8`, `9`, `a`, `b`.
pub open spec fn is_v4_uuid_text(s: Seq<char>) -> bool {
    &&& s.len() == 36
    &&& forall|i: int|
        0 <= i < 36 ==> if i == 8 || i == 13 || i == 18 || i == 23 {
            s[i] == '-'
        } else {
            is_lower_hex(#[trigger] s[i])
        }
    &&& s[14] == '4'
    &&& (s[19] == '8' || s[19] == '9' || s[19] == 'a' || s[19] == 'b')
}

/// The lower-case hexadecimal digits, by value.
pub open spec fn hex_digits() -> Seq<char> {
    seq!['0', '1', '2', '3', '4', '5', '6', '7', '8', '9', 'a', 'b', 'c', 'd', 'e', 'f']
}

/// Byte `i` of a random UUID built from `b`: byte 6 carries the version 4 in
/// its high nibble, byte 8 the RFC 4122 variant in its two high bits, the
/// others are `b`'s own.
pub open spec fn v4_byte(b: Seq<u8>, i: int) -> u8 {
    if i == 6 {
        (b[6] & 0x0f) | 0x40
    } else if i == 8 {
        (b[8] & 0x3f) | 0x80
    } else {
        b[i]
    }
}

/// A byte as two lower-case hexadecimal digits, high nibble first.
pub open spec fn byte_text(x: u8) -> Seq<char> {
    seq![hex_digits()[(x / 16) as int], hex_digits()[(x % 16) as int]]
}

/// Bytes `lo` to `hi` (exclusive) of the UUID built from `b`, as hex digits.
pub open spec fn bytes_text(b: Seq<u8>, lo: int, hi: int) -> Seq<char>
    decreases hi - lo,
{
    if hi <= lo {
        Seq::empty()
    } else {
        bytes_text(b, lo, hi - 1) + byte_text(v4_byte(b, hi - 1))
    }
}

/// The hyphenated lower-case text of the random UUID built from the sixteen
/// bytes `b`: groups of 4, 2, 2, 2 and 6 bytes joined by `-`.
pub open spec fn v4_uuid_text(b: Seq<u8>) -> Seq<char> {
    bytes_text(b, 0, 4) + seq!['-'] + bytes_text(b, 4, 6) + seq!['-'] + bytes_text(b, 6, 8)
        + seq!['-'] + bytes_text(b, 8, 10) + seq!['-'] + bytes_text(b, 10, 16)
}

proof fn lemma_bytes_text(b: Seq<u8>, lo: int, hi: int)
    requires
        lo <= hi,
    ensures
        bytes_text(b, lo, hi).len() == 2 * (hi - lo),
        forall|k: int|
            0 <= k < 2 * (hi - lo) ==> #[trigger] bytes_text(b, lo, hi)[k] == byte_text(
                v4_byte(b, lo + k / 2),
            )[k % 2],
    decreases hi - lo,
{
    if hi > lo {
        lemma_bytes_text(b, lo, hi - 1);
        let t = bytes_text(b, lo, hi - 1);
        assert forall|k: int| 0 <= k < 2 * (hi - lo) implies #[trigger] bytes_text(b, lo, hi)[k]
            == byte_text(v4_byte(b, lo + k / 2))[k % 2] by {
            if k >= 2 * (hi - 1 - lo) {
                assert(lo + k / 2 == hi - 1);
            }
        }
    } else {
        assert(bytes_text(b, lo, hi) =~= Seq::<char>::empty());
    }
}

proof fn lemma_byte_text_hex(x: u8)
    ensures
        is_lower_hex(byte_text(x)[0]),
        is_lower_hex(byte_text(x)[1]),
{
    let d = hex_digits();
    assert forall|n: int| 0 <= n < 16 implies is_lower_hex(#[trigger] d[n]) by {
        if n < 10 {
        } else {
        }
    }
    assert(0 <= x / 16 < 16);
    assert(0 <= x % 16 < 16);
}

/// The text of a UUID built from random bytes has the shape of a version 4
/// UUID.
pub proof fn lemma_v4_uuid_text_shape(b: Seq<u8>)
    requires
        b.len() == 16,
    ensures
        is_v4_uuid_text(v4_uuid_text(b)),
{
    lemma_bytes_text(b, 0, 4);
    lemma_bytes_text(b, 4, 6);
    lemma_bytes_text(b, 6, 8);
    lemma_bytes_text(b, 8, 10);
    lemma_bytes_text(b, 10, 16);
    let s = v4_uuid_text(b);
    assert(s.len() == 36);
    let b6 = b[6];
    let b8 = b[8];
    assert(((b6 & 0x0f) | 0x40) / 16 == 4) by (bit_vector);
    assert(8 <= ((b8 & 0x3f) | 0x80) / 16 <= 11) by (bit_vector);
    assert(s[14] == byte_text(v4_byte(b, 6))[0]);
    assert(s[19] == byte_text(v4_byte(b, 8))[0]);
    assert forall|i: int| 0 <= i < 36 implies if i == 8 || i == 13 || i == 18 || i == 23 {
        s[i] == '-'
    } else {
        is_lower_hex(#[trigger] s[i])
    } by {
        if i < 8 {
            lemma_byte_text_hex(v4_byte(b, i / 2));
            assert(s[i] == bytes_text(b, 0, 4)[i]);
        } else if 8 < i < 13 {
            lemma_byte_text_hex(v4_byte(b, 4 + (i - 9) / 2));
            assert(s[i] == bytes_text(b, 4, 6)[i - 9]);
        } else if 13 < i < 18 {
            lemma_byte_text_hex(v4_byte(b, 6 + (i - 14) / 2));
            assert(s[i] == bytes_text(b, 6, 8)[i - 14]);
        } else if 18 < i < 23 {
            lemma_byte_text_hex(v4_byte(b, 8 + (i - 19) / 2));
            assert(s[i] == bytes_text(b, 8, 10)[i - 19]);
        } else if 23 < i {
            lemma_byte_text_hex(v4_byte(b, 10 + (i - 24) / 2));
            assert(s[i] == bytes_text(b, 10, 16)[i - 24]);
        }
    }
}

/// Fills `buf` with random bytes from the operating system.
///
/// Calls `getrandom::fill`, which returns an error instead of panicking when
/// the random source fails. Which bytes come back depends on chance, so
/// nothing is stated of them.
#[verifier::external_body]
fn fill_random(buf: &mut [u8; 16]) -> (r: Result<(), getrandom::Error>) {
    getrandom::fill(buf)
}

/// The text of the random (version 4) UUID built from sixteen random bytes.
///
/// Calls `uuid::Builder::from_random_bytes`, takes the UUID with `into_uuid`
/// and formats it with `to_string`: uuid sets the version nibble of byte 6 to
/// 4 and the variant bits of byte 8 to `10`, and writes the sixteen bytes as
/// lower-case hexadecimal digits in groups of 4-2-2-2-6 bytes joined by `-`.
/// The contract states that text.
#[verifier::external_body]
fn uuid_text_from_random_bytes(bytes: [u8; 16]) -> (s: String)
    ensures
        s@ == v4_uuid_text(bytes@),
{
    uuid::Builder::from_random_bytes(bytes).into_uuid().to_string()
}

/// A fresh random identifier in the text form of a version 4 UUID; `None`
/// when the operating system's random source fails.
pub fn new_uuid_string() -> (r: Option<String>)
    ensures
        r matches Some(s) ==> is_v4_uuid_text(s@) && exists|b: Seq<u8>|
            b.len() == 16 && s@ == #[trigger] v4_uuid_text(b),
{
    let mut buf: [u8; 16] = [0u8; 16];
    match fill_random(&mut buf) {
        Ok(()) => {
            let s = uuid_text_from_random_bytes(buf);
            proof {
                lemma_v4_uuid_text_shape(buf@);
            }
            Some(s)
        },
        Err(_) => None,
    }
}

} // verus!
