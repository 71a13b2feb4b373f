//! The SHA-1 message digest: padding, message-schedule expansion, the
//! round function, the compression engine, and hexadecimal encoding and
//! decoding of the 20-byte digest. Every function is specified against a
//! mathematical model of the classical algorithm.
#![allow(unused_imports)]
use vstd::prelude::*;
use vstd::arithmetic::div_mod::{lemma_fundamental_div_mod, lemma_div_multiples_vanish};
use vstd::string::*;

verus! {

// ---------------------------------------------------------------------------
// Word-level model: rotations and wrapping addition
// ---------------------------------------------------------------------------

/// Left rotation of a 32-bit word by 1.
pub open spec fn rotl1(x: u32) -> u32 {
    (x << 1u32) | (x >> 31u32)
}

/// Left rotation of a 32-bit word by 5.
pub open spec fn rotl5(x: u32) -> u32 {
    (x << 5u32) | (x >> 27u32)
}

/// Left rotation of a 32-bit word by 30.
pub open spec fn rotl30(x: u32) -> u32 {
    (x << 30u32) | (x >> 2u32)
}

/// Addition of two 32-bit words modulo 2^32.
pub open spec fn wadd(x: u32, y: u32) -> u32 {
    x.wrapping_add(y)
}

// ---------------------------------------------------------------------------
// Round function
// ---------------------------------------------------------------------------

/// The nonlinear mixing value for round `t`: choice, parity, majority,
/// parity again, one per twenty rounds.
pub open spec fn f_val(t: int, b: u32, c: u32, d: u32) -> u32 {
    if t < 20 {
        (b & c) | (!b & d)
    } else if t < 40 {
        b ^ c ^ d
    } else if t < 60 {
        (b & c) | (b & d) | (c & d)
    } else {
        b ^ c ^ d
    }
}

/// The round constant for round `t`, one per twenty rounds.
pub open spec fn k_val(t: int) -> u32 {
    if t < 20 {
        0x5A827999u32
    } else if t < 40 {
        0x6ED9EBA1u32
    } else if t < 60 {
        0x8F1BBCDCu32
    } else {
        0xCA62C1D6u32
    }
}

/// What the round function returns: the mixing value plus the round
/// constant, modulo 2^32.
pub open spec fn fk_val(t: int, b: u32, c: u32, d: u32) -> u32 {
    wadd(f_val(t, b, c, d), k_val(t))
}

// ---------------------------------------------------------------------------
// Compression model
// ---------------------------------------------------------------------------

/// One compression round: the working state `[a, b, c, d, e]` becomes
/// `[rotl5(a) + fk + e + w, a, rotl30(b), c, d]`, additions modulo 2^32,
/// where `w` is the schedule word of this round.
pub open spec fn round_step(v: Seq<u32>, t: int, w: u32) -> Seq<u32> {
    seq![
        wadd(wadd(wadd(rotl5(v[0]), fk_val(t, v[1], v[2], v[3])), v[4]), w),
        v[0],
        rotl30(v[1]),
        v[2],
        v[3],
    ]
}

/// Word `t` of the message schedule of a 16-word block: the block itself
/// for the first sixteen, then a rotated xor of four earlier words.
pub open spec fn sched(block: Seq<u32>, t: int) -> u32
    decreases t,
{
    if t < 16 {
        block[t]
    } else {
        rotl1(
            sched(block, t - 3) ^ sched(block, t - 8) ^ sched(block, t - 14) ^ sched(
                block,
                t - 16,
            ),
        )
    }
}

/// The working state after the first `t` rounds of one block, starting
/// from the running digest state `h`.
pub open spec fn rounds(h: Seq<u32>, block: Seq<u32>, t: int) -> Seq<u32>
    decreases t,
{
    if t <= 0 {
        h
    } else {
        round_step(rounds(h, block, t - 1), t - 1, sched(block, t - 1))
    }
}

/// The running digest state after one block: eighty rounds, then the
/// working state folded back word by word, modulo 2^32.
pub open spec fn compressed(h: Seq<u32>, block: Seq<u32>) -> Seq<u32> {
    Seq::new(5, |i: int| wadd(h[i], rounds(h, block, 80)[i]))
}

/// The fixed initial value of the running digest state.
pub open spec fn init_state() -> Seq<u32> {
    seq![0x67452301u32, 0xEFCDAB89u32, 0x98BADCFEu32, 0x10325476u32, 0xC3D2E1F0u32]
}

/// The running digest state after the first `n` 16-word blocks of `words`.
pub open spec fn state_after(words: Seq<u32>, n: int) -> Seq<u32>
    decreases n,
{
    if n <= 0 {
        init_state()
    } else {
        compressed(state_after(words, n - 1), words.subrange(16 * (n - 1), 16 * n))
    }
}

// ---------------------------------------------------------------------------
// Padding model
// ---------------------------------------------------------------------------

/// How many zero bytes the padding inserts between the 0x80 byte and the
/// 8-byte length field, so that the total length becomes a multiple of 64.
pub open spec fn zero_pad_len(l: nat) -> nat {
    if l % 64 <= 55 {
        (55 - l % 64) as nat
    } else {
        (119 - l % 64) as nat
    }
}

/// A 64-bit value as 8 big-endian bytes.
pub open spec fn be64_bytes(x: u64) -> Seq<u8> {
    seq![
        ((x >> 56u64) & 0xFF) as u8,
        ((x >> 48u64) & 0xFF) as u8,
        ((x >> 40u64) & 0xFF) as u8,
        ((x >> 32u64) & 0xFF) as u8,
        ((x >> 24u64) & 0xFF) as u8,
        ((x >> 16u64) & 0xFF) as u8,
        ((x >> 8u64) & 0xFF) as u8,
        (x & 0xFF) as u8,
    ]
}

/// The padded message: the message, one 0x80 byte, zero bytes up to 56
/// modulo 64, and the message's bit length as a 64-bit big-endian field.
pub open spec fn spec_padded(m: Seq<u8>) -> Seq<u8> {
    m + seq![0x80u8] + Seq::new(zero_pad_len(m.len()), |i: int| 0u8) + be64_bytes(
        (m.len() * 8) as u64,
    )
}

/// A 32-bit word read big-endian from four bytes.
pub open spec fn be_word(b0: u8, b1: u8, b2: u8, b3: u8) -> u32 {
    ((b0 as u32) << 24u32) | ((b1 as u32) << 16u32) | ((b2 as u32) << 8u32) | (b3 as u32)
}

/// A byte sequence reframed as big-endian 32-bit words.
pub open spec fn words_of(bytes: Seq<u8>) -> Seq<u32> {
    Seq::new(
        (bytes.len() as int / 4) as nat,
        |i: int| be_word(bytes[4 * i], bytes[4 * i + 1], bytes[4 * i + 2], bytes[4 * i + 3]),
    )
}

/// The words of the padded message; every 16 of them form one block.
pub open spec fn message_words(m: Seq<u8>) -> Seq<u32> {
    words_of(spec_padded(m))
}

/// How many 512-bit blocks the padded message fills.
pub open spec fn block_count(m: Seq<u8>) -> int {
    spec_padded(m).len() as int / 64
}

/// Each byte carved out of a 64-bit word by shift and mask fits in u8.
proof fn lemma_u64_byte_masks(x: u64)
    by (bit_vector)
    ensures
        (x >> 56u64) & 0xFF < 256,
        (x >> 48u64) & 0xFF < 256,
        (x >> 40u64) & 0xFF < 256,
        (x >> 32u64) & 0xFF < 256,
        (x >> 24u64) & 0xFF < 256,
        (x >> 16u64) & 0xFF < 256,
        (x >> 8u64) & 0xFF < 256,
        x & 0xFF < 256,
{
}

/// The padded message fills a whole, positive number of 64-byte blocks,
/// one or two more than the raw message alone would need.
pub proof fn lemma_padded_len(m: Seq<u8>)
    ensures
        spec_padded(m).len() == m.len() + 9 + zero_pad_len(m.len()),
        spec_padded(m).len() == 64 * block_count(m),
        1 <= block_count(m),
        message_words(m).len() == 16 * block_count(m),
{
    let l = m.len() as int;
    let r = l % 64;
    let q = l / 64;
    lemma_fundamental_div_mod(l, 64);
    assert(spec_padded(m).len() == l + 9 + zero_pad_len(m.len()));
    let big = spec_padded(m).len() as int;
    if r <= 55 {
        assert(big == 64 * (q + 1));
        lemma_div_multiples_vanish(q + 1, 64);
    } else {
        assert(big == 64 * (q + 2));
        lemma_div_multiples_vanish(q + 2, 64);
    }
    let nb = block_count(m);
    assert(big == 64 * nb);
    assert(big / 4 == 16 * nb) by (nonlinear_arith)
        requires
            big == 64 * nb,
    ;
}

// ---------------------------------------------------------------------------
// The digest of a whole message
// ---------------------------------------------------------------------------

/// Byte `j` (0 is most significant) of a 32-bit word.
pub open spec fn byte_of_word(w: u32, j: int) -> u8 {
    if j == 0 {
        ((w >> 24u32) & 0xFF) as u8
    } else if j == 1 {
        ((w >> 16u32) & 0xFF) as u8
    } else if j == 2 {
        ((w >> 8u32) & 0xFF) as u8
    } else {
        (w & 0xFF) as u8
    }
}

/// The five final state words of hashing `m`.
pub open spec fn digest_words(m: Seq<u8>) -> Seq<u32> {
    state_after(message_words(m), block_count(m))
}

/// The SHA-1 digest of `m`: the five final state words serialized
/// big-endian, 20 bytes.
pub open spec fn spec_sha1(m: Seq<u8>) -> Seq<u8> {
    Seq::new(20, |i: int| byte_of_word(digest_words(m)[i / 4], i % 4))
}

/// Each byte carved out of a 32-bit word by shift and mask fits in u8.
proof fn lemma_u32_byte_masks(w: u32)
    by (bit_vector)
    ensures
        (w >> 24u32) & 0xFF < 256,
        (w >> 16u32) & 0xFF < 256,
        (w >> 8u32) & 0xFF < 256,
        w & 0xFF < 256,
{
}

// ---------------------------------------------------------------------------
// Hex codec model
// ---------------------------------------------------------------------------

/// The uppercase hexadecimal digit for a value below 16.
pub open spec fn hex_digit_char(v: int) -> char {
    if v == 0 {
        '0'
    } else if v == 1 {
        '1'
    } else if v == 2 {
        '2'
    } else if v == 3 {
        '3'
    } else if v == 4 {
        '4'
    } else if v == 5 {
        '5'
    } else if v == 6 {
        '6'
    } else if v == 7 {
        '7'
    } else if v == 8 {
        '8'
    } else if v == 9 {
        '9'
    } else if v == 10 {
        'A'
    } else if v == 11 {
        'B'
    } else if v == 12 {
        'C'
    } else if v == 13 {
        'D'
    } else if v == 14 {
        'E'
    } else {
        'F'
    }
}

/// The value of a hexadecimal digit, either case, and -1 for any other
/// character.
pub open spec fn hex_char_val(c: char) -> int {
    if c == '0' {
        0
    } else if c == '1' {
        1
    } else if c == '2' {
        2
    } else if c == '3' {
        3
    } else if c == '4' {
        4
    } else if c == '5' {
        5
    } else if c == '6' {
        6
    } else if c == '7' {
        7
    } else if c == '8' {
        8
    } else if c == '9' {
        9
    } else if c == 'A' || c == 'a' {
        10
    } else if c == 'B' || c == 'b' {
        11
    } else if c == 'C' || c == 'c' {
        12
    } else if c == 'D' || c == 'd' {
        13
    } else if c == 'E' || c == 'e' {
        14
    } else if c == 'F' || c == 'f' {
        15
    } else {
        -1
    }
}

/// Whether a character is a hexadecimal digit of either case.
pub open spec fn is_hex_char(c: char) -> bool {
    hex_char_val(c) >= 0
}

/// Whether every character of the sequence is a hexadecimal digit.
pub open spec fn all_hex(s: Seq<char>) -> bool {
    forall|i: int| 0 <= i < s.len() ==> is_hex_char(#[trigger] s[i])
}

/// Whether a character is an uppercase hexadecimal digit.
pub open spec fn is_upper_hex_char(c: char) -> bool {
    ('0' <= c && c <= '9') || ('A' <= c && c <= 'F')
}

/// A byte sequence rendered as uppercase hexadecimal, two digits per
/// byte, most significant nibble first.
pub open spec fn hex_of(b: Seq<u8>) -> Seq<char> {
    Seq::new(
        2 * b.len(),
        |i: int|
            if i % 2 == 0 {
                hex_digit_char((b[i / 2] >> 4u8) as int)
            } else {
                hex_digit_char((b[i / 2] & 0xF) as int)
            },
    )
}

/// The bytes a hexadecimal character sequence stands for, two characters
/// per byte; meaningful when every character is a hexadecimal digit.
pub open spec fn decoded_hex(s: Seq<char>) -> Seq<u8> {
    Seq::new(
        (s.len() as int / 2) as nat,
        |i: int| (hex_char_val(s[2 * i]) * 16 + hex_char_val(s[2 * i + 1])) as u8,
    )
}

/// A byte splits into two nibbles below 16 that reassemble to the byte.
proof fn lemma_nibbles(b: u8)
    by (bit_vector)
    ensures
        b >> 4u8 < 16,
        b & 0xF < 16,
        (b >> 4u8) * 16 + (b & 0xF) == b,
{
}

/// Encoding a digit value below 16 and reading it back is the identity,
/// and the encoded digit is an uppercase hexadecimal character.
proof fn lemma_hex_digit_char_val(v: int)
    requires
        0 <= v < 16,
    ensures
        hex_char_val(hex_digit_char(v)) == v,
        is_upper_hex_char(hex_digit_char(v)),
{
}

/// The one-character string for a digit value below 16.
fn hex_char_str(v: u8) -> (s: &'static str)
    requires
        v < 16,
    ensures
        s@.len() == 1,
        s@[0] == hex_digit_char(v as int),
{
    proof {
        reveal_strlit("0");
        reveal_strlit("1");
        reveal_strlit("2");
        reveal_strlit("3");
        reveal_strlit("4");
        reveal_strlit("5");
        reveal_strlit("6");
        reveal_strlit("7");
        reveal_strlit("8");
        reveal_strlit("9");
        reveal_strlit("A");
        reveal_strlit("B");
        reveal_strlit("C");
        reveal_strlit("D");
        reveal_strlit("E");
        reveal_strlit("F");
    }
    if v == 0 {
        "0"
    } else if v == 1 {
        "1"
    } else if v == 2 {
        "2"
    } else if v == 3 {
        "3"
    } else if v == 4 {
        "4"
    } else if v == 5 {
        "5"
    } else if v == 6 {
        "6"
    } else if v == 7 {
        "7"
    } else if v == 8 {
        "8"
    } else if v == 9 {
        "9"
    } else if v == 10 {
        "A"
    } else if v == 11 {
        "B"
    } else if v == 12 {
        "C"
    } else if v == 13 {
        "D"
    } else if v == 14 {
        "E"
    } else {
        "F"
    }
}

/// The value of a hexadecimal digit character, or None for any other
/// character.
fn hex_val_of(c: char) -> (r: Option<u8>)
    ensures
        match r {
            Some(v) => v < 16 && hex_char_val(c) == v as int,
            None => !is_hex_char(c),
        },
{
    if c == '0' {
        Some(0)
    } else if c == '1' {
        Some(1)
    } else if c == '2' {
        Some(2)
    } else if c == '3' {
        Some(3)
    } else if c == '4' {
        Some(4)
    } else if c == '5' {
        Some(5)
    } else if c == '6' {
        Some(6)
    } else if c == '7' {
        Some(7)
    } else if c == '8' {
        Some(8)
    } else if c == '9' {
        Some(9)
    } else if c == 'A' || c == 'a' {
        Some(10)
    } else if c == 'B' || c == 'b' {
        Some(11)
    } else if c == 'C' || c == 'c' {
        Some(12)
    } else if c == 'D' || c == 'd' {
        Some(13)
    } else if c == 'E' || c == 'e' {
        Some(14)
    } else if c == 'F' || c == 'f' {
        Some(15)
    } else {
        None
    }
}

/// Hex encoding then decoding gives the bytes back: the encoding of a
/// 20-byte value is 40 uppercase hexadecimal digits, and decoding those
/// digits restores every byte.
pub proof fn lemma_hex_round_trip(b: Seq<u8>)
    requires
        b.len() == 20,
    ensures
        hex_of(b).len() == 40,
        all_hex(hex_of(b)),
        forall|i: int| 0 <= i < 40 ==> is_upper_hex_char(#[trigger] hex_of(b)[i]),
        decoded_hex(hex_of(b)) == b,
{
    assert forall|i: int| 0 <= i < 40 implies is_upper_hex_char(#[trigger] hex_of(b)[i])
        && is_hex_char(hex_of(b)[i]) by {
        let v = if i % 2 == 0 {
            (b[i / 2] >> 4u8) as int
        } else {
            (b[i / 2] & 0xF) as int
        };
        lemma_nibbles(b[i / 2]);
        lemma_hex_digit_char_val(v);
    }
    assert forall|i: int| 0 <= i < 20 implies decoded_hex(hex_of(b))[i] == b[i] by {
        let hi = b[i] >> 4u8;
        let lo = b[i] & 0xF;
        lemma_nibbles(b[i]);
        assert(hex_of(b)[2 * i] == hex_digit_char(hi as int));
        assert(hex_of(b)[2 * i + 1] == hex_digit_char(lo as int));
        lemma_hex_digit_char_val(hi as int);
        lemma_hex_digit_char_val(lo as int);
        assert(decoded_hex(hex_of(b))[i] == (hi * 16 + lo) as u8);
    }
    assert(decoded_hex(hex_of(b)) =~= b);
}

// ---------------------------------------------------------------------------
// Errors and the digest type
// ---------------------------------------------------------------------------

/// Why a digest could not be built from caller input.
#[derive(Clone, Copy, Debug, PartialEq, Eq, Structural)]
pub enum DigestError {
    /// The byte input does not hold exactly 20 bytes; carries its length.
    InvalidLength { len: usize },
    /// The hex input is not exactly 40 hexadecimal digits; carries the
    /// index of the first offending character, or the input's length when
    /// the length itself is wrong.
    InvalidHex { pos: usize },
}

/// A 160-bit SHA-1 digest: always exactly 20 bytes.
pub struct Sha1 {
    bytes: Vec<u8>,
}

impl View for Sha1 {
    type V = Seq<u8>;

    closed spec fn view(&self) -> Seq<u8> {
        self.bytes@
    }
}

impl Sha1 {
    /// The digest invariant: exactly 20 bytes.
    pub open spec fn wf(&self) -> bool {
        self@.len() == 20
    }

    /// The digest's raw bytes, most significant first.
    pub fn as_bytes(&self) -> (r: &Vec<u8>)
        ensures
            r@ == self@,
    {
        &self.bytes
    }

    /// Builds a digest from exactly 20 raw bytes; any other length is
    /// rejected with the length observed.
    pub fn from_bytes(bytes: &[u8]) -> (r: Result<Sha1, DigestError>)
        ensures
            match r {
                Ok(d) => bytes@.len() == 20 && d.wf() && d@ == bytes@,
                Err(e) => bytes@.len() != 20 && e == (DigestError::InvalidLength {
                    len: bytes@.len() as usize,
                }),
            },
    {
        if bytes.len() != 20 {
            return Err(DigestError::InvalidLength { len: bytes.len() });
        }
        let mut v: Vec<u8> = Vec::new();
        let mut i: usize = 0;
        while i < 20
            invariant
                i <= 20,
                bytes@.len() == 20,
                v@ == bytes@.subrange(0, i as int),
            decreases 20 - i,
        {
            v.push(bytes[i]);
            proof {
                assert(v@ =~= bytes@.subrange(0, i + 1));
            }
            i += 1;
        }
        proof {
            assert(v@ =~= bytes@);
        }
        Ok(Sha1 { bytes: v })
    }

    /// Parses a digest from exactly 40 hexadecimal digits, either case,
    /// two digits per byte with the high nibble first. Any other input is
    /// rejected: a wrong length carries the length, a stray character the
    /// index of the first one.
    pub fn from_hex(text: &str) -> (r: Result<Sha1, DigestError>)
        ensures
            match r {
                Ok(d) => text@.len() == 40 && all_hex(text@) && d.wf() && d@ == decoded_hex(text@),
                Err(e) => match e {
                    DigestError::InvalidHex { pos } => if text@.len() != 40 {
                        pos == text@.len()
                    } else {
                        pos < 40 && !is_hex_char(text@[pos as int]) && (forall|j: int|
                            0 <= j < pos ==> is_hex_char(#[trigger] text@[j]))
                    },
                    _ => false,
                },
            },
    {
        let n = text.unicode_len();
        if n != 40 {
            return Err(DigestError::InvalidHex { pos: n });
        }
        let mut bytes: Vec<u8> = Vec::new();
        let mut i: usize = 0;
        while i < 40
            invariant
                i <= 40,
                i % 2 == 0,
                text@.len() == 40,
                bytes@.len() == i / 2,
                forall|j: int| 0 <= j < i ==> is_hex_char(#[trigger] text@[j]),
                forall|k: int|
                    0 <= k < i / 2 ==> bytes@[k] == (hex_char_val(text@[2 * k]) * 16 + hex_char_val(
                        text@[2 * k + 1],
                    )) as u8,
            decreases 40 - i,
        {
            let hi = text.get_char(i);
            let lo = text.get_char(i + 1);
            let h = match hex_val_of(hi) {
                Some(v) => v,
                None => {
                    return Err(DigestError::InvalidHex { pos: i });
                },
            };
            let l = match hex_val_of(lo) {
                Some(v) => v,
                None => {
                    return Err(DigestError::InvalidHex { pos: i + 1 });
                },
            };
            bytes.push(h * 16 + l);
            i += 2;
        }
        proof {
            assert(bytes@ =~= decoded_hex(text@));
        }
        Ok(Sha1 { bytes })
    }

    /// Renders the digest as 40 uppercase hexadecimal digits, two per
    /// byte, most significant nibble first.
    pub fn to_hex(&self) -> (r: String)
        requires
            self.wf(),
        ensures
            r@ == hex_of(self@),
            r@.len() == 40,
    {
        let mut s = String::new();
        let mut i: usize = 0;
        while i < 20
            invariant
                i <= 20,
                self.wf(),
                self@ == self.bytes@,
                s@.len() == 2 * i,
                forall|j: int| 0 <= j < 2 * i ==> s@[j] == hex_of(self@)[j],
            decreases 20 - i,
        {
            let b = self.bytes[i];
            proof {
                lemma_nibbles(b);
            }
            s.append(hex_char_str(b >> 4u8));
            s.append(hex_char_str(b & 0xF));
            proof {
                assert forall|j: int| 0 <= j < 2 * (i + 1) implies s@[j] == hex_of(self@)[j] by {
                    if j == 2 * i {
                        assert(j % 2 == 0 && j / 2 == i);
                    } else if j == 2 * i + 1 {
                        assert(j % 2 == 1 && j / 2 == i);
                    }
                }
            }
            i += 1;
        }
        proof {
            assert(s@ =~= hex_of(self@));
        }
        s
    }

    /// Hashes an arbitrary message to its 20-byte SHA-1 digest: padding,
    /// one compression per 512-bit block, big-endian serialization of
    /// the final state. The digest always has exactly 20 bytes.
    pub fn encode(message: &[u8]) -> (res: Sha1)
        requires
            message@.len() * 8 <= u64::MAX,
        ensures
            res.wf(),
            res@ == spec_sha1(message@),
            res@.len() == 20,
    {
        let words = Self::prepare_blocks(message);
        let nb = words.len() / 16;
        proof {
            assert(words@.len() == 16 * block_count(message@));
            assert(words@.len() / 16 == block_count(message@)) by (nonlinear_arith)
                requires
                    words@.len() == 16 * block_count(message@),
            ;
        }
        let mut h: Vec<u32> = Vec::new();
        h.push(0x67452301);
        h.push(0xEFCDAB89);
        h.push(0x98BADCFE);
        h.push(0x10325476);
        h.push(0xC3D2E1F0);
        proof {
            assert(h@ =~= init_state());
        }
        let mut b: usize = 0;
        while b < nb
            invariant
                b <= nb,
                nb == block_count(message@),
                words@ == message_words(message@),
                words@.len() == 16 * nb,
                h@.len() == 5,
                h@ == state_after(words@, b as int),
            decreases nb - b,
        {
            h = Self::compress_block(&h, &words, b);
            proof {
                assert(state_after(words@, b + 1) == compressed(
                    state_after(words@, b as int),
                    words@.subrange(16 * b as int, 16 * (b + 1) as int),
                ));
            }
            b += 1;
        }
        let mut out: Vec<u8> = Vec::new();
        let mut i: usize = 0;
        while i < 5
            invariant
                i <= 5,
                h@.len() == 5,
                h@ == digest_words(message@),
                out@.len() == 4 * i,
                forall|j: int| 0 <= j < 4 * i ==> out@[j] == byte_of_word(h@[j / 4], j % 4),
            decreases 5 - i,
        {
            let w = h[i];
            proof {
                lemma_u32_byte_masks(w);
            }
            out.push(((w >> 24u32) & 0xFF) as u8);
            out.push(((w >> 16u32) & 0xFF) as u8);
            out.push(((w >> 8u32) & 0xFF) as u8);
            out.push((w & 0xFF) as u8);
            proof {
                assert forall|j: int| 0 <= j < 4 * (i + 1) implies out@[j] == byte_of_word(
                    h@[j / 4],
                    j % 4,
                ) by {
                    if j >= 4 * i {
                        assert(j / 4 == i && j % 4 == j - 4 * i);
                    }
                }
            }
            i += 1;
        }
        proof {
            assert(out@ =~= spec_sha1(message@));
        }
        Sha1 { bytes: out }
    }

    /// Pads the message and reframes it into big-endian 32-bit words;
    /// every 16 consecutive words are one 512-bit block.
    pub fn prepare_blocks(message: &[u8]) -> (words: Vec<u32>)
        requires
            message@.len() * 8 <= u64::MAX,
        ensures
            words@ == message_words(message@),
            words@.len() == 16 * block_count(message@),
            1 <= block_count(message@),
    {
        proof {
            lemma_padded_len(message@);
        }
        let n = message.len();
        let mut padded: Vec<u8> = Vec::new();
        let mut i: usize = 0;
        while i < n
            invariant
                i <= n,
                n == message@.len(),
                padded@ == message@.subrange(0, i as int),
            decreases n - i,
        {
            padded.push(message[i]);
            proof {
                assert(padded@ =~= message@.subrange(0, i + 1));
            }
            i += 1;
        }
        proof {
            assert(message@.subrange(0, n as int) =~= message@);
        }
        padded.push(0x80);
        let r = n % 64;
        let zeros: usize = if r <= 55 {
            55 - r
        } else {
            119 - r
        };
        assert(zeros == zero_pad_len(message@.len()));
        let ghost head = message@ + seq![0x80u8];
        proof {
            assert(padded@ =~= head);
        }
        let mut j: usize = 0;
        while j < zeros
            invariant
                j <= zeros,
                padded@ == head + Seq::new(j as nat, |k: int| 0u8),
            decreases zeros - j,
        {
            padded.push(0);
            proof {
                assert(padded@ =~= head + Seq::new((j + 1) as nat, |k: int| 0u8));
            }
            j += 1;
        }
        let bitlen: u64 = (n as u64) * 8;
        proof {
            lemma_u64_byte_masks(bitlen);
        }
        padded.push(((bitlen >> 56u64) & 0xFF) as u8);
        padded.push(((bitlen >> 48u64) & 0xFF) as u8);
        padded.push(((bitlen >> 40u64) & 0xFF) as u8);
        padded.push(((bitlen >> 32u64) & 0xFF) as u8);
        padded.push(((bitlen >> 24u64) & 0xFF) as u8);
        padded.push(((bitlen >> 16u64) & 0xFF) as u8);
        padded.push(((bitlen >> 8u64) & 0xFF) as u8);
        padded.push((bitlen & 0xFF) as u8);
        proof {
            assert(padded@ =~= spec_padded(message@));
        }
        let total = padded.len();
        let nw = total / 4;
        proof {
            lemma_fundamental_div_mod(total as int, 4);
            assert(total == 64 * block_count(message@));
            assert(total % 4 == 0 && total / 4 == 16 * block_count(message@)) by (nonlinear_arith)
                requires
                    total == 64 * block_count(message@),
            ;
        }
        let mut words: Vec<u32> = Vec::new();
        let mut k: usize = 0;
        while k < nw
            invariant
                k <= nw,
                total == padded@.len(),
                total == 4 * nw,
                words@.len() == k,
                forall|t: int|
                    0 <= t < k ==> words@[t] == be_word(
                        padded@[4 * t],
                        padded@[4 * t + 1],
                        padded@[4 * t + 2],
                        padded@[4 * t + 3],
                    ),
            decreases nw - k,
        {
            let b0 = padded[4 * k];
            let b1 = padded[4 * k + 1];
            let b2 = padded[4 * k + 2];
            let b3 = padded[4 * k + 3];
            let w = ((b0 as u32) << 24u32) | ((b1 as u32) << 16u32) | ((b2 as u32) << 8u32) | (
            b3 as u32);
            words.push(w);
            k += 1;
        }
        proof {
            assert(words@ =~= words_of(padded@));
        }
        words
    }

    /// The round function: the mixing value chosen by the round index
    /// plus the round constant, modulo 2^32.
    pub fn fk(t: usize, b: u32, c: u32, d: u32) -> (r: u32)
        requires
            t < 80,
        ensures
            r == fk_val(t as int, b, c, d),
    {
        let (f, k): (u32, u32) = if t < 20 {
            ((b & c) | (!b & d), 0x5A827999)
        } else if t < 40 {
            (b ^ c ^ d, 0x6ED9EBA1)
        } else if t < 60 {
            ((b & c) | (b & d) | (c & d), 0x8F1BBCDC)
        } else {
            (b ^ c ^ d, 0xCA62C1D6)
        };
        f.wrapping_add(k)
    }

    /// Expands block `blk` of the prepared words into the 80-word
    /// message schedule.
    fn expand(words: &Vec<u32>, blk: usize) -> (w: Vec<u32>)
        requires
            16 * (blk + 1) <= words@.len(),
        ensures
            w@.len() == 80,
            forall|t: int|
                0 <= t < 80 ==> w@[t] == sched(
                    words@.subrange(16 * blk as int, 16 * (blk + 1) as int),
                    t,
                ),
    {
        let ghost block = words@.subrange(16 * blk as int, 16 * (blk + 1) as int);
        let n_words = words.len();
        let mut w: Vec<u32> = Vec::new();
        let mut i: usize = 0;
        while i < 16
            invariant
                i <= 16,
                w@.len() == i,
                n_words == words@.len(),
                16 * (blk + 1) <= n_words,
                block == words@.subrange(16 * blk as int, 16 * (blk + 1) as int),
                forall|t: int| 0 <= t < i ==> w@[t] == sched(block, t),
            decreases 16 - i,
        {
            let ghost prev = w@;
            w.push(words[16 * blk + i]);
            proof {
                assert forall|t: int| 0 <= t < i + 1 implies w@[t] == sched(block, t) by {
                    if t < i {
                        assert(w@[t] == prev[t]);
                    } else {
                        assert(w@[t] == block[t]);
                        assert(sched(block, t) == block[t]);
                    }
                }
            }
            i += 1;
        }
        while i < 80
            invariant
                16 <= i <= 80,
                w@.len() == i,
                forall|t: int| 0 <= t < i ==> w@[t] == sched(block, t),
            decreases 80 - i,
        {
            let x = w[i - 3] ^ w[i - 8] ^ w[i - 14] ^ w[i - 16];
            let ghost prev = w@;
            w.push((x << 1u32) | (x >> 31u32));
            proof {
                assert forall|t: int| 0 <= t < i + 1 implies w@[t] == sched(block, t) by {
                    if t < i {
                        assert(w@[t] == prev[t]);
                    } else {
                        assert(w@[t] == rotl1(x));
                        assert(sched(block, t) == rotl1(
                            sched(block, t - 3) ^ sched(block, t - 8) ^ sched(block, t - 14)
                                ^ sched(block, t - 16),
                        ));
                    }
                }
            }
            i += 1;
        }
        w
    }

    /// Runs the eighty rounds of one block and folds the working state
    /// back into the running digest state.
    fn compress_block(h: &Vec<u32>, words: &Vec<u32>, blk: usize) -> (hn: Vec<u32>)
        requires
            h@.len() == 5,
            16 * (blk + 1) <= words@.len(),
        ensures
            hn@.len() == 5,
            hn@ == compressed(h@, words@.subrange(16 * blk as int, 16 * (blk + 1) as int)),
    {
        let ghost block = words@.subrange(16 * blk as int, 16 * (blk + 1) as int);
        let w = Self::expand(words, blk);
        let mut v: Vec<u32> = Vec::new();
        v.push(h[0]);
        v.push(h[1]);
        v.push(h[2]);
        v.push(h[3]);
        v.push(h[4]);
        proof {
            assert(v@ =~= rounds(h@, block, 0));
        }
        let mut t: usize = 0;
        while t < 80
            invariant
                t <= 80,
                h@.len() == 5,
                v@.len() == 5,
                v@ == rounds(h@, block, t as int),
                w@.len() == 80,
                block == words@.subrange(16 * blk as int, 16 * (blk + 1) as int),
                forall|s: int| 0 <= s < 80 ==> w@[s] == sched(block, s),
            decreases 80 - t,
        {
            let f = Self::fk(t, v[1], v[2], v[3]);
            Self::transmute(&mut v, f, w[t]);
            proof {
                assert(v@ =~= round_step(rounds(h@, block, t as int), t as int, sched(block, t as int)));
            }
            t += 1;
        }
        let mut hn: Vec<u32> = Vec::new();
        hn.push(h[0].wrapping_add(v[0]));
        hn.push(h[1].wrapping_add(v[1]));
        hn.push(h[2].wrapping_add(v[2]));
        hn.push(h[3].wrapping_add(v[3]));
        hn.push(h[4].wrapping_add(v[4]));
        proof {
            assert(hn@ =~= compressed(h@, block));
        }
        hn
    }

    /// One compression round applied in place to the five-word working
    /// state, with `fk` the round function's value and `wt` the schedule
    /// word of the round.
    pub fn transmute(v: &mut Vec<u32>, fk: u32, wt: u32)
        requires
            old(v)@.len() == 5,
        ensures
            final(v)@.len() == 5,
            final(v)@[0] == wadd(wadd(wadd(rotl5(old(v)@[0]), fk), old(v)@[4]), wt),
            final(v)@[1] == old(v)@[0],
            final(v)@[2] == rotl30(old(v)@[1]),
            final(v)@[3] == old(v)@[2],
            final(v)@[4] == old(v)@[3],
    {
        let a = v[0];
        let b = v[1];
        let c = v[2];
        let d = v[3];
        let e = v[4];
        let rot_a = (a << 5u32) | (a >> 27u32);
        let temp = rot_a.wrapping_add(fk).wrapping_add(e).wrapping_add(wt);
        let mut nv: Vec<u32> = Vec::new();
        nv.push(temp);
        nv.push(a);
        nv.push((b << 30u32) | (b >> 2u32));
        nv.push(c);
        nv.push(d);
        *v = nv;
    }
}

} // verus!
