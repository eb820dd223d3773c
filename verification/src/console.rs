//! Early debug output on the UART: raw bytes, strings, hexadecimal numbers and hex
//! dumps. The transmit register is modelled as the sequence of bytes written to it.
use vstd::prelude::*;
use vstd::string::StringSliceAdditionalSpecFns;

verus! {

/// The first hardware-mapped page's UART transmit register, seen as the bytes
/// that have been written to it, oldest first.
pub struct Uart {
    written: Vec<u8>,
}

impl View for Uart {
    type V = Seq<u8>;

    closed spec fn view(&self) -> Seq<u8> {
        self.written@
    }
}

impl Uart {
    /// A UART to which nothing has been written yet.
    pub fn new() -> (u: Uart)
        ensures
            u@ == Seq::<u8>::empty(),
    {
        Uart { written: Vec::new() }
    }

    /// Forgets the bytes written so far (once they have been sent out).
    pub fn clear(&mut self)
        ensures
            final(self)@ == Seq::<u8>::empty(),
    {
        self.written.clear();
    }

    /// The bytes written so far, oldest first.
    pub fn written(&self) -> (r: &[u8])
        ensures
            r@ == self@,
    {
        self.written.as_slice()
    }
}

/// ASCII code of the lowercase hexadecimal digit `n` (for `n >= 10` the letters
/// continue past 'f').
pub open spec fn nibble_char(n: nat) -> u8 {
    if n < 10 {
        (48 + n) as u8
    } else {
        (97 + n - 10) as u8
    }
}

/// Lowercase hexadecimal digits of `v`, most significant first, without leading
/// zeros; `0` gives the single digit "0".
pub open spec fn hex_digits(v: nat) -> Seq<u8>
    decreases v,
{
    if v < 16 {
        seq![nibble_char(v)]
    } else {
        hex_digits(v / 16).push(nibble_char(v % 16))
    }
}

/// What `puth` writes for `v`: "0x" and the hexadecimal digits.
pub open spec fn hex_text(v: nat) -> Seq<u8> {
    seq![48u8, 120u8] + hex_digits(v)
}

/// Writes one byte to the UART.
pub fn putb(con: &mut Uart, b: u8)
    ensures
        final(con)@ == old(con)@.push(b),
{
    con.written.push(b);
}

/// Writes the hexadecimal digit for `n` (`n` below 16 in every use).
pub fn put_nibble(con: &mut Uart, n: u8)
    requires
        n <= 158,
    ensures
        final(con)@ == old(con)@.push(nibble_char(n as nat)),
{
    if n < 10 {
        putb(con, 0x30u8 + n);
    } else {
        putb(con, 0x61u8 + n - 10);
    }
}

/// Writes the bytes of `s`.
pub fn puts(con: &mut Uart, s: &str)
    ensures
        final(con)@ == old(con)@ + s.spec_bytes(),
{
    let bytes = s.as_bytes();
    let mut i: usize = 0;
    while i < bytes.len()
        invariant
            i <= bytes@.len(),
            bytes@ == s.spec_bytes(),
            con@ == old(con)@ + bytes@.subrange(0, i as int),
        decreases bytes@.len() - i,
    {
        putb(con, bytes[i]);
        proof {
            assert(bytes@.subrange(0, i + 1) == bytes@.subrange(0, i as int).push(bytes@[i as int]));
        }
        i += 1;
    }
    proof {
        assert(bytes@.subrange(0, bytes@.len() as int) == bytes@);
    }
}

/// The digits of `v` at and above digit position `j` (counting from the least
/// significant), as `puth` has written them once it has passed position `j`.
spec fn digits_from(v: u64, j: nat) -> Seq<u8> {
    if j >= 16 || v >> ((4 * j) as u64) == 0 {
        Seq::empty()
    } else {
        hex_digits((v >> ((4 * j) as u64)) as nat)
    }
}

/// Facts on the digit at shift `s` of `v`.
proof fn lemma_hex_shift(v: u64, s: u64)
    by (bit_vector)
    requires
        s <= 60,
    ensures
        (v >> s) >> 4u64 == (v >> s) / 16,
        (v >> s) & 0xF == (v >> s) % 16,
        (v >> s) & 0xF <= 0xF,
        s < 60 ==> (v >> s) >> 4u64 == v >> add4(s),
        s == 60 ==> v >> s < 16,
        v >> 0u64 == v,
{
}

spec fn add4(s: u64) -> u64 {
    (s + 4) as u64
}

proof fn lemma_digits_from_step(v: u64, j: nat)
    requires
        j < 16,
    ensures
        v >> ((4 * j) as u64) == 0 ==> digits_from(v, j) == Seq::<u8>::empty() && digits_from(
            v,
            j + 1,
        ) == Seq::<u8>::empty(),
        v >> ((4 * j) as u64) > 0 ==> digits_from(v, j) == digits_from(v, j + 1).push(
            nibble_char(((v >> ((4 * j) as u64)) & 0xF) as nat),
        ),
{
    let s = (4 * j) as u64;
    let x = v >> s;
    lemma_hex_shift(v, s);
    if j + 1 < 16 {
        let s1 = (4 * (j + 1)) as u64;
        assert(s1 == add4(s));
    }
    if x > 0 {
        reveal_with_fuel(hex_digits, 2);
    }
}

/// Writes `v` as "0x" followed by its lowercase hexadecimal digits, without leading
/// zeros.
pub fn puth(con: &mut Uart, v: u64)
    ensures
        final(con)@ == old(con)@ + hex_text(v as nat),
{
    putb(con, 0x30u8);
    putb(con, 0x78u8);
    if v == 0 {
        putb(con, 0x30u8);
        proof {
            assert(con@ == old(con)@ + hex_text(v as nat));
        }
    } else {
        let ghost start = con@;
        let mut i: u64 = 16;
        while i > 0
            invariant
                i <= 16,
                con@ == start + digits_from(v, i as nat),
            decreases i,
        {
            i -= 1;
            let ghost before = con@;
            proof {
                lemma_digits_from_step(v, i as nat);
                assert(before == start + digits_from(v, i as nat + 1));
            }
            if v >> (i * 4) > 0 {
                let n = ((v >> (i * 4)) & 0xF) as u8;
                proof {
                    lemma_hex_shift(v, (i * 4) as u64);
                    assert((4 * i) as u64 == i * 4);
                }
                if n < 10 {
                    putb(con, 0x30u8 + n);
                } else {
                    putb(con, 0x61u8 + n - 10);
                }
                proof {
                    assert(con@ == before.push(nibble_char(n as nat)));
                    assert(digits_from(v, i as nat) == digits_from(v, i as nat + 1).push(
                        nibble_char(n as nat),
                    ));
                    assert(con@ == start + digits_from(v, i as nat));
                }
            } else {
                proof {
                    assert((4 * i) as u64 == i * 4);
                    assert(con@ == start + digits_from(v, i as nat));
                }
            }
        }
        proof {
            lemma_hex_shift(v, 0);
            assert(start == old(con)@ + seq![48u8, 120u8]);
            assert(con@ == old(con)@ + hex_text(v as nat));
        }
    }
}

/// What `hexdump` writes for each byte: its two hexadecimal digits and a space.
pub open spec fn byte_text(b: u8) -> Seq<u8> {
    seq![nibble_char((b / 16) as nat), nibble_char((b % 16) as nat), 32u8]
}

/// The value of a lowercase hexadecimal digit character, or `None` for any other
/// byte.
pub open spec fn hex_digit_value(c: u8) -> Option<nat> {
    if 48 <= c <= 57 {
        Some((c - 48) as nat)
    } else if 97 <= c <= 102 {
        Some((c - 87) as nat)
    } else {
        None
    }
}

/// Each dumped byte reads back as itself: two hexadecimal digits, high one first,
/// whose base-16 value is the byte, then a space.
pub proof fn lemma_byte_text_reads_back(b: u8)
    ensures
        byte_text(b).len() == 3,
        byte_text(b)[2] == 32,
        hex_digit_value(byte_text(b)[0]) is Some,
        hex_digit_value(byte_text(b)[1]) is Some,
        hex_digit_value(byte_text(b)[0])->0 < 16,
        hex_digit_value(byte_text(b)[1])->0 < 16,
        hex_digit_value(byte_text(b)[0])->0 * 16 + hex_digit_value(byte_text(b)[1])->0 == b,
{
}

/// The dump of `data`, byte by byte.
pub open spec fn bytes_text(data: Seq<u8>) -> Seq<u8>
    decreases data.len(),
{
    if data.len() == 0 {
        Seq::empty()
    } else {
        bytes_text(data.drop_last()) + byte_text(data.last())
    }
}

/// Writes a hex dump of `data`, which lies at address `base`: a header naming the
/// address and size, then each byte as two hex digits and a space, then a newline.
pub fn hexdump(con: &mut Uart, base: usize, data: &[u8])
    ensures
        final(con)@ == old(con)@ + "hexdump(".spec_bytes() + hex_text(base as nat) + ", ".spec_bytes()
            + hex_text(data@.len()) + "): ".spec_bytes() + bytes_text(data@) + seq![10u8],
{
    puts(con, "hexdump(");
    puth(con, base as u64);
    puts(con, ", ");
    puth(con, data.len() as u64);
    puts(con, "): ");
    let ghost head = con@;
    let mut i: usize = 0;
    while i < data.len()
        invariant
            i <= data@.len(),
            con@ == head + bytes_text(data@.subrange(0, i as int)),
        decreases data@.len() - i,
    {
        let v = data[i];
        put_nibble(con, v / 16);
        put_nibble(con, v % 16);
        putb(con, 0x20u8);
        proof {
            let pre = data@.subrange(0, i as int);
            let post = data@.subrange(0, i + 1);
            assert(post.drop_last() == pre);
            assert(post.last() == v);
            assert(bytes_text(post) == bytes_text(pre) + byte_text(v));
        }
        i += 1;
    }
    putb(con, 0x0au8);
    proof {
        assert(data@.subrange(0, data@.len() as int) == data@);
    }
}

/// Current timestamp; this platform has no timer source, so it is always 0.
pub fn cur_timestamp() -> (r: u64)
    ensures
        r == 0,
{
    0
}

} // verus!
