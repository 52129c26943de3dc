//! Hexadecimal text fields: lenient fixed-column parsing and rendering.
//!
//! Trace and memory dumps store every number as fixed-width hexadecimal.  A
//! field that is missing, too short, or holds a non-digit parses as zero
//! rather than failing; that leniency is part of the dump format's contract.

use vstd::prelude::*;

verus! {

/// Is `b` the ASCII code of a hexadecimal digit (either case)?
pub open spec fn is_hex_digit(b: u8) -> bool {
    (48 <= b && b <= 57) || (97 <= b && b <= 102) || (65 <= b && b <= 70)
}

/// Numeric value of a hexadecimal digit byte (0 for non-digits).
pub open spec fn hex_digit_val(b: u8) -> nat {
    if 48 <= b && b <= 57 {
        (b - 48) as nat
    } else if 97 <= b && b <= 102 {
        (b - 87) as nat
    } else if 65 <= b && b <= 70 {
        (b - 55) as nat
    } else {
        0
    }
}

pub open spec fn all_hex_digits(s: Seq<u8>) -> bool {
    forall|i: int| 0 <= i < s.len() ==> is_hex_digit(#[trigger] s[i])
}

/// Value of a digit sequence, most significant digit first.
pub open spec fn hex_seq_val(s: Seq<u8>) -> nat
    decreases s.len(),
{
    if s.len() == 0 {
        0
    } else {
        hex_seq_val(s.drop_last()) * 16 + hex_digit_val(s.last())
    }
}

pub open spec fn pow16(n: nat) -> nat
    decreases n,
{
    if n == 0 {
        1nat
    } else {
        16 * pow16((n - 1) as nat)
    }
}

pub proof fn lemma_hex_seq_val_bound(s: Seq<u8>)
    ensures
        hex_seq_val(s) < pow16(s.len()),
    decreases s.len(),
{
    if s.len() > 0 {
        lemma_hex_seq_val_bound(s.drop_last());
        assert(hex_digit_val(s.last()) < 16);
    }
}

/// The number read from the `len` bytes of `line` starting at `off`, or 0
/// when the field runs past the end of the line or holds a non-digit.
pub open spec fn hex_field(line: Seq<u8>, off: int, len: int) -> u32 {
    if 0 <= off && 0 <= len <= 8 && off + len <= line.len() && all_hex_digits(
        line.subrange(off, off + len),
    ) {
        (hex_seq_val(line.subrange(off, off + len)) % 0x1_0000_0000) as u32
    } else {
        0
    }
}

pub proof fn lemma_pow16_8()
    ensures
        pow16(8) == 0x1_0000_0000,
{
    assert(pow16(0) == 1);
    assert(pow16(1) == 16);
    assert(pow16(2) == 0x100);
    assert(pow16(3) == 0x1000);
    assert(pow16(4) == 0x10000);
    assert(pow16(5) == 0x100000);
    assert(pow16(6) == 0x1000000);
    assert(pow16(7) == 0x10000000);
    assert(pow16(8) == 0x1_0000_0000);
}

pub proof fn lemma_pow16_le(m: nat, n: nat)
    requires
        m <= n,
    ensures
        pow16(m) <= pow16(n),
        pow16(m) >= 1,
    decreases n,
{
    if n > 0 {
        if m == n {
            lemma_pow16_le((m - 1) as nat, (n - 1) as nat);
        } else {
            lemma_pow16_le(m, (n - 1) as nat);
        }
    }
}

/// Executable check matching `is_hex_digit`.
pub fn hex_digit(b: u8) -> (r: bool)
    ensures
        r == is_hex_digit(b),
{
    (48 <= b && b <= 57) || (97 <= b && b <= 102) || (65 <= b && b <= 70)
}

/// Parse the `len`-byte field at `off`; missing or malformed fields give 0.
pub fn parse_hex_field(line: &Vec<u8>, off: usize, len: usize) -> (r: u32)
    requires
        len <= 8,
    ensures
        r == hex_field(line@, off as int, len as int),
{
    if len > line.len() || off > line.len() - len {
        return 0;
    }
    let mut acc: u32 = 0;
    let mut i: usize = 0;
    while i < len
        invariant
            i <= len <= 8,
            off + len <= line@.len(),
            off + len <= usize::MAX,
            all_hex_digits(line@.subrange(off as int, off + i)),
            acc == hex_seq_val(line@.subrange(off as int, off + i)),
            acc < pow16(i as nat),
        decreases len - i,
    {
        let b = line[off + i];
        if !hex_digit(b) {
            proof {
                let s = line@.subrange(off as int, off + len);
                assert(s[i as int] == b);
                assert(!all_hex_digits(s));
            }
            return 0;
        }
        let v: u8 = if b <= 57 {
            b - 48
        } else if b >= 97 {
            b - 87
        } else {
            b - 55
        };
        proof {
            let pre = line@.subrange(off as int, off + i);
            let post = line@.subrange(off as int, off + i + 1);
            assert(post.drop_last() =~= pre);
            assert(post.last() == b);
            lemma_pow16_le((i + 1) as nat, 8);
            lemma_pow16_8();
        }
        acc = acc * 16 + (v as u32);
        i = i + 1;
    }
    proof {
        let s = line@.subrange(off as int, off + len);
        lemma_hex_seq_val_bound(s);
        lemma_pow16_le(len as nat, 8);
        lemma_pow16_8();
    }
    acc
}

/// Lowercase digit byte for a value below 16.
pub open spec fn hex_digit_of(v: u32) -> u8 {
    if v < 10 {
        (48 + v) as u8
    } else {
        (87 + v) as u8
    }
}

/// Eight lowercase digits of a 32-bit value, most significant first.
pub open spec fn u32_hex8(v: u32) -> Seq<u8> {
    seq![
        hex_digit_of((v >> 28) & 0xF),
        hex_digit_of((v >> 24) & 0xF),
        hex_digit_of((v >> 20) & 0xF),
        hex_digit_of((v >> 16) & 0xF),
        hex_digit_of((v >> 12) & 0xF),
        hex_digit_of((v >> 8) & 0xF),
        hex_digit_of((v >> 4) & 0xF),
        hex_digit_of(v & 0xF),
    ]
}

/// Two lowercase digits of a byte-sized value, most significant first.
pub open spec fn u8_hex2(v: u8) -> Seq<u8> {
    seq![hex_digit_of(((v as u32) >> 4) & 0xF), hex_digit_of((v as u32) & 0xF)]
}

proof fn lemma_digit_roundtrip(n: u32)
    requires
        n < 16,
    ensures
        is_hex_digit(hex_digit_of(n)),
        hex_digit_val(hex_digit_of(n)) == n,
{
}

/// Rendering eight digits and reading the field back restores the value.
pub proof fn lemma_u32_hex8_roundtrip(v: u32)
    ensures
        u32_hex8(v).len() == 8,
        all_hex_digits(u32_hex8(v)),
        hex_seq_val(u32_hex8(v)) == v,
{
    let s = u32_hex8(v);
    let n0 = (v >> 28) & 0xF;
    let n1 = (v >> 24) & 0xF;
    let n2 = (v >> 20) & 0xF;
    let n3 = (v >> 16) & 0xF;
    let n4 = (v >> 12) & 0xF;
    let n5 = (v >> 8) & 0xF;
    let n6 = (v >> 4) & 0xF;
    let n7 = v & 0xF;
    assert((v >> 28) & 0xF < 16 && (v >> 24) & 0xF < 16 && (v >> 20) & 0xF < 16 && (v >> 16)
        & 0xF < 16 && (v >> 12) & 0xF < 16 && (v >> 8) & 0xF < 16 && (v >> 4) & 0xF < 16 && v
        & 0xF < 16) by (bit_vector);
    lemma_digit_roundtrip(n0);
    lemma_digit_roundtrip(n1);
    lemma_digit_roundtrip(n2);
    lemma_digit_roundtrip(n3);
    lemma_digit_roundtrip(n4);
    lemma_digit_roundtrip(n5);
    lemma_digit_roundtrip(n6);
    lemma_digit_roundtrip(n7);
    assert forall|i: int| 0 <= i < s.len() implies is_hex_digit(#[trigger] s[i]) by {
        if i == 0 {
        } else if i == 1 {
        } else if i == 2 {
        } else if i == 3 {
        } else if i == 4 {
        } else if i == 5 {
        } else if i == 6 {
        } else {
            assert(i == 7);
        }
    }
    assert(s.drop_last() =~= seq![
        hex_digit_of(n0),
        hex_digit_of(n1),
        hex_digit_of(n2),
        hex_digit_of(n3),
        hex_digit_of(n4),
        hex_digit_of(n5),
        hex_digit_of(n6),
    ]);
    let s6 = s.drop_last();
    assert(s6.drop_last() =~= seq![
        hex_digit_of(n0),
        hex_digit_of(n1),
        hex_digit_of(n2),
        hex_digit_of(n3),
        hex_digit_of(n4),
        hex_digit_of(n5),
    ]);
    let s5 = s6.drop_last();
    assert(s5.drop_last() =~= seq![
        hex_digit_of(n0),
        hex_digit_of(n1),
        hex_digit_of(n2),
        hex_digit_of(n3),
        hex_digit_of(n4),
    ]);
    let s4 = s5.drop_last();
    assert(s4.drop_last() =~= seq![
        hex_digit_of(n0),
        hex_digit_of(n1),
        hex_digit_of(n2),
        hex_digit_of(n3),
    ]);
    let s3 = s4.drop_last();
    assert(s3.drop_last() =~= seq![hex_digit_of(n0), hex_digit_of(n1), hex_digit_of(n2)]);
    let s2 = s3.drop_last();
    assert(s2.drop_last() =~= seq![hex_digit_of(n0), hex_digit_of(n1)]);
    let s1 = s2.drop_last();
    assert(s1.drop_last() =~= seq![hex_digit_of(n0)]);
    let s0 = s1.drop_last();
    assert(s0.drop_last() =~= Seq::<u8>::empty());
    assert(hex_seq_val(Seq::<u8>::empty()) == 0);
    assert(hex_seq_val(s0) == n0);
    assert(hex_seq_val(s1) == hex_seq_val(s0) * 16 + n1);
    assert(hex_seq_val(s2) == hex_seq_val(s1) * 16 + n2);
    assert(hex_seq_val(s3) == hex_seq_val(s2) * 16 + n3);
    assert(hex_seq_val(s4) == hex_seq_val(s3) * 16 + n4);
    assert(hex_seq_val(s5) == hex_seq_val(s4) * 16 + n5);
    assert(hex_seq_val(s6) == hex_seq_val(s5) * 16 + n6);
    assert(hex_seq_val(s) == hex_seq_val(s6) * 16 + n7);
    assert(hex_seq_val(s) == n0 * 0x10000000 + n1 * 0x1000000 + n2 * 0x100000 + n3 * 0x10000 + n4
        * 0x1000 + n5 * 0x100 + n6 * 0x10 + n7);
    assert(((v >> 28) & 0xF) * 0x10000000 + ((v >> 24) & 0xF) * 0x1000000 + ((v >> 20) & 0xF)
        * 0x100000 + ((v >> 16) & 0xF) * 0x10000 + ((v >> 12) & 0xF) * 0x1000 + ((v >> 8) & 0xF)
        * 0x100 + ((v >> 4) & 0xF) * 0x10 + (v & 0xF) == v) by (bit_vector);
}

/// Rendering two digits and reading the field back restores the byte.
pub proof fn lemma_u8_hex2_roundtrip(v: u8)
    ensures
        u8_hex2(v).len() == 2,
        all_hex_digits(u8_hex2(v)),
        hex_seq_val(u8_hex2(v)) == v,
{
    let s = u8_hex2(v);
    let w = v as u32;
    let n0 = (w >> 4) & 0xF;
    let n1 = w & 0xF;
    assert((w >> 4) & 0xF < 16 && w & 0xF < 16) by (bit_vector);
    lemma_digit_roundtrip(n0);
    lemma_digit_roundtrip(n1);
    assert forall|i: int| 0 <= i < s.len() implies is_hex_digit(#[trigger] s[i]) by {
        if i == 0 {
        } else {
            assert(i == 1);
        }
    }
    assert(s.drop_last() =~= seq![hex_digit_of(n0)]);
    let s1 = s.drop_last();
    assert(s1.drop_last() =~= Seq::<u8>::empty());
    assert(hex_seq_val(Seq::<u8>::empty()) == 0);
    assert(hex_seq_val(s1) == n0);
    assert(hex_seq_val(s) == n0 * 16 + n1);
    let w2 = v as u32;
    assert(((w2 >> 4) & 0xF) * 16 + (w2 & 0xF) == w2) by (bit_vector)
        requires
            w2 < 256,
    ;
}

/// Append the eight lowercase digits of `v` to `out`.
pub fn push_hex8(out: &mut Vec<u8>, v: u32)
    ensures
        final(out)@ == old(out)@ + u32_hex8(v),
{
    proof {
        assert((v >> 28) & 0xF < 16 && (v >> 24) & 0xF < 16 && (v >> 20) & 0xF < 16 && (v >> 16)
            & 0xF < 16 && (v >> 12) & 0xF < 16 && (v >> 8) & 0xF < 16 && (v >> 4) & 0xF < 16 && v
            & 0xF < 16) by (bit_vector);
    }
    push_hex_digit(out, (v >> 28) & 0xF);
    push_hex_digit(out, (v >> 24) & 0xF);
    push_hex_digit(out, (v >> 20) & 0xF);
    push_hex_digit(out, (v >> 16) & 0xF);
    push_hex_digit(out, (v >> 12) & 0xF);
    push_hex_digit(out, (v >> 8) & 0xF);
    push_hex_digit(out, (v >> 4) & 0xF);
    push_hex_digit(out, v & 0xF);
    proof {
        assert(out@ =~= old(out)@ + u32_hex8(v));
    }
}

/// Append the two lowercase digits of `v` to `out`.
pub fn push_hex2(out: &mut Vec<u8>, v: u8)
    ensures
        final(out)@ == old(out)@ + u8_hex2(v),
{
    let w = v as u32;
    proof {
        assert((w >> 4) & 0xF < 16 && w & 0xF < 16) by (bit_vector);
    }
    push_hex_digit(out, (w >> 4) & 0xF);
    push_hex_digit(out, w & 0xF);
    proof {
        assert(out@ =~= old(out)@ + u8_hex2(v));
    }
}

fn push_hex_digit(out: &mut Vec<u8>, v: u32)
    requires
        v < 16,
    ensures
        final(out)@ == old(out)@ + seq![hex_digit_of(v)],
{
    let b: u8 = if v < 10 {
        48 + (v as u8)
    } else {
        87 + (v as u8)
    };
    out.push(b);
    proof {
        assert(out@ =~= old(out)@ + seq![hex_digit_of(v)]);
    }
}

} // verus!
