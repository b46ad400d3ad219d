//! Wire primitives: little-endian byte encodings of the integers the
//! protocol carries, with deterministic readers. Reading what a writer
//! appended always yields the written value.

use vstd::prelude::*;

verus! {

/// The eight little-endian bytes of `v`.
#[verifier::opaque]
pub open spec fn spec_u64_bytes(v: u64) -> Seq<u8> {
    seq![
        (v as int % 256) as u8,
        (v as int / 256 % 256) as u8,
        (v as int / 65536 % 256) as u8,
        (v as int / 16777216 % 256) as u8,
        (v as int / 4294967296 % 256) as u8,
        (v as int / 1099511627776 % 256) as u8,
        (v as int / 281474976710656 % 256) as u8,
        (v as int / 72057594037927936 % 256) as u8,
    ]
}

/// The value of eight little-endian bytes starting at `pos`.
#[verifier::opaque]
pub open spec fn spec_le8_value(s: Seq<u8>, pos: int) -> int {
    s[pos] + 256 * (s[pos + 1] + 256 * (s[pos + 2] + 256 * (s[pos + 3] + 256 * (s[pos + 4] + 256
        * (s[pos + 5] + 256 * (s[pos + 6] + 256 * s[pos + 7]))))))
}

/// Reading the little-endian bytes of `v` yields `v` back.
pub proof fn lemma_u64_bytes_value(v: u64, s: Seq<u8>, pos: int)
    requires
        0 <= pos,
        pos + 8 <= s.len(),
        s.subrange(pos, pos + 8) == spec_u64_bytes(v),
    ensures
        spec_le8_value(s, pos) == v,
{
    reveal(spec_u64_bytes);
    reveal(spec_le8_value);
    assert(s[pos] == spec_u64_bytes(v)[0]);
    assert(s[pos + 1] == spec_u64_bytes(v)[1]);
    assert(s[pos + 2] == spec_u64_bytes(v)[2]);
    assert(s[pos + 3] == spec_u64_bytes(v)[3]);
    assert(s[pos + 4] == spec_u64_bytes(v)[4]);
    assert(s[pos + 5] == spec_u64_bytes(v)[5]);
    assert(s[pos + 6] == spec_u64_bytes(v)[6]);
    assert(s[pos + 7] == spec_u64_bytes(v)[7]);
    lemma_u64_reassemble(v);
}

/// The digit decomposition of a 64-bit value in base 256 reassembles to the
/// value.
proof fn lemma_u64_reassemble(v: u64)
    ensures
        (v as int % 256) + 256 * ((v as int / 256 % 256) + 256 * ((v as int / 65536 % 256) + 256 * (
        (v as int / 16777216 % 256) + 256 * ((v as int / 4294967296 % 256) + 256 * ((v as int
            / 1099511627776 % 256) + 256 * ((v as int / 281474976710656 % 256) + 256 * (v as int
            / 72057594037927936 % 256))))))) == v,
{
    let x = v as int;
    vstd::arithmetic::div_mod::lemma_fundamental_div_mod(x, 256);
    vstd::arithmetic::div_mod::lemma_fundamental_div_mod(x / 256, 256);
    vstd::arithmetic::div_mod::lemma_fundamental_div_mod(x / 65536, 256);
    vstd::arithmetic::div_mod::lemma_fundamental_div_mod(x / 16777216, 256);
    vstd::arithmetic::div_mod::lemma_fundamental_div_mod(x / 4294967296, 256);
    vstd::arithmetic::div_mod::lemma_fundamental_div_mod(x / 1099511627776, 256);
    vstd::arithmetic::div_mod::lemma_fundamental_div_mod(x / 281474976710656, 256);
    vstd::arithmetic::div_mod::lemma_fundamental_div_mod(x / 72057594037927936, 256);
    assert(x / 256 / 256 == x / 65536) by {
        vstd::arithmetic::div_mod::lemma_div_denominator(x, 256, 256);
    }
    assert(x / 65536 / 256 == x / 16777216) by {
        vstd::arithmetic::div_mod::lemma_div_denominator(x, 65536, 256);
    }
    assert(x / 16777216 / 256 == x / 4294967296) by {
        vstd::arithmetic::div_mod::lemma_div_denominator(x, 16777216, 256);
    }
    assert(x / 4294967296 / 256 == x / 1099511627776) by {
        vstd::arithmetic::div_mod::lemma_div_denominator(x, 4294967296, 256);
    }
    assert(x / 1099511627776 / 256 == x / 281474976710656) by {
        vstd::arithmetic::div_mod::lemma_div_denominator(x, 1099511627776, 256);
    }
    assert(x / 281474976710656 / 256 == x / 72057594037927936) by {
        vstd::arithmetic::div_mod::lemma_div_denominator(x, 281474976710656, 256);
    }
    assert(x / 72057594037927936 < 256) by {
        vstd::arithmetic::div_mod::lemma_div_is_ordered(x, 18446744073709551615, 72057594037927936);
    }
    assert(x / 72057594037927936 % 256 == x / 72057594037927936) by {
        vstd::arithmetic::div_mod::lemma_small_mod(
            (x / 72057594037927936) as nat,
            256,
        );
        vstd::arithmetic::div_mod::lemma_div_pos_is_pos(x, 72057594037927936);
    }
}

/// Appends the little-endian bytes of `v`.
pub fn push_u64(out: &mut Vec<u8>, v: u64)
    ensures
        final(out)@ =~= old(out)@ + spec_u64_bytes(v),
{
    proof {
        reveal(spec_u64_bytes);
        vstd::arithmetic::div_mod::lemma_mod_bound(v as int, 256);
        vstd::arithmetic::div_mod::lemma_mod_bound(v as int / 256, 256);
        vstd::arithmetic::div_mod::lemma_mod_bound(v as int / 65536, 256);
        vstd::arithmetic::div_mod::lemma_mod_bound(v as int / 16777216, 256);
        vstd::arithmetic::div_mod::lemma_mod_bound(v as int / 4294967296, 256);
        vstd::arithmetic::div_mod::lemma_mod_bound(v as int / 1099511627776, 256);
        vstd::arithmetic::div_mod::lemma_mod_bound(v as int / 281474976710656, 256);
        vstd::arithmetic::div_mod::lemma_mod_bound(v as int / 72057594037927936, 256);
    }
    out.push((v % 256) as u8);
    out.push((v / 256 % 256) as u8);
    out.push((v / 65536 % 256) as u8);
    out.push((v / 16777216 % 256) as u8);
    out.push((v / 4294967296 % 256) as u8);
    out.push((v / 1099511627776 % 256) as u8);
    out.push((v / 281474976710656 % 256) as u8);
    out.push((v / 72057594037927936 % 256) as u8);
}

/// Reads one byte.
pub fn read_u8(buf: &Vec<u8>, pos: usize) -> (r: Option<(u8, usize)>)
    ensures
        pos < buf@.len() ==> r == Some((buf@[pos as int], (pos + 1) as usize)),
        pos >= buf@.len() ==> r is None,
{
    if pos < buf.len() {
        Some((buf[pos], pos + 1))
    } else {
        None
    }
}

/// Reads eight little-endian bytes; the result is the value whose bytes they
/// are.
pub fn read_u64(buf: &Vec<u8>, pos: usize) -> (r: Option<(u64, usize)>)
    ensures
        pos + 8 <= buf@.len() ==> (r matches Some(p) && p.1 == pos + 8 && p.0
            == spec_le8_value(buf@, pos as int)),
        pos + 8 > buf@.len() ==> r is None,
{
    proof {
        reveal(spec_le8_value);
    }
    if pos >= buf.len() || buf.len() - pos < 8 {
        return None;
    }
    let b0 = buf[pos] as u64;
    let b1 = buf[pos + 1] as u64;
    let b2 = buf[pos + 2] as u64;
    let b3 = buf[pos + 3] as u64;
    let b4 = buf[pos + 4] as u64;
    let b5 = buf[pos + 5] as u64;
    let b6 = buf[pos + 6] as u64;
    let b7 = buf[pos + 7] as u64;
    let v = b0 + 256 * (b1 + 256 * (b2 + 256 * (b3 + 256 * (b4 + 256 * (b5 + 256 * (b6 + 256
        * b7))))));
    Some((v, pos + 8))
}

/// The wire form of a signed value: a sign byte, then the magnitude. A
/// negative `v` is carried as `-(v + 1) + 1`, which never overflows.
#[verifier::opaque]
pub open spec fn spec_i64_bytes(v: i64) -> Seq<u8> {
    if v >= 0 {
        seq![0u8] + spec_u64_bytes(v as u64)
    } else {
        seq![1u8] + spec_u64_bytes(((-(v + 1)) + 1) as u64)
    }
}

/// Appends the wire form of `v`.
pub fn push_i64(out: &mut Vec<u8>, v: i64)
    ensures
        final(out)@ =~= old(out)@ + spec_i64_bytes(v),
{
    proof {
        reveal(spec_i64_bytes);
    }
    if v >= 0 {
        out.push(0u8);
        push_u64(out, v as u64);
    } else {
        out.push(1u8);
        let mag: u64 = (-(v + 1)) as u64 + 1;
        push_u64(out, mag);
    }
}

/// The little-endian form of an unsigned value is eight bytes long.
pub proof fn lemma_u64_bytes_len(v: u64)
    ensures
        spec_u64_bytes(v).len() == 8,
{
    reveal(spec_u64_bytes);
}

/// The wire form of a signed value is nine bytes long.
pub proof fn lemma_i64_bytes_len(v: i64)
    ensures
        spec_i64_bytes(v).len() == 9,
{
    reveal(spec_i64_bytes);
    reveal(spec_u64_bytes);
}

/// Decoding facts for the wire form of a signed value: the sign byte and the
/// magnitude bytes of an encoding determine the value.
pub proof fn lemma_i64_decode(v: i64, s: Seq<u8>, pos: int)
    requires
        0 <= pos,
        pos + 9 <= s.len(),
        s.subrange(pos, pos + 9) == spec_i64_bytes(v),
    ensures
        s[pos] == if v >= 0 { 0u8 } else { 1u8 },
        v >= 0 ==> spec_le8_value(s, pos + 1) == v as u64,
        v < 0 ==> spec_le8_value(s, pos + 1) == ((-(v + 1)) + 1) as u64 && 1 <= spec_le8_value(
            s,
            pos + 1,
        ) <= 9223372036854775808,
{
    reveal(spec_i64_bytes);
    reveal(spec_u64_bytes);
    let enc = spec_i64_bytes(v);
    assert(s[pos] == enc[0]);
    let mag_enc: u64 = if v >= 0 {
        v as u64
    } else {
        ((-(v + 1)) + 1) as u64
    };
    assert(s.subrange(pos + 1, pos + 9) == spec_u64_bytes(mag_enc)) by {
        assert forall|k: int| 0 <= k < 8 implies s.subrange(pos + 1, pos + 9)[k]
            == spec_u64_bytes(mag_enc)[k] by {
            assert(s.subrange(pos, pos + 9)[k + 1] == enc[k + 1]);
        }
        assert(s.subrange(pos + 1, pos + 9) =~= spec_u64_bytes(mag_enc));
    }
    lemma_u64_bytes_value(mag_enc, s, pos + 1);
}

/// Reads the wire form of a signed value.
#[verifier::rlimit(50)]
pub fn read_i64(buf: &Vec<u8>, pos: usize) -> (r: Option<(i64, usize)>)
    ensures
        forall|v: i64|
            pos + spec_i64_bytes(v).len() <= buf@.len() && buf@.subrange(
                pos as int,
                pos + spec_i64_bytes(v).len(),
            ) == spec_i64_bytes(v) ==> r == Some((v, (pos + spec_i64_bytes(v).len()) as usize)),
{
    let sp = match read_u8(buf, pos) {
        Some(x) => x,
        None => {
            proof {
                assert forall|v: i64|
                    pos + spec_i64_bytes(v).len() <= buf@.len() && buf@.subrange(
                        pos as int,
                        pos + spec_i64_bytes(v).len(),
                    ) == spec_i64_bytes(v) implies false by {
                    lemma_i64_bytes_len(v);
                }
            }
            return None;
        }
    };
    let sign = sp.0;
    let mp = match read_u64(buf, sp.1) {
        Some(x) => x,
        None => {
            proof {
                assert forall|v: i64|
                    pos + spec_i64_bytes(v).len() <= buf@.len() && buf@.subrange(
                        pos as int,
                        pos + spec_i64_bytes(v).len(),
                    ) == spec_i64_bytes(v) implies false by {
                    lemma_i64_bytes_len(v);
                }
            }
            return None;
        }
    };
    let mag = mp.0;
    let p2 = mp.1;
    let r: Option<(i64, usize)> = if sign == 0 {
        if mag <= i64::MAX as u64 {
            Some((mag as i64, p2))
        } else {
            None
        }
    } else if sign == 1 {
        if 1 <= mag && mag <= 9223372036854775808u64 {
            Some((-((mag - 1) as i64) - 1, p2))
        } else {
            None
        }
    } else {
        None
    };
    proof {
        assert forall|v: i64|
            pos + spec_i64_bytes(v).len() <= buf@.len() && buf@.subrange(
                pos as int,
                pos + spec_i64_bytes(v).len(),
            ) == spec_i64_bytes(v) implies r == Some((v, (pos + spec_i64_bytes(v).len()) as usize))
            by {
            lemma_i64_bytes_len(v);
            lemma_i64_decode(v, buf@, pos as int);
            vstd::std_specs::vec::axiom_spec_len(buf);
            assert(sign == buf@[pos as int]);
            assert(sp.1 == pos + 1);
            assert(mag == spec_le8_value(buf@, sp.1 as int));
            assert(mag == spec_le8_value(buf@, pos as int + 1));
            assert(p2 == pos + 9);
            if v >= 0 {
                assert(sign == 0u8);
                assert(mag == v as u64);
                assert((v as u64) as i64 == v);
                assert(v as u64 <= i64::MAX as u64);
            } else {
                assert(sign == 1u8);
                let m: u64 = ((-(v + 1)) + 1) as u64;
                assert(mag == m);
                assert(1 <= m <= 9223372036854775808u64);
                assert((m - 1) as i64 == -(v + 1));
                assert(-((m - 1) as i64) - 1 == v);
            }
            assert(r == Some((v, (pos + 9) as usize)));
        }
    }
    r
}

} // verus!
