//! Executable variable-length integer primitives: unsigned base-128 varints
//! and the zig-zag transform for signed values, proved against the spec
//! functions of [`crate::model`].

use vstd::prelude::*;
use crate::model::{varint, zigzag, unzigzag};

verus! {

/// Appends the varint encoding of `value` to `out`.
pub fn write_varint(out: &mut Vec<u8>, value: u64)
    ensures
        final(out)@ == old(out)@ + varint(value as nat),
    decreases value,
{
    if value < 0x80 {
        out.push(value as u8);
        assert(varint(value as nat) =~= seq![value as u8]);
        assert(out@ =~= old(out)@ + varint(value as nat));
    } else {
        let byte: u8 = ((value % 0x80) + 0x80) as u8;
        out.push(byte);
        write_varint(out, value / 0x80);
        assert(varint(value as nat) =~= seq![byte] + varint((value / 0x80) as nat));
        assert(out@ =~= old(out)@ + varint(value as nat));
    }
}

/// Appends the zig-zag varint encoding of `value` to `out`.
pub fn write_signed_varint(out: &mut Vec<u8>, value: i64)
    ensures
        final(out)@ == old(out)@ + varint(zigzag(value) as nat),
{
    let encoded: u64 = if value >= 0 {
        2 * (value as u64)
    } else {
        2 * ((-(value + 1)) as u64) + 1
    };
    assert(encoded == zigzag(value));
    write_varint(out, encoded);
}

/// Reads the varint encoding of `n` that starts at `pos`, returning the value
/// and the position just past it.
pub fn read_varint(data: &Vec<u8>, pos: usize, Ghost(n): Ghost<nat>) -> (r: (u64, usize))
    requires
        n <= u64::MAX,
        0 <= pos,
        pos + varint(n).len() <= data@.len(),
        data@.subrange(pos as int, pos + varint(n).len()) == varint(n),
    ensures
        r.0 == n,
        r.1 == pos + varint(n).len(),
    decreases data@.len() - pos,
{
    proof {
        crate::model::lemma_varint_len(n);
    }
    let dlen = data.len();
    assert(pos + varint(n).len() <= dlen);
    let ghost s = data@.subrange(pos as int, pos + varint(n).len());
    let byte = data[pos];
    assert(byte == s[0] && s[0] == varint(n)[0]);
    if byte < 0x80 {
        assert(n < 0x80 && byte == n as u8) by {
            if n >= 0x80 {
                assert(varint(n)[0] == (0x80 + n % 0x80) as u8);
            }
        }
        (byte as u64, pos + 1)
    } else {
        assert(n >= 0x80);
        let ghost rest: nat = n / 0x80;
        assert(varint(n) =~= seq![(0x80 + n % 0x80) as u8] + varint(rest));
        proof {
            crate::model::lemma_varint_len(rest);
        }
        assert(data@.subrange(pos + 1, pos + 1 + varint(rest).len()) =~= varint(rest)) by {
            let l = varint(rest).len();
            assert forall|i: int| 0 <= i < l implies data@.subrange(
                pos + 1,
                pos + 1 + l,
            )[i] == varint(rest)[i] by {
                assert(data@[pos + 1 + i] == s[1 + i]);
                assert(s[1 + i] == varint(n)[1 + i]);
                assert(varint(n)[1 + i] == varint(rest)[i]);
            }
        }
        let (hi, end) = read_varint(data, pos + 1, Ghost(rest));
        let lo: u64 = (byte - 0x80) as u64;
        assert(lo == n % 0x80);
        assert(n == 0x80 * rest + n % 0x80) by {
            assert(n == 0x80 * (n / 0x80) + n % 0x80) by (nonlinear_arith);
        }
        (0x80 * hi + lo, end)
    }
}

/// Reads a zig-zag varint that starts at `pos`, returning the signed value
/// and the position just past it.
pub fn read_signed_varint(data: &Vec<u8>, pos: usize, Ghost(v): Ghost<i64>) -> (r: (i64, usize))
    requires
        0 <= pos,
        pos + varint(zigzag(v) as nat).len() <= data@.len(),
        data@.subrange(pos as int, pos + varint(zigzag(v) as nat).len()) == varint(zigzag(v) as nat),
    ensures
        r.0 == v,
        r.1 == pos + varint(zigzag(v) as nat).len(),
{
    let (u, end) = read_varint(data, pos, Ghost(zigzag(v) as nat));
    let decoded: i64 = if u % 2 == 0 {
        (u / 2) as i64
    } else {
        -((u / 2) as i64) - 1
    };
    assert(decoded == unzigzag(u));
    assert(unzigzag(zigzag(v)) == v);
    (decoded, end)
}

} // verus!
