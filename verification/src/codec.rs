//! Little-endian encoding of the fixed-width fields of the forest format.
//!
//! Every writer appends the little-endian bytes of one value to a buffer; every
//! reader takes bytes from a cursor position and advances the cursor, or fails
//! with the "unexpected end" message when too few bytes remain.
use vstd::bytes::*;
use vstd::prelude::*;

verus! {

broadcast use vstd::string::group_string_axioms;

/// The message of a read that runs past the end of the buffer.
pub open spec fn unexpected_end_message() -> Seq<char> {
    "Unexpected end of buffer while decoding."@
}

/// The four little-endian bytes of a `u32`.
pub open spec fn u32_bytes(x: u32) -> Seq<u8> {
    spec_u32_to_le_bytes(x)
}

/// The four little-endian bytes of an `i32` (its two's-complement bit pattern).
pub open spec fn i32_bytes(x: i32) -> Seq<u8> {
    spec_u32_to_le_bytes(#[verifier::truncate] (x as u32))
}

/// The eight little-endian bytes of a 64-bit pattern (an IEEE-754 double by its bits).
pub open spec fn u64_bytes(x: u64) -> Seq<u8> {
    spec_u64_to_le_bytes(x)
}

/// The concatenated encodings of a sequence of `i32`.
pub open spec fn i32s_bytes(s: Seq<i32>) -> Seq<u8>
    decreases s.len(),
{
    if s.len() == 0 {
        Seq::empty()
    } else {
        i32s_bytes(s.drop_last()) + i32_bytes(s.last())
    }
}

/// The concatenated encodings of a sequence of 64-bit patterns.
pub open spec fn u64s_bytes(s: Seq<u64>) -> Seq<u8>
    decreases s.len(),
{
    if s.len() == 0 {
        Seq::empty()
    } else {
        u64s_bytes(s.drop_last()) + u64_bytes(s.last())
    }
}

/// The concatenated `u32` encodings of a sequence of indices, each narrowed to 32 bits.
pub open spec fn usizes_as_u32_bytes(s: Seq<usize>) -> Seq<u8>
    decreases s.len(),
{
    if s.len() == 0 {
        Seq::empty()
    } else {
        usizes_as_u32_bytes(s.drop_last()) + u32_bytes(s.last() as u32)
    }
}

/// Decoding the bytes of a `u32` gives it back, and each encoding has four bytes.
pub proof fn lemma_u32_bytes(x: u32)
    ensures
        u32_bytes(x).len() == 4,
        spec_u32_from_le_bytes(u32_bytes(x)) == x,
{
    lemma_auto_spec_u32_to_from_le_bytes();
    assert(spec_u32_to_le_bytes(x).len() == 4);
}

/// Decoding the bytes of an `i32` gives it back, and each encoding has four bytes.
pub proof fn lemma_i32_bytes(x: i32)
    ensures
        i32_bytes(x).len() == 4,
        #[verifier::truncate] (spec_u32_from_le_bytes(i32_bytes(x)) as i32) == x,
{
    lemma_auto_spec_u32_to_from_le_bytes();
    let u = #[verifier::truncate] (x as u32);
    assert(spec_u32_to_le_bytes(u).len() == 4);
    assert(#[verifier::truncate] (u as i32) == x) by (bit_vector)
        requires
            u == #[verifier::truncate] (x as u32),
    ;
}

/// Decoding the bytes of a 64-bit pattern gives it back, and each encoding has eight bytes.
pub proof fn lemma_u64_bytes(x: u64)
    ensures
        u64_bytes(x).len() == 8,
        spec_u64_from_le_bytes(u64_bytes(x)) == x,
{
    lemma_auto_spec_u64_to_from_le_bytes();
    assert(spec_u64_to_le_bytes(x).len() == 8);
}

/// Four bytes are the encoding of the `u32` they decode to.
pub proof fn lemma_u32_from_bytes(s: Seq<u8>)
    requires
        s.len() == 4,
    ensures
        u32_bytes(spec_u32_from_le_bytes(s)) == s,
{
    lemma_auto_spec_u32_to_from_le_bytes();
    assert(spec_u32_to_le_bytes(spec_u32_from_le_bytes(s)) == s);
}

/// Four bytes are the encoding of the `i32` they decode to.
pub proof fn lemma_i32_from_bytes(s: Seq<u8>)
    requires
        s.len() == 4,
    ensures
        i32_bytes(#[verifier::truncate] (spec_u32_from_le_bytes(s) as i32)) == s,
{
    lemma_auto_spec_u32_to_from_le_bytes();
    let u = spec_u32_from_le_bytes(s);
    assert(#[verifier::truncate] ((#[verifier::truncate] (u as i32)) as u32) == u) by (bit_vector);
    assert(spec_u32_to_le_bytes(spec_u32_from_le_bytes(s)) == s);
}

/// Eight bytes are the encoding of the 64-bit pattern they decode to.
pub proof fn lemma_u64_from_bytes(s: Seq<u8>)
    requires
        s.len() == 8,
    ensures
        u64_bytes(spec_u64_from_le_bytes(s)) == s,
{
    lemma_auto_spec_u64_to_from_le_bytes();
    assert(spec_u64_to_le_bytes(spec_u64_from_le_bytes(s)) == s);
}

/// Each `i32` takes four bytes.
pub proof fn lemma_i32s_bytes_len(s: Seq<i32>)
    ensures
        i32s_bytes(s).len() == 4 * s.len(),
    decreases s.len(),
{
    if s.len() > 0 {
        lemma_i32s_bytes_len(s.drop_last());
        lemma_i32_bytes(s.last());
    }
}

/// Each 64-bit pattern takes eight bytes.
pub proof fn lemma_u64s_bytes_len(s: Seq<u64>)
    ensures
        u64s_bytes(s).len() == 8 * s.len(),
    decreases s.len(),
{
    if s.len() > 0 {
        lemma_u64s_bytes_len(s.drop_last());
        lemma_u64_bytes(s.last());
    }
}

/// Each index takes four bytes.
pub proof fn lemma_usizes_as_u32_bytes_len(s: Seq<usize>)
    ensures
        usizes_as_u32_bytes(s).len() == 4 * s.len(),
    decreases s.len(),
{
    if s.len() > 0 {
        lemma_usizes_as_u32_bytes_len(s.drop_last());
        lemma_u32_bytes(s.last() as u32);
    }
}

/// Two concatenations with equal right parts of equal length have equal parts.
pub proof fn lemma_concat_cancel(x1: Seq<u8>, y1: Seq<u8>, x2: Seq<u8>, y2: Seq<u8>)
    requires
        x1 + y1 == x2 + y2,
        y1.len() == y2.len(),
    ensures
        x1 == x2,
        y1 == y2,
{
    let s = x1 + y1;
    assert(x1 =~= s.subrange(0, x1.len() as int));
    assert(x2 =~= (x2 + y2).subrange(0, x2.len() as int));
    assert(y1 =~= s.subrange(x1.len() as int, s.len() as int));
    assert(y2 =~= (x2 + y2).subrange(x2.len() as int, s.len() as int));
}

/// Sequences of `i32` of one length with the same encoding are equal.
pub proof fn lemma_i32s_bytes_injective(a: Seq<i32>, b: Seq<i32>)
    requires
        a.len() == b.len(),
        i32s_bytes(a) == i32s_bytes(b),
    ensures
        a == b,
    decreases a.len(),
{
    if a.len() > 0 {
        lemma_i32_bytes(a.last());
        lemma_i32_bytes(b.last());
        lemma_concat_cancel(
            i32s_bytes(a.drop_last()),
            i32_bytes(a.last()),
            i32s_bytes(b.drop_last()),
            i32_bytes(b.last()),
        );
        lemma_i32s_bytes_injective(a.drop_last(), b.drop_last());
        assert(a =~= a.drop_last().push(a.last()));
        assert(b =~= b.drop_last().push(b.last()));
    } else {
        assert(a =~= b);
    }
}

/// Sequences of 64-bit patterns of one length with the same encoding are equal.
pub proof fn lemma_u64s_bytes_injective(a: Seq<u64>, b: Seq<u64>)
    requires
        a.len() == b.len(),
        u64s_bytes(a) == u64s_bytes(b),
    ensures
        a == b,
    decreases a.len(),
{
    if a.len() > 0 {
        lemma_u64_bytes(a.last());
        lemma_u64_bytes(b.last());
        lemma_concat_cancel(
            u64s_bytes(a.drop_last()),
            u64_bytes(a.last()),
            u64s_bytes(b.drop_last()),
            u64_bytes(b.last()),
        );
        lemma_u64s_bytes_injective(a.drop_last(), b.drop_last());
        assert(a =~= a.drop_last().push(a.last()));
        assert(b =~= b.drop_last().push(b.last()));
    } else {
        assert(a =~= b);
    }
}

/// Sequences of indices that fit in 32 bits, of one length, with the same encoding
/// are equal.
pub proof fn lemma_usizes_as_u32_bytes_injective(a: Seq<usize>, b: Seq<usize>)
    requires
        a.len() == b.len(),
        forall|i: int| 0 <= i < a.len() ==> #[trigger] a[i] <= u32::MAX,
        forall|i: int| 0 <= i < b.len() ==> #[trigger] b[i] <= u32::MAX,
        usizes_as_u32_bytes(a) == usizes_as_u32_bytes(b),
    ensures
        a == b,
    decreases a.len(),
{
    if a.len() > 0 {
        let x = a.last();
        let y = b.last();
        assert(x == a[a.len() - 1]);
        assert(y == b[b.len() - 1]);
        lemma_u32_bytes(x as u32);
        lemma_u32_bytes(y as u32);
        lemma_concat_cancel(
            usizes_as_u32_bytes(a.drop_last()),
            u32_bytes(x as u32),
            usizes_as_u32_bytes(b.drop_last()),
            u32_bytes(y as u32),
        );
        lemma_usizes_as_u32_bytes_injective(a.drop_last(), b.drop_last());
        assert(a =~= a.drop_last().push(a.last()));
        assert(b =~= b.drop_last().push(b.last()));
    } else {
        assert(a =~= b);
    }
}

/// Appends the little-endian bytes of `value`.
pub fn write_u32(buf: &mut Vec<u8>, value: u32)
    ensures
        final(buf)@ == old(buf)@ + u32_bytes(value),
{
    let mut bytes = u32_to_le_bytes(value);
    buf.append(&mut bytes);
}

/// Appends the little-endian bytes of `value`.
pub fn write_i32(buf: &mut Vec<u8>, value: i32)
    ensures
        final(buf)@ == old(buf)@ + i32_bytes(value),
{
    let mut bytes = u32_to_le_bytes(value as u32);
    buf.append(&mut bytes);
}

/// Appends the little-endian bytes of a double given by its bit pattern.
pub fn write_f64_bits(buf: &mut Vec<u8>, bits: u64)
    ensures
        final(buf)@ == old(buf)@ + u64_bytes(bits),
{
    let mut bytes = u64_to_le_bytes(bits);
    buf.append(&mut bytes);
}

/// Appends the little-endian bytes of each value, in order.
pub fn write_i32_slice(buf: &mut Vec<u8>, values: &[i32])
    ensures
        final(buf)@ == old(buf)@ + i32s_bytes(values@),
{
    let mut i: usize = 0;
    while i < values.len()
        invariant
            i <= values@.len(),
            buf@ == old(buf)@ + i32s_bytes(values@.take(i as int)),
        decreases values@.len() - i,
    {
        write_i32(buf, values[i]);
        proof {
            let t = values@.take(i + 1);
            assert(t.drop_last() == values@.take(i as int));
            assert(t.last() == values@[i as int]);
        }
        i += 1;
    }
    assert(values@.take(i as int) == values@);
}

/// Takes the next `N` bytes at `*offset` and advances the offset past them.
///
/// Fails, leaving the offset unchanged, when fewer than `N` bytes remain.
pub fn read_exact<const N: usize>(bytes: &[u8], offset: &mut usize) -> (r: Result<[u8; N], String>)
    requires
        *old(offset) + N <= usize::MAX,
    ensures
        match r {
            Ok(out) => {
                &&& *old(offset) + N <= bytes@.len()
                &&& out@ == bytes@.subrange(*old(offset) as int, *old(offset) + N)
                &&& *final(offset) == *old(offset) + N
            },
            Err(e) => {
                &&& *old(offset) + N > bytes@.len()
                &&& e@ == unexpected_end_message()
                &&& *final(offset) == *old(offset)
            },
        },
{
    if *offset + N > bytes.len() {
        return Err("Unexpected end of buffer while decoding.".to_string());
    }
    let start = *offset;
    let mut out = [0u8; N];
    let mut i: usize = 0;
    while i < N
        invariant
            i <= N,
            start + N <= bytes@.len(),
            start + N <= usize::MAX,
            out@.len() == N,
            forall|k: int| 0 <= k < i ==> out@[k] == bytes@[start + k],
        decreases N - i,
    {
        out[i] = bytes[start + i];
        i += 1;
    }
    assert(out@ == bytes@.subrange(start as int, start + N));
    *offset = start + N;
    Ok(out)
}

/// Reads a little-endian `u32` at `*offset` and advances past it.
pub fn read_u32(bytes: &[u8], offset: &mut usize) -> (r: Result<u32, String>)
    requires
        *old(offset) + 4 <= usize::MAX,
    ensures
        match r {
            Ok(v) => {
                &&& *old(offset) + 4 <= bytes@.len()
                &&& u32_bytes(v) == bytes@.subrange(*old(offset) as int, *old(offset) + 4)
                &&& *final(offset) == *old(offset) + 4
            },
            Err(e) => {
                &&& *old(offset) + 4 > bytes@.len()
                &&& e@ == unexpected_end_message()
                &&& *final(offset) == *old(offset)
            },
        },
{
    let arr = match read_exact::<4>(bytes, offset) {
        Ok(arr) => arr,
        Err(e) => return Err(e),
    };
    let v = u32_from_le_bytes(arr.as_slice());
    proof {
        lemma_u32_from_bytes(arr@);
    }
    Ok(v)
}

/// Reads a little-endian `i32` at `*offset` and advances past it.
pub fn read_i32(bytes: &[u8], offset: &mut usize) -> (r: Result<i32, String>)
    requires
        *old(offset) + 4 <= usize::MAX,
    ensures
        match r {
            Ok(v) => {
                &&& *old(offset) + 4 <= bytes@.len()
                &&& i32_bytes(v) == bytes@.subrange(*old(offset) as int, *old(offset) + 4)
                &&& *final(offset) == *old(offset) + 4
            },
            Err(e) => {
                &&& *old(offset) + 4 > bytes@.len()
                &&& e@ == unexpected_end_message()
                &&& *final(offset) == *old(offset)
            },
        },
{
    let arr = match read_exact::<4>(bytes, offset) {
        Ok(arr) => arr,
        Err(e) => return Err(e),
    };
    let v = u32_from_le_bytes(arr.as_slice()) as i32;
    proof {
        lemma_i32_from_bytes(arr@);
    }
    Ok(v)
}

/// Reads the eight little-endian bytes of a double at `*offset`, as its bit pattern,
/// and advances past them.
pub fn read_f64_bits(bytes: &[u8], offset: &mut usize) -> (r: Result<u64, String>)
    requires
        *old(offset) + 8 <= usize::MAX,
    ensures
        match r {
            Ok(v) => {
                &&& *old(offset) + 8 <= bytes@.len()
                &&& u64_bytes(v) == bytes@.subrange(*old(offset) as int, *old(offset) + 8)
                &&& *final(offset) == *old(offset) + 8
            },
            Err(e) => {
                &&& *old(offset) + 8 > bytes@.len()
                &&& e@ == unexpected_end_message()
                &&& *final(offset) == *old(offset)
            },
        },
{
    let arr = match read_exact::<8>(bytes, offset) {
        Ok(arr) => arr,
        Err(e) => return Err(e),
    };
    let v = u64_from_le_bytes(arr.as_slice());
    proof {
        lemma_u64_from_bytes(arr@);
    }
    Ok(v)
}

/// Reads `len` consecutive little-endian `i32` values at `*offset` and advances past them.
///
/// Fails with the "unexpected end" message when fewer than `4 * len` bytes remain;
/// the offset then stands after the last whole value that could be read.
pub fn read_i32_vec(bytes: &[u8], offset: &mut usize, len: usize) -> (r: Result<Vec<i32>, String>)
    requires
        *old(offset) + 4 <= usize::MAX,
        bytes@.len() + 4 <= usize::MAX,
    ensures
        r is Ok <==> (len == 0 || *old(offset) + 4 * len <= bytes@.len()),
        r matches Ok(values) ==> {
            &&& values@.len() == len
            &&& *final(offset) == *old(offset) + 4 * len
            &&& len > 0 ==> i32s_bytes(values@) == bytes@.subrange(
                *old(offset) as int,
                *old(offset) + 4 * len,
            )
        },
        r matches Err(e) ==> {
            &&& e@ == unexpected_end_message()
            &&& *old(offset) <= *final(offset)
            &&& (*final(offset) - *old(offset)) % 4 == 0
            &&& *final(offset) + 4 > bytes@.len()
            &&& *final(offset) <= bytes@.len() || *final(offset) == *old(offset)
        },
{
    let start = *offset;
    let mut values: Vec<i32> = Vec::new();
    let mut i: usize = 0;
    while i < len
        invariant
            i <= len,
            bytes@.len() + 4 <= usize::MAX,
            start + 4 <= usize::MAX,
            start == *old(offset),
            values@.len() == i,
            *offset == start + 4 * i,
            i > 0 ==> *offset <= bytes@.len(),
            i > 0 ==> i32s_bytes(values@) == bytes@.subrange(start as int, *offset as int),
        decreases len - i,
    {
        let ghost before = *offset;
        assert((4 * i) % 4 == 0);
        let v = match read_i32(bytes, offset) {
            Ok(v) => v,
            Err(e) => {
                return Err(e);
            },
        };
        proof {
            let s = values@.push(v);
            assert(s.drop_last() == values@);
            if i > 0 {
                assert(bytes@.subrange(start as int, *offset as int) == bytes@.subrange(
                    start as int,
                    before as int,
                ) + bytes@.subrange(before as int, *offset as int));
            } else {
                assert(i32s_bytes(values@) == Seq::<u8>::empty());
                assert(i32s_bytes(s) == i32_bytes(v));
            }
        }
        values.push(v);
        i += 1;
    }
    Ok(values)
}

} // verus!
