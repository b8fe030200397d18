use vstd::prelude::*;

use crate::errors::CodecError;

verus! {

// ---------------------------------------------------------------------------
// Specification-level parsers. Each takes the whole input and a position and
// returns the parsed value with the position just past it, or the error the
// executable reader raises. The executable readers below are proved to match
// them exactly.
// ---------------------------------------------------------------------------

/// Take `n` raw bytes.
pub open spec fn parse_take(data: Seq<u8>, pos: int, n: int) -> Result<(Seq<u8>, int), CodecError> {
    if 0 <= pos && 0 <= n && pos + n <= data.len() {
        Ok((data.subrange(pos, pos + n), pos + n))
    } else {
        Err(CodecError::ShortRead)
    }
}

/// Take a single byte.
pub open spec fn parse_byte(data: Seq<u8>, pos: int) -> Result<(u8, int), CodecError> {
    if 0 <= pos && pos + 1 <= data.len() {
        Ok((data[pos], pos + 1))
    } else {
        Err(CodecError::ShortRead)
    }
}

/// The 4-byte little-endian encoding of a 32-bit value.
pub open spec fn u32_le_bytes(x: u32) -> Seq<u8> {
    seq![
        (x % 256) as u8,
        ((x / 256) % 256) as u8,
        ((x / 65536) % 256) as u8,
        ((x / 16777216) % 256) as u8,
    ]
}

/// Parse a 4-byte little-endian 32-bit value.
pub open spec fn parse_u32_le(data: Seq<u8>, pos: int) -> Result<(u32, int), CodecError> {
    if 0 <= pos && pos + 4 <= data.len() {
        Ok(
            (
                ((data[pos] as int) + 256 * (data[pos + 1] as int) + 65536 * (data[pos + 2] as int)
                    + 16777216 * (data[pos + 3] as int)) as u32,
                pos + 4,
            ),
        )
    } else {
        Err(CodecError::ShortRead)
    }
}

/// The 8-byte little-endian encoding of a 64-bit value.
pub open spec fn u64_le_bytes(x: u64) -> Seq<u8> {
    seq![
        (x % 256) as u8,
        ((x / 0x100) % 256) as u8,
        ((x / 0x10000) % 256) as u8,
        ((x / 0x1000000) % 256) as u8,
        ((x / 0x100000000) % 256) as u8,
        ((x / 0x10000000000) % 256) as u8,
        ((x / 0x1000000000000) % 256) as u8,
        ((x / 0x100000000000000) % 256) as u8,
    ]
}

/// Parse an 8-byte little-endian 64-bit value.
pub open spec fn parse_u64_le(data: Seq<u8>, pos: int) -> Result<(u64, int), CodecError> {
    if 0 <= pos && pos + 8 <= data.len() {
        Ok(
            (
                ((data[pos] as int) + 0x100 * (data[pos + 1] as int) + 0x10000 * (data[pos
                    + 2] as int) + 0x1000000 * (data[pos + 3] as int) + 0x100000000 * (data[pos
                    + 4] as int) + 0x10000000000 * (data[pos + 5] as int) + 0x1000000000000 * (
                data[pos + 6] as int) + 0x100000000000000 * (data[pos + 7] as int)) as u64,
                pos + 8,
            ),
        )
    } else {
        Err(CodecError::ShortRead)
    }
}

/// The canonical little-endian base-128 continuation encoding of a 64-bit
/// value: seven value bits per byte, the high bit set on every byte but the
/// last, and no redundant trailing zero groups.
pub open spec fn varint_bytes(x: u64) -> Seq<u8>
    decreases x via varint_bytes_decreases
{
    if x < 128 {
        seq![x as u8]
    } else {
        seq![(128 + (x % 128)) as u8] + varint_bytes(x / 128)
    }
}

#[via_fn]
proof fn varint_bytes_decreases(x: u64) {
    if x >= 128 {
        assert(x / 128 < x) by (nonlinear_arith)
            requires
                x >= 128,
        ;
    }
}

/// Parse a canonical base-128 varint: rejects a continuation chain whose
/// remainder is zero (a non-canonical, padded encoding) and any value that
/// does not fit in 64 bits.
pub open spec fn parse_varint(data: Seq<u8>, pos: int) -> Result<(u64, int), CodecError>
    decreases data.len() - pos,
{
    if !(0 <= pos && pos < data.len()) {
        Err(CodecError::ShortRead)
    } else {
        let b = data[pos];
        if b < 128 {
            Ok((b as u64, pos + 1))
        } else {
            match parse_varint(data, pos + 1) {
                Err(e) => Err(e),
                Ok((rest, end)) => if rest == 0 {
                    Err(CodecError::MalformedVarint)
                } else if (b - 128) as int + 128 * (rest as int) > u64::MAX as int {
                    Err(CodecError::MalformedVarint)
                } else {
                    Ok((((b - 128) as u64 + 128 * rest) as u64, end))
                },
            }
        }
    }
}

/// A successful parse consumes at least one byte and stays inside the input.
pub proof fn lemma_parse_varint_bounds(data: Seq<u8>, pos: int)
    ensures
        parse_varint(data, pos) matches Ok((v, end)) ==> pos + 1 <= end <= data.len(),
    decreases data.len() - pos,
{
    if 0 <= pos && pos < data.len() && data[pos] >= 128 {
        lemma_parse_varint_bounds(data, pos + 1);
    }
}

/// Parsing the canonical encoding of `x`, wherever it stands in the input,
/// yields `x` back and stops just past it.
pub proof fn lemma_parse_varint_of_bytes(data: Seq<u8>, pos: int, x: u64)
    requires
        0 <= pos,
        pos + varint_bytes(x).len() <= data.len(),
        data.subrange(pos, pos + varint_bytes(x).len() as int) == varint_bytes(x),
    ensures
        parse_varint(data, pos) == Ok::<(u64, int), CodecError>(
            (x, pos + varint_bytes(x).len()),
        ),
    decreases x,
{
    let w = varint_bytes(x);
    assert(data[pos] == w[0]);
    if x < 128 {
    } else {
        let b = (128 + (x % 128)) as u8;
        assert(w[0] == b);
        let rest = x / 128;
        assert(x / 128 >= 1 && x / 128 < x) by (nonlinear_arith)
            requires
                x >= 128,
        ;
        let wr = varint_bytes(rest);
        assert(w == seq![b] + wr);
        assert(data.subrange(pos + 1, pos + 1 + wr.len() as int) =~= wr) by {
            assert(forall|i: int|
                0 <= i < wr.len() ==> #[trigger] data.subrange(pos + 1, pos + 1 + wr.len() as int)[i]
                    == (seq![b] + wr)[i + 1]);
        }
        lemma_parse_varint_of_bytes(data, pos + 1, rest);
        assert((b - 128) as int + 128 * (rest as int) == x as int) by (nonlinear_arith)
            requires
                b == 128 + (x % 128),
                rest == x / 128,
                x >= 128,
        ;
    }
}

/// The varint encodings of distinct values differ, since each parses back to
/// the value it encodes.
pub proof fn lemma_varint_bytes_len(x: u64)
    ensures
        1 <= varint_bytes(x).len() <= 10,
    decreases x,
{
    if x >= 128 {
        assert(x / 128 < x) by (nonlinear_arith)
            requires
                x >= 128,
        ;
        lemma_varint_bytes_len(x / 128);
        if varint_bytes(x / 128).len() == 10 {
            lemma_varint_small_needs_few_bytes(x / 128, 10);
            reveal_with_fuel(pow128, 11);
            assert(pow128(9) == 0x8000000000000000);
            assert(128 * (x / 128) <= x) by (nonlinear_arith)
                requires
                    x >= 0,
            ;
            assert(false) by (nonlinear_arith)
                requires
                    x / 128 >= 0x8000000000000000,
                    x <= u64::MAX,
                    128 * (x / 128) <= x,
            ;
        }
    }
}

/// A value needing at least two varint bytes is at least `128^(k-1)`.
proof fn lemma_varint_small_needs_few_bytes(x: u64, k: int)
    requires
        varint_bytes(x).len() >= k,
        k >= 2,
    ensures
        x as int >= pow128(k - 1),
    decreases k,
{
    assert(x >= 128);
    if k > 2 {
        assert(x / 128 < x) by (nonlinear_arith)
            requires
                x >= 128,
        ;
        lemma_varint_small_needs_few_bytes(x / 128, k - 1);
        assert(128 * (x / 128) <= x) by (nonlinear_arith)
            requires
                x >= 0,
        ;
        assert(x as int >= 128 * pow128(k - 2)) by (nonlinear_arith)
            requires
                x / 128 >= pow128(k - 2),
                128 * (x / 128) <= x,
        ;
        assert(pow128(k - 1) == 128 * pow128(k - 2));
    } else {
        assert(pow128(1) == 128);
    }
}

/// `128^k`, for reasoning about varint lengths.
pub open spec fn pow128(k: int) -> int
    decreases k,
{
    if k <= 0 {
        1
    } else {
        128 * pow128(k - 1)
    }
}

// ---------------------------------------------------------------------------
// Executable readers and writers.
// ---------------------------------------------------------------------------

/// Read a single byte and advance.
pub fn read_byte(data: &[u8], pos: &mut usize) -> (r: Result<u8, CodecError>)
    ensures
        match r {
            Ok(b) => parse_byte(data@, *old(pos) as int) == Ok::<(u8, int), CodecError>(
                (b, *final(pos) as int),
            ),
            Err(e) => parse_byte(data@, *old(pos) as int) == Err::<(u8, int), CodecError>(e)
                && *final(pos) == *old(pos),
        },
{
    if *pos < data.len() {
        let b = data[*pos];
        *pos = *pos + 1;
        Ok(b)
    } else {
        Err(CodecError::ShortRead)
    }
}

/// Read exactly `n` raw bytes and advance.
pub fn read_exact(data: &[u8], pos: &mut usize, n: usize) -> (r: Result<Vec<u8>, CodecError>)
    ensures
        match r {
            Ok(bytes) => parse_take(data@, *old(pos) as int, n as int) == Ok::<
                (Seq<u8>, int),
                CodecError,
            >((bytes@, *final(pos) as int)) && bytes@.len() == n,
            Err(e) => parse_take(data@, *old(pos) as int, n as int) == Err::<
                (Seq<u8>, int),
                CodecError,
            >(e) && *final(pos) == *old(pos),
        },
{
    if n > data.len() || *pos > data.len() - n {
        return Err(CodecError::ShortRead);
    }
    let mut out: Vec<u8> = Vec::new();
    let mut i: usize = 0;
    while i < n
        invariant
            *pos + n <= data@.len(),
            data@.len() <= usize::MAX,
            i <= n,
            out@ == data@.subrange(*pos as int, *pos + i),
        decreases n - i,
    {
        out.push(data[*pos + i]);
        assert(out@ =~= data@.subrange(*pos as int, *pos + i + 1));
        i = i + 1;
    }
    *pos = *pos + n;
    Ok(out)
}

/// Read a 4-byte little-endian 32-bit value and advance.
pub fn read_u32_le(data: &[u8], pos: &mut usize) -> (r: Result<u32, CodecError>)
    ensures
        match r {
            Ok(x) => parse_u32_le(data@, *old(pos) as int) == Ok::<(u32, int), CodecError>(
                (x, *final(pos) as int),
            ),
            Err(e) => parse_u32_le(data@, *old(pos) as int) == Err::<(u32, int), CodecError>(e)
                && *final(pos) == *old(pos),
        },
{
    if 4 > data.len() || *pos > data.len() - 4 {
        return Err(CodecError::ShortRead);
    }
    let b0 = data[*pos] as u32;
    let b1 = data[*pos + 1] as u32;
    let b2 = data[*pos + 2] as u32;
    let b3 = data[*pos + 3] as u32;
    *pos = *pos + 4;
    Ok(b0 + 256 * b1 + 65536 * b2 + 16777216 * b3)
}

/// Read an 8-byte little-endian 64-bit value and advance.
pub fn read_u64_le(data: &[u8], pos: &mut usize) -> (r: Result<u64, CodecError>)
    ensures
        match r {
            Ok(x) => parse_u64_le(data@, *old(pos) as int) == Ok::<(u64, int), CodecError>(
                (x, *final(pos) as int),
            ),
            Err(e) => parse_u64_le(data@, *old(pos) as int) == Err::<(u64, int), CodecError>(e)
                && *final(pos) == *old(pos),
        },
{
    if 8 > data.len() || *pos > data.len() - 8 {
        return Err(CodecError::ShortRead);
    }
    let b0 = data[*pos] as u64;
    let b1 = data[*pos + 1] as u64;
    let b2 = data[*pos + 2] as u64;
    let b3 = data[*pos + 3] as u64;
    let b4 = data[*pos + 4] as u64;
    let b5 = data[*pos + 5] as u64;
    let b6 = data[*pos + 6] as u64;
    let b7 = data[*pos + 7] as u64;
    *pos = *pos + 8;
    Ok(
        b0 + 0x100 * b1 + 0x10000 * b2 + 0x1000000 * b3 + 0x100000000 * b4 + 0x10000000000 * b5
            + 0x1000000000000 * b6 + 0x100000000000000 * b7,
    )
}

/// Read a canonical base-128 varint and advance.
pub fn read_varint(data: &[u8], pos: &mut usize) -> (r: Result<u64, CodecError>)
    ensures
        match r {
            Ok(x) => parse_varint(data@, *old(pos) as int) == Ok::<(u64, int), CodecError>(
                (x, *final(pos) as int),
            ),
            Err(e) => parse_varint(data@, *old(pos) as int) == Err::<(u64, int), CodecError>(e)
                && *final(pos) == *old(pos),
        },
    decreases data@.len() - *old(pos),
{
    if *pos >= data.len() {
        return Err(CodecError::ShortRead);
    }
    let b = data[*pos];
    if b < 128 {
        *pos = *pos + 1;
        return Ok(b as u64);
    }
    let saved = *pos;
    *pos = *pos + 1;
    match read_varint(data, pos) {
        Err(e) => {
            *pos = saved;
            Err(e)
        }
        Ok(rest) => {
            let low = (b - 128) as u64;
            if rest == 0 {
                *pos = saved;
                return Err(CodecError::MalformedVarint);
            }
            if rest > (u64::MAX - low) / 128 {
                proof {
                    assert(low as int + 128 * (rest as int) > u64::MAX as int) by (nonlinear_arith)
                        requires
                            rest as int > ((u64::MAX - low) as int) / 128,
                            0 <= low < 128,
                    ;
                }
                *pos = saved;
                return Err(CodecError::MalformedVarint);
            }
            proof {
                assert(low as int + 128 * (rest as int) <= u64::MAX as int) by (nonlinear_arith)
                    requires
                        rest as int <= ((u64::MAX - low) as int) / 128,
                        0 <= low < 128,
                ;
            }
            Ok(low + 128 * rest)
        }
    }
}

/// Read exactly `scale * count + extra` raw bytes and advance, guarding the
/// size computation against machine-word overflow.
pub fn read_sized(data: &[u8], pos: &mut usize, scale: usize, count: usize, extra: usize) -> (r:
    Result<Vec<u8>, CodecError>)
    requires
        1 <= scale,
    ensures
        match r {
            Ok(bytes) => parse_take(
                data@,
                *old(pos) as int,
                scale as int * count as int + extra as int,
            ) == Ok::<(Seq<u8>, int), CodecError>((bytes@, *final(pos) as int)) && bytes@.len()
                == scale as int * count as int + extra as int,
            Err(e) => parse_take(data@, *old(pos) as int, scale as int * count as int + extra as int)
                == Err::<(Seq<u8>, int), CodecError>(e) && *final(pos) == *old(pos),
        },
{
    proof {
        assert(scale as int * count as int >= 0) by (nonlinear_arith)
            requires
                scale >= 1,
                count >= 0,
        ;
    }
    if *pos > data.len() || extra > data.len() - *pos {
        return Err(CodecError::ShortRead);
    }
    let room = data.len() - *pos - extra;
    let q = room / scale;
    proof {
        assert(scale * q <= room && room < scale * q + scale) by (nonlinear_arith)
            requires
                q == room as int / scale as int,
                scale >= 1,
                room >= 0,
        ;
    }
    if count > q {
        proof {
            assert(scale as int * count as int > room) by (nonlinear_arith)
                requires
                    count > q,
                    scale * q <= room,
                    room < scale * q + scale,
                    scale >= 1,
            ;
        }
        return Err(CodecError::ShortRead);
    }
    proof {
        assert(scale as int * count as int <= scale * q) by (nonlinear_arith)
            requires
                count <= q,
                scale >= 1,
        ;
    }
    let n = scale * count + extra;
    read_exact(data, pos, n)
}

/// Append raw bytes.
pub fn write_bytes(w: &mut Vec<u8>, bytes: &Vec<u8>)
    ensures
        final(w)@ == old(w)@ + bytes@,
{
    let mut i: usize = 0;
    while i < bytes.len()
        invariant
            i <= bytes@.len(),
            w@ == old(w)@ + bytes@.subrange(0, i as int),
        decreases bytes@.len() - i,
    {
        w.push(bytes[i]);
        assert(w@ =~= old(w)@ + bytes@.subrange(0, i + 1));
        i = i + 1;
    }
    assert(w@ =~= old(w)@ + bytes@);
}

/// Append a 4-byte little-endian 32-bit value.
pub fn write_u32_le(w: &mut Vec<u8>, x: u32)
    ensures
        final(w)@ == old(w)@ + u32_le_bytes(x),
{
    w.push((x % 256) as u8);
    w.push(((x / 256) % 256) as u8);
    w.push(((x / 65536) % 256) as u8);
    w.push(((x / 16777216) % 256) as u8);
    assert(w@ =~= old(w)@ + u32_le_bytes(x));
}

/// Append an 8-byte little-endian 64-bit value.
pub fn write_u64_le(w: &mut Vec<u8>, x: u64)
    ensures
        final(w)@ == old(w)@ + u64_le_bytes(x),
{
    w.push((x % 256) as u8);
    w.push(((x / 0x100) % 256) as u8);
    w.push(((x / 0x10000) % 256) as u8);
    w.push(((x / 0x1000000) % 256) as u8);
    w.push(((x / 0x100000000) % 256) as u8);
    w.push(((x / 0x10000000000) % 256) as u8);
    w.push(((x / 0x1000000000000) % 256) as u8);
    w.push(((x / 0x100000000000000) % 256) as u8);
    assert(w@ =~= old(w)@ + u64_le_bytes(x));
}

/// Append the canonical varint encoding of `x`.
pub fn write_varint(w: &mut Vec<u8>, x: u64)
    ensures
        final(w)@ == old(w)@ + varint_bytes(x),
    decreases x,
{
    if x < 128 {
        w.push(x as u8);
        assert(w@ =~= old(w)@ + varint_bytes(x));
    } else {
        w.push((128 + (x % 128)) as u8);
        write_varint(w, x / 128);
        assert(w@ =~= old(w)@ + varint_bytes(x));
    }
}

/// The byte length of the canonical varint encoding of `x`.
pub fn varint_len(x: u64) -> (r: usize)
    ensures
        r == varint_bytes(x).len(),
    decreases x,
{
    proof {
        lemma_varint_bytes_len(x);
    }
    if x < 128 {
        1
    } else {
        proof {
            assert(x / 128 < x) by (nonlinear_arith)
                requires
                    x >= 128,
            ;
        }
        1 + varint_len(x / 128)
    }
}

/// A window of the input equal to `a + b` splits into a window equal to `a`
/// followed by one equal to `b`.
pub proof fn lemma_subrange_split(data: Seq<u8>, pos: int, a: Seq<u8>, b: Seq<u8>)
    requires
        0 <= pos,
        pos + a.len() + b.len() <= data.len(),
        data.subrange(pos, pos + a.len() + b.len()) == a + b,
    ensures
        data.subrange(pos, pos + a.len() as int) == a,
        data.subrange(pos + a.len() as int, pos + a.len() + b.len()) == b,
{
    assert(data.subrange(pos, pos + a.len() as int) =~= a) by {
        assert(forall|i: int|
            0 <= i < a.len() ==> #[trigger] data.subrange(pos, pos + a.len() as int)[i] == (a
                + b)[i]);
    }
    assert(data.subrange(pos + a.len() as int, pos + a.len() + b.len()) =~= b) by {
        assert(forall|i: int|
            0 <= i < b.len() ==> #[trigger] data.subrange(
                pos + a.len() as int,
                pos + a.len() + b.len(),
            )[i] == (a + b)[i + a.len()]);
    }
}

/// Parsing a 4-byte little-endian encoding recovers the value.
pub proof fn lemma_parse_u32_of_bytes(data: Seq<u8>, pos: int, x: u32)
    requires
        0 <= pos,
        pos + 4 <= data.len(),
        data.subrange(pos, pos + 4) == u32_le_bytes(x),
    ensures
        parse_u32_le(data, pos) == Ok::<(u32, int), CodecError>((x, pos + 4)),
{
    let w = u32_le_bytes(x);
    assert(data[pos] == w[0] && data[pos + 1] == w[1] && data[pos + 2] == w[2] && data[pos + 3]
        == w[3]);
    assert((x % 256) + 256 * ((x / 256) % 256) + 65536 * ((x / 65536) % 256) + 16777216 * ((x
        / 16777216) % 256) == x) by (bit_vector);
}

/// Parsing an 8-byte little-endian encoding recovers the value.
pub proof fn lemma_parse_u64_of_bytes(data: Seq<u8>, pos: int, x: u64)
    requires
        0 <= pos,
        pos + 8 <= data.len(),
        data.subrange(pos, pos + 8) == u64_le_bytes(x),
    ensures
        parse_u64_le(data, pos) == Ok::<(u64, int), CodecError>((x, pos + 8)),
{
    let w = u64_le_bytes(x);
    assert(forall|i: int| 0 <= i < 8 ==> data[pos + i] == w[i]);
    assert(data[pos] == w[0] && data[pos + 1] == w[1] && data[pos + 2] == w[2] && data[pos + 3]
        == w[3] && data[pos + 4] == w[4] && data[pos + 5] == w[5] && data[pos + 6] == w[6] && data[
        pos + 7] == w[7]);
    assert((x % 256) + 0x100 * ((x / 0x100) % 256) + 0x10000 * ((x / 0x10000) % 256) + 0x1000000 * (
    (x / 0x1000000) % 256) + 0x100000000 * ((x / 0x100000000) % 256) + 0x10000000000 * ((x
        / 0x10000000000) % 256) + 0x1000000000000 * ((x / 0x1000000000000) % 256)
        + 0x100000000000000 * ((x / 0x100000000000000) % 256) == x) by (bit_vector);
}

} // verus!
