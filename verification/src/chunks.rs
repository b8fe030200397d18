use vstd::prelude::*;

use crate::errors::CodecError;
use crate::wire::{parse_take, read_exact, write_bytes};

verus! {

/// The concatenation of a sequence of byte strings, in order.
pub open spec fn concat_chunks(s: Seq<Seq<u8>>) -> Seq<u8>
    decreases s.len(),
{
    if s.len() == 0 {
        Seq::empty()
    } else {
        s[0] + concat_chunks(s.skip(1))
    }
}

/// Every chunk has the given byte length.
pub open spec fn all_chunk_len(s: Seq<Seq<u8>>, size: int) -> bool {
    forall|i: int| 0 <= i < s.len() ==> (#[trigger] s[i]).len() == size
}

/// Parse `n` consecutive raw chunks of `size` bytes each.
pub open spec fn parse_chunks(data: Seq<u8>, pos: int, n: nat, size: int) -> Result<
    (Seq<Seq<u8>>, int),
    CodecError,
>
    decreases n,
{
    if n == 0 {
        Ok((Seq::empty(), pos))
    } else {
        match parse_take(data, pos, size) {
            Err(e) => Err(e),
            Ok((c, p2)) => match parse_chunks(data, p2, (n - 1) as nat, size) {
                Err(e) => Err(e),
                Ok((rest, p3)) => Ok((seq![c] + rest, p3)),
            },
        }
    }
}

/// Concatenating `n` chunks of `size` bytes yields `n * size` bytes.
pub proof fn lemma_concat_chunks_len(s: Seq<Seq<u8>>, size: int)
    requires
        all_chunk_len(s, size),
        size >= 0,
    ensures
        concat_chunks(s).len() == size * s.len(),
    decreases s.len(),
{
    if s.len() == 0 {
    } else {
        lemma_concat_chunks_len(s.skip(1), size);
        assert(size * s.len() == size + size * (s.len() - 1)) by (nonlinear_arith);
    }
}

/// Parsing the concatenation of a sequence of equal-size chunks, wherever it
/// stands in the input, yields the sequence back.
pub proof fn lemma_parse_chunks_of_bytes(data: Seq<u8>, pos: int, s: Seq<Seq<u8>>, size: int)
    requires
        size >= 0,
        all_chunk_len(s, size),
        0 <= pos,
        pos + concat_chunks(s).len() <= data.len(),
        data.subrange(pos, pos + concat_chunks(s).len() as int) == concat_chunks(s),
    ensures
        parse_chunks(data, pos, s.len() as nat, size) == Ok::<(Seq<Seq<u8>>, int), CodecError>(
            (s, pos + concat_chunks(s).len()),
        ),
    decreases s.len(),
{
    lemma_concat_chunks_len(s, size);
    if s.len() == 0 {
        assert(s =~= Seq::<Seq<u8>>::empty());
    } else {
        let w = concat_chunks(s);
        let head = s[0];
        let rest = concat_chunks(s.skip(1));
        lemma_concat_chunks_len(s.skip(1), size);
        assert(w == head + rest);
        assert(size <= size * s.len() && size + size * (s.len() - 1) == size * s.len())
            by (nonlinear_arith)
            requires
                size >= 0,
                s.len() >= 1,
        ;
        assert(data.subrange(pos, pos + size) =~= head) by {
            assert(forall|i: int|
                0 <= i < size ==> #[trigger] data.subrange(pos, pos + size)[i] == (head + rest)[i]);
        }
        assert(data.subrange(pos + size, pos + size + rest.len() as int) =~= rest) by {
            assert(forall|i: int|
                0 <= i < rest.len() ==> #[trigger] data.subrange(
                    pos + size,
                    pos + size + rest.len() as int,
                )[i] == (head + rest)[i + size]);
        }
        lemma_parse_chunks_of_bytes(data, pos + size, s.skip(1), size);
        assert(seq![s[0]] + s.skip(1) =~= s);
        assert(parse_take(data, pos, size) == Ok::<(Seq<u8>, int), CodecError>(
            (head, pos + size),
        ));
        assert(parse_chunks(data, pos, s.len() as nat, size) == Ok::<
            (Seq<Seq<u8>>, int),
            CodecError,
        >((seq![s[0]] + s.skip(1), pos + size + rest.len())));
    }
}

/// A successful chunk parse yields `n` chunks of the requested size and ends
/// inside the input.
pub proof fn lemma_parse_chunks_shape(data: Seq<u8>, pos: int, n: nat, size: int)
    ensures
        parse_chunks(data, pos, n, size) matches Ok((s, e)) ==> s.len() == n && all_chunk_len(
            s,
            size,
        ),
    decreases n,
{
    if n > 0 {
        match parse_take(data, pos, size) {
            Ok((c, p2)) => {
                lemma_parse_chunks_shape(data, p2, (n - 1) as nat, size);
                match parse_chunks(data, p2, (n - 1) as nat, size) {
                    Ok((rest, e)) => {
                        assert forall|i: int|
                            0 <= i < (seq![c] + rest).len() implies (#[trigger] (seq![c]
                            + rest)[i]).len() == size by {
                            if i > 0 {
                                assert((seq![c] + rest)[i] == rest[i - 1]);
                            }
                        }
                    }
                    Err(_) => {}
                }
            }
            Err(_) => {}
        }
    }
}

/// When the input cannot hold `n` chunks, the parse fails with a short read.
pub proof fn lemma_parse_chunks_short(data: Seq<u8>, pos: int, n: nat, size: int)
    requires
        size >= 1,
        n >= 1,
        0 <= pos <= data.len(),
        pos + size * n > data.len(),
    ensures
        parse_chunks(data, pos, n, size) == Err::<(Seq<Seq<u8>>, int), CodecError>(
            CodecError::ShortRead,
        ),
    decreases n,
{
    if pos + size <= data.len() {
        assert(n >= 2) by (nonlinear_arith)
            requires
                pos + size <= data.len(),
                pos + size * n > data.len(),
                size >= 1,
                n >= 1,
        ;
        assert(size * n == size + size * (n - 1)) by (nonlinear_arith);
        lemma_parse_chunks_short(data, pos + size, (n - 1) as nat, size);
    }
}

/// Read `n` raw chunks of `size` bytes each, advancing past all of them; on
/// any error the position is left where it started.
pub fn read_chunks(data: &[u8], pos: &mut usize, n: usize, size: usize) -> (r: Result<
    Vec<Vec<u8>>,
    CodecError,
>)
    ensures
        match r {
            Ok(v) => parse_chunks(data@, *old(pos) as int, n as nat, size as int) == Ok::<
                (Seq<Seq<u8>>, int),
                CodecError,
            >((v.deep_view(), *final(pos) as int)) && v.deep_view().len() == n && all_chunk_len(
                v.deep_view(),
                size as int,
            ),
            Err(e) => parse_chunks(data@, *old(pos) as int, n as nat, size as int) == Err::<
                (Seq<Seq<u8>>, int),
                CodecError,
            >(e) && *final(pos) == *old(pos),
        },
{
    let start: usize = *pos;
    let ghost pos0 = *pos as int;
    let mut out: Vec<Vec<u8>> = Vec::new();
    let mut i: usize = 0;
    while i < n
        invariant
            i <= n,
            pos0 == *old(pos),
            start == *old(pos),
            out.deep_view().len() == i,
            parse_chunks(data@, pos0, n as nat, size as int) == (match parse_chunks(
                data@,
                *pos as int,
                (n - i) as nat,
                size as int,
            ) {
                Ok((rest, end)) => Ok::<(Seq<Seq<u8>>, int), CodecError>(
                    (out.deep_view() + rest, end),
                ),
                Err(e) => Err::<(Seq<Seq<u8>>, int), CodecError>(e),
            }),
        decreases n - i,
    {
        let ghost prev_dv = out.deep_view();
        match read_exact(data, pos, size) {
            Ok(chunk) => {
                proof {
                    assert(chunk.deep_view() =~= chunk@);
                }
                out.push(chunk);
                proof {
                    assert(out.deep_view() =~= prev_dv.push(chunk@));
                    assert(forall|rest: Seq<Seq<u8>>|
                        prev_dv + (seq![chunk@] + rest) =~= #[trigger] (prev_dv.push(chunk@)
                            + rest));
                }
                i = i + 1;
            }
            Err(e) => {
                proof {
                    assert(parse_chunks(data@, *pos as int, (n - i) as nat, size as int) == Err::<
                        (Seq<Seq<u8>>, int),
                        CodecError,
                    >(e));
                }
                *pos = start;
                return Err(e);
            }
        }
    }
    proof {
        assert(out.deep_view() + Seq::<Seq<u8>>::empty() =~= out.deep_view());
        lemma_parse_chunks_shape(data@, pos0, n as nat, size as int);
    }
    Ok(out)
}

/// Append every chunk in order.
pub fn write_chunks(w: &mut Vec<u8>, chunks: &Vec<Vec<u8>>)
    ensures
        final(w)@ == old(w)@ + concat_chunks(chunks.deep_view()),
{
    let mut i: usize = 0;
    while i < chunks.len()
        invariant
            i <= chunks@.len(),
            chunks.deep_view().len() == chunks@.len(),
            w@ == old(w)@ + concat_chunks(chunks.deep_view().take(i as int)),
        decreases chunks@.len() - i,
    {
        let ghost prev = chunks.deep_view().take(i as int);
        write_bytes(w, &chunks[i]);
        proof {
            lemma_concat_chunks_snoc(prev, chunks.deep_view()[i as int]);
            assert(chunks.deep_view().take(i + 1) =~= prev.push(chunks.deep_view()[i as int]));
            assert(chunks.deep_view()[i as int] == chunks@[i as int]@);
            assert(old(w)@ + concat_chunks(prev) + chunks@[i as int]@ =~= old(w)@ + (concat_chunks(
                prev,
            ) + chunks@[i as int]@));
        }
        i = i + 1;
    }
    proof {
        assert(chunks.deep_view().take(chunks@.len() as int) =~= chunks.deep_view());
    }
}

/// Appending one chunk to a sequence appends its bytes to the concatenation.
pub proof fn lemma_concat_chunks_snoc(s: Seq<Seq<u8>>, c: Seq<u8>)
    ensures
        concat_chunks(s.push(c)) == concat_chunks(s) + c,
    decreases s.len(),
{
    if s.len() == 0 {
        assert(s.push(c).skip(1) =~= Seq::<Seq<u8>>::empty());
        assert(s.push(c)[0] == c);
        assert(concat_chunks(s.push(c)) == c + concat_chunks(s.push(c).skip(1)));
        assert(concat_chunks(s.push(c).skip(1)) == Seq::<u8>::empty());
        assert(concat_chunks(s) == Seq::<u8>::empty());
        assert(concat_chunks(s.push(c)) =~= concat_chunks(s) + c);
    } else {
        assert(s.push(c).skip(1) =~= s.skip(1).push(c));
        lemma_concat_chunks_snoc(s.skip(1), c);
        assert(s.push(c)[0] == s[0]);
        assert(concat_chunks(s.push(c)) == s[0] + (concat_chunks(s.skip(1)) + c));
        assert(s[0] + (concat_chunks(s.skip(1)) + c) =~= (s[0] + concat_chunks(s.skip(1))) + c);
    }
}

} // verus!
