use vstd::prelude::*;

use crate::chunks::{
    all_chunk_len, concat_chunks, lemma_concat_chunks_snoc, lemma_parse_chunks_of_bytes,
    lemma_parse_chunks_short, parse_chunks, read_chunks, write_chunks,
};
use crate::errors::CodecError;
use crate::rct_type::RctType;
use crate::wire::{
    lemma_parse_u32_of_bytes, lemma_parse_varint_of_bytes, lemma_subrange_split, parse_take,
    parse_u32_le, parse_varint, read_exact, read_sized, read_u32_le, read_varint, u32_le_bytes,
    varint_bytes, write_bytes, write_u32_le, write_varint,
};

verus! {

/// The byte length of one Borromean range proof: 64 + 64 + 1 scalars of the
/// ring signature followed by 64 bit commitments, 32 bytes each. The internal
/// layout belongs to the external proof engine; only its size and placement
/// are enforced here.
pub open spec fn borromean_len() -> int {
    6176
}

/// One Borromean range proof, carried as opaque bytes of fixed size.
#[derive(Clone, PartialEq, Eq, Debug)]
pub struct BorromeanRange {
    pub bytes: Vec<u8>,
}

impl View for BorromeanRange {
    type V = Seq<u8>;

    open spec fn view(&self) -> Seq<u8> {
        self.bytes@
    }
}

impl DeepView for BorromeanRange {
    type V = Seq<u8>;

    open spec fn deep_view(&self) -> Seq<u8> {
        self.bytes@
    }
}

impl BorromeanRange {
    /// Read one fixed-size Borromean range proof.
    pub fn read(data: &[u8], pos: &mut usize) -> (r: Result<BorromeanRange, CodecError>)
        ensures
            match r {
                Ok(b) => parse_take(data@, *old(pos) as int, borromean_len()) == Ok::<
                    (Seq<u8>, int),
                    CodecError,
                >((b@, *final(pos) as int)),
                Err(e) => parse_take(data@, *old(pos) as int, borromean_len()) == Err::<
                    (Seq<u8>, int),
                    CodecError,
                >(e) && *final(pos) == *old(pos),
            },
    {
        let bytes = match read_exact(data, pos, 6176) {
            Ok(b) => b,
            Err(e) => {
                return Err(e);
            }
        };
        Ok(BorromeanRange { bytes })
    }

    /// Append this proof's bytes.
    pub fn write(&self, w: &mut Vec<u8>)
        ensures
            final(w)@ == old(w)@ + self@,
    {
        write_bytes(w, &self.bytes);
    }
}

/// One MLSAG ring signature over a ring of `d` members: two scalars per
/// member and the aggregate challenge, carried as opaque bytes.
#[derive(Clone, PartialEq, Eq, Debug)]
pub struct Mlsag {
    pub bytes: Vec<u8>,
}

impl View for Mlsag {
    type V = Seq<u8>;

    open spec fn view(&self) -> Seq<u8> {
        self.bytes@
    }
}

impl DeepView for Mlsag {
    type V = Seq<u8>;

    open spec fn deep_view(&self) -> Seq<u8> {
        self.bytes@
    }
}

/// The byte length of an MLSAG over a ring of `d` members.
pub open spec fn mlsag_len(d: int) -> int {
    64 * d + 32
}

impl Mlsag {
    /// Read one MLSAG for a ring of `decoys` members.
    pub fn read(decoys: usize, data: &[u8], pos: &mut usize) -> (r: Result<Mlsag, CodecError>)
        ensures
            match r {
                Ok(m) => parse_take(data@, *old(pos) as int, mlsag_len(decoys as int)) == Ok::<
                    (Seq<u8>, int),
                    CodecError,
                >((m@, *final(pos) as int)),
                Err(e) => parse_take(data@, *old(pos) as int, mlsag_len(decoys as int)) == Err::<
                    (Seq<u8>, int),
                    CodecError,
                >(e) && *final(pos) == *old(pos),
            },
    {
        let bytes = match read_sized(data, pos, 64, decoys, 32) {
            Ok(b) => b,
            Err(e) => {
                return Err(e);
            }
        };
        Ok(Mlsag { bytes })
    }

    /// Append this signature's bytes.
    pub fn write(&self, w: &mut Vec<u8>)
        ensures
            final(w)@ == old(w)@ + self@,
    {
        write_bytes(w, &self.bytes);
    }
}

/// One CLSAG ring signature over a ring of `d` members: one scalar per
/// member, the challenge, and the auxiliary key image, carried as opaque
/// bytes.
#[derive(Clone, PartialEq, Eq, Debug)]
pub struct Clsag {
    pub bytes: Vec<u8>,
}

impl View for Clsag {
    type V = Seq<u8>;

    open spec fn view(&self) -> Seq<u8> {
        self.bytes@
    }
}

impl DeepView for Clsag {
    type V = Seq<u8>;

    open spec fn deep_view(&self) -> Seq<u8> {
        self.bytes@
    }
}

/// The byte length of a CLSAG over a ring of `d` members.
pub open spec fn clsag_len(d: int) -> int {
    32 * d + 64
}

impl Clsag {
    /// Read one CLSAG for a ring of `decoys` members.
    pub fn read(decoys: usize, data: &[u8], pos: &mut usize) -> (r: Result<Clsag, CodecError>)
        ensures
            match r {
                Ok(c) => parse_take(data@, *old(pos) as int, clsag_len(decoys as int)) == Ok::<
                    (Seq<u8>, int),
                    CodecError,
                >((c@, *final(pos) as int)),
                Err(e) => parse_take(data@, *old(pos) as int, clsag_len(decoys as int)) == Err::<
                    (Seq<u8>, int),
                    CodecError,
                >(e) && *final(pos) == *old(pos),
            },
    {
        let bytes = match read_sized(data, pos, 32, decoys, 64) {
            Ok(b) => b,
            Err(e) => {
                return Err(e);
            }
        };
        Ok(Clsag { bytes })
    }

    /// Append this signature's bytes.
    pub fn write(&self, w: &mut Vec<u8>)
        ensures
            final(w)@ == old(w)@ + self@,
    {
        write_bytes(w, &self.bytes);
    }
}

/// An aggregated range proof bundle, in the original Bulletproof layout or
/// the "+" layout. The fixed-width head and tail hold the proof's points and
/// scalars; the two variable-length key vectors carry their own count.
#[derive(Clone, PartialEq, Eq, Debug)]
pub enum Bulletproofs {
    /// The original layout: a 192-byte head (A, S, T1, T2, taux, mu), the L
    /// and R vectors, and a 96-byte tail (a, b, t).
    Original { head: Vec<u8>, l_vals: Vec<Vec<u8>>, r_vals: Vec<Vec<u8>>, tail: Vec<u8> },
    /// The "+" layout: a 192-byte head (A, A1, B, r1, s1, d1) and the L and R
    /// vectors.
    Plus { head: Vec<u8>, l_vals: Vec<Vec<u8>>, r_vals: Vec<Vec<u8>> },
}

/// The mathematical shape of a [`Bulletproofs`] bundle.
#[verifier::ext_equal]
pub enum BulletproofsV {
    Original { head: Seq<u8>, l_vals: Seq<Seq<u8>>, r_vals: Seq<Seq<u8>>, tail: Seq<u8> },
    Plus { head: Seq<u8>, l_vals: Seq<Seq<u8>>, r_vals: Seq<Seq<u8>> },
}

impl View for Bulletproofs {
    type V = BulletproofsV;

    open spec fn view(&self) -> BulletproofsV {
        match self {
            Bulletproofs::Original { head, l_vals, r_vals, tail } => BulletproofsV::Original {
                head: head@,
                l_vals: l_vals.deep_view(),
                r_vals: r_vals.deep_view(),
                tail: tail@,
            },
            Bulletproofs::Plus { head, l_vals, r_vals } => BulletproofsV::Plus {
                head: head@,
                l_vals: l_vals.deep_view(),
                r_vals: r_vals.deep_view(),
            },
        }
    }
}

/// Structural validity of a bulletproof bundle: fixed-width head and tail,
/// 32-byte vector entries, and vector counts a varint can carry.
pub open spec fn bp_wf(b: BulletproofsV) -> bool {
    match b {
        BulletproofsV::Original { head, l_vals, r_vals, tail } => head.len() == 192
            && tail.len() == 96 && all_chunk_len(l_vals, 32) && all_chunk_len(r_vals, 32)
            && l_vals.len() <= u64::MAX && r_vals.len() <= u64::MAX,
        BulletproofsV::Plus { head, l_vals, r_vals } => head.len() == 192 && all_chunk_len(
            l_vals,
            32,
        ) && all_chunk_len(r_vals, 32) && l_vals.len() <= u64::MAX && r_vals.len() <= u64::MAX,
    }
}

/// The key-vector counts fit the varint that carries them; a machine limit
/// every bundle a reader can hold satisfies.
pub open spec fn bp_lens_ok(b: BulletproofsV) -> bool {
    match b {
        BulletproofsV::Original { head, l_vals, r_vals, tail } => l_vals.len() <= u64::MAX
            && r_vals.len() <= u64::MAX,
        BulletproofsV::Plus { head, l_vals, r_vals } => l_vals.len() <= u64::MAX && r_vals.len()
            <= u64::MAX,
    }
}

/// Whether the bundle is the "+" variant.
pub open spec fn bp_is_plus(b: BulletproofsV) -> bool {
    b is Plus
}

/// The wire bytes of a bulletproof bundle: head, then each key vector with a
/// varint count before it, then (for the original layout) the tail.
pub open spec fn bp_wire(b: BulletproofsV) -> Seq<u8> {
    match b {
        BulletproofsV::Original { head, l_vals, r_vals, tail } => head + varint_bytes(
            l_vals.len() as u64,
        ) + concat_chunks(l_vals) + varint_bytes(r_vals.len() as u64) + concat_chunks(r_vals)
            + tail,
        BulletproofsV::Plus { head, l_vals, r_vals } => head + varint_bytes(l_vals.len() as u64)
            + concat_chunks(l_vals) + varint_bytes(r_vals.len() as u64) + concat_chunks(r_vals),
    }
}

/// Parse a bulletproof bundle in the layout the flag selects.
pub open spec fn parse_bp(data: Seq<u8>, pos: int, plus: bool) -> Result<
    (BulletproofsV, int),
    CodecError,
> {
    match parse_take(data, pos, 192) {
        Err(e) => Err(e),
        Ok((head, p1)) => match parse_varint(data, p1) {
            Err(e) => Err(e),
            Ok((nl, p2)) => match parse_chunks(data, p2, nl as nat, 32) {
                Err(e) => Err(e),
                Ok((l_vals, p3)) => match parse_varint(data, p3) {
                    Err(e) => Err(e),
                    Ok((nr, p4)) => match parse_chunks(data, p4, nr as nat, 32) {
                        Err(e) => Err(e),
                        Ok((r_vals, p5)) => if plus {
                            Ok((BulletproofsV::Plus { head, l_vals, r_vals }, p5))
                        } else {
                            match parse_take(data, p5, 96) {
                                Err(e) => Err(e),
                                Ok((tail, p6)) => Ok(
                                    (BulletproofsV::Original { head, l_vals, r_vals, tail }, p6),
                                ),
                            }
                        },
                    },
                },
            },
        },
    }
}

/// Parsing the encoding of a well-formed bundle recovers it, in its own
/// layout.
pub proof fn lemma_parse_bp_of_bytes(data: Seq<u8>, pos: int, b: BulletproofsV)
    requires
        bp_wf(b),
        bp_is_plus(b) == (b is Plus),
        0 <= pos,
        pos + bp_wire(b).len() <= data.len(),
        data.subrange(pos, pos + bp_wire(b).len() as int) == bp_wire(b),
    ensures
        parse_bp(data, pos, b is Plus) == Ok::<(BulletproofsV, int), CodecError>(
            (b, pos + bp_wire(b).len()),
        ),
{
    match b {
        BulletproofsV::Original { head, l_vals, r_vals, tail } => {
            let lv = varint_bytes(l_vals.len() as u64);
            let lc = concat_chunks(l_vals);
            let rv = varint_bytes(r_vals.len() as u64);
            let rc = concat_chunks(r_vals);
            let w = bp_wire(b);
            assert(w =~= head + (lv + (lc + (rv + (rc + tail)))));
            lemma_subrange_split(data, pos, head, lv + (lc + (rv + (rc + tail))));
            let p1 = pos + head.len();
            lemma_subrange_split(data, p1, lv, lc + (rv + (rc + tail)));
            lemma_parse_varint_of_bytes(data, p1, l_vals.len() as u64);
            let p2 = p1 + lv.len();
            lemma_subrange_split(data, p2, lc, rv + (rc + tail));
            lemma_parse_chunks_of_bytes(data, p2, l_vals, 32);
            let p3 = p2 + lc.len();
            lemma_subrange_split(data, p3, rv, rc + tail);
            lemma_parse_varint_of_bytes(data, p3, r_vals.len() as u64);
            let p4 = p3 + rv.len();
            lemma_subrange_split(data, p4, rc, tail);
            lemma_parse_chunks_of_bytes(data, p4, r_vals, 32);
            let p5 = p4 + rc.len();
            assert(data.subrange(p5, p5 + 96) == tail);
        }
        BulletproofsV::Plus { head, l_vals, r_vals } => {
            let lv = varint_bytes(l_vals.len() as u64);
            let lc = concat_chunks(l_vals);
            let rv = varint_bytes(r_vals.len() as u64);
            let rc = concat_chunks(r_vals);
            let w = bp_wire(b);
            assert(w =~= head + (lv + (lc + (rv + rc))));
            lemma_subrange_split(data, pos, head, lv + (lc + (rv + rc)));
            let p1 = pos + head.len();
            lemma_subrange_split(data, p1, lv, lc + (rv + rc));
            lemma_parse_varint_of_bytes(data, p1, l_vals.len() as u64);
            let p2 = p1 + lv.len();
            lemma_subrange_split(data, p2, lc, rv + rc);
            lemma_parse_chunks_of_bytes(data, p2, l_vals, 32);
            let p3 = p2 + lc.len();
            lemma_subrange_split(data, p3, rv, rc);
            lemma_parse_varint_of_bytes(data, p3, r_vals.len() as u64);
            let p4 = p3 + rv.len();
            lemma_parse_chunks_of_bytes(data, p4, r_vals, 32);
        }
    }
}

impl Bulletproofs {
    /// Whether this bundle is the "+" layout.
    pub fn is_plus(&self) -> (r: bool)
        ensures
            r == bp_is_plus(self@),
    {
        match self {
            Bulletproofs::Original { .. } => false,
            Bulletproofs::Plus { .. } => true,
        }
    }

    /// Read a bundle in the original layout.
    pub fn read(data: &[u8], pos: &mut usize) -> (r: Result<Bulletproofs, CodecError>)
        ensures
            match r {
                Ok(b) => parse_bp(data@, *old(pos) as int, false) == Ok::<
                    (BulletproofsV, int),
                    CodecError,
                >((b@, *final(pos) as int)) && bp_wf(b@) && !bp_is_plus(b@),
                Err(e) => parse_bp(data@, *old(pos) as int, false) == Err::<
                    (BulletproofsV, int),
                    CodecError,
                >(e) && *final(pos) == *old(pos),
            },
    {
        Self::read_layout(false, data, pos)
    }

    /// Read a bundle in the "+" layout.
    pub fn read_plus(data: &[u8], pos: &mut usize) -> (r: Result<Bulletproofs, CodecError>)
        ensures
            match r {
                Ok(b) => parse_bp(data@, *old(pos) as int, true) == Ok::<
                    (BulletproofsV, int),
                    CodecError,
                >((b@, *final(pos) as int)) && bp_wf(b@) && bp_is_plus(b@),
                Err(e) => parse_bp(data@, *old(pos) as int, true) == Err::<
                    (BulletproofsV, int),
                    CodecError,
                >(e) && *final(pos) == *old(pos),
            },
    {
        Self::read_layout(true, data, pos)
    }

    /// Read a bundle in the layout the flag selects.
    fn read_layout(plus: bool, data: &[u8], pos: &mut usize) -> (r: Result<
        Bulletproofs,
        CodecError,
    >)
        ensures
            match r {
                Ok(b) => parse_bp(data@, *old(pos) as int, plus) == Ok::<
                    (BulletproofsV, int),
                    CodecError,
                >((b@, *final(pos) as int)) && bp_wf(b@) && bp_is_plus(b@) == plus,
                Err(e) => parse_bp(data@, *old(pos) as int, plus) == Err::<
                    (BulletproofsV, int),
                    CodecError,
                >(e) && *final(pos) == *old(pos),
            },
    {
        let start: usize = *pos;
        let head = match read_exact(data, pos, 192) {
            Ok(h) => h,
            Err(e) => {
                return Err(e);
            }
        };
        let ghost p1 = *pos as int;
        let nl = match read_varint(data, pos) {
            Ok(n) => n,
            Err(e) => {
                *pos = start;
                return Err(e);
            }
        };
        proof {
            crate::wire::lemma_parse_varint_bounds(data@, p1);
        }
        let l_vals = match Self::read_keys(nl, data, pos) {
            Ok(v) => v,
            Err(e) => {
                *pos = start;
                return Err(e);
            }
        };
        let ghost p3 = *pos as int;
        let nr = match read_varint(data, pos) {
            Ok(n) => n,
            Err(e) => {
                *pos = start;
                return Err(e);
            }
        };
        proof {
            crate::wire::lemma_parse_varint_bounds(data@, p3);
        }
        let r_vals = match Self::read_keys(nr, data, pos) {
            Ok(v) => v,
            Err(e) => {
                *pos = start;
                return Err(e);
            }
        };
        if plus {
            Ok(Bulletproofs::Plus { head, l_vals, r_vals })
        } else {
            let tail = match read_exact(data, pos, 96) {
                Ok(t) => t,
                Err(e) => {
                    *pos = start;
                    return Err(e);
                }
            };
            Ok(Bulletproofs::Original { head, l_vals, r_vals, tail })
        }
    }

    /// Read `count` 32-byte keys, where `count` came off the wire and may
    /// exceed what the input can hold.
    fn read_keys(count: u64, data: &[u8], pos: &mut usize) -> (r: Result<Vec<Vec<u8>>, CodecError>)
        requires
            *old(pos) <= data@.len(),
        ensures
            match r {
                Ok(v) => parse_chunks(data@, *old(pos) as int, count as nat, 32) == Ok::<
                    (Seq<Seq<u8>>, int),
                    CodecError,
                >((v.deep_view(), *final(pos) as int)) && v.deep_view().len() == count
                    && all_chunk_len(v.deep_view(), 32),
                Err(e) => parse_chunks(data@, *old(pos) as int, count as nat, 32) == Err::<
                    (Seq<Seq<u8>>, int),
                    CodecError,
                >(e) && *final(pos) == *old(pos),
            },
    {
        if count > data.len() as u64 {
            proof {
                assert(32 * (count as int) > data@.len());
                lemma_parse_chunks_short(data@, *old(pos) as int, count as nat, 32);
            }
            return Err(CodecError::ShortRead);
        }
        read_chunks(data, pos, count as usize, 32)
    }

    /// Append this bundle's wire bytes.
    pub fn write(&self, w: &mut Vec<u8>)
        requires
            bp_lens_ok(self@),
        ensures
            final(w)@ == old(w)@ + bp_wire(self@),
    {
        match self {
            Bulletproofs::Original { head, l_vals, r_vals, tail } => {
                write_bytes(w, head);
                write_varint(w, l_vals.len() as u64);
                write_chunks(w, l_vals);
                write_varint(w, r_vals.len() as u64);
                write_chunks(w, r_vals);
                write_bytes(w, tail);
                proof {
                    assert(l_vals.deep_view().len() == l_vals@.len());
                    assert(r_vals.deep_view().len() == r_vals@.len());
                    assert(w@ =~= old(w)@ + bp_wire(self@));
                }
            }
            Bulletproofs::Plus { head, l_vals, r_vals } => {
                write_bytes(w, head);
                write_varint(w, l_vals.len() as u64);
                write_chunks(w, l_vals);
                write_varint(w, r_vals.len() as u64);
                write_chunks(w, r_vals);
                proof {
                    assert(l_vals.deep_view().len() == l_vals@.len());
                    assert(r_vals.deep_view().len() == r_vals@.len());
                    assert(w@ =~= old(w)@ + bp_wire(self@));
                }
            }
        }
    }
}

/// The bytes a bulletproof bundle contributes to the transaction's
/// signature hash: the same fields as its wire form, without the vector
/// count markers.
pub open spec fn bp_sig_wire(b: BulletproofsV) -> Seq<u8> {
    match b {
        BulletproofsV::Original { head, l_vals, r_vals, tail } => head + concat_chunks(l_vals)
            + concat_chunks(r_vals) + tail,
        BulletproofsV::Plus { head, l_vals, r_vals } => head + concat_chunks(l_vals)
            + concat_chunks(r_vals),
    }
}

impl Bulletproofs {
    /// Append the fields hashed for a transaction signature.
    pub fn signature_write(&self, w: &mut Vec<u8>)
        ensures
            final(w)@ == old(w)@ + bp_sig_wire(self@),
    {
        match self {
            Bulletproofs::Original { head, l_vals, r_vals, tail } => {
                write_bytes(w, head);
                write_chunks(w, l_vals);
                write_chunks(w, r_vals);
                write_bytes(w, tail);
                proof {
                    assert(w@ =~= old(w)@ + bp_sig_wire(self@));
                }
            }
            Bulletproofs::Plus { head, l_vals, r_vals } => {
                write_bytes(w, head);
                write_chunks(w, l_vals);
                write_chunks(w, r_vals);
                proof {
                    assert(w@ =~= old(w)@ + bp_sig_wire(self@));
                }
            }
        }
    }
}

/// The per-ring signature blobs are one per input and sized by that input's
/// ring (decoy-count) entry.
pub open spec fn mlsags_wf(ms: Seq<Seq<u8>>, decoys: Seq<usize>) -> bool {
    ms.len() == decoys.len() && forall|i: int|
        0 <= i < ms.len() ==> (#[trigger] ms[i]).len() == mlsag_len(decoys[i] as int)
}

/// As [`mlsags_wf`], for CLSAG blobs.
pub open spec fn clsags_wf(cs: Seq<Seq<u8>>, decoys: Seq<usize>) -> bool {
    cs.len() == decoys.len() && forall|i: int|
        0 <= i < cs.len() ==> (#[trigger] cs[i]).len() == clsag_len(decoys[i] as int)
}

/// Parse one MLSAG per entry of the decoy-count list, each sized by its
/// entry.
pub open spec fn parse_mlsags(data: Seq<u8>, pos: int, decoys: Seq<usize>) -> Result<
    (Seq<Seq<u8>>, int),
    CodecError,
>
    decreases decoys.len(),
{
    if decoys.len() == 0 {
        Ok((Seq::empty(), pos))
    } else {
        match parse_take(data, pos, mlsag_len(decoys[0] as int)) {
            Err(e) => Err(e),
            Ok((m, p1)) => match parse_mlsags(data, p1, decoys.skip(1)) {
                Err(e) => Err(e),
                Ok((rest, p2)) => Ok((seq![m] + rest, p2)),
            },
        }
    }
}

/// Parse one CLSAG per entry of the decoy-count list.
pub open spec fn parse_clsags(data: Seq<u8>, pos: int, decoys: Seq<usize>) -> Result<
    (Seq<Seq<u8>>, int),
    CodecError,
>
    decreases decoys.len(),
{
    if decoys.len() == 0 {
        Ok((Seq::empty(), pos))
    } else {
        match parse_take(data, pos, clsag_len(decoys[0] as int)) {
            Err(e) => Err(e),
            Ok((c, p1)) => match parse_clsags(data, p1, decoys.skip(1)) {
                Err(e) => Err(e),
                Ok((rest, p2)) => Ok((seq![c] + rest, p2)),
            },
        }
    }
}

/// Parsing the concatenated encodings of correctly sized MLSAGs recovers
/// them.
pub proof fn lemma_parse_mlsags_of_bytes(data: Seq<u8>, pos: int, ms: Seq<Seq<u8>>, decoys: Seq<usize>)
    requires
        mlsags_wf(ms, decoys),
        0 <= pos,
        pos + concat_chunks(ms).len() <= data.len(),
        data.subrange(pos, pos + concat_chunks(ms).len() as int) == concat_chunks(ms),
    ensures
        parse_mlsags(data, pos, decoys) == Ok::<(Seq<Seq<u8>>, int), CodecError>(
            (ms, pos + concat_chunks(ms).len()),
        ),
    decreases decoys.len(),
{
    if decoys.len() == 0 {
        assert(ms =~= Seq::<Seq<u8>>::empty());
    } else {
        let head = ms[0];
        let rest = concat_chunks(ms.skip(1));
        assert(concat_chunks(ms) == head + rest);
        lemma_subrange_split(data, pos, head, rest);
        assert(mlsags_wf(ms.skip(1), decoys.skip(1)));
        lemma_parse_mlsags_of_bytes(data, pos + head.len(), ms.skip(1), decoys.skip(1));
        assert(seq![ms[0]] + ms.skip(1) =~= ms);
    }
}

/// Parsing the concatenated encodings of correctly sized CLSAGs recovers
/// them.
pub proof fn lemma_parse_clsags_of_bytes(data: Seq<u8>, pos: int, cs: Seq<Seq<u8>>, decoys: Seq<usize>)
    requires
        clsags_wf(cs, decoys),
        0 <= pos,
        pos + concat_chunks(cs).len() <= data.len(),
        data.subrange(pos, pos + concat_chunks(cs).len() as int) == concat_chunks(cs),
    ensures
        parse_clsags(data, pos, decoys) == Ok::<(Seq<Seq<u8>>, int), CodecError>(
            (cs, pos + concat_chunks(cs).len()),
        ),
    decreases decoys.len(),
{
    if decoys.len() == 0 {
        assert(cs =~= Seq::<Seq<u8>>::empty());
    } else {
        let head = cs[0];
        let rest = concat_chunks(cs.skip(1));
        assert(concat_chunks(cs) == head + rest);
        lemma_subrange_split(data, pos, head, rest);
        assert(clsags_wf(cs.skip(1), decoys.skip(1)));
        lemma_parse_clsags_of_bytes(data, pos + head.len(), cs.skip(1), decoys.skip(1));
        assert(seq![cs[0]] + cs.skip(1) =~= cs);
    }
}

/// Read one MLSAG per decoy-count entry; on any error the position is left
/// where it started.
pub fn read_mlsags(data: &[u8], pos: &mut usize, decoys: &Vec<usize>) -> (r: Result<
    Vec<Mlsag>,
    CodecError,
>)
    ensures
        match r {
            Ok(v) => parse_mlsags(data@, *old(pos) as int, decoys@) == Ok::<
                (Seq<Seq<u8>>, int),
                CodecError,
            >((v.deep_view(), *final(pos) as int)) && mlsags_wf(v.deep_view(), decoys@),
            Err(e) => parse_mlsags(data@, *old(pos) as int, decoys@) == Err::<
                (Seq<Seq<u8>>, int),
                CodecError,
            >(e) && *final(pos) == *old(pos),
        },
{
    let start: usize = *pos;
    let ghost pos0 = *pos as int;
    let mut out: Vec<Mlsag> = Vec::new();
    let mut i: usize = 0;
    proof {
        assert(out.deep_view() =~= Seq::<Seq<u8>>::empty());
        assert(decoys@.skip(0) =~= decoys@);
        match parse_mlsags(data@, pos0, decoys@) {
            Ok((rest, end)) => {
                assert(out.deep_view() + rest =~= rest);
            }
            Err(_) => {}
        }
    }
    while i < decoys.len()
        invariant
            i <= decoys@.len(),
            pos0 == *old(pos),
            start == *old(pos),
            out.deep_view().len() == i,
            forall|j: int|
                0 <= j < i ==> (#[trigger] out.deep_view()[j]).len() == mlsag_len(
                    decoys@[j] as int,
                ),
            parse_mlsags(data@, pos0, decoys@) == (match parse_mlsags(
                data@,
                *pos as int,
                decoys@.skip(i as int),
            ) {
                Ok((rest, end)) => Ok::<(Seq<Seq<u8>>, int), CodecError>(
                    (out.deep_view() + rest, end),
                ),
                Err(e) => Err::<(Seq<Seq<u8>>, int), CodecError>(e),
            }),
        decreases decoys@.len() - i,
    {
        let ghost prev_dv = out.deep_view();
        proof {
            assert(decoys@.skip(i as int)[0] == decoys@[i as int]);
            assert(decoys@.skip(i as int).skip(1) =~= decoys@.skip(i as int + 1));
        }
        match Mlsag::read(decoys[i], data, pos) {
            Ok(m) => {
                let ghost mv = m@;
                out.push(m);
                proof {
                    assert(out.deep_view() =~= prev_dv.push(mv));
                    assert(forall|rest: Seq<Seq<u8>>|
                        prev_dv + (seq![mv] + rest) =~= #[trigger] (prev_dv.push(mv) + rest));
                }
                i = i + 1;
            }
            Err(e) => {
                proof {
                    assert(parse_mlsags(data@, *pos as int, decoys@.skip(i as int)) == Err::<
                        (Seq<Seq<u8>>, int),
                        CodecError,
                    >(e));
                }
                *pos = start;
                return Err(e);
            }
        }
    }
    proof {
        assert(decoys@.skip(decoys@.len() as int) =~= Seq::<usize>::empty());
        assert(out.deep_view() + Seq::<Seq<u8>>::empty() =~= out.deep_view());
    }
    Ok(out)
}

/// Read one CLSAG per decoy-count entry; on any error the position is left
/// where it started.
pub fn read_clsags(data: &[u8], pos: &mut usize, decoys: &Vec<usize>) -> (r: Result<
    Vec<Clsag>,
    CodecError,
>)
    ensures
        match r {
            Ok(v) => parse_clsags(data@, *old(pos) as int, decoys@) == Ok::<
                (Seq<Seq<u8>>, int),
                CodecError,
            >((v.deep_view(), *final(pos) as int)) && clsags_wf(v.deep_view(), decoys@),
            Err(e) => parse_clsags(data@, *old(pos) as int, decoys@) == Err::<
                (Seq<Seq<u8>>, int),
                CodecError,
            >(e) && *final(pos) == *old(pos),
        },
{
    let start: usize = *pos;
    let ghost pos0 = *pos as int;
    let mut out: Vec<Clsag> = Vec::new();
    let mut i: usize = 0;
    proof {
        assert(out.deep_view() =~= Seq::<Seq<u8>>::empty());
        assert(decoys@.skip(0) =~= decoys@);
        match parse_clsags(data@, pos0, decoys@) {
            Ok((rest, end)) => {
                assert(out.deep_view() + rest =~= rest);
            }
            Err(_) => {}
        }
    }
    while i < decoys.len()
        invariant
            i <= decoys@.len(),
            pos0 == *old(pos),
            start == *old(pos),
            out.deep_view().len() == i,
            forall|j: int|
                0 <= j < i ==> (#[trigger] out.deep_view()[j]).len() == clsag_len(
                    decoys@[j] as int,
                ),
            parse_clsags(data@, pos0, decoys@) == (match parse_clsags(
                data@,
                *pos as int,
                decoys@.skip(i as int),
            ) {
                Ok((rest, end)) => Ok::<(Seq<Seq<u8>>, int), CodecError>(
                    (out.deep_view() + rest, end),
                ),
                Err(e) => Err::<(Seq<Seq<u8>>, int), CodecError>(e),
            }),
        decreases decoys@.len() - i,
    {
        let ghost prev_dv = out.deep_view();
        proof {
            assert(decoys@.skip(i as int)[0] == decoys@[i as int]);
            assert(decoys@.skip(i as int).skip(1) =~= decoys@.skip(i as int + 1));
        }
        match Clsag::read(decoys[i], data, pos) {
            Ok(c) => {
                let ghost cv = c@;
                out.push(c);
                proof {
                    assert(out.deep_view() =~= prev_dv.push(cv));
                    assert(forall|rest: Seq<Seq<u8>>|
                        prev_dv + (seq![cv] + rest) =~= #[trigger] (prev_dv.push(cv) + rest));
                }
                i = i + 1;
            }
            Err(e) => {
                proof {
                    assert(parse_clsags(data@, *pos as int, decoys@.skip(i as int)) == Err::<
                        (Seq<Seq<u8>>, int),
                        CodecError,
                    >(e));
                }
                *pos = start;
                return Err(e);
            }
        }
    }
    proof {
        assert(decoys@.skip(decoys@.len() as int) =~= Seq::<usize>::empty());
        assert(out.deep_view() + Seq::<Seq<u8>>::empty() =~= out.deep_view());
    }
    Ok(out)
}

/// Read one Borromean range proof per output.
pub fn read_borromeans(data: &[u8], pos: &mut usize, outputs: usize) -> (r: Result<
    Vec<BorromeanRange>,
    CodecError,
>)
    ensures
        match r {
            Ok(v) => parse_chunks(data@, *old(pos) as int, outputs as nat, borromean_len()) == Ok::<
                (Seq<Seq<u8>>, int),
                CodecError,
            >((v.deep_view(), *final(pos) as int)) && v.deep_view().len() == outputs
                && all_chunk_len(v.deep_view(), borromean_len()),
            Err(e) => parse_chunks(data@, *old(pos) as int, outputs as nat, borromean_len())
                == Err::<(Seq<Seq<u8>>, int), CodecError>(e) && *final(pos) == *old(pos),
        },
{
    let start: usize = *pos;
    let ghost pos0 = *pos as int;
    let mut out: Vec<BorromeanRange> = Vec::new();
    let mut i: usize = 0;
    while i < outputs
        invariant
            i <= outputs,
            pos0 == *old(pos),
            start == *old(pos),
            out.deep_view().len() == i,
            all_chunk_len(out.deep_view(), borromean_len()),
            parse_chunks(data@, pos0, outputs as nat, borromean_len()) == (match parse_chunks(
                data@,
                *pos as int,
                (outputs - i) as nat,
                borromean_len(),
            ) {
                Ok((rest, end)) => Ok::<(Seq<Seq<u8>>, int), CodecError>(
                    (out.deep_view() + rest, end),
                ),
                Err(e) => Err::<(Seq<Seq<u8>>, int), CodecError>(e),
            }),
        decreases outputs - i,
    {
        let ghost prev_dv = out.deep_view();
        match BorromeanRange::read(data, pos) {
            Ok(b) => {
                let ghost bv = b@;
                out.push(b);
                proof {
                    assert(out.deep_view() =~= prev_dv.push(bv));
                    assert(forall|rest: Seq<Seq<u8>>|
                        prev_dv + (seq![bv] + rest) =~= #[trigger] (prev_dv.push(bv) + rest));
                    assert(all_chunk_len(out.deep_view(), borromean_len())) by {
                        assert(forall|j: int|
                            0 <= j < prev_dv.len() ==> #[trigger] out.deep_view()[j]
                                == prev_dv[j]);
                    }
                }
                i = i + 1;
            }
            Err(e) => {
                proof {
                    assert(parse_chunks(data@, *pos as int, (outputs - i) as nat, borromean_len())
                        == Err::<(Seq<Seq<u8>>, int), CodecError>(e));
                }
                *pos = start;
                return Err(e);
            }
        }
    }
    proof {
        assert(out.deep_view() + Seq::<Seq<u8>>::empty() =~= out.deep_view());
    }
    Ok(out)
}

/// The era-variable proof payload of a RingCT bundle: one of four structural
/// shapes, each a range-proof object plus one ring-signature object per
/// input, with explicit pseudo-output commitments in the bulletproof shapes.
#[derive(Clone, PartialEq, Eq, Debug)]
pub enum RctPrunable {
    /// No proof; legal only for the proofless era.
    Null,
    /// One Borromean range proof per output and one MLSAG per input.
    MlsagBorromean { borromean: Vec<BorromeanRange>, mlsags: Vec<Mlsag> },
    /// A single aggregated Bulletproof, one MLSAG per input, and per-input
    /// pseudo-output commitments.
    MlsagBulletproofs { bulletproofs: Bulletproofs, mlsags: Vec<Mlsag>, pseudo_outs: Vec<Vec<u8>> },
    /// A single aggregated Bulletproof(+), one CLSAG per input, and
    /// per-input pseudo-output commitments.
    Clsag { bulletproofs: Bulletproofs, clsags: Vec<Clsag>, pseudo_outs: Vec<Vec<u8>> },
}

/// The mathematical shape of an [`RctPrunable`].
#[verifier::ext_equal]
pub enum RctPrunableV {
    Null,
    MlsagBorromean { borromean: Seq<Seq<u8>>, mlsags: Seq<Seq<u8>> },
    MlsagBulletproofs {
        bulletproofs: BulletproofsV,
        mlsags: Seq<Seq<u8>>,
        pseudo_outs: Seq<Seq<u8>>,
    },
    Clsag { bulletproofs: BulletproofsV, clsags: Seq<Seq<u8>>, pseudo_outs: Seq<Seq<u8>> },
}

impl View for RctPrunable {
    type V = RctPrunableV;

    open spec fn view(&self) -> RctPrunableV {
        match self {
            RctPrunable::Null => RctPrunableV::Null,
            RctPrunable::MlsagBorromean { borromean, mlsags } => RctPrunableV::MlsagBorromean {
                borromean: borromean.deep_view(),
                mlsags: mlsags.deep_view(),
            },
            RctPrunable::MlsagBulletproofs {
                bulletproofs,
                mlsags,
                pseudo_outs,
            } => RctPrunableV::MlsagBulletproofs {
                bulletproofs: bulletproofs@,
                mlsags: mlsags.deep_view(),
                pseudo_outs: pseudo_outs.deep_view(),
            },
            RctPrunable::Clsag { bulletproofs, clsags, pseudo_outs } => RctPrunableV::Clsag {
                bulletproofs: bulletproofs@,
                clsags: clsags.deep_view(),
                pseudo_outs: pseudo_outs.deep_view(),
            },
        }
    }
}

/// Structural validity of a prunable payload for an era, a decoy-count list
/// and an output count: the shape matches the era, range proofs are per
/// output, ring signatures are per input and sized by that input's ring, and
/// pseudo-outputs are per input.
pub open spec fn prunable_wf(p: RctPrunableV, t: RctType, decoys: Seq<usize>, outputs: nat) -> bool {
    match t {
        RctType::Null => p is Null,
        RctType::MlsagAggregate | RctType::MlsagIndividual => p matches RctPrunableV::MlsagBorromean {
            borromean,
            mlsags,
        } && borromean.len() == outputs && all_chunk_len(borromean, borromean_len()) && mlsags_wf(
            mlsags,
            decoys,
        ),
        RctType::Bulletproofs | RctType::BulletproofsCompactAmount => p matches RctPrunableV::MlsagBulletproofs {
            bulletproofs,
            mlsags,
            pseudo_outs,
        } && bp_wf(bulletproofs) && !bp_is_plus(bulletproofs) && mlsags_wf(mlsags, decoys)
            && pseudo_outs.len() == decoys.len() && all_chunk_len(pseudo_outs, 32),
        RctType::Clsag | RctType::BulletproofsPlus => p matches RctPrunableV::Clsag {
            bulletproofs,
            clsags,
            pseudo_outs,
        } && bp_wf(bulletproofs) && bp_is_plus(bulletproofs) == (t == RctType::BulletproofsPlus)
            && clsags_wf(clsags, decoys) && pseudo_outs.len() == decoys.len() && all_chunk_len(
            pseudo_outs,
            32,
        ),
    }
}

/// The proof-count marker before a bulletproof bundle: a fixed 4-byte
/// little-endian one for the single legacy era, a varint one for every later
/// era. Both always encode the literal value one, since exactly one
/// aggregated proof object is ever carried.
pub open spec fn bp_count_wire(t: RctType) -> Seq<u8> {
    if t == RctType::Bulletproofs {
        u32_le_bytes(1)
    } else {
        seq![1u8]
    }
}

/// The wire bytes of a prunable payload under an era.
pub open spec fn prunable_wire(p: RctPrunableV, t: RctType) -> Seq<u8> {
    match p {
        RctPrunableV::Null => Seq::empty(),
        RctPrunableV::MlsagBorromean { borromean, mlsags } => concat_chunks(borromean)
            + concat_chunks(mlsags),
        RctPrunableV::MlsagBulletproofs { bulletproofs, mlsags, pseudo_outs } => bp_count_wire(t)
            + bp_wire(bulletproofs) + concat_chunks(mlsags) + concat_chunks(pseudo_outs),
        RctPrunableV::Clsag { bulletproofs, clsags, pseudo_outs } => seq![1u8] + bp_wire(
            bulletproofs,
        ) + concat_chunks(clsags) + concat_chunks(pseudo_outs),
    }
}

/// Parse a prunable payload for a known era. A payload with proofs but no
/// inputs is never legitimate, so an empty decoy-count list fails before any
/// bytes are read, for every era.
pub open spec fn parse_prunable(
    data: Seq<u8>,
    pos: int,
    t: RctType,
    decoys: Seq<usize>,
    outputs: nat,
) -> Result<(RctPrunableV, int), CodecError> {
    if decoys.len() == 0 {
        Err(CodecError::NoInputs)
    } else {
        match t {
            RctType::Null => Ok((RctPrunableV::Null, pos)),
            RctType::MlsagAggregate | RctType::MlsagIndividual => {
                match parse_chunks(data, pos, outputs, borromean_len()) {
                    Err(e) => Err(e),
                    Ok((borromean, p1)) => match parse_mlsags(data, p1, decoys) {
                        Err(e) => Err(e),
                        Ok((mlsags, p2)) => Ok(
                            (RctPrunableV::MlsagBorromean { borromean, mlsags }, p2),
                        ),
                    },
                }
            }
            RctType::Bulletproofs | RctType::BulletproofsCompactAmount => {
                let count_step: Result<(u64, int), CodecError> = if t == RctType::Bulletproofs {
                    match parse_u32_le(data, pos) {
                        Err(e) => Err(e),
                        Ok((c, p1)) => Ok((c as u64, p1)),
                    }
                } else {
                    parse_varint(data, pos)
                };
                match count_step {
                    Err(e) => Err(e),
                    Ok((c, p1)) => if c != 1 {
                        Err(CodecError::WrongBulletproofCount)
                    } else {
                        match parse_bp(data, p1, false) {
                            Err(e) => Err(e),
                            Ok((bulletproofs, p2)) => match parse_mlsags(data, p2, decoys) {
                                Err(e) => Err(e),
                                Ok((mlsags, p3)) => match parse_chunks(
                                    data,
                                    p3,
                                    decoys.len() as nat,
                                    32,
                                ) {
                                    Err(e) => Err(e),
                                    Ok((pseudo_outs, p4)) => Ok(
                                        (
                                            RctPrunableV::MlsagBulletproofs {
                                                bulletproofs,
                                                mlsags,
                                                pseudo_outs,
                                            },
                                            p4,
                                        ),
                                    ),
                                },
                            },
                        }
                    },
                }
            }
            RctType::Clsag | RctType::BulletproofsPlus => {
                match parse_varint(data, pos) {
                    Err(e) => Err(e),
                    Ok((c, p1)) => if c != 1 {
                        Err(CodecError::WrongBulletproofCount)
                    } else {
                        match parse_bp(data, p1, t == RctType::BulletproofsPlus) {
                            Err(e) => Err(e),
                            Ok((bulletproofs, p2)) => match parse_clsags(data, p2, decoys) {
                                Err(e) => Err(e),
                                Ok((clsags, p3)) => match parse_chunks(
                                    data,
                                    p3,
                                    decoys.len() as nat,
                                    32,
                                ) {
                                    Err(e) => Err(e),
                                    Ok((pseudo_outs, p4)) => Ok(
                                        (
                                            RctPrunableV::Clsag {
                                                bulletproofs,
                                                clsags,
                                                pseudo_outs,
                                            },
                                            p4,
                                        ),
                                    ),
                                },
                            },
                        }
                    },
                }
            }
        }
    }
}

/// The count markers both decode to one: the varint form is the single byte
/// one, and the legacy form is the 4-byte little-endian one.
proof fn lemma_bp_count_round_trip(data: Seq<u8>, pos: int, t: RctType)
    requires
        0 <= pos,
        pos + bp_count_wire(t).len() <= data.len(),
        data.subrange(pos, pos + bp_count_wire(t).len() as int) == bp_count_wire(t),
    ensures
        t == RctType::Bulletproofs ==> parse_u32_le(data, pos) == Ok::<(u32, int), CodecError>(
            (1u32, pos + 4),
        ),
        t != RctType::Bulletproofs ==> parse_varint(data, pos) == Ok::<(u64, int), CodecError>(
            (1u64, pos + 1),
        ),
{
    if t == RctType::Bulletproofs {
        lemma_parse_u32_of_bytes(data, pos, 1u32);
    } else {
        assert(varint_bytes(1u64) =~= seq![1u8]);
        lemma_parse_varint_of_bytes(data, pos, 1u64);
    }
}

/// Parsing the encoding of a structurally valid prunable payload, under the
/// era and counts it was written for, recovers it.
pub proof fn lemma_parse_prunable_of_bytes(
    data: Seq<u8>,
    pos: int,
    p: RctPrunableV,
    t: RctType,
    decoys: Seq<usize>,
    outputs: nat,
)
    requires
        prunable_wf(p, t, decoys, outputs),
        decoys.len() >= 1,
        0 <= pos,
        pos + prunable_wire(p, t).len() <= data.len(),
        data.subrange(pos, pos + prunable_wire(p, t).len() as int) == prunable_wire(p, t),
    ensures
        parse_prunable(data, pos, t, decoys, outputs) == Ok::<(RctPrunableV, int), CodecError>(
            (p, pos + prunable_wire(p, t).len()),
        ),
{
    match p {
        RctPrunableV::Null => {}
        RctPrunableV::MlsagBorromean { borromean, mlsags } => {
            let bw = concat_chunks(borromean);
            let mw = concat_chunks(mlsags);
            assert(prunable_wire(p, t) == bw + mw);
            lemma_subrange_split(data, pos, bw, mw);
            lemma_parse_chunks_of_bytes(data, pos, borromean, borromean_len());
            lemma_parse_mlsags_of_bytes(data, pos + bw.len(), mlsags, decoys);
        }
        RctPrunableV::MlsagBulletproofs { bulletproofs, mlsags, pseudo_outs } => {
            let cw = bp_count_wire(t);
            let bw = bp_wire(bulletproofs);
            let mw = concat_chunks(mlsags);
            let pw = concat_chunks(pseudo_outs);
            assert(prunable_wire(p, t) =~= cw + (bw + (mw + pw)));
            lemma_subrange_split(data, pos, cw, bw + (mw + pw));
            lemma_bp_count_round_trip(data, pos, t);
            let p1 = pos + cw.len();
            lemma_subrange_split(data, p1, bw, mw + pw);
            lemma_parse_bp_of_bytes(data, p1, bulletproofs);
            let p2 = p1 + bw.len();
            lemma_subrange_split(data, p2, mw, pw);
            lemma_parse_mlsags_of_bytes(data, p2, mlsags, decoys);
            let p3 = p2 + mw.len();
            lemma_parse_chunks_of_bytes(data, p3, pseudo_outs, 32);
        }
        RctPrunableV::Clsag { bulletproofs, clsags, pseudo_outs } => {
            let cw = seq![1u8];
            let bw = bp_wire(bulletproofs);
            let sw = concat_chunks(clsags);
            let pw = concat_chunks(pseudo_outs);
            assert(prunable_wire(p, t) =~= cw + (bw + (sw + pw)));
            lemma_subrange_split(data, pos, cw, bw + (sw + pw));
            assert(bp_count_wire(t) == cw);
            lemma_bp_count_round_trip(data, pos, t);
            let p1 = pos + 1;
            lemma_subrange_split(data, p1, bw, sw + pw);
            lemma_parse_bp_of_bytes(data, p1, bulletproofs);
            let p2 = p1 + bw.len();
            lemma_subrange_split(data, p2, sw, pw);
            lemma_parse_clsags_of_bytes(data, p2, clsags, decoys);
            let p3 = p2 + sw.len();
            lemma_parse_chunks_of_bytes(data, p3, pseudo_outs, 32);
        }
    }
}

/// The bulletproof bundle inside this payload, if any, has key-vector counts
/// its varints can carry.
pub open spec fn prunable_lens_ok(p: RctPrunableV) -> bool {
    match p {
        RctPrunableV::Null => true,
        RctPrunableV::MlsagBorromean { .. } => true,
        RctPrunableV::MlsagBulletproofs { bulletproofs, .. } => bp_lens_ok(bulletproofs),
        RctPrunableV::Clsag { bulletproofs, .. } => bp_lens_ok(bulletproofs),
    }
}

impl RctPrunable {
    /// Append this payload's wire bytes under the given era.
    pub fn write(&self, w: &mut Vec<u8>, rct_type: RctType)
        requires
            prunable_lens_ok(self@),
        ensures
            final(w)@ == old(w)@ + prunable_wire(self@, rct_type),
    {
        match self {
            RctPrunable::Null => {
                proof {
                    assert(w@ =~= old(w)@ + prunable_wire(self@, rct_type));
                }
            }
            RctPrunable::MlsagBorromean { borromean, mlsags } => {
                write_borromeans(w, borromean);
                write_mlsags(w, mlsags);
                proof {
                    assert(w@ =~= old(w)@ + prunable_wire(self@, rct_type));
                }
            }
            RctPrunable::MlsagBulletproofs { bulletproofs, mlsags, pseudo_outs } => {
                if rct_type == RctType::Bulletproofs {
                    write_u32_le(w, 1);
                } else {
                    w.push(1);
                    proof {
                        assert(w@ =~= old(w)@ + seq![1u8]);
                    }
                }
                bulletproofs.write(w);
                write_mlsags(w, mlsags);
                write_chunks(w, pseudo_outs);
                proof {
                    assert(w@ =~= old(w)@ + prunable_wire(self@, rct_type));
                }
            }
            RctPrunable::Clsag { bulletproofs, clsags, pseudo_outs } => {
                w.push(1);
                proof {
                    assert(w@ =~= old(w)@ + seq![1u8]);
                }
                bulletproofs.write(w);
                write_clsags(w, clsags);
                write_chunks(w, pseudo_outs);
                proof {
                    assert(w@ =~= old(w)@ + prunable_wire(self@, rct_type));
                }
            }
        }
    }

    /// This payload's wire bytes under the given era, as a fresh buffer.
    pub fn serialize(&self, rct_type: RctType) -> (r: Vec<u8>)
        requires
            prunable_lens_ok(self@),
        ensures
            r@ == prunable_wire(self@, rct_type),
    {
        let mut serialized: Vec<u8> = Vec::new();
        self.write(&mut serialized, rct_type);
        proof {
            assert(serialized@ =~= prunable_wire(self@, rct_type));
        }
        serialized
    }

    /// Read a prunable payload for a known era, a per-input decoy-count list
    /// and an output count.
    pub fn read(
        rct_type: RctType,
        decoys: &Vec<usize>,
        outputs: usize,
        data: &[u8],
        pos: &mut usize,
    ) -> (r: Result<RctPrunable, CodecError>)
        ensures
            match r {
                Ok(p) => parse_prunable(
                    data@,
                    *old(pos) as int,
                    rct_type,
                    decoys@,
                    outputs as nat,
                ) == Ok::<(RctPrunableV, int), CodecError>((p@, *final(pos) as int))
                    && prunable_wf(p@, rct_type, decoys@, outputs as nat),
                Err(e) => parse_prunable(
                    data@,
                    *old(pos) as int,
                    rct_type,
                    decoys@,
                    outputs as nat,
                ) == Err::<(RctPrunableV, int), CodecError>(e) && *final(pos) == *old(pos),
            },
    {
        if decoys.len() == 0 {
            return Err(CodecError::NoInputs);
        }
        let start: usize = *pos;
        match rct_type {
            RctType::Null => Ok(RctPrunable::Null),
            RctType::MlsagAggregate | RctType::MlsagIndividual => {
                let borromean = match read_borromeans(data, pos, outputs) {
                    Ok(v) => v,
                    Err(e) => {
                        return Err(e);
                    }
                };
                let mlsags = match read_mlsags(data, pos, decoys) {
                    Ok(v) => v,
                    Err(e) => {
                        *pos = start;
                        return Err(e);
                    }
                };
                Ok(RctPrunable::MlsagBorromean { borromean, mlsags })
            }
            RctType::Bulletproofs | RctType::BulletproofsCompactAmount => {
                let count: u64 = if rct_type == RctType::Bulletproofs {
                    match read_u32_le(data, pos) {
                        Ok(c) => c as u64,
                        Err(e) => {
                            return Err(e);
                        }
                    }
                } else {
                    match read_varint(data, pos) {
                        Ok(c) => c,
                        Err(e) => {
                            return Err(e);
                        }
                    }
                };
                if count != 1 {
                    *pos = start;
                    return Err(CodecError::WrongBulletproofCount);
                }
                let bulletproofs = match Bulletproofs::read(data, pos) {
                    Ok(b) => b,
                    Err(e) => {
                        *pos = start;
                        return Err(e);
                    }
                };
                let mlsags = match read_mlsags(data, pos, decoys) {
                    Ok(v) => v,
                    Err(e) => {
                        *pos = start;
                        return Err(e);
                    }
                };
                let pseudo_outs = match read_chunks(data, pos, decoys.len(), 32) {
                    Ok(v) => v,
                    Err(e) => {
                        *pos = start;
                        return Err(e);
                    }
                };
                Ok(RctPrunable::MlsagBulletproofs { bulletproofs, mlsags, pseudo_outs })
            }
            RctType::Clsag | RctType::BulletproofsPlus => {
                let count = match read_varint(data, pos) {
                    Ok(c) => c,
                    Err(e) => {
                        return Err(e);
                    }
                };
                if count != 1 {
                    *pos = start;
                    return Err(CodecError::WrongBulletproofCount);
                }
                let plus = rct_type == RctType::BulletproofsPlus;
                let bulletproofs = match (if plus {
                    Bulletproofs::read_plus(data, pos)
                } else {
                    Bulletproofs::read(data, pos)
                }) {
                    Ok(b) => b,
                    Err(e) => {
                        *pos = start;
                        return Err(e);
                    }
                };
                let clsags = match read_clsags(data, pos, decoys) {
                    Ok(v) => v,
                    Err(e) => {
                        *pos = start;
                        return Err(e);
                    }
                };
                let pseudo_outs = match read_chunks(data, pos, decoys.len(), 32) {
                    Ok(v) => v,
                    Err(e) => {
                        *pos = start;
                        return Err(e);
                    }
                };
                Ok(RctPrunable::Clsag { bulletproofs, clsags, pseudo_outs })
            }
        }
    }
}

/// The bytes a prunable payload contributes to the transaction's signature
/// hash: the range proofs alone — the Borromean proofs in sequence, or the
/// bulletproof bundle without its count marker.
pub open spec fn prunable_sig_wire(p: RctPrunableV) -> Seq<u8> {
    match p {
        RctPrunableV::Null => Seq::empty(),
        RctPrunableV::MlsagBorromean { borromean, .. } => concat_chunks(borromean),
        RctPrunableV::MlsagBulletproofs { bulletproofs, .. } => bp_sig_wire(bulletproofs),
        RctPrunableV::Clsag { bulletproofs, .. } => bp_sig_wire(bulletproofs),
    }
}

impl RctPrunable {
    /// Append what this payload contributes to the transaction's signature
    /// hash. A proofless payload is never hashed this way, so it is ruled
    /// out.
    pub fn signature_write(&self, w: &mut Vec<u8>)
        requires
            !(self@ is Null),
        ensures
            final(w)@ == old(w)@ + prunable_sig_wire(self@),
    {
        match self {
            RctPrunable::Null => {
                proof {
                    assert(false);
                }
            }
            RctPrunable::MlsagBorromean { borromean, .. } => {
                write_borromeans(w, borromean);
            }
            RctPrunable::MlsagBulletproofs { bulletproofs, .. } => {
                bulletproofs.signature_write(w);
            }
            RctPrunable::Clsag { bulletproofs, .. } => {
                bulletproofs.signature_write(w);
            }
        }
    }
}

/// Append every Borromean proof in order.
pub fn write_borromeans(w: &mut Vec<u8>, proofs: &Vec<BorromeanRange>)
    ensures
        final(w)@ == old(w)@ + concat_chunks(proofs.deep_view()),
{
    let mut i: usize = 0;
    while i < proofs.len()
        invariant
            i <= proofs@.len(),
            proofs.deep_view().len() == proofs@.len(),
            w@ == old(w)@ + concat_chunks(proofs.deep_view().take(i as int)),
        decreases proofs@.len() - i,
    {
        let ghost prev = proofs.deep_view().take(i as int);
        proofs[i].write(w);
        proof {
            lemma_concat_chunks_snoc(prev, proofs.deep_view()[i as int]);
            assert(proofs.deep_view().take(i + 1) =~= prev.push(proofs.deep_view()[i as int]));
            assert(proofs.deep_view()[i as int] == proofs@[i as int]@);
            assert(old(w)@ + concat_chunks(prev) + proofs@[i as int]@ =~= old(w)@ + (concat_chunks(
                prev,
            ) + proofs@[i as int]@));
        }
        i = i + 1;
    }
    proof {
        assert(proofs.deep_view().take(proofs@.len() as int) =~= proofs.deep_view());
    }
}

/// Append every MLSAG in order.
pub fn write_mlsags(w: &mut Vec<u8>, sigs: &Vec<Mlsag>)
    ensures
        final(w)@ == old(w)@ + concat_chunks(sigs.deep_view()),
{
    let mut i: usize = 0;
    while i < sigs.len()
        invariant
            i <= sigs@.len(),
            sigs.deep_view().len() == sigs@.len(),
            w@ == old(w)@ + concat_chunks(sigs.deep_view().take(i as int)),
        decreases sigs@.len() - i,
    {
        let ghost prev = sigs.deep_view().take(i as int);
        sigs[i].write(w);
        proof {
            lemma_concat_chunks_snoc(prev, sigs.deep_view()[i as int]);
            assert(sigs.deep_view().take(i + 1) =~= prev.push(sigs.deep_view()[i as int]));
            assert(sigs.deep_view()[i as int] == sigs@[i as int]@);
            assert(old(w)@ + concat_chunks(prev) + sigs@[i as int]@ =~= old(w)@ + (concat_chunks(
                prev,
            ) + sigs@[i as int]@));
        }
        i = i + 1;
    }
    proof {
        assert(sigs.deep_view().take(sigs@.len() as int) =~= sigs.deep_view());
    }
}

/// Append every CLSAG in order.
pub fn write_clsags(w: &mut Vec<u8>, sigs: &Vec<Clsag>)
    ensures
        final(w)@ == old(w)@ + concat_chunks(sigs.deep_view()),
{
    let mut i: usize = 0;
    while i < sigs.len()
        invariant
            i <= sigs@.len(),
            sigs.deep_view().len() == sigs@.len(),
            w@ == old(w)@ + concat_chunks(sigs.deep_view().take(i as int)),
        decreases sigs@.len() - i,
    {
        let ghost prev = sigs.deep_view().take(i as int);
        sigs[i].write(w);
        proof {
            lemma_concat_chunks_snoc(prev, sigs.deep_view()[i as int]);
            assert(sigs.deep_view().take(i + 1) =~= prev.push(sigs.deep_view()[i as int]));
            assert(sigs.deep_view()[i as int] == sigs@[i as int]@);
            assert(old(w)@ + concat_chunks(prev) + sigs@[i as int]@ =~= old(w)@ + (concat_chunks(
                prev,
            ) + sigs@[i as int]@));
        }
        i = i + 1;
    }
    proof {
        assert(sigs.deep_view().take(sigs@.len() as int) =~= sigs.deep_view());
    }
}

} // verus!
