use vstd::prelude::*;

use crate::errors::CodecError;
use crate::wire::{
    lemma_parse_u32_of_bytes, lemma_parse_u64_of_bytes, lemma_subrange_split, parse_byte,
    parse_take, parse_u32_le, parse_u64_le, read_byte, read_exact, read_u32_le, read_u64_le,
    u32_le_bytes, u64_le_bytes, varint_bytes, varint_len, write_bytes, write_u32_le, write_u64_le,
};

verus! {

/// Whether 32 bytes are the canonical compressed encoding of a curve point.
/// The answer is a function of the bytes alone; its definition belongs to
/// the external curve library.
pub uninterp spec fn point_decodes(bytes: Seq<u8>) -> bool;

/// Relies on curve25519_dalek's `CompressedEdwardsY::decompress`: whether the
/// 32 bytes decode as an Edwards point, a deterministic function of the
/// bytes alone.
#[verifier::external_body]
fn point_decodable(bytes: &Vec<u8>) -> (r: bool)
    requires
        bytes@.len() == 32,
    ensures
        r == point_decodes(bytes@),
{
    let mut arr = [0u8; 32];
    arr.copy_from_slice(bytes.as_slice());
    curve25519_dalek::edwards::CompressedEdwardsY(arr).decompress().is_some()
}

/// One ring member: a one-time output key and an output commitment, each an
/// opaque 32-byte compressed curve point.
#[derive(Clone, PartialEq, Eq, Debug)]
pub struct RingMember {
    pub key: Vec<u8>,
    pub commitment: Vec<u8>,
}

/// The mathematical shape of a [`RingMember`].
#[verifier::ext_equal]
pub struct RingMemberV {
    pub key: Seq<u8>,
    pub commitment: Seq<u8>,
}

impl View for RingMember {
    type V = RingMemberV;

    open spec fn view(&self) -> RingMemberV {
        RingMemberV { key: self.key@, commitment: self.commitment@ }
    }
}

impl DeepView for RingMember {
    type V = RingMemberV;

    open spec fn deep_view(&self) -> RingMemberV {
        self.view()
    }
}

/// A member's fields are 32 bytes each and decode as curve points.
pub open spec fn member_wf(m: RingMemberV) -> bool {
    m.key.len() == 32 && m.commitment.len() == 32 && point_decodes(m.key) && point_decodes(
        m.commitment,
    )
}

/// The wire bytes of one member: key then commitment.
pub open spec fn member_wire(m: RingMemberV) -> Seq<u8> {
    m.key + m.commitment
}

/// Parse one member, rejecting a field that does not decode as a point.
pub open spec fn parse_member(data: Seq<u8>, pos: int) -> Result<(RingMemberV, int), CodecError> {
    match parse_take(data, pos, 32) {
        Err(e) => Err(e),
        Ok((key, p1)) => if !point_decodes(key) {
            Err(CodecError::InvalidPoint)
        } else {
            match parse_take(data, p1, 32) {
                Err(e) => Err(e),
                Ok((commitment, p2)) => if !point_decodes(commitment) {
                    Err(CodecError::InvalidPoint)
                } else {
                    Ok((RingMemberV { key, commitment }, p2))
                },
            }
        },
    }
}

/// Parse `n` consecutive members.
pub open spec fn parse_members(data: Seq<u8>, pos: int, n: nat) -> Result<
    (Seq<RingMemberV>, int),
    CodecError,
>
    decreases n,
{
    if n == 0 {
        Ok((Seq::empty(), pos))
    } else {
        match parse_member(data, pos) {
            Err(e) => Err(e),
            Ok((m, p1)) => match parse_members(data, p1, (n - 1) as nat) {
                Err(e) => Err(e),
                Ok((rest, p2)) => Ok((seq![m] + rest, p2)),
            },
        }
    }
}

/// The wire bytes of a member sequence, in order.
pub open spec fn members_wire(s: Seq<RingMemberV>) -> Seq<u8>
    decreases s.len(),
{
    if s.len() == 0 {
        Seq::empty()
    } else {
        member_wire(s[0]) + members_wire(s.skip(1))
    }
}

/// Parsing the encoding of well-formed members recovers them.
pub proof fn lemma_parse_members_of_bytes(data: Seq<u8>, pos: int, s: Seq<RingMemberV>)
    requires
        forall|i: int| 0 <= i < s.len() ==> member_wf(#[trigger] s[i]),
        0 <= pos,
        pos + members_wire(s).len() <= data.len(),
        data.subrange(pos, pos + members_wire(s).len() as int) == members_wire(s),
    ensures
        parse_members(data, pos, s.len() as nat) == Ok::<(Seq<RingMemberV>, int), CodecError>(
            (s, pos + members_wire(s).len()),
        ),
    decreases s.len(),
{
    if s.len() == 0 {
        assert(s =~= Seq::<RingMemberV>::empty());
    } else {
        let head = member_wire(s[0]);
        let rest = members_wire(s.skip(1));
        assert(members_wire(s) == head + rest);
        lemma_subrange_split(data, pos, head, rest);
        lemma_subrange_split(data, pos, s[0].key, s[0].commitment);
        lemma_parse_members_of_bytes(data, pos + head.len(), s.skip(1));
        assert(seq![s[0]] + s.skip(1) =~= s);
    }
}

/// The wire bytes of a sequence of 8-byte little-endian indices, in order.
pub open spec fn u64s_wire(s: Seq<u64>) -> Seq<u8>
    decreases s.len(),
{
    if s.len() == 0 {
        Seq::empty()
    } else {
        u64_le_bytes(s[0]) + u64s_wire(s.skip(1))
    }
}

/// Parse `n` consecutive 8-byte little-endian values.
pub open spec fn parse_u64s(data: Seq<u8>, pos: int, n: nat) -> Result<(Seq<u64>, int), CodecError>
    decreases n,
{
    if n == 0 {
        Ok((Seq::empty(), pos))
    } else {
        match parse_u64_le(data, pos) {
            Err(e) => Err(e),
            Ok((v, p1)) => match parse_u64s(data, p1, (n - 1) as nat) {
                Err(e) => Err(e),
                Ok((rest, p2)) => Ok((seq![v] + rest, p2)),
            },
        }
    }
}

/// Parsing the encoding of a value sequence recovers it.
pub proof fn lemma_parse_u64s_of_bytes(data: Seq<u8>, pos: int, s: Seq<u64>)
    requires
        0 <= pos,
        pos + u64s_wire(s).len() <= data.len(),
        data.subrange(pos, pos + u64s_wire(s).len() as int) == u64s_wire(s),
    ensures
        parse_u64s(data, pos, s.len() as nat) == Ok::<(Seq<u64>, int), CodecError>(
            (s, pos + u64s_wire(s).len()),
        ),
    decreases s.len(),
{
    if s.len() == 0 {
        assert(s =~= Seq::<u64>::empty());
    } else {
        let head = u64_le_bytes(s[0]);
        let rest = u64s_wire(s.skip(1));
        assert(u64s_wire(s) == head + rest);
        lemma_subrange_split(data, pos, head, rest);
        lemma_parse_u64_of_bytes(data, pos, s[0]);
        lemma_parse_u64s_of_bytes(data, pos + head.len(), s.skip(1));
        assert(seq![s[0]] + s.skip(1) =~= s);
    }
}

/// Decoy data for one input: the position of the real spend within the ring,
/// the delta-encoded global indices of the ring members, and each member's
/// key and commitment. The `real_index`/`ring` linkage is privacy-sensitive
/// and should not outlive transaction building.
#[derive(Clone, PartialEq, Eq, Debug)]
pub struct Decoys {
    pub i: u8,
    pub offsets: Vec<u64>,
    pub ring: Vec<RingMember>,
}

/// The mathematical shape of a [`Decoys`] record.
#[verifier::ext_equal]
pub struct DecoysV {
    pub i: u8,
    pub offsets: Seq<u64>,
    pub ring: Seq<RingMemberV>,
}

impl View for Decoys {
    type V = DecoysV;

    open spec fn view(&self) -> DecoysV {
        DecoysV { i: self.i, offsets: self.offsets.deep_view(), ring: self.ring.deep_view() }
    }
}

/// Structural validity of a persisted decoy record: one offset per ring
/// member, a count its 4-byte field can carry, and members whose points
/// decode.
pub open spec fn decoys_wf(d: DecoysV) -> bool {
    &&& d.offsets.len() == d.ring.len()
    &&& d.ring.len() <= u32::MAX
    &&& forall|i: int| 0 <= i < d.ring.len() ==> member_wf(#[trigger] d.ring[i])
}

/// The wire bytes of a persisted decoy record: the real-index byte, a 4-byte
/// little-endian count, the 8-byte little-endian offsets, then each member's
/// two points.
pub open spec fn decoys_wire(d: DecoysV) -> Seq<u8> {
    seq![d.i] + u32_le_bytes(d.offsets.len() as u32) + u64s_wire(d.offsets) + members_wire(d.ring)
}

/// Parse a persisted decoy record.
pub open spec fn parse_decoys(data: Seq<u8>, pos: int) -> Result<(DecoysV, int), CodecError> {
    match parse_byte(data, pos) {
        Err(e) => Err(e),
        Ok((i, p1)) => match parse_u32_le(data, p1) {
            Err(e) => Err(e),
            Ok((n, p2)) => match parse_u64s(data, p2, n as nat) {
                Err(e) => Err(e),
                Ok((offsets, p3)) => match parse_members(data, p3, n as nat) {
                    Err(e) => Err(e),
                    Ok((ring, p4)) => Ok((DecoysV { i, offsets, ring }, p4)),
                },
            },
        },
    }
}

/// Round-trip: parsing the encoding of a well-formed decoy record recovers
/// it.
pub proof fn lemma_parse_decoys_of_bytes(data: Seq<u8>, pos: int, d: DecoysV)
    requires
        decoys_wf(d),
        0 <= pos,
        pos + decoys_wire(d).len() <= data.len(),
        data.subrange(pos, pos + decoys_wire(d).len() as int) == decoys_wire(d),
    ensures
        parse_decoys(data, pos) == Ok::<(DecoysV, int), CodecError>(
            (d, pos + decoys_wire(d).len()),
        ),
{
    let iw = seq![d.i];
    let nw = u32_le_bytes(d.offsets.len() as u32);
    let ow = u64s_wire(d.offsets);
    let mw = members_wire(d.ring);
    let w = decoys_wire(d);
    assert(w =~= iw + (nw + (ow + mw)));
    lemma_subrange_split(data, pos, iw, nw + (ow + mw));
    assert(data[pos] == d.i) by {
        assert(data.subrange(pos, pos + 1)[0] == iw[0]);
    }
    let p1 = pos + 1;
    lemma_subrange_split(data, p1, nw, ow + mw);
    lemma_parse_u32_of_bytes(data, p1, d.offsets.len() as u32);
    let p2 = p1 + 4;
    lemma_subrange_split(data, p2, ow, mw);
    lemma_parse_u64s_of_bytes(data, p2, d.offsets);
    let p3 = p2 + ow.len();
    lemma_parse_members_of_bytes(data, p3, d.ring);
}

/// The delta encoding of a sorted index sequence: the first absolute index,
/// then each index minus its predecessor.
pub open spec fn offsets_of(indices: Seq<u64>) -> Seq<u64> {
    Seq::new(
        indices.len(),
        |k: int|
            if k == 0 {
                indices[0]
            } else {
                (indices[k] - indices[k - 1]) as u64
            },
    )
}

/// The sum of the first `k + 1` offsets, the absolute index they denote.
pub open spec fn offsets_prefix_total(offsets: Seq<u64>, k: int) -> int
    decreases k,
{
    if k <= 0 {
        offsets[0] as int
    } else {
        offsets_prefix_total(offsets, k - 1) + offsets[k]
    }
}

/// The absolute indices a delta-encoded sequence denotes.
pub open spec fn indices_of(offsets: Seq<u64>) -> Seq<u64> {
    Seq::new(offsets.len(), |k: int| offsets_prefix_total(offsets, k) as u64)
}

/// A sequence is sorted in nondecreasing order.
pub open spec fn sorted_u64s(s: Seq<u64>) -> bool {
    forall|j: int, k: int| 0 <= j < k < s.len() ==> s[j] <= s[k]
}

/// The prefix sums of the delta encoding recover the absolute indices.
proof fn lemma_offsets_prefix(indices: Seq<u64>, k: int)
    requires
        sorted_u64s(indices),
        0 <= k < indices.len(),
    ensures
        offsets_prefix_total(offsets_of(indices), k) == indices[k],
    decreases k,
{
    if k > 0 {
        lemma_offsets_prefix(indices, k - 1);
    }
}

/// Offset-encoding invertibility: decoding the delta encoding of any sorted
/// sequence of absolute indices yields the sequence back.
pub proof fn lemma_offsets_invertible(indices: Seq<u64>)
    requires
        indices.len() >= 1,
        sorted_u64s(indices),
    ensures
        indices_of(offsets_of(indices)) == indices,
{
    assert forall|k: int| 0 <= k < indices.len() implies indices_of(offsets_of(indices))[k]
        == indices[k] by {
        lemma_offsets_prefix(indices, k);
    }
    assert(indices_of(offsets_of(indices)) =~= indices);
}

/// Delta-encode a sorted sequence of absolute ring-member indices.
pub fn offset(ring: &[u64]) -> (r: Vec<u64>)
    requires
        ring@.len() >= 1,
        sorted_u64s(ring@),
    ensures
        r@ == offsets_of(ring@),
{
    let mut res: Vec<u64> = Vec::new();
    res.push(ring[0]);
    let mut m: usize = 1;
    while m < ring.len()
        invariant
            1 <= m <= ring@.len(),
            sorted_u64s(ring@),
            res@ == offsets_of(ring@).take(m as int),
        decreases ring@.len() - m,
    {
        res.push(ring[m] - ring[m - 1]);
        proof {
            assert(res@ =~= offsets_of(ring@).take(m as int + 1));
        }
        m = m + 1;
    }
    proof {
        assert(offsets_of(ring@).take(ring@.len() as int) =~= offsets_of(ring@));
    }
    res
}

/// Decode a delta-encoded index sequence back to absolute indices; `None`
/// when a running total would not fit 64 bits.
pub fn offsets_to_indices(offsets: &Vec<u64>) -> (r: Option<Vec<u64>>)
    requires
        offsets@.len() >= 1,
    ensures
        match r {
            Some(v) => v@ == indices_of(offsets@) && (forall|k: int|
                0 <= k < offsets@.len() ==> offsets_prefix_total(offsets@, k) <= u64::MAX),
            None => exists|k: int|
                0 <= k < offsets@.len() && offsets_prefix_total(offsets@, k) > u64::MAX,
        },
{
    let mut res: Vec<u64> = Vec::new();
    let mut acc: u64 = offsets[0];
    res.push(acc);
    let mut k: usize = 1;
    while k < offsets.len()
        invariant
            1 <= k <= offsets@.len(),
            acc == offsets_prefix_total(offsets@, k as int - 1),
            forall|j: int| 0 <= j < k ==> offsets_prefix_total(offsets@, j) <= u64::MAX,
            res@ == indices_of(offsets@).take(k as int),
        decreases offsets@.len() - k,
    {
        if offsets[k] > u64::MAX - acc {
            proof {
                assert(offsets_prefix_total(offsets@, k as int) == offsets_prefix_total(
                    offsets@,
                    k as int - 1,
                ) + offsets@[k as int]);
            }
            return None;
        }
        acc = acc + offsets[k];
        res.push(acc);
        proof {
            assert(res@ =~= indices_of(offsets@).take(k as int + 1));
        }
        k = k + 1;
    }
    proof {
        assert(indices_of(offsets@).take(offsets@.len() as int) =~= indices_of(offsets@));
    }
    Some(res)
}

/// The varint weight of a fee-estimation offset list: the encoded length of
/// the count, plus that of each offset.
pub open spec fn offsets_weight(s: Seq<u64>) -> int
    decreases s.len(),
{
    if s.len() == 0 {
        0
    } else {
        varint_bytes(s[0]).len() + offsets_weight(s.skip(1))
    }
}

/// The weight of a list splits at any point.
proof fn lemma_offsets_weight_split(s: Seq<u64>, i: int)
    requires
        0 <= i <= s.len(),
    ensures
        offsets_weight(s) == offsets_weight(s.take(i)) + offsets_weight(s.skip(i)),
    decreases i,
{
    if i == 0 {
        assert(s.take(0) =~= Seq::<u64>::empty());
        assert(s.skip(0) =~= s);
    } else {
        lemma_offsets_weight_split(s, i - 1);
        let a = s.take(i - 1);
        let b = s.take(i);
        assert(b[0] == s[0] && a.len() == i - 1);
        lemma_offsets_weight_step(s, i);
    }
}

/// Peeling one element off the middle of a weight sum.
proof fn lemma_offsets_weight_step(s: Seq<u64>, i: int)
    requires
        1 <= i <= s.len(),
    ensures
        offsets_weight(s.take(i)) == offsets_weight(s.take(i - 1)) + varint_bytes(
            s[i - 1],
        ).len(),
        offsets_weight(s.skip(i - 1)) == varint_bytes(s[i - 1]).len() + offsets_weight(s.skip(i)),
    decreases i,
{
    if i == 1 {
        assert(s.take(1).skip(1) =~= Seq::<u64>::empty());
        assert(s.take(0) =~= Seq::<u64>::empty());
        assert(s.take(1)[0] == s[0]);
        assert(s.skip(0) =~= s);
        assert(s.skip(0)[0] == s[0]);
        assert(s.skip(0).skip(1) =~= s.skip(1));
    } else {
        lemma_offsets_weight_step(s.skip(1), i - 1);
        assert(s.take(i).skip(1) =~= s.skip(1).take(i - 1));
        assert(s.take(i - 1).skip(1) =~= s.skip(1).take(i - 2));
        assert(s.take(i)[0] == s[0] && s.take(i - 1)[0] == s[0]);
        assert(s.skip(1)[i - 2] == s[i - 1]);
        assert(s.skip(i - 1) =~= s.skip(1).skip(i - 2));
        assert(s.skip(i) =~= s.skip(1).skip(i - 1));
    }
}

impl RingMember {
    /// Read one member, rejecting any 32-byte field that is not a compressed
    /// curve point.
    pub fn read(data: &[u8], pos: &mut usize) -> (r: Result<RingMember, CodecError>)
        ensures
            match r {
                Ok(m) => parse_member(data@, *old(pos) as int) == Ok::<
                    (RingMemberV, int),
                    CodecError,
                >((m@, *final(pos) as int)) && member_wf(m@),
                Err(e) => parse_member(data@, *old(pos) as int) == Err::<
                    (RingMemberV, int),
                    CodecError,
                >(e) && *final(pos) == *old(pos),
            },
    {
        let start: usize = *pos;
        let key = match read_exact(data, pos, 32) {
            Ok(k) => k,
            Err(e) => {
                return Err(e);
            }
        };
        if !point_decodable(&key) {
            *pos = start;
            return Err(CodecError::InvalidPoint);
        }
        let commitment = match read_exact(data, pos, 32) {
            Ok(c) => c,
            Err(e) => {
                *pos = start;
                return Err(e);
            }
        };
        if !point_decodable(&commitment) {
            *pos = start;
            return Err(CodecError::InvalidPoint);
        }
        Ok(RingMember { key, commitment })
    }

    /// Append this member's two points.
    pub fn write(&self, w: &mut Vec<u8>)
        ensures
            final(w)@ == old(w)@ + member_wire(self@),
    {
        write_bytes(w, &self.key);
        write_bytes(w, &self.commitment);
        proof {
            assert(final(w)@ =~= old(w)@ + member_wire(self@));
        }
    }
}

/// Read `n` 8-byte little-endian values; on any error the position is left
/// where it started.
fn read_u64s(data: &[u8], pos: &mut usize, n: usize) -> (r: Result<Vec<u64>, CodecError>)
    ensures
        match r {
            Ok(v) => parse_u64s(data@, *old(pos) as int, n as nat) == Ok::<
                (Seq<u64>, int),
                CodecError,
            >((v@, *final(pos) as int)) && v@.len() == n,
            Err(e) => parse_u64s(data@, *old(pos) as int, n as nat) == Err::<
                (Seq<u64>, int),
                CodecError,
            >(e) && *final(pos) == *old(pos),
        },
{
    let start: usize = *pos;
    let ghost pos0 = *pos as int;
    let mut out: Vec<u64> = Vec::new();
    let mut i: usize = 0;
    while i < n
        invariant
            i <= n,
            pos0 == *old(pos),
            start == *old(pos),
            out@.len() == i,
            parse_u64s(data@, pos0, n as nat) == (match parse_u64s(
                data@,
                *pos as int,
                (n - i) as nat,
            ) {
                Ok((rest, end)) => Ok::<(Seq<u64>, int), CodecError>((out@ + rest, end)),
                Err(e) => Err::<(Seq<u64>, int), CodecError>(e),
            }),
        decreases n - i,
    {
        let ghost prev = out@;
        match read_u64_le(data, pos) {
            Ok(v) => {
                out.push(v);
                proof {
                    assert(forall|rest: Seq<u64>|
                        prev + (seq![v] + rest) =~= #[trigger] (prev.push(v) + rest));
                }
                i = i + 1;
            }
            Err(e) => {
                proof {
                    assert(parse_u64s(data@, *pos as int, (n - i) as nat) == Err::<
                        (Seq<u64>, int),
                        CodecError,
                    >(e));
                }
                *pos = start;
                return Err(e);
            }
        }
    }
    proof {
        assert(out@ + Seq::<u64>::empty() =~= out@);
    }
    Ok(out)
}

/// Read `n` ring members; on any error the position is left where it
/// started.
fn read_members(data: &[u8], pos: &mut usize, n: usize) -> (r: Result<Vec<RingMember>, CodecError>)
    ensures
        match r {
            Ok(v) => parse_members(data@, *old(pos) as int, n as nat) == Ok::<
                (Seq<RingMemberV>, int),
                CodecError,
            >((v.deep_view(), *final(pos) as int)) && v.deep_view().len() == n && (forall|j: int|
                0 <= j < n ==> member_wf(#[trigger] v.deep_view()[j])),
            Err(e) => parse_members(data@, *old(pos) as int, n as nat) == Err::<
                (Seq<RingMemberV>, int),
                CodecError,
            >(e) && *final(pos) == *old(pos),
        },
{
    let start: usize = *pos;
    let ghost pos0 = *pos as int;
    let mut out: Vec<RingMember> = Vec::new();
    let mut i: usize = 0;
    proof {
        assert(out.deep_view() =~= Seq::<RingMemberV>::empty());
        match parse_members(data@, pos0, n as nat) {
            Ok((rest, end)) => {
                assert(out.deep_view() + rest =~= rest);
            }
            Err(_) => {}
        }
    }
    while i < n
        invariant
            i <= n,
            pos0 == *old(pos),
            start == *old(pos),
            out.deep_view().len() == i,
            forall|j: int| 0 <= j < i ==> member_wf(#[trigger] out.deep_view()[j]),
            parse_members(data@, pos0, n as nat) == (match parse_members(
                data@,
                *pos as int,
                (n - i) as nat,
            ) {
                Ok((rest, end)) => Ok::<(Seq<RingMemberV>, int), CodecError>(
                    (out.deep_view() + rest, end),
                ),
                Err(e) => Err::<(Seq<RingMemberV>, int), CodecError>(e),
            }),
        decreases n - i,
    {
        let ghost prev = out.deep_view();
        match RingMember::read(data, pos) {
            Ok(m) => {
                let ghost mv = m@;
                out.push(m);
                proof {
                    assert(out.deep_view() =~= prev.push(mv));
                    assert(forall|rest: Seq<RingMemberV>|
                        prev + (seq![mv] + rest) =~= #[trigger] (prev.push(mv) + rest));
                }
                i = i + 1;
            }
            Err(e) => {
                proof {
                    assert(parse_members(data@, *pos as int, (n - i) as nat) == Err::<
                        (Seq<RingMemberV>, int),
                        CodecError,
                    >(e));
                }
                *pos = start;
                return Err(e);
            }
        }
    }
    proof {
        assert(out.deep_view() + Seq::<RingMemberV>::empty() =~= out.deep_view());
    }
    Ok(out)
}

impl Decoys {
    /// The ring size this record describes.
    pub fn len(&self) -> (r: usize)
        ensures
            r == self@.offsets.len(),
    {
        self.offsets.len()
    }

    /// The varint-encoded byte weight that an offset list of this shape adds
    /// to a transaction: the count plus each delta.
    pub fn fee_weight(offsets: &[u64]) -> (r: usize)
        requires
            offsets@.len() <= u64::MAX,
            varint_bytes(offsets@.len() as u64).len() + offsets_weight(offsets@) <= usize::MAX,
        ensures
            r == varint_bytes(offsets@.len() as u64).len() + offsets_weight(offsets@),
    {
        let mut total: usize = varint_len(offsets.len() as u64);
        let mut i: usize = 0;
        while i < offsets.len()
            invariant
                i <= offsets@.len(),
                offsets@.len() <= u64::MAX,
                varint_bytes(offsets@.len() as u64).len() + offsets_weight(offsets@)
                    <= usize::MAX,
                total == varint_bytes(offsets@.len() as u64).len() + offsets_weight(
                    offsets@.take(i as int),
                ),
            decreases offsets@.len() - i,
        {
            proof {
                lemma_offsets_weight_split(offsets@, i as int);
                lemma_offsets_weight_step(offsets@, i as int + 1);
                lemma_offsets_weight_split(offsets@, i as int + 1);
                lemma_offsets_weight_nonneg(offsets@.skip(i as int + 1));
            }
            total = total + varint_len(offsets[i]);
            i = i + 1;
        }
        proof {
            assert(offsets@.take(offsets@.len() as int) =~= offsets@);
        }
        total
    }

    /// Read a persisted decoy record.
    pub fn read(data: &[u8], pos: &mut usize) -> (r: Result<Decoys, CodecError>)
        ensures
            match r {
                Ok(d) => parse_decoys(data@, *old(pos) as int) == Ok::<(DecoysV, int), CodecError>(
                    (d@, *final(pos) as int),
                ) && d@.ring.len() == d@.offsets.len() && (forall|j: int|
                    0 <= j < d@.ring.len() ==> member_wf(#[trigger] d@.ring[j])),
                Err(e) => parse_decoys(data@, *old(pos) as int) == Err::<
                    (DecoysV, int),
                    CodecError,
                >(e) && *final(pos) == *old(pos),
            },
    {
        let start: usize = *pos;
        let i = match read_byte(data, pos) {
            Ok(b) => b,
            Err(e) => {
                return Err(e);
            }
        };
        let n = match read_u32_le(data, pos) {
            Ok(v) => v,
            Err(e) => {
                *pos = start;
                return Err(e);
            }
        };
        let count = n as usize;
        let offsets = match read_u64s(data, pos, count) {
            Ok(v) => v,
            Err(e) => {
                *pos = start;
                return Err(e);
            }
        };
        let ring = match read_members(data, pos, count) {
            Ok(v) => v,
            Err(e) => {
                *pos = start;
                return Err(e);
            }
        };
        let d = Decoys { i, offsets, ring };
        proof {
            assert(d@.offsets =~= d.offsets@);
            assert(d@ =~= DecoysV { i, offsets: d.offsets@, ring: d.ring.deep_view() });
        }
        Ok(d)
    }

    /// Append this record's wire bytes.
    pub fn write(&self, w: &mut Vec<u8>)
        requires
            self@.offsets.len() <= u32::MAX,
        ensures
            final(w)@ == old(w)@ + decoys_wire(self@),
    {
        w.push(self.i);
        write_u32_le(w, self.offsets.len() as u32);
        let ghost mid = w@;
        let mut k: usize = 0;
        while k < self.offsets.len()
            invariant
                k <= self.offsets@.len(),
                self.offsets@.len() <= u32::MAX,
                w@ == mid + u64s_wire(self.offsets@.take(k as int)),
            decreases self.offsets@.len() - k,
        {
            let ghost prev = self.offsets@.take(k as int);
            write_u64_le(w, self.offsets[k]);
            proof {
                lemma_u64s_wire_snoc(prev, self.offsets@[k as int]);
                assert(self.offsets@.take(k as int + 1) =~= prev.push(self.offsets@[k as int]));
                assert(mid + u64s_wire(prev) + u64_le_bytes(self.offsets@[k as int]) =~= mid + (
                u64s_wire(prev) + u64_le_bytes(self.offsets@[k as int])));
            }
            k = k + 1;
        }
        proof {
            assert(self.offsets@.take(self.offsets@.len() as int) =~= self.offsets@);
            assert(self.offsets.deep_view() =~= self.offsets@);
            assert(u64s_wire(self.offsets.deep_view()) == u64s_wire(self.offsets@));
        }
        let ghost mid2 = w@;
        let mut m: usize = 0;
        while m < self.ring.len()
            invariant
                m <= self.ring@.len(),
                self.ring.deep_view().len() == self.ring@.len(),
                w@ == mid2 + members_wire(self.ring.deep_view().take(m as int)),
            decreases self.ring@.len() - m,
        {
            let ghost prev = self.ring.deep_view().take(m as int);
            self.ring[m].write(w);
            proof {
                lemma_members_wire_snoc(prev, self.ring.deep_view()[m as int]);
                assert(self.ring.deep_view().take(m as int + 1) =~= prev.push(
                    self.ring.deep_view()[m as int],
                ));
                assert(self.ring.deep_view()[m as int] == self.ring@[m as int]@);
                assert(mid2 + members_wire(prev) + member_wire(self.ring@[m as int]@) =~= mid2 + (
                members_wire(prev) + member_wire(self.ring@[m as int]@)));
            }
            m = m + 1;
        }
        proof {
            assert(self.ring.deep_view().take(self.ring@.len() as int) =~= self.ring.deep_view());
            assert(w@ =~= old(w)@ + decoys_wire(self@));
        }
    }

    /// Decode a record from a whole buffer; the buffer must hold a valid
    /// record, as every buffer this library wrote does.
    pub fn from_bytes(buf: &[u8]) -> (r: Self)
        requires
            parse_decoys(buf@, 0) is Ok,
        ensures
            parse_decoys(buf@, 0) matches Ok((d, end)) && r@ == d,
    {
        let mut pos: usize = 0;
        match Self::read(buf, &mut pos) {
            Ok(d) => d,
            Err(_) => {
                proof {
                    assert(false);
                }
                Decoys { i: 0, offsets: Vec::new(), ring: Vec::new() }
            }
        }
    }

    /// This record's wire bytes as a fresh buffer.
    pub fn to_bytes(&self) -> (r: Vec<u8>)
        requires
            self@.offsets.len() <= u32::MAX,
        ensures
            r@ == decoys_wire(self@),
    {
        let mut buf: Vec<u8> = Vec::new();
        self.write(&mut buf);
        proof {
            assert(buf@ =~= decoys_wire(self@));
        }
        buf
    }
}

/// The weight of a list is never negative.
proof fn lemma_offsets_weight_nonneg(s: Seq<u64>)
    ensures
        offsets_weight(s) >= 0,
    decreases s.len(),
{
    if s.len() > 0 {
        crate::wire::lemma_varint_bytes_len(s[0]);
        lemma_offsets_weight_nonneg(s.skip(1));
    }
}

/// Appending one value appends its bytes to the sequence encoding.
proof fn lemma_u64s_wire_snoc(s: Seq<u64>, v: u64)
    ensures
        u64s_wire(s.push(v)) == u64s_wire(s) + u64_le_bytes(v),
    decreases s.len(),
{
    if s.len() == 0 {
        assert(s.push(v).skip(1) =~= Seq::<u64>::empty());
        assert(s.push(v)[0] == v);
        assert(u64s_wire(s.push(v)) == u64_le_bytes(v) + u64s_wire(s.push(v).skip(1)));
        assert(u64s_wire(s.push(v)) =~= u64s_wire(s) + u64_le_bytes(v));
    } else {
        assert(s.push(v).skip(1) =~= s.skip(1).push(v));
        lemma_u64s_wire_snoc(s.skip(1), v);
        assert(s.push(v)[0] == s[0]);
        assert(u64s_wire(s.push(v)) == u64_le_bytes(s[0]) + (u64s_wire(s.skip(1)) + u64_le_bytes(
            v,
        )));
        assert(u64_le_bytes(s[0]) + (u64s_wire(s.skip(1)) + u64_le_bytes(v)) =~= (u64_le_bytes(
            s[0],
        ) + u64s_wire(s.skip(1))) + u64_le_bytes(v));
    }
}

/// Appending one member appends its bytes to the sequence encoding.
proof fn lemma_members_wire_snoc(s: Seq<RingMemberV>, m: RingMemberV)
    ensures
        members_wire(s.push(m)) == members_wire(s) + member_wire(m),
    decreases s.len(),
{
    if s.len() == 0 {
        assert(s.push(m).skip(1) =~= Seq::<RingMemberV>::empty());
        assert(s.push(m)[0] == m);
        assert(members_wire(s.push(m)) == member_wire(m) + members_wire(s.push(m).skip(1)));
        assert(members_wire(s.push(m)) =~= members_wire(s) + member_wire(m));
    } else {
        assert(s.push(m).skip(1) =~= s.skip(1).push(m));
        lemma_members_wire_snoc(s.skip(1), m);
        assert(s.push(m)[0] == s[0]);
        assert(members_wire(s.push(m)) == member_wire(s[0]) + (members_wire(s.skip(1))
            + member_wire(m)));
        assert(member_wire(s[0]) + (members_wire(s.skip(1)) + member_wire(m)) =~= (member_wire(
            s[0],
        ) + members_wire(s.skip(1))) + member_wire(m));
    }
}

} // verus!
