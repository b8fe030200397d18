use vstd::prelude::*;

use crate::chunks::{
    all_chunk_len, concat_chunks, lemma_parse_chunks_of_bytes, parse_chunks, read_chunks,
    write_chunks,
};
use crate::errors::CodecError;
use crate::rct_type::{
    lemma_type_byte_round_trip, spec_bulletproof_era, spec_compact_amounts, spec_type_byte,
    spec_type_from_byte, RctType,
};
use crate::wire::{
    lemma_parse_varint_of_bytes, lemma_subrange_split, parse_byte, parse_take, parse_varint,
    read_byte, read_exact, read_varint, varint_bytes, write_bytes, write_varint,
};

verus! {

/// An output's hidden amount as it stands on the wire. The variant legal for
/// a bundle is dictated solely by the enclosing era and is never self-tagged.
#[derive(Clone, PartialEq, Eq, Debug)]
pub enum EncryptedAmount {
    /// The original layout: a 32-byte mask commitment key and a 32-byte
    /// encrypted amount.
    Original { mask: Vec<u8>, amount: Vec<u8> },
    /// The compact layout: an 8-byte encrypted amount alone.
    Compact { amount: Vec<u8> },
}

/// The mathematical shape of an [`EncryptedAmount`].
#[verifier::ext_equal]
pub enum EncryptedAmountV {
    Original { mask: Seq<u8>, amount: Seq<u8> },
    Compact { amount: Seq<u8> },
}

impl View for EncryptedAmount {
    type V = EncryptedAmountV;

    open spec fn view(&self) -> EncryptedAmountV {
        match self {
            EncryptedAmount::Original { mask, amount } => EncryptedAmountV::Original {
                mask: mask@,
                amount: amount@,
            },
            EncryptedAmount::Compact { amount } => EncryptedAmountV::Compact { amount: amount@ },
        }
    }
}

impl DeepView for EncryptedAmount {
    type V = EncryptedAmountV;

    open spec fn deep_view(&self) -> EncryptedAmountV {
        self.view()
    }
}

/// Whether an encrypted amount has the variant and field widths the era's
/// compact flag mandates.
pub open spec fn amount_wf(e: EncryptedAmountV, compact: bool) -> bool {
    match e {
        EncryptedAmountV::Original { mask, amount } => !compact && mask.len() == 32
            && amount.len() == 32,
        EncryptedAmountV::Compact { amount } => compact && amount.len() == 8,
    }
}

/// The wire bytes of one encrypted amount.
pub open spec fn amount_wire(e: EncryptedAmountV) -> Seq<u8> {
    match e {
        EncryptedAmountV::Original { mask, amount } => mask + amount,
        EncryptedAmountV::Compact { amount } => amount,
    }
}

/// Parse one encrypted amount in the layout the flag selects.
pub open spec fn parse_amount(data: Seq<u8>, pos: int, compact: bool) -> Result<
    (EncryptedAmountV, int),
    CodecError,
> {
    if compact {
        match parse_take(data, pos, 8) {
            Err(e) => Err(e),
            Ok((a, p1)) => Ok((EncryptedAmountV::Compact { amount: a }, p1)),
        }
    } else {
        match parse_take(data, pos, 32) {
            Err(e) => Err(e),
            Ok((m, p1)) => match parse_take(data, p1, 32) {
                Err(e) => Err(e),
                Ok((a, p2)) => Ok((EncryptedAmountV::Original { mask: m, amount: a }, p2)),
            },
        }
    }
}

/// Parse `n` consecutive encrypted amounts.
pub open spec fn parse_amounts(data: Seq<u8>, pos: int, n: nat, compact: bool) -> Result<
    (Seq<EncryptedAmountV>, int),
    CodecError,
>
    decreases n,
{
    if n == 0 {
        Ok((Seq::empty(), pos))
    } else {
        match parse_amount(data, pos, compact) {
            Err(e) => Err(e),
            Ok((a, p1)) => match parse_amounts(data, p1, (n - 1) as nat, compact) {
                Err(e) => Err(e),
                Ok((rest, p2)) => Ok((seq![a] + rest, p2)),
            },
        }
    }
}

/// The wire bytes of a sequence of encrypted amounts, in order.
pub open spec fn amounts_wire(s: Seq<EncryptedAmountV>) -> Seq<u8>
    decreases s.len(),
{
    if s.len() == 0 {
        Seq::empty()
    } else {
        amount_wire(s[0]) + amounts_wire(s.skip(1))
    }
}

/// Parsing the encoding of one well-formed amount recovers it.
pub proof fn lemma_parse_amount_of_bytes(data: Seq<u8>, pos: int, e: EncryptedAmountV, compact: bool)
    requires
        amount_wf(e, compact),
        0 <= pos,
        pos + amount_wire(e).len() <= data.len(),
        data.subrange(pos, pos + amount_wire(e).len() as int) == amount_wire(e),
    ensures
        parse_amount(data, pos, compact) == Ok::<(EncryptedAmountV, int), CodecError>(
            (e, pos + amount_wire(e).len()),
        ),
{
    match e {
        EncryptedAmountV::Original { mask, amount } => {
            lemma_subrange_split(data, pos, mask, amount);
        }
        EncryptedAmountV::Compact { amount } => {}
    }
}

/// Parsing the concatenated encodings of well-formed amounts recovers them.
pub proof fn lemma_parse_amounts_of_bytes(
    data: Seq<u8>,
    pos: int,
    s: Seq<EncryptedAmountV>,
    compact: bool,
)
    requires
        forall|i: int| 0 <= i < s.len() ==> amount_wf(#[trigger] s[i], compact),
        0 <= pos,
        pos + amounts_wire(s).len() <= data.len(),
        data.subrange(pos, pos + amounts_wire(s).len() as int) == amounts_wire(s),
    ensures
        parse_amounts(data, pos, s.len() as nat, compact) == Ok::<
            (Seq<EncryptedAmountV>, int),
            CodecError,
        >((s, pos + amounts_wire(s).len())),
    decreases s.len(),
{
    if s.len() == 0 {
        assert(s =~= Seq::<EncryptedAmountV>::empty());
    } else {
        let head = amount_wire(s[0]);
        let rest = amounts_wire(s.skip(1));
        assert(amounts_wire(s) == head + rest);
        lemma_subrange_split(data, pos, head, rest);
        lemma_parse_amount_of_bytes(data, pos, s[0], compact);
        lemma_parse_amounts_of_bytes(data, pos + head.len(), s.skip(1), compact);
        assert(seq![s[0]] + s.skip(1) =~= s);
    }
}

impl EncryptedAmount {
    /// Read one encrypted amount in the layout the caller's era selects; the
    /// codec itself never branches on content.
    pub fn read(compact: bool, data: &[u8], pos: &mut usize) -> (r: Result<
        EncryptedAmount,
        CodecError,
    >)
        ensures
            match r {
                Ok(a) => parse_amount(data@, *old(pos) as int, compact) == Ok::<
                    (EncryptedAmountV, int),
                    CodecError,
                >((a@, *final(pos) as int)) && amount_wf(a@, compact),
                Err(e) => parse_amount(data@, *old(pos) as int, compact) == Err::<
                    (EncryptedAmountV, int),
                    CodecError,
                >(e) && *final(pos) == *old(pos),
            },
    {
        if compact {
            let amount = match read_exact(data, pos, 8) {
                Ok(a) => a,
                Err(e) => {
                    return Err(e);
                }
            };
            Ok(EncryptedAmount::Compact { amount })
        } else {
            let start: usize = *pos;
            let mask = match read_exact(data, pos, 32) {
                Ok(m) => m,
                Err(e) => {
                    return Err(e);
                }
            };
            let amount = match read_exact(data, pos, 32) {
                Ok(a) => a,
                Err(e) => {
                    *pos = start;
                    return Err(e);
                }
            };
            Ok(EncryptedAmount::Original { mask, amount })
        }
    }

    /// Append this amount's wire bytes.
    pub fn write(&self, w: &mut Vec<u8>)
        ensures
            final(w)@ == old(w)@ + amount_wire(self@),
    {
        match self {
            EncryptedAmount::Original { mask, amount } => {
                write_bytes(w, mask);
                write_bytes(w, amount);
                assert(final(w)@ =~= old(w)@ + amount_wire(self@));
            }
            EncryptedAmount::Compact { amount } => {
                write_bytes(w, amount);
            }
        }
    }
}

/// Read `n` consecutive encrypted amounts; on any error the position is left
/// where it started.
pub fn read_amounts(data: &[u8], pos: &mut usize, n: usize, compact: bool) -> (r: Result<
    Vec<EncryptedAmount>,
    CodecError,
>)
    ensures
        match r {
            Ok(v) => parse_amounts(data@, *old(pos) as int, n as nat, compact) == Ok::<
                (Seq<EncryptedAmountV>, int),
                CodecError,
            >((v.deep_view(), *final(pos) as int)) && v.deep_view().len() == n && forall|i: int|
                0 <= i < n ==> amount_wf(#[trigger] v.deep_view()[i], compact),
            Err(e) => parse_amounts(data@, *old(pos) as int, n as nat, compact) == Err::<
                (Seq<EncryptedAmountV>, int),
                CodecError,
            >(e) && *final(pos) == *old(pos),
        },
{
    let start: usize = *pos;
    let ghost pos0 = *pos as int;
    let mut out: Vec<EncryptedAmount> = Vec::new();
    let mut i: usize = 0;
    while i < n
        invariant
            i <= n,
            pos0 == *old(pos),
            start == *old(pos),
            out.deep_view().len() == i,
            forall|j: int| 0 <= j < i ==> amount_wf(#[trigger] out.deep_view()[j], compact),
            parse_amounts(data@, pos0, n as nat, compact) == (match parse_amounts(
                data@,
                *pos as int,
                (n - i) as nat,
                compact,
            ) {
                Ok((rest, end)) => Ok::<(Seq<EncryptedAmountV>, int), CodecError>(
                    (out.deep_view() + rest, end),
                ),
                Err(e) => Err::<(Seq<EncryptedAmountV>, int), CodecError>(e),
            }),
        decreases n - i,
    {
        let ghost prev_dv = out.deep_view();
        match EncryptedAmount::read(compact, data, pos) {
            Ok(a) => {
                let ghost av = a@;
                out.push(a);
                proof {
                    assert(out.deep_view() =~= prev_dv.push(av));
                    assert(forall|rest: Seq<EncryptedAmountV>|
                        prev_dv + (seq![av] + rest) =~= #[trigger] (prev_dv.push(av) + rest));
                }
                i = i + 1;
            }
            Err(e) => {
                proof {
                    assert(parse_amounts(data@, *pos as int, (n - i) as nat, compact) == Err::<
                        (Seq<EncryptedAmountV>, int),
                        CodecError,
                    >(e));
                }
                *pos = start;
                return Err(e);
            }
        }
    }
    proof {
        assert(out.deep_view() + Seq::<EncryptedAmountV>::empty() =~= out.deep_view());
    }
    Ok(out)
}

/// Append the wire bytes of every amount in order.
pub fn write_amounts(w: &mut Vec<u8>, amounts: &Vec<EncryptedAmount>)
    ensures
        final(w)@ == old(w)@ + amounts_wire(amounts.deep_view()),
{
    let mut i: usize = 0;
    while i < amounts.len()
        invariant
            i <= amounts@.len(),
            amounts.deep_view().len() == amounts@.len(),
            w@ == old(w)@ + amounts_wire(amounts.deep_view().take(i as int)),
        decreases amounts@.len() - i,
    {
        let ghost prev = amounts.deep_view().take(i as int);
        amounts[i].write(w);
        proof {
            lemma_amounts_wire_snoc(prev, amounts.deep_view()[i as int]);
            assert(amounts.deep_view().take(i + 1) =~= prev.push(amounts.deep_view()[i as int]));
            assert(amounts.deep_view()[i as int] == amounts@[i as int]@);
            assert(old(w)@ + amounts_wire(prev) + amount_wire(amounts@[i as int]@) =~= old(w)@ + (
            amounts_wire(prev) + amount_wire(amounts@[i as int]@)));
        }
        i = i + 1;
    }
    proof {
        assert(amounts.deep_view().take(amounts@.len() as int) =~= amounts.deep_view());
    }
}

/// The era-variable public half of a RingCT bundle: the network fee, the
/// optional per-input pseudo-output commitments, and the per-output encrypted
/// amounts and commitments. Curve points are opaque 32-byte compressed
/// encodings.
#[derive(Clone, PartialEq, Eq, Debug)]
pub struct RctBase {
    pub fee: u64,
    pub pseudo_outs: Vec<Vec<u8>>,
    pub encrypted_amounts: Vec<EncryptedAmount>,
    pub commitments: Vec<Vec<u8>>,
}

/// The mathematical shape of an [`RctBase`].
#[verifier::ext_equal]
pub struct RctBaseV {
    pub fee: u64,
    pub pseudo_outs: Seq<Seq<u8>>,
    pub encrypted_amounts: Seq<EncryptedAmountV>,
    pub commitments: Seq<Seq<u8>>,
}

impl View for RctBase {
    type V = RctBaseV;

    open spec fn view(&self) -> RctBaseV {
        RctBaseV {
            fee: self.fee,
            pseudo_outs: self.pseudo_outs.deep_view(),
            encrypted_amounts: self.encrypted_amounts.deep_view(),
            commitments: self.commitments.deep_view(),
        }
    }
}

/// The all-empty base the proofless era carries.
pub open spec fn null_base() -> RctBaseV {
    RctBaseV {
        fee: 0,
        pseudo_outs: Seq::empty(),
        encrypted_amounts: Seq::empty(),
        commitments: Seq::empty(),
    }
}

/// Structural validity of a base for an era and an input/output count:
/// pseudo-outputs are per input and only for the one era that signs inputs
/// individually without aggregation; amounts and commitments are per output
/// in the era's layout; and an aggregated range proof demands at least one
/// output.
pub open spec fn base_wf(b: RctBaseV, t: RctType, inputs: nat, outputs: nat) -> bool {
    if t == RctType::Null {
        b == null_base()
    } else {
        &&& b.pseudo_outs.len() == (if t == RctType::MlsagIndividual {
            inputs as int
        } else {
            0
        })
        &&& all_chunk_len(b.pseudo_outs, 32)
        &&& b.encrypted_amounts.len() == outputs
        &&& (forall|i: int|
            0 <= i < b.encrypted_amounts.len() ==> amount_wf(
                #[trigger] b.encrypted_amounts[i],
                spec_compact_amounts(t),
            ))
        &&& b.commitments.len() == outputs
        &&& all_chunk_len(b.commitments, 32)
        &&& (spec_bulletproof_era(t) ==> outputs > 0)
    }
}

/// The wire bytes of a base under an era: the era byte, then (outside the
/// proofless era) the varint fee, the pseudo-output points for the
/// individual-signature era alone, the encrypted amounts, and the output
/// commitments.
pub open spec fn base_wire(b: RctBaseV, t: RctType) -> Seq<u8> {
    seq![spec_type_byte(t)] + if t == RctType::Null {
        Seq::empty()
    } else {
        varint_bytes(b.fee) + (if t == RctType::MlsagIndividual {
            concat_chunks(b.pseudo_outs)
        } else {
            Seq::empty()
        }) + amounts_wire(b.encrypted_amounts) + concat_chunks(b.commitments)
    }
}

/// Parse a base: the era byte decides everything that follows. An
/// unrecognized byte fails, an aggregated-range-proof era with zero outputs
/// fails, and the proofless era carries nothing further.
pub open spec fn parse_base(data: Seq<u8>, pos: int, inputs: nat, outputs: nat) -> Result<
    ((RctBaseV, RctType), int),
    CodecError,
> {
    match parse_byte(data, pos) {
        Err(e) => Err(e),
        Ok((b, p1)) => match spec_type_from_byte(b) {
            None => Err(CodecError::UnknownEra),
            Some(t) => {
                if spec_bulletproof_era(t) && outputs == 0 {
                    Err(CodecError::ZeroOutputsWithRangeProof)
                } else if t == RctType::Null {
                    Ok(((null_base(), t), p1))
                } else {
                    match parse_varint(data, p1) {
                        Err(e) => Err(e),
                        Ok((fee, p2)) => {
                            let pouts_step: Result<(Seq<Seq<u8>>, int), CodecError> = if t
                                == RctType::MlsagIndividual {
                                parse_chunks(data, p2, inputs, 32)
                            } else {
                                Ok((Seq::empty(), p2))
                            };
                            match pouts_step {
                                Err(e) => Err(e),
                                Ok((pouts, p3)) => match parse_amounts(
                                    data,
                                    p3,
                                    outputs,
                                    spec_compact_amounts(t),
                                ) {
                                    Err(e) => Err(e),
                                    Ok((amts, p4)) => match parse_chunks(data, p4, outputs, 32) {
                                        Err(e) => Err(e),
                                        Ok((comms, p5)) => Ok(
                                            (
                                                (
                                                    RctBaseV {
                                                        fee,
                                                        pseudo_outs: pouts,
                                                        encrypted_amounts: amts,
                                                        commitments: comms,
                                                    },
                                                    t,
                                                ),
                                                p5,
                                            ),
                                        ),
                                    },
                                },
                            }
                        }
                    }
                }
            }
        },
    }
}

impl RctBase {
    /// Append the wire bytes of this base under the given era.
    pub fn write(&self, w: &mut Vec<u8>, rct_type: RctType)
        ensures
            final(w)@ == old(w)@ + base_wire(self@, rct_type),
    {
        let tag = rct_type.to_byte();
        w.push(tag);
        match rct_type {
            RctType::Null => {
                proof {
                    assert(w@ =~= old(w)@ + base_wire(self@, rct_type));
                }
            }
            _ => {
                let ghost w0 = w@;
                write_varint(w, self.fee);
                if rct_type == RctType::MlsagIndividual {
                    write_chunks(w, &self.pseudo_outs);
                } else {
                    proof {
                        assert(w@ =~= w0 + varint_bytes(self.fee) + Seq::<u8>::empty());
                    }
                }
                write_amounts(w, &self.encrypted_amounts);
                write_chunks(w, &self.commitments);
                proof {
                    assert(w@ =~= old(w)@ + base_wire(self@, rct_type));
                }
            }
        }
    }

    /// Read a base given the transaction's input and output counts, returning
    /// it with the era its tag byte names.
    pub fn read(inputs: usize, outputs: usize, data: &[u8], pos: &mut usize) -> (r: Result<
        (RctBase, RctType),
        CodecError,
    >)
        ensures
            match r {
                Ok((b, t)) => parse_base(data@, *old(pos) as int, inputs as nat, outputs as nat)
                    == Ok::<((RctBaseV, RctType), int), CodecError>(
                    ((b@, t), *final(pos) as int),
                ) && base_wf(b@, t, inputs as nat, outputs as nat),
                Err(e) => parse_base(data@, *old(pos) as int, inputs as nat, outputs as nat)
                    == Err::<((RctBaseV, RctType), int), CodecError>(e) && *final(pos) == *old(
                    pos,
                ),
            },
    {
        let start: usize = *pos;
        let tag = match read_byte(data, pos) {
            Ok(b) => b,
            Err(e) => {
                return Err(e);
            }
        };
        let rct_type = match RctType::from_byte(tag) {
            Some(t) => t,
            None => {
                *pos = start;
                return Err(CodecError::UnknownEra);
            }
        };
        if rct_type.uses_bulletproofs() && outputs == 0 {
            *pos = start;
            return Err(CodecError::ZeroOutputsWithRangeProof);
        }
        if rct_type == RctType::Null {
            let b = RctBase {
                fee: 0,
                pseudo_outs: Vec::new(),
                encrypted_amounts: Vec::new(),
                commitments: Vec::new(),
            };
            proof {
                assert(b.pseudo_outs.deep_view() =~= Seq::<Seq<u8>>::empty());
                assert(b.encrypted_amounts.deep_view() =~= Seq::<EncryptedAmountV>::empty());
                assert(b.commitments.deep_view() =~= Seq::<Seq<u8>>::empty());
                assert(b@ =~= null_base());
            }
            return Ok((b, rct_type));
        }
        let fee = match read_varint(data, pos) {
            Ok(f) => f,
            Err(e) => {
                *pos = start;
                return Err(e);
            }
        };
        let pseudo_outs = if rct_type == RctType::MlsagIndividual {
            match read_chunks(data, pos, inputs, 32) {
                Ok(v) => v,
                Err(e) => {
                    *pos = start;
                    return Err(e);
                }
            }
        } else {
            Vec::new()
        };
        let encrypted_amounts = match read_amounts(
            data,
            pos,
            outputs,
            rct_type.compact_encrypted_amounts(),
        ) {
            Ok(v) => v,
            Err(e) => {
                *pos = start;
                return Err(e);
            }
        };
        let commitments = match read_chunks(data, pos, outputs, 32) {
            Ok(v) => v,
            Err(e) => {
                *pos = start;
                return Err(e);
            }
        };
        proof {
            if rct_type != RctType::MlsagIndividual {
                assert(pseudo_outs.deep_view() =~= Seq::<Seq<u8>>::empty());
            }
        }
        Ok((RctBase { fee, pseudo_outs, encrypted_amounts, commitments }, rct_type))
    }
}

/// Parsing the encoding of a structurally valid base, under the counts it was
/// written for, recovers the base and the era.
pub proof fn lemma_parse_base_of_bytes(
    data: Seq<u8>,
    pos: int,
    b: RctBaseV,
    t: RctType,
    inputs: nat,
    outputs: nat,
)
    requires
        base_wf(b, t, inputs, outputs),
        0 <= pos,
        pos + base_wire(b, t).len() <= data.len(),
        data.subrange(pos, pos + base_wire(b, t).len() as int) == base_wire(b, t),
    ensures
        parse_base(data, pos, inputs, outputs) == Ok::<((RctBaseV, RctType), int), CodecError>(
            ((b, t), pos + base_wire(b, t).len()),
        ),
{
    let w = base_wire(b, t);
    lemma_type_byte_round_trip(t);
    if t == RctType::Null {
        assert(w =~= seq![spec_type_byte(t)]);
        assert(data[pos] == w[0]);
    } else {
        let tagw = seq![spec_type_byte(t)];
        let feew = varint_bytes(b.fee);
        let poutsw = if t == RctType::MlsagIndividual {
            concat_chunks(b.pseudo_outs)
        } else {
            Seq::<u8>::empty()
        };
        let amtsw = amounts_wire(b.encrypted_amounts);
        let commsw = concat_chunks(b.commitments);
        assert(w == tagw + (feew + poutsw + amtsw + commsw));
        lemma_subrange_split(data, pos, tagw, feew + poutsw + amtsw + commsw);
        assert(data[pos] == spec_type_byte(t)) by {
            assert(data.subrange(pos, pos + 1)[0] == tagw[0]);
        }
        let p1 = pos + 1;
        assert(feew + poutsw + amtsw + commsw =~= feew + (poutsw + (amtsw + commsw)));
        lemma_subrange_split(data, p1, feew, poutsw + (amtsw + commsw));
        lemma_parse_varint_of_bytes(data, p1, b.fee);
        let p2 = p1 + feew.len();
        lemma_subrange_split(data, p2, poutsw, amtsw + commsw);
        if t == RctType::MlsagIndividual {
            lemma_parse_chunks_of_bytes(data, p2, b.pseudo_outs, 32);
        } else {
            assert(b.pseudo_outs =~= Seq::<Seq<u8>>::empty());
        }
        let p3 = p2 + poutsw.len();
        lemma_subrange_split(data, p3, amtsw, commsw);
        lemma_parse_amounts_of_bytes(data, p3, b.encrypted_amounts, spec_compact_amounts(t));
        let p4 = p3 + amtsw.len();
        lemma_parse_chunks_of_bytes(data, p4, b.commitments, 32);
    }
}

/// Appending one amount appends its bytes to the sequence encoding.
pub proof fn lemma_amounts_wire_snoc(s: Seq<EncryptedAmountV>, a: EncryptedAmountV)
    ensures
        amounts_wire(s.push(a)) == amounts_wire(s) + amount_wire(a),
    decreases s.len(),
{
    if s.len() == 0 {
        assert(s.push(a).skip(1) =~= Seq::<EncryptedAmountV>::empty());
        assert(s.push(a)[0] == a);
        assert(amounts_wire(s.push(a)) == amount_wire(a) + amounts_wire(s.push(a).skip(1)));
        assert(amounts_wire(s.push(a).skip(1)) == Seq::<u8>::empty());
        assert(amounts_wire(s) == Seq::<u8>::empty());
        assert(amounts_wire(s.push(a)) =~= amounts_wire(s) + amount_wire(a));
    } else {
        assert(s.push(a).skip(1) =~= s.skip(1).push(a));
        lemma_amounts_wire_snoc(s.skip(1), a);
        assert(s.push(a)[0] == s[0]);
        assert(amounts_wire(s.push(a)) == amount_wire(s[0]) + (amounts_wire(s.skip(1))
            + amount_wire(a)));
        assert(amount_wire(s[0]) + (amounts_wire(s.skip(1)) + amount_wire(a)) =~= (amount_wire(s[0])
            + amounts_wire(s.skip(1))) + amount_wire(a));
    }
}

} // verus!
