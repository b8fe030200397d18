use vstd::prelude::*;

use crate::errors::CodecError;
use crate::prunable::{
    lemma_parse_prunable_of_bytes, parse_prunable, prunable_lens_ok, prunable_wf, prunable_wire,
    RctPrunable, RctPrunableV,
};
use crate::rct_type::{spec_bulletproof_era, spec_type_from_byte, RctType};
use crate::ringct::{
    base_wf, base_wire, lemma_parse_base_of_bytes, parse_base, EncryptedAmount, EncryptedAmountV,
    RctBase, RctBaseV,
};
use crate::wire::{lemma_subrange_split, parse_u32_le, parse_varint};

verus! {

/// A full RingCT signature bundle. Its era is computed from the shape of the
/// data on every use, never stored, so a (type, payload) pair can never
/// desynchronize.
#[derive(Clone, PartialEq, Eq, Debug)]
pub struct RctSignatures {
    pub base: RctBase,
    pub prunable: RctPrunable,
}

/// The mathematical shape of an [`RctSignatures`].
#[verifier::ext_equal]
pub struct RctSignaturesV {
    pub base: RctBaseV,
    pub prunable: RctPrunableV,
}

impl View for RctSignatures {
    type V = RctSignaturesV;

    open spec fn view(&self) -> RctSignaturesV {
        RctSignaturesV { base: self.base@, prunable: self.prunable@ }
    }
}

/// The era a bundle's shape names: no proof means the proofless era; the
/// Borromean shape is told apart by whether pseudo-outputs sit in the base;
/// the MLSAG-bulletproof shape by the first output's amount layout; and the
/// CLSAG shape by the bulletproof variant.
pub open spec fn spec_rct_type(s: RctSignaturesV) -> RctType {
    match s.prunable {
        RctPrunableV::Null => RctType::Null,
        RctPrunableV::MlsagBorromean { .. } => if s.base.pseudo_outs.len() == 0 {
            RctType::MlsagAggregate
        } else {
            RctType::MlsagIndividual
        },
        RctPrunableV::MlsagBulletproofs { .. } => if s.base.encrypted_amounts[0] is Original {
            RctType::Bulletproofs
        } else {
            RctType::BulletproofsCompactAmount
        },
        RctPrunableV::Clsag { bulletproofs, .. } => if bulletproofs is Original {
            RctType::Clsag
        } else {
            RctType::BulletproofsPlus
        },
    }
}

/// The inference is well-defined: the one shape that reads an output's
/// amount layout has at least one output to read. Every bundle built by the
/// codec satisfies this.
pub open spec fn rct_type_inferable(s: RctSignaturesV) -> bool {
    s.prunable matches RctPrunableV::MlsagBulletproofs { .. }
        ==> s.base.encrypted_amounts.len() > 0
}

/// Structural validity of a whole bundle for a decoy-count list and an
/// output count: at least one input, and both halves valid for the era the
/// shape itself names.
pub open spec fn signatures_wf(s: RctSignaturesV, decoys: Seq<usize>, outputs: nat) -> bool {
    &&& decoys.len() >= 1
    &&& base_wf(s.base, spec_rct_type(s), decoys.len() as nat, outputs)
    &&& prunable_wf(s.prunable, spec_rct_type(s), decoys, outputs)
}

/// The wire bytes of a bundle: the base (which carries the era byte), then
/// the prunable payload, both under the bundle's own computed era.
pub open spec fn signatures_wire(s: RctSignaturesV) -> Seq<u8> {
    base_wire(s.base, spec_rct_type(s)) + prunable_wire(s.prunable, spec_rct_type(s))
}

/// Parse a bundle: the base yields the era byte that then drives the
/// prunable payload, with no redundant tag between them.
pub open spec fn parse_signatures(data: Seq<u8>, pos: int, decoys: Seq<usize>, outputs: nat) -> Result<
    (RctSignaturesV, int),
    CodecError,
> {
    match parse_base(data, pos, decoys.len() as nat, outputs) {
        Err(e) => Err(e),
        Ok(((base, t), p1)) => match parse_prunable(data, p1, t, decoys, outputs) {
            Err(e) => Err(e),
            Ok((prunable, p2)) => Ok((RctSignaturesV { base, prunable }, p2)),
        },
    }
}

/// Type-inference stability: on any pair of halves that are structurally
/// valid for an era, the computed era is exactly that era. The inference is
/// a pure function of the value, so repeated calls agree, and a bundle
/// parsed or constructed for an era re-derives it.
pub proof fn lemma_rct_type_matches_construction(
    s: RctSignaturesV,
    t: RctType,
    decoys: Seq<usize>,
    outputs: nat,
)
    requires
        decoys.len() >= 1,
        base_wf(s.base, t, decoys.len() as nat, outputs),
        prunable_wf(s.prunable, t, decoys, outputs),
    ensures
        spec_rct_type(s) == t,
        rct_type_inferable(s),
        signatures_wf(s, decoys, outputs),
{
    match t {
        RctType::Null => {}
        RctType::MlsagAggregate => {}
        RctType::MlsagIndividual => {}
        RctType::Bulletproofs => {
            assert(s.base.encrypted_amounts.len() > 0);
        }
        RctType::BulletproofsCompactAmount => {
            assert(s.base.encrypted_amounts.len() > 0);
        }
        RctType::Clsag => {}
        RctType::BulletproofsPlus => {}
    }
}

/// Round-trip: parsing the encoding of any structurally valid bundle, under
/// the decoy-count list and output count it was written for, recovers the
/// bundle exactly, wherever it stands in a larger input.
pub proof fn lemma_parse_signatures_of_bytes(
    data: Seq<u8>,
    pos: int,
    s: RctSignaturesV,
    decoys: Seq<usize>,
    outputs: nat,
)
    requires
        signatures_wf(s, decoys, outputs),
        0 <= pos,
        pos + signatures_wire(s).len() <= data.len(),
        data.subrange(pos, pos + signatures_wire(s).len() as int) == signatures_wire(s),
    ensures
        parse_signatures(data, pos, decoys, outputs) == Ok::<(RctSignaturesV, int), CodecError>(
            (s, pos + signatures_wire(s).len()),
        ),
{
    let t = spec_rct_type(s);
    let bw = base_wire(s.base, t);
    let pw = prunable_wire(s.prunable, t);
    assert(signatures_wire(s) == bw + pw);
    lemma_subrange_split(data, pos, bw, pw);
    lemma_parse_base_of_bytes(data, pos, s.base, t, decoys.len() as nat, outputs);
    lemma_parse_prunable_of_bytes(data, pos + bw.len(), s.prunable, t, decoys, outputs);
}

/// Rejection: a base parse whose era byte names an era with an aggregated
/// range proof, asked for zero outputs, fails with the zero-outputs error —
/// for every such era and before any further bytes are read.
pub proof fn lemma_zero_outputs_rejected(data: Seq<u8>, pos: int, inputs: nat, t: RctType)
    requires
        0 <= pos < data.len(),
        spec_type_from_byte(data[pos]) == Some(t),
        spec_bulletproof_era(t),
    ensures
        parse_base(data, pos, inputs, 0) == Err::<((RctBaseV, RctType), int), CodecError>(
            CodecError::ZeroOutputsWithRangeProof,
        ),
{
}

/// Rejection: a prunable parse with an empty decoy-count list fails with the
/// no-inputs error, for every era and before any bytes are read.
pub proof fn lemma_no_inputs_rejected(data: Seq<u8>, pos: int, t: RctType, outputs: nat)
    ensures
        parse_prunable(data, pos, t, Seq::<usize>::empty(), outputs) == Err::<
            (RctPrunableV, int),
            CodecError,
        >(CodecError::NoInputs),
{
}

/// Rejection: a bulletproof-count field that decodes to anything but one
/// fails with the wrong-count error, both for the 4-byte legacy encoding and
/// for the varint encoding.
pub proof fn lemma_wrong_bulletproof_count_rejected(
    data: Seq<u8>,
    pos: int,
    decoys: Seq<usize>,
    outputs: nat,
    t: RctType,
)
    requires
        decoys.len() >= 1,
    ensures
        t == RctType::Bulletproofs ==> (parse_u32_le(data, pos) matches Ok((c, p)) && c != 1
            ==> parse_prunable(data, pos, t, decoys, outputs) == Err::<
            (RctPrunableV, int),
            CodecError,
        >(CodecError::WrongBulletproofCount)),
        (t == RctType::BulletproofsCompactAmount || t == RctType::Clsag || t
            == RctType::BulletproofsPlus) ==> (parse_varint(data, pos) matches Ok((c, p)) && c != 1
            ==> parse_prunable(data, pos, t, decoys, outputs) == Err::<
            (RctPrunableV, int),
            CodecError,
        >(CodecError::WrongBulletproofCount)),
{
}

impl RctSignatures {
    /// The era this bundle's shape names. Recomputed on every call so that
    /// the answer can never desynchronize from the payload.
    pub fn rct_type(&self) -> (t: RctType)
        requires
            rct_type_inferable(self@),
        ensures
            t == spec_rct_type(self@),
    {
        match &self.prunable {
            RctPrunable::Null => RctType::Null,
            RctPrunable::MlsagBorromean { .. } => {
                if self.base.pseudo_outs.len() == 0 {
                    RctType::MlsagAggregate
                } else {
                    RctType::MlsagIndividual
                }
            }
            RctPrunable::MlsagBulletproofs { .. } => {
                match &self.base.encrypted_amounts[0] {
                    EncryptedAmount::Original { .. } => RctType::Bulletproofs,
                    EncryptedAmount::Compact { .. } => RctType::BulletproofsCompactAmount,
                }
            }
            RctPrunable::Clsag { bulletproofs, .. } => {
                if bulletproofs.is_plus() {
                    RctType::BulletproofsPlus
                } else {
                    RctType::Clsag
                }
            }
        }
    }

    /// Append this bundle's wire bytes, both halves under the bundle's own
    /// computed era.
    pub fn write(&self, w: &mut Vec<u8>)
        requires
            rct_type_inferable(self@),
            prunable_lens_ok(self@.prunable),
        ensures
            final(w)@ == old(w)@ + signatures_wire(self@),
    {
        let rct_type = self.rct_type();
        self.base.write(w, rct_type);
        self.prunable.write(w, rct_type);
        proof {
            assert(w@ =~= old(w)@ + signatures_wire(self@));
        }
    }

    /// This bundle's wire bytes as a fresh buffer.
    pub fn serialize(&self) -> (r: Vec<u8>)
        requires
            rct_type_inferable(self@),
            prunable_lens_ok(self@.prunable),
        ensures
            r@ == signatures_wire(self@),
    {
        let mut serialized: Vec<u8> = Vec::new();
        self.write(&mut serialized);
        proof {
            assert(serialized@ =~= signatures_wire(self@));
        }
        serialized
    }

    /// Read a whole bundle for a per-input decoy-count list and an output
    /// count; the era comes from the base's tag byte and drives both halves.
    pub fn read(decoys: Vec<usize>, outputs: usize, data: &[u8], pos: &mut usize) -> (r: Result<
        RctSignatures,
        CodecError,
    >)
        ensures
            match r {
                Ok(s) => parse_signatures(data@, *old(pos) as int, decoys@, outputs as nat) == Ok::<
                    (RctSignaturesV, int),
                    CodecError,
                >((s@, *final(pos) as int)) && signatures_wf(s@, decoys@, outputs as nat)
                    && spec_rct_type(s@) == (match parse_base(
                    data@,
                    *old(pos) as int,
                    decoys@.len() as nat,
                    outputs as nat,
                ) {
                    Ok(((b, t), p)) => t,
                    Err(_) => spec_rct_type(s@),
                }),
                Err(e) => parse_signatures(data@, *old(pos) as int, decoys@, outputs as nat)
                    == Err::<(RctSignaturesV, int), CodecError>(e) && *final(pos) == *old(pos),
            },
    {
        let start: usize = *pos;
        let (base, rct_type) = match RctBase::read(decoys.len(), outputs, data, pos) {
            Ok(b) => b,
            Err(e) => {
                return Err(e);
            }
        };
        let prunable = match RctPrunable::read(rct_type, &decoys, outputs, data, pos) {
            Ok(p) => p,
            Err(e) => {
                *pos = start;
                return Err(e);
            }
        };
        let s = RctSignatures { base, prunable };
        proof {
            lemma_rct_type_matches_construction(s@, rct_type, decoys@, outputs as nat);
        }
        Ok(s)
    }
}

} // verus!

