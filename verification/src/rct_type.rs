use vstd::prelude::*;

verus! {

/// The RingCT protocol era, ordered by protocol introduction date. The wire
/// tag byte of each era is fixed by `to_byte`, and the era decides both which
/// encrypted-amount layout and which proof payload shape are legal.
#[derive(Clone, Copy, PartialEq, Eq, Debug, Structural)]
pub enum RctType {
    /// No RCT proofs.
    Null,
    /// One MLSAG for a single aggregate input and a Borromean range proof.
    MlsagAggregate,
    /// One MLSAG for each input and a Borromean range proof.
    MlsagIndividual,
    /// One MLSAG for each input and a Bulletproof.
    Bulletproofs,
    /// One MLSAG for each input and a Bulletproof, with compact encrypted
    /// amounts.
    BulletproofsCompactAmount,
    /// One CLSAG for each input and a Bulletproof.
    Clsag,
    /// One CLSAG for each input and a Bulletproof+.
    BulletproofsPlus,
}

/// The tag byte each era writes on the wire.
pub open spec fn spec_type_byte(t: RctType) -> u8 {
    match t {
        RctType::Null => 0,
        RctType::MlsagAggregate => 1,
        RctType::MlsagIndividual => 2,
        RctType::Bulletproofs => 3,
        RctType::BulletproofsCompactAmount => 4,
        RctType::Clsag => 5,
        RctType::BulletproofsPlus => 6,
    }
}

/// The era a tag byte names, if any.
pub open spec fn spec_type_from_byte(b: u8) -> Option<RctType> {
    if b == 0 {
        Some(RctType::Null)
    } else if b == 1 {
        Some(RctType::MlsagAggregate)
    } else if b == 2 {
        Some(RctType::MlsagIndividual)
    } else if b == 3 {
        Some(RctType::Bulletproofs)
    } else if b == 4 {
        Some(RctType::BulletproofsCompactAmount)
    } else if b == 5 {
        Some(RctType::Clsag)
    } else if b == 6 {
        Some(RctType::BulletproofsPlus)
    } else {
        None
    }
}

/// Whether the era uses the compact encrypted-amount layout.
pub open spec fn spec_compact_amounts(t: RctType) -> bool {
    match t {
        RctType::Null => false,
        RctType::MlsagAggregate => false,
        RctType::MlsagIndividual => false,
        RctType::Bulletproofs => false,
        RctType::BulletproofsCompactAmount => true,
        RctType::Clsag => true,
        RctType::BulletproofsPlus => true,
    }
}

/// Whether the era carries an aggregated Bulletproof(+) range proof, and so
/// demands at least one output.
pub open spec fn spec_bulletproof_era(t: RctType) -> bool {
    match t {
        RctType::Bulletproofs => true,
        RctType::BulletproofsCompactAmount => true,
        RctType::Clsag => true,
        RctType::BulletproofsPlus => true,
        _ => false,
    }
}

impl RctType {
    /// The tag byte this era writes on the wire.
    pub fn to_byte(self) -> (b: u8)
        ensures
            b == spec_type_byte(self),
    {
        match self {
            RctType::Null => 0,
            RctType::MlsagAggregate => 1,
            RctType::MlsagIndividual => 2,
            RctType::Bulletproofs => 3,
            RctType::BulletproofsCompactAmount => 4,
            RctType::Clsag => 5,
            RctType::BulletproofsPlus => 6,
        }
    }

    /// The era a tag byte names; `None` on the bytes no era uses, which a
    /// parse surfaces as an unknown-era error rather than coercing.
    pub fn from_byte(byte: u8) -> (r: Option<Self>)
        ensures
            r == spec_type_from_byte(byte),
    {
        match byte {
            0 => Some(RctType::Null),
            1 => Some(RctType::MlsagAggregate),
            2 => Some(RctType::MlsagIndividual),
            3 => Some(RctType::Bulletproofs),
            4 => Some(RctType::BulletproofsCompactAmount),
            5 => Some(RctType::Clsag),
            6 => Some(RctType::BulletproofsPlus),
            _ => None,
        }
    }

    /// Whether outputs of this era hide their amount in the compact 8-byte
    /// form rather than the original 32+32-byte form.
    pub fn compact_encrypted_amounts(&self) -> (r: bool)
        ensures
            r == spec_compact_amounts(*self),
    {
        match self {
            RctType::Null => false,
            RctType::MlsagAggregate => false,
            RctType::MlsagIndividual => false,
            RctType::Bulletproofs => false,
            RctType::BulletproofsCompactAmount => true,
            RctType::Clsag => true,
            RctType::BulletproofsPlus => true,
        }
    }

    /// Whether this era carries an aggregated Bulletproof(+) range proof.
    pub fn uses_bulletproofs(&self) -> (r: bool)
        ensures
            r == spec_bulletproof_era(*self),
    {
        match self {
            RctType::Bulletproofs
            | RctType::BulletproofsCompactAmount
            | RctType::Clsag
            | RctType::BulletproofsPlus => true,
            _ => false,
        }
    }
}

/// The tag byte round-trips exactly over the seven valid values: encoding an
/// era and reading the byte back yields the same era.
pub proof fn lemma_type_byte_round_trip(t: RctType)
    ensures
        spec_type_from_byte(spec_type_byte(t)) == Some(t),
{
}

/// Unknown tag bytes are rejected, never coerced: a byte decodes to an era
/// exactly when it is one of the seven assigned values, and distinct eras
/// never share a byte.
pub proof fn lemma_type_byte_injective(a: RctType, b: RctType)
    ensures
        spec_type_byte(a) == spec_type_byte(b) ==> a == b,
        spec_type_byte(a) <= 6,
{
}

} // verus!
