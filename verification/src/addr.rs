use vstd::prelude::*;

verus! {

/// A fixed-width on-chain account identifier, 160 bits wide, held as two
/// machine integers. Equality is equality of the raw bits.
#[derive(PartialEq, Eq, Structural, Clone, Copy, Debug, Hash)]
pub struct Address {
    /// The 32 most significant bits of the identifier.
    pub hi: u32,
    /// The 128 least significant bits of the identifier.
    pub lo: u128,
}

impl Address {
    /// The all-zero identifier, standing in where a transaction record leaves
    /// an endpoint unset.
    pub open spec fn zero_spec() -> Address {
        Address { hi: 0, lo: 0 }
    }

    /// The all-zero identifier, as executable code.
    pub fn zero() -> (r: Address)
        ensures
            r == Address::zero_spec(),
    {
        Address { hi: 0, lo: 0 }
    }
}

/// A reference to one underlying transaction, 256 bits wide. The crawler
/// carries these through from the transaction-graph provider to the event
/// stream without reading into them.
#[derive(PartialEq, Eq, Structural, Clone, Copy, Debug, Hash)]
pub struct TxRef {
    /// The 128 most significant bits of the reference.
    pub hi: u128,
    /// The 128 least significant bits of the reference.
    pub lo: u128,
}

impl TxRef {
    /// The all-zero reference, standing in where a transaction record leaves
    /// its hash unset.
    pub open spec fn zero_spec() -> TxRef {
        TxRef { hi: 0, lo: 0 }
    }

    /// The all-zero reference, as executable code.
    pub fn zero() -> (r: TxRef)
        ensures
            r == TxRef::zero_spec(),
    {
        TxRef { hi: 0, lo: 0 }
    }
}

} // verus!
