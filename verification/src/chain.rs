//! What the ledger hands to the index: blocks, transactions, references to
//! outputs.

use vstd::prelude::*;

verus! {

/// The identifier of a transaction: 256 bits in two halves.
#[derive(Copy, Clone, Debug, PartialEq, Eq, Structural, Hash)]
pub struct TxId {
    pub high: u128,
    pub low: u128,
}

/// The hash of a block: 256 bits in two halves.
#[derive(Copy, Clone, Debug, PartialEq, Eq, Structural, Hash)]
pub struct BlockHash {
    pub high: u128,
    pub low: u128,
}

/// A reference to one output of a transaction.
#[derive(Copy, Clone, Debug, PartialEq, Eq, Structural, Hash)]
pub struct OutPoint {
    pub txid: TxId,
    pub index: u32,
}

/// One output of a transaction.
#[derive(Clone, Debug, PartialEq, Eq)]
pub struct TxOut {
    /// The value of the output, in units.
    pub value: u64,
    /// The bytes of a protocol message, where the output carries one. Such
    /// an output holds no token balance.
    pub payload: Option<Vec<u8>>,
}

/// A transaction: the outputs it spends and the outputs it makes.
#[derive(Clone, Debug, PartialEq, Eq)]
pub struct Transaction {
    pub txid: TxId,
    pub inputs: Vec<OutPoint>,
    pub outputs: Vec<TxOut>,
    /// The witness data of the transaction, in which content may be
    /// wrapped.
    pub witness: Vec<u8>,
}

/// A block. Its first transaction is the issuance transaction: it spends
/// no earlier output and receives the new units and the fees.
#[derive(Clone, Debug, PartialEq, Eq)]
pub struct Block {
    pub hash: BlockHash,
    pub parent: BlockHash,
    pub transactions: Vec<Transaction>,
}

/// The reference to output `k` of transaction `txid`.
pub open spec fn output_at(txid: TxId, k: int) -> OutPoint {
    OutPoint { txid, index: k as u32 }
}

/// The values of the outputs in `outputs`, in order.
pub open spec fn output_values(outputs: Seq<TxOut>) -> Seq<u64> {
    Seq::new(outputs.len(), |k: int| outputs[k].value)
}

/// The values of the outputs in `outputs`, in order.
pub fn values_of(outputs: &Vec<TxOut>) -> (values: Vec<u64>)
    ensures
        values@ == output_values(outputs@),
{
    let mut values: Vec<u64> = Vec::new();
    let mut k: usize = 0;
    while k < outputs.len()
        invariant
            k <= outputs@.len(),
            values@ == output_values(outputs@).take(k as int),
        decreases outputs@.len() - k,
    {
        values.push(outputs[k].value);
        k += 1;
        assert(values@ =~= output_values(outputs@).take(k as int));
    }
    assert(output_values(outputs@).take(k as int) =~= output_values(outputs@));
    values
}

} // verus!
