//! Core data shapes: client balance records, the operation union, parsed
//! input records, and the parser's error type.

use vstd::prelude::*;

verus! {

/// Balance record of one client.
///
/// All amounts are fixed-point integers with four fractional digits.
/// `total` is kept equal to `available + held` by every engine step.
#[derive(Clone, Copy, Debug, PartialEq, Eq, Structural)]
pub struct Client {
    pub id: u16,
    pub available: u64,
    pub held: u64,
    pub total: u64,
    pub locked: bool,
}

/// The possible operations supported by the engine.
///
/// `Deposit` and `Withdrawal` carry `(client, tx, amount)`; the three
/// dispute-family operations carry `(client, tx)` where `tx` references
/// a previously journaled deposit or withdrawal.
#[derive(Clone, Copy, Debug, PartialEq, Eq, Structural)]
pub enum Transaction {
    Deposit(u16, u32, u64),
    Withdrawal(u16, u32, u64),
    Dispute(u16, u32),
    Resolve(u16, u32),
    Chargeback(u16, u32),
}

/// One parsed input record, before it is interpreted as a `Transaction`.
///
/// `amount` is required for `deposit` and `withdrawal` records and is
/// already rounded to four fractional digits by the reader.
#[derive(Debug)]
pub struct OperationInput {
    pub op_type: String,
    pub client: u16,
    pub tx: u32,
    pub amount: Option<u64>,
}

/// Error reported when the input source cannot be parsed.
#[derive(Debug)]
pub struct ParserError {
    pub message: String,
}

impl ParserError {
    pub fn new(msg: &String) -> (r: ParserError)
        ensures
            r.message@ == msg@,
    {
        ParserError { message: msg.clone() }
    }
}

/// The client identifier an operation refers to.
pub open spec fn tx_client(t: Transaction) -> u16 {
    match t {
        Transaction::Deposit(c, _, _) => c,
        Transaction::Withdrawal(c, _, _) => c,
        Transaction::Dispute(c, _) => c,
        Transaction::Resolve(c, _) => c,
        Transaction::Chargeback(c, _) => c,
    }
}

/// The amount a disputable operation carries; zero for the dispute family,
/// which carries no amount of its own.
pub open spec fn disputable_amount(t: Transaction) -> u64 {
    match t {
        Transaction::Deposit(_, _, a) => a,
        Transaction::Withdrawal(_, _, a) => a,
        Transaction::Dispute(_, _) => 0,
        Transaction::Resolve(_, _) => 0,
        Transaction::Chargeback(_, _) => 0,
    }
}

/// Whether `t` is a disputable operation journaled under transaction id `tid`.
/// Only deposits and withdrawals have a transaction id of their own.
pub open spec fn spec_same_tx_id(t: Transaction, tid: u32) -> bool {
    match t {
        Transaction::Deposit(_, t2, _) => t2 == tid,
        Transaction::Withdrawal(_, t2, _) => t2 == tid,
        Transaction::Dispute(_, _) => false,
        Transaction::Resolve(_, _) => false,
        Transaction::Chargeback(_, _) => false,
    }
}

} // verus!
