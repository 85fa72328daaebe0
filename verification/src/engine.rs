//! The transaction-processing state machine.
//!
//! The engine's whole behaviour is captured by the specification function
//! [`spec_step`]: one operation applied to one state (client ledger,
//! disputable journal, dispute registry) yields the next state. The
//! executable handlers are proved to follow `spec_step` exactly, and
//! [`inv`] — the well-formedness of a state — is proved to be preserved
//! by every step.
//!
//! A locked account rejects settlement as well, so a dispute still open
//! when a chargeback locks its client stays in the registry with no path
//! to resolution. That is deliberate: locked accounts are frozen pending
//! external review, and any change here needs product clarification.

use vstd::prelude::*;

use crate::types::{Client, OperationInput, Transaction};
use crate::types::{disputable_amount, spec_same_tx_id, tx_client};

verus! {

/// Index of the first journal or registry entry at or after `i` whose
/// transaction id is `tid`, or -1 when there is none.
pub open spec fn find_tx_from(s: Seq<Transaction>, tid: u32, i: int) -> int
    decreases s.len() - i,
{
    if i < 0 || i >= s.len() {
        -1
    } else if spec_same_tx_id(s[i], tid) {
        i
    } else {
        find_tx_from(s, tid, i + 1)
    }
}

/// Index of the first journal or registry entry whose transaction id is
/// `tid`, or -1 when there is none.
pub open spec fn spec_find_operation(s: Seq<Transaction>, tid: u32) -> int {
    find_tx_from(s, tid, 0)
}

/// Index of the first client record at or after `i` with identifier `cid`,
/// or -1 when there is none.
pub open spec fn find_client_from(s: Seq<Client>, cid: u16, i: int) -> int
    decreases s.len() - i,
{
    if i < 0 || i >= s.len() {
        -1
    } else if s[i].id == cid {
        i
    } else {
        find_client_from(s, cid, i + 1)
    }
}

/// Index of the first client record with identifier `cid`, or -1 when
/// there is none.
pub open spec fn spec_find_client(s: Seq<Client>, cid: u16) -> int {
    find_client_from(s, cid, 0)
}

/// Sum of the amounts of all registry entries that belong to client `cid`.
/// While an operation is under dispute, its amount is held; so a client's
/// `held` balance always equals this sum over the dispute registry.
pub open spec fn held_sum(s: Seq<Transaction>, cid: u16) -> int
    decreases s.len(),
{
    if s.len() == 0 {
        0
    } else {
        (if tx_client(s[0]) == cid {
            disputable_amount(s[0]) as int
        } else {
            0
        }) + held_sum(s.drop_first(), cid)
    }
}

/// Client identifiers are unique within the ledger.
pub open spec fn clients_wf(cs: Seq<Client>) -> bool {
    forall|i: int, j: int| 0 <= i < j < cs.len() ==> cs[i].id != cs[j].id
}

/// The fundamental balance equation of one client.
pub open spec fn client_balanced(c: Client) -> bool {
    c.total == c.available + c.held
}

/// Well-formedness of an engine state: client ids are unique, every
/// client's total equals available plus held, every client's held balance
/// equals the sum of its entries in the dispute registry, and registry
/// entries only ever belong to known clients.
pub open spec fn inv(cs: Seq<Client>, rg: Seq<Transaction>) -> bool {
    &&& clients_wf(cs)
    &&& forall|i: int| 0 <= i < cs.len() ==> client_balanced(#[trigger] cs[i])
    &&& forall|i: int|
        0 <= i < cs.len() ==> (#[trigger] cs[i]).held == held_sum(rg, cs[i].id)
    &&& forall|k: int|
        0 <= k < rg.len() ==> spec_find_client(cs, tx_client(#[trigger] rg[k])) >= 0
}

/// Effect of disputing journal entry `e` against client `c`, mirroring the
/// validation order of the handler: client match, then lock, then (for a
/// deposit) sufficient available funds. Returns the updated client and
/// whether the dispute was accepted.
pub open spec fn spec_apply_dispute(c: Client, e: Transaction) -> (Client, bool) {
    match e {
        Transaction::Deposit(ecid, _, ea) => if ecid != c.id {
            (c, false)
        } else if c.locked {
            (c, false)
        } else if c.available < ea {
            (c, false)
        } else {
            (
                Client {
                    available: (c.available - ea) as u64,
                    held: (c.held + ea) as u64,
                    ..c
                },
                true,
            )
        },
        Transaction::Withdrawal(ecid, _, ea) => if ecid != c.id {
            (c, false)
        } else if c.locked {
            (c, false)
        } else if c.total + ea > u64::MAX {
            (c, false)
        } else {
            (
                Client { held: (c.held + ea) as u64, total: (c.total + ea) as u64, ..c },
                true,
            )
        },
        _ => (c, false),
    }
}

/// Effect of resolving the disputed entry `e` against client `c`: the held
/// amount is released — back to `available` for a deposit, out of the
/// account for a withdrawal (the withdrawal stands).
pub open spec fn spec_apply_resolve(c: Client, e: Transaction) -> (Client, bool) {
    match e {
        Transaction::Deposit(ecid, _, ea) => if ecid != c.id {
            (c, false)
        } else if c.locked {
            (c, false)
        } else {
            (
                Client {
                    held: (c.held - ea) as u64,
                    available: (c.available + ea) as u64,
                    ..c
                },
                true,
            )
        },
        Transaction::Withdrawal(ecid, _, ea) => if ecid != c.id {
            (c, false)
        } else if c.locked {
            (c, false)
        } else {
            (
                Client { held: (c.held - ea) as u64, total: (c.total - ea) as u64, ..c },
                true,
            )
        },
        _ => (c, false),
    }
}

/// Effect of charging back the disputed entry `e` against client `c`: the
/// disputed movement is reversed and the account is locked.
pub open spec fn spec_apply_chargeback(c: Client, e: Transaction) -> (Client, bool) {
    match e {
        Transaction::Deposit(ecid, _, ea) => if ecid != c.id {
            (c, false)
        } else if c.locked {
            (c, false)
        } else {
            (
                Client {
                    held: (c.held - ea) as u64,
                    total: (c.total - ea) as u64,
                    locked: true,
                    ..c
                },
                true,
            )
        },
        Transaction::Withdrawal(ecid, _, ea) => if ecid != c.id {
            (c, false)
        } else if c.locked {
            (c, false)
        } else {
            (
                Client {
                    held: (c.held - ea) as u64,
                    available: (c.available + ea) as u64,
                    locked: true,
                    ..c
                },
                true,
            )
        },
        _ => (c, false),
    }
}

/// One step of the state machine: the next (clients, journal, registry)
/// state after processing operation `t`. Rejected operations leave the
/// state unchanged, with one exception: a dispute that finds its journal
/// entry retires that entry whether or not the dispute is accepted.
pub open spec fn spec_step(
    cs: Seq<Client>,
    jn: Seq<Transaction>,
    rg: Seq<Transaction>,
    t: Transaction,
) -> (Seq<Client>, Seq<Transaction>, Seq<Transaction>) {
    match t {
        Transaction::Deposit(cid, _, a) => {
            let i = spec_find_client(cs, cid);
            if i < 0 {
                (
                    cs.push(
                        Client { id: cid, available: a, held: 0, total: a, locked: false },
                    ),
                    jn.push(t),
                    rg,
                )
            } else if cs[i].locked {
                (cs, jn, rg)
            } else if cs[i].total + a > u64::MAX {
                (cs, jn, rg)
            } else {
                (
                    cs.update(
                        i,
                        Client {
                            available: (cs[i].available + a) as u64,
                            total: (cs[i].total + a) as u64,
                            ..cs[i]
                        },
                    ),
                    jn.push(t),
                    rg,
                )
            }
        },
        Transaction::Withdrawal(cid, _, a) => {
            let i = spec_find_client(cs, cid);
            if i < 0 {
                (cs, jn, rg)
            } else if cs[i].locked {
                (cs, jn, rg)
            } else if cs[i].available < a {
                (cs, jn, rg)
            } else {
                (
                    cs.update(
                        i,
                        Client {
                            available: (cs[i].available - a) as u64,
                            total: (cs[i].total - a) as u64,
                            ..cs[i]
                        },
                    ),
                    jn.push(t),
                    rg,
                )
            }
        },
        Transaction::Dispute(cid, tid) => {
            let i = spec_find_client(cs, cid);
            if i < 0 {
                (cs, jn, rg)
            } else {
                let j = spec_find_operation(jn, tid);
                if j < 0 {
                    (cs, jn, rg)
                } else {
                    let e = jn[j];
                    let r = spec_apply_dispute(cs[i], e);
                    if r.1 {
                        (cs.update(i, r.0), jn.remove(j), rg.push(e))
                    } else {
                        (cs, jn.remove(j), rg)
                    }
                }
            }
        },
        Transaction::Resolve(cid, tid) => {
            let i = spec_find_client(cs, cid);
            if i < 0 {
                (cs, jn, rg)
            } else {
                let j = spec_find_operation(rg, tid);
                if j < 0 {
                    (cs, jn, rg)
                } else {
                    let r = spec_apply_resolve(cs[i], rg[j]);
                    if r.1 {
                        (cs.update(i, r.0), jn, rg.remove(j))
                    } else {
                        (cs, jn, rg)
                    }
                }
            }
        },
        Transaction::Chargeback(cid, tid) => {
            let i = spec_find_client(cs, cid);
            if i < 0 {
                (cs, jn, rg)
            } else {
                let j = spec_find_operation(rg, tid);
                if j < 0 {
                    (cs, jn, rg)
                } else {
                    let r = spec_apply_chargeback(cs[i], rg[j]);
                    if r.1 {
                        (cs.update(i, r.0), jn, rg.remove(j))
                    } else {
                        (cs, jn, rg)
                    }
                }
            }
        },
    }
}

/// How one input record is interpreted: the record's `type` string picks
/// the operation, and a missing amount on `deposit`/`withdrawal`, like an
/// unrecognized `type`, makes the record invalid (it is skipped).
pub open spec fn spec_parse_record(r: OperationInput) -> Option<Transaction> {
    if r.op_type@ == "deposit"@ {
        match r.amount {
            Some(a) => Some(Transaction::Deposit(r.client, r.tx, a)),
            None => None,
        }
    } else if r.op_type@ == "withdrawal"@ {
        match r.amount {
            Some(a) => Some(Transaction::Withdrawal(r.client, r.tx, a)),
            None => None,
        }
    } else if r.op_type@ == "dispute"@ {
        Some(Transaction::Dispute(r.client, r.tx))
    } else if r.op_type@ == "resolve"@ {
        Some(Transaction::Resolve(r.client, r.tx))
    } else if r.op_type@ == "chargeback"@ {
        Some(Transaction::Chargeback(r.client, r.tx))
    } else {
        None
    }
}

/// The held sum is a sum of unsigned amounts, so it is never negative.
pub proof fn lemma_held_sum_nonneg(s: Seq<Transaction>, cid: u16)
    ensures
        held_sum(s, cid) >= 0,
    decreases s.len(),
{
    if s.len() > 0 {
        lemma_held_sum_nonneg(s.drop_first(), cid);
    }
}

/// Appending an entry adds its amount to the held sum of its own client
/// and leaves every other client's sum unchanged.
pub proof fn lemma_held_sum_push(s: Seq<Transaction>, cid: u16, e: Transaction)
    ensures
        held_sum(s.push(e), cid) == held_sum(s, cid) + (if tx_client(e) == cid {
            disputable_amount(e) as int
        } else {
            0
        }),
    decreases s.len(),
{
    if s.len() == 0 {
        assert(s.push(e)[0] == e);
        assert(s.push(e).drop_first() =~= Seq::<Transaction>::empty());
        assert(held_sum(s.push(e).drop_first(), cid) == 0);
    } else {
        assert(s.push(e)[0] == s[0]);
        assert(s.push(e).drop_first() =~= s.drop_first().push(e));
        lemma_held_sum_push(s.drop_first(), cid, e);
    }
}

/// Removing the entry at `j` subtracts its amount from the held sum of its
/// own client and leaves every other client's sum unchanged.
pub proof fn lemma_held_sum_remove(s: Seq<Transaction>, cid: u16, j: int)
    requires
        0 <= j < s.len(),
    ensures
        held_sum(s.remove(j), cid) == held_sum(s, cid) - (if tx_client(s[j]) == cid {
            disputable_amount(s[j]) as int
        } else {
            0
        }),
    decreases s.len(),
{
    if j == 0 {
        assert(s.remove(0) =~= s.drop_first());
    } else {
        assert(s.remove(j).drop_first() =~= s.drop_first().remove(j - 1));
        lemma_held_sum_remove(s.drop_first(), cid, j - 1);
    }
}

/// Every entry's amount is bounded by the held sum of its client.
pub proof fn lemma_held_sum_entry_le(s: Seq<Transaction>, cid: u16, j: int)
    requires
        0 <= j < s.len(),
        tx_client(s[j]) == cid,
    ensures
        disputable_amount(s[j]) <= held_sum(s, cid),
{
    lemma_held_sum_remove(s, cid, j);
    lemma_held_sum_nonneg(s.remove(j), cid);
}

/// A client with no entry in the registry holds nothing.
pub proof fn lemma_held_sum_absent(s: Seq<Transaction>, cid: u16)
    requires
        forall|k: int| 0 <= k < s.len() ==> tx_client(#[trigger] s[k]) != cid,
    ensures
        held_sum(s, cid) == 0,
    decreases s.len(),
{
    if s.len() > 0 {
        assert(forall|k: int|
            0 <= k < s.drop_first().len() ==> tx_client(#[trigger] s.drop_first()[k])
                != cid);
        lemma_held_sum_absent(s.drop_first(), cid);
    }
}

/// What a client search returns: a valid index of a record with the wanted
/// identifier and no earlier match, or -1 when no record matches.
pub proof fn lemma_find_client_props(s: Seq<Client>, cid: u16, k: int)
    requires
        0 <= k <= s.len(),
    ensures
        find_client_from(s, cid, k) == -1 || find_client_from(s, cid, k) >= k,
        find_client_from(s, cid, k) == -1 ==> forall|j: int|
            k <= j < s.len() ==> (#[trigger] s[j]).id != cid,
        find_client_from(s, cid, k) >= 0 ==> {
            let r = find_client_from(s, cid, k);
            &&& k <= r < s.len()
            &&& s[r].id == cid
            &&& forall|j: int| k <= j < r ==> (#[trigger] s[j]).id != cid
        },
    decreases s.len() - k,
{
    if k < s.len() && s[k].id != cid {
        lemma_find_client_props(s, cid, k + 1);
    }
}

/// In a ledger with unique identifiers, the search for `cs[i].id` finds
/// exactly `i`.
pub proof fn lemma_find_client_unique(cs: Seq<Client>, i: int)
    requires
        clients_wf(cs),
        0 <= i < cs.len(),
    ensures
        spec_find_client(cs, cs[i].id) == i,
{
    lemma_find_client_props(cs, cs[i].id, 0);
    let r = spec_find_client(cs, cs[i].id);
    if r == -1 {
        assert(forall|j: int| 0 <= j < cs.len() ==> (#[trigger] cs[j]).id != cs[i].id);
        assert(cs[i].id != cs[i].id);
    }
    assert(r >= 0);
    if r < i {
        assert(cs[r].id != cs[i].id);
        assert(false);
    } else if r > i {
        assert(cs[i].id != cs[r].id);
        assert(false);
    }
}

/// What a transaction-id search returns: the first matching index, or -1
/// when no entry matches.
pub proof fn lemma_find_tx_props(s: Seq<Transaction>, tid: u32, k: int)
    requires
        0 <= k <= s.len(),
    ensures
        find_tx_from(s, tid, k) == -1 || find_tx_from(s, tid, k) >= k,
        find_tx_from(s, tid, k) == -1 ==> forall|j: int|
            k <= j < s.len() ==> !spec_same_tx_id(#[trigger] s[j], tid),
        find_tx_from(s, tid, k) >= 0 ==> {
            let r = find_tx_from(s, tid, k);
            &&& k <= r < s.len()
            &&& spec_same_tx_id(s[r], tid)
            &&& forall|j: int| k <= j < r ==> !spec_same_tx_id(#[trigger] s[j], tid)
        },
    decreases s.len() - k,
{
    if k < s.len() && !spec_same_tx_id(s[k], tid) {
        lemma_find_tx_props(s, tid, k + 1);
    }
}

/// A record present in the ledger is found by the client search.
pub proof fn lemma_client_present(cs: Seq<Client>, m: int)
    requires
        0 <= m < cs.len(),
    ensures
        spec_find_client(cs, cs[m].id) >= 0,
{
    lemma_find_client_props(cs, cs[m].id, 0);
    if spec_find_client(cs, cs[m].id) == -1 {
        assert(cs[m].id != cs[m].id);
    }
}

/// If every registry entry belongs to a client found in `cs`, and `cs2`
/// keeps every identifier of `cs` at the same position, then every entry
/// also belongs to a client found in `cs2`.
proof fn lemma_registry_clients_present(
    cs: Seq<Client>,
    cs2: Seq<Client>,
    rg2: Seq<Transaction>,
)
    requires
        cs2.len() >= cs.len(),
        forall|m: int| 0 <= m < cs.len() ==> (#[trigger] cs2[m]).id == cs[m].id,
        forall|k: int|
            0 <= k < rg2.len() ==> spec_find_client(cs, tx_client(#[trigger] rg2[k])) >= 0,
    ensures
        forall|k: int|
            0 <= k < rg2.len() ==> spec_find_client(cs2, tx_client(#[trigger] rg2[k])) >= 0,
{
    assert forall|k: int|
        0 <= k < rg2.len() implies spec_find_client(cs2, tx_client(#[trigger] rg2[k]))
        >= 0 by {
        let x = tx_client(rg2[k]);
        lemma_find_client_props(cs, x, 0);
        let m = spec_find_client(cs, x);
        assert(cs[m].id == x);
        assert(cs2[m].id == x);
        lemma_client_present(cs2, m);
    }
}

/// Every entry of a registry with one entry removed was already an entry
/// before the removal, so it still belongs to a client found in `cs`.
proof fn lemma_registry_remove_clients(cs: Seq<Client>, rg: Seq<Transaction>, j: int)
    requires
        0 <= j < rg.len(),
        forall|k: int|
            0 <= k < rg.len() ==> spec_find_client(cs, tx_client(#[trigger] rg[k])) >= 0,
    ensures
        forall|k: int|
            0 <= k < rg.remove(j).len() ==> spec_find_client(
                cs,
                tx_client(#[trigger] rg.remove(j)[k]),
            ) >= 0,
{
    assert forall|k: int|
        0 <= k < rg.remove(j).len() implies spec_find_client(
        cs,
        tx_client(#[trigger] rg.remove(j)[k]),
    ) >= 0 by {
        if k < j {
            assert(rg.remove(j)[k] == rg[k]);
        } else {
            assert(rg.remove(j)[k] == rg[k + 1]);
        }
    }
}

/// Every engine step preserves the well-formedness of the state: the
/// client identifiers stay unique, every client's total stays equal to
/// available plus held, and every client's held balance stays equal to
/// the sum of its amounts under active dispute.
pub proof fn lemma_step_preserves_inv(
    cs: Seq<Client>,
    jn: Seq<Transaction>,
    rg: Seq<Transaction>,
    t: Transaction,
)
    requires
        inv(cs, rg),
    ensures
        inv(spec_step(cs, jn, rg, t).0, spec_step(cs, jn, rg, t).2),
{
    let cs2 = spec_step(cs, jn, rg, t).0;
    let rg2 = spec_step(cs, jn, rg, t).2;
    match t {
        Transaction::Deposit(cid, tid, a) => {
            let i = spec_find_client(cs, cid);
            lemma_find_client_props(cs, cid, 0);
            if i < 0 {
                let c = Client { id: cid, available: a, held: 0, total: a, locked: false };
                assert(cs2 == cs.push(c));
                assert forall|p: int, q: int|
                    0 <= p < q < cs2.len() implies (#[trigger] cs2[p]).id
                    != (#[trigger] cs2[q]).id by {
                    if q < cs.len() {
                        assert(cs2[p] == cs[p] && cs2[q] == cs[q]);
                    } else {
                        assert(cs2[q] == c && cs2[p] == cs[p]);
                    }
                }
                assert forall|k: int|
                    0 <= k < rg.len() implies tx_client(#[trigger] rg[k]) != cid by {
                    if tx_client(rg[k]) == cid {
                        assert(spec_find_client(cs, cid) >= 0);
                    }
                }
                lemma_held_sum_absent(rg, cid);
                assert forall|m: int|
                    0 <= m < cs2.len() implies client_balanced(#[trigger] cs2[m])
                        && cs2[m].held == held_sum(rg2, cs2[m].id) by {
                    if m < cs.len() {
                        assert(cs2[m] == cs[m]);
                    } else {
                        assert(cs2[m] == c);
                    }
                }
                lemma_registry_clients_present(cs, cs2, rg2);
            } else if cs[i].locked || cs[i].total + a > u64::MAX {
                assert(cs2 == cs && rg2 == rg);
            } else {
                let c2 = Client {
                    available: (cs[i].available + a) as u64,
                    total: (cs[i].total + a) as u64,
                    ..cs[i]
                };
                assert(cs2 == cs.update(i, c2));
                assert forall|p: int, q: int|
                    0 <= p < q < cs2.len() implies (#[trigger] cs2[p]).id
                    != (#[trigger] cs2[q]).id by {
                    assert(cs2[p].id == cs[p].id && cs2[q].id == cs[q].id);
                }
                assert forall|m: int|
                    0 <= m < cs2.len() implies client_balanced(#[trigger] cs2[m])
                        && cs2[m].held == held_sum(rg2, cs2[m].id) by {
                    if m != i {
                        assert(cs2[m] == cs[m]);
                    } else {
                        assert(cs2[m] == c2);
                        assert(client_balanced(cs[i]));
                    }
                }
                lemma_registry_clients_present(cs, cs2, rg2);
            }
        },
        Transaction::Withdrawal(cid, tid, a) => {
            let i = spec_find_client(cs, cid);
            lemma_find_client_props(cs, cid, 0);
            if i >= 0 && !cs[i].locked && cs[i].available >= a {
                let c2 = Client {
                    available: (cs[i].available - a) as u64,
                    total: (cs[i].total - a) as u64,
                    ..cs[i]
                };
                assert(cs2 == cs.update(i, c2));
                assert(client_balanced(cs[i]));
                assert forall|p: int, q: int|
                    0 <= p < q < cs2.len() implies (#[trigger] cs2[p]).id
                    != (#[trigger] cs2[q]).id by {
                    assert(cs2[p].id == cs[p].id && cs2[q].id == cs[q].id);
                }
                assert forall|m: int|
                    0 <= m < cs2.len() implies client_balanced(#[trigger] cs2[m])
                        && cs2[m].held == held_sum(rg2, cs2[m].id) by {
                    if m != i {
                        assert(cs2[m] == cs[m]);
                    } else {
                        assert(cs2[m] == c2);
                    }
                }
                lemma_registry_clients_present(cs, cs2, rg2);
            } else {
                assert(cs2 == cs && rg2 == rg);
            }
        },
        Transaction::Dispute(cid, tid) => {
            let i = spec_find_client(cs, cid);
            lemma_find_client_props(cs, cid, 0);
            if i >= 0 {
                let j = spec_find_operation(jn, tid);
                if j >= 0 {
                    let e = jn[j];
                    let r = spec_apply_dispute(cs[i], e);
                    if r.1 {
                        let c2 = r.0;
                        assert(cs2 == cs.update(i, c2) && rg2 == rg.push(e));
                        assert(tx_client(e) == cs[i].id && cs[i].id == cid);
                        assert(client_balanced(cs[i]));
                        assert(c2.id == cs[i].id && client_balanced(c2) && c2.held == cs[
                            i
                        ].held + disputable_amount(e)) by {
                            match e {
                                Transaction::Deposit(ecid, etid, ea) => {},
                                Transaction::Withdrawal(ecid, etid, ea) => {},
                                _ => {
                                    assert(false);
                                },
                            }
                        }
                        assert forall|p: int, q: int|
                            0 <= p < q < cs2.len() implies (#[trigger] cs2[p]).id
                            != (#[trigger] cs2[q]).id by {
                            assert(cs2[p].id == cs[p].id && cs2[q].id == cs[q].id);
                        }
                        assert forall|m: int|
                            0 <= m < cs2.len() implies client_balanced(#[trigger] cs2[m])
                                && cs2[m].held == held_sum(rg2, cs2[m].id) by {
                            lemma_held_sum_push(rg, cs2[m].id, e);
                            if m != i {
                                assert(cs2[m] == cs[m]);
                                assert(cs[m].id != cid);
                            } else {
                                assert(cs2[m] == c2);
                            }
                        }
                        assert forall|k: int|
                            0 <= k < rg2.len() implies spec_find_client(
                            cs2,
                            tx_client(#[trigger] rg2[k]),
                        ) >= 0 by {
                            if k < rg.len() {
                                assert(rg2[k] == rg[k]);
                                let x = tx_client(rg[k]);
                                lemma_find_client_props(cs, x, 0);
                                let m = spec_find_client(cs, x);
                                assert(cs2[m].id == x);
                                lemma_client_present(cs2, m);
                            } else {
                                assert(rg2[k] == e);
                                assert(cs2[i].id == cid);
                                lemma_client_present(cs2, i);
                            }
                        }
                    } else {
                        assert(cs2 == cs && rg2 == rg);
                    }
                } else {
                    assert(cs2 == cs && rg2 == rg);
                }
            } else {
                assert(cs2 == cs && rg2 == rg);
            }
        },
        Transaction::Resolve(cid, tid) => {
            lemma_settle_preserves_inv(cs, jn, rg, t);
        },
        Transaction::Chargeback(cid, tid) => {
            lemma_settle_preserves_inv(cs, jn, rg, t);
        },
    }
}

/// Invariant preservation for the two settlement operations, which share
/// one shape: find the disputed entry, release its held amount, remove it
/// from the registry.
proof fn lemma_settle_preserves_inv(
    cs: Seq<Client>,
    jn: Seq<Transaction>,
    rg: Seq<Transaction>,
    t: Transaction,
)
    requires
        inv(cs, rg),
        t is Resolve || t is Chargeback,
    ensures
        inv(spec_step(cs, jn, rg, t).0, spec_step(cs, jn, rg, t).2),
{
    let cs2 = spec_step(cs, jn, rg, t).0;
    let rg2 = spec_step(cs, jn, rg, t).2;
    let cid = tx_client(t);
    let tid = if t is Resolve {
        t->Resolve_1
    } else {
        t->Chargeback_1
    };
    let i = spec_find_client(cs, cid);
    lemma_find_client_props(cs, cid, 0);
    if i >= 0 {
        let j = spec_find_operation(rg, tid);
        lemma_find_tx_props(rg, tid, 0);
        if j >= 0 {
            let e = rg[j];
            let r = if t is Resolve {
                spec_apply_resolve(cs[i], e)
            } else {
                spec_apply_chargeback(cs[i], e)
            };
            if r.1 {
                let c2 = r.0;
                assert(cs2 == cs.update(i, c2) && rg2 == rg.remove(j));
                assert(tx_client(e) == cs[i].id && cs[i].id == cid);
                lemma_held_sum_entry_le(rg, cid, j);
                assert(client_balanced(cs[i]));
                assert(c2.id == cs[i].id && client_balanced(c2) && cs[i].held == c2.held
                    + disputable_amount(e)) by {
                    match e {
                        Transaction::Deposit(ecid, etid, ea) => {},
                        Transaction::Withdrawal(ecid, etid, ea) => {},
                        _ => {
                            assert(false);
                        },
                    }
                }
                assert forall|p: int, q: int|
                    0 <= p < q < cs2.len() implies (#[trigger] cs2[p]).id
                    != (#[trigger] cs2[q]).id by {
                    assert(cs2[p].id == cs[p].id && cs2[q].id == cs[q].id);
                }
                assert forall|m: int|
                    0 <= m < cs2.len() implies client_balanced(#[trigger] cs2[m])
                        && cs2[m].held == held_sum(rg2, cs2[m].id) by {
                    lemma_held_sum_remove(rg, cs2[m].id, j);
                    if m != i {
                        assert(cs2[m] == cs[m]);
                        assert(cs[m].id != cid);
                    } else {
                        assert(cs2[m] == c2);
                    }
                }
                lemma_registry_remove_clients(cs, rg, j);
                lemma_registry_clients_present(cs, cs2, rg2);
            } else {
                assert(cs2 == cs && rg2 == rg);
            }
        } else {
            assert(cs2 == cs && rg2 == rg);
        }
    } else {
        assert(cs2 == cs && rg2 == rg);
    }
}

/// The state reached by replaying a whole record sequence from the empty
/// state, skipping invalid records.
pub open spec fn spec_run(records: Seq<OperationInput>) -> (
    Seq<Client>,
    Seq<Transaction>,
    Seq<Transaction>,
)
    decreases records.len(),
{
    if records.len() == 0 {
        (Seq::<Client>::empty(), Seq::<Transaction>::empty(), Seq::<Transaction>::empty())
    } else {
        let prev = spec_run(records.drop_last());
        match spec_parse_record(records.last()) {
            Some(t) => spec_step(prev.0, prev.1, prev.2, t),
            None => prev,
        }
    }
}

/// Linear scan of the ledger for the client with identifier `client_id`;
/// returns the index of the first (by uniqueness, only) matching record.
pub fn find_client_by_id(clients: &Vec<Client>, client_id: u16) -> (r: Option<usize>)
    ensures
        match r {
            Some(i) => {
                &&& spec_find_client(clients@, client_id) == i
                &&& i < clients@.len()
                &&& clients@[i as int].id == client_id
            },
            None => spec_find_client(clients@, client_id) == -1,
        },
{
    let n = clients.len();
    let mut i: usize = 0;
    while i < n
        invariant
            n == clients@.len(),
            0 <= i <= n,
            spec_find_client(clients@, client_id) == find_client_from(
                clients@,
                client_id,
                i as int,
            ),
        decreases n - i,
    {
        if clients[i].id == client_id {
            return Some(i);
        }
        i += 1;
    }
    None
}

/// Whether `tx` is a disputable operation carrying transaction id `trans_id`.
pub fn is_same_tx_id(tx: &Transaction, trans_id: u32) -> (r: bool)
    ensures
        r == spec_same_tx_id(*tx, trans_id),
{
    match tx {
        Transaction::Deposit(_, list_trans_id, _) => *list_trans_id == trans_id,
        Transaction::Withdrawal(_, list_trans_id, _) => *list_trans_id == trans_id,
        _ => false,
    }
}

/// Linear scan of a journal or registry for the first entry with
/// transaction id `trans_id`.
pub fn find_operation_by_id(transactions: &Vec<Transaction>, trans_id: u32) -> (r: Option<
    usize,
>)
    ensures
        match r {
            Some(j) => {
                &&& spec_find_operation(transactions@, trans_id) == j
                &&& j < transactions@.len()
                &&& spec_same_tx_id(transactions@[j as int], trans_id)
            },
            None => spec_find_operation(transactions@, trans_id) == -1,
        },
{
    let n = transactions.len();
    let mut i: usize = 0;
    while i < n
        invariant
            n == transactions@.len(),
            0 <= i <= n,
            spec_find_operation(transactions@, trans_id) == find_tx_from(
                transactions@,
                trans_id,
                i as int,
            ),
        decreases n - i,
    {
        if is_same_tx_id(&transactions[i], trans_id) {
            return Some(i);
        }
        i += 1;
    }
    None
}

/// Deletes the first entry with transaction id `trans_id`, if any; the
/// order of the remaining entries is preserved.
pub fn remove_operation_by_id(transactions: &mut Vec<Transaction>, trans_id: u32)
    ensures
        spec_find_operation(old(transactions)@, trans_id) >= 0 ==> final(transactions)@
            == old(transactions)@.remove(spec_find_operation(old(transactions)@, trans_id)),
        spec_find_operation(old(transactions)@, trans_id) == -1 ==> final(transactions)@
            == old(transactions)@,
{
    match find_operation_by_id(transactions, trans_id) {
        Some(j) => {
            transactions.remove(j);
        },
        None => {},
    }
}

/// Attempts to apply a dispute of `transaction` to the specified client.
/// Returns true in case of success, or false if the dispute cannot be
/// applied; on failure the client is left unchanged.
pub fn apply_dispute(client: &mut Client, transaction: &Transaction) -> (r: bool)
    requires
        client_balanced(*old(client)),
    ensures
        *final(client) == spec_apply_dispute(*old(client), *transaction).0,
        r == spec_apply_dispute(*old(client), *transaction).1,
{
    match *transaction {
        Transaction::Deposit(cl_id, _, tx_amount) => {
            if cl_id != client.id {
                return false;
            }
            if client.locked {
                return false;
            }
            if client.available < tx_amount {
                return false;
            }
            client.available = client.available - tx_amount;
            client.held = client.held + tx_amount;
        },
        Transaction::Withdrawal(cl_id, _, tx_amount) => {
            if cl_id != client.id {
                return false;
            }
            if client.locked {
                return false;
            }
            if client.total > u64::MAX - tx_amount {
                return false;
            }
            client.held = client.held + tx_amount;
            client.total = client.total + tx_amount;
        },
        _ => {
            return false;
        },
    }
    true
}

/// Attempts to resolve the disputed `transaction` on the specified client.
/// Returns true in case of success, or false if the operation cannot be
/// applied; on failure the client is left unchanged.
pub fn apply_resolve(client: &mut Client, transaction: &Transaction) -> (r: bool)
    requires
        client_balanced(*old(client)),
        tx_client(*transaction) == old(client).id && !old(client).locked
            ==> disputable_amount(*transaction) <= old(client).held,
    ensures
        *final(client) == spec_apply_resolve(*old(client), *transaction).0,
        r == spec_apply_resolve(*old(client), *transaction).1,
{
    match *transaction {
        Transaction::Deposit(cl_id, _, tx_amount) => {
            if cl_id != client.id {
                return false;
            }
            if client.locked {
                return false;
            }
            assert(client.held >= tx_amount);
            client.held = client.held - tx_amount;
            client.available = client.available + tx_amount;
        },
        Transaction::Withdrawal(cl_id, _, tx_amount) => {
            if cl_id != client.id {
                return false;
            }
            if client.locked {
                return false;
            }
            assert(client.held >= tx_amount);
            client.held = client.held - tx_amount;
            assert(client.total >= tx_amount);
            client.total = client.total - tx_amount;
        },
        _ => {
            return false;
        },
    }
    true
}

/// Attempts to apply a chargeback of the disputed `transaction` on the
/// specified client; on success the account is locked. Returns true in
/// case of success, or false if the operation cannot be applied; on
/// failure the client is left unchanged.
pub fn apply_chargeback(client: &mut Client, transaction: &Transaction) -> (r: bool)
    requires
        client_balanced(*old(client)),
        tx_client(*transaction) == old(client).id && !old(client).locked
            ==> disputable_amount(*transaction) <= old(client).held,
    ensures
        *final(client) == spec_apply_chargeback(*old(client), *transaction).0,
        r == spec_apply_chargeback(*old(client), *transaction).1,
{
    match *transaction {
        Transaction::Deposit(cl_id, _, tx_amount) => {
            if cl_id != client.id {
                return false;
            }
            if client.locked {
                return false;
            }
            assert(client.held >= tx_amount);
            client.held = client.held - tx_amount;
            assert(client.total >= tx_amount);
            client.total = client.total - tx_amount;
        },
        Transaction::Withdrawal(cl_id, _, tx_amount) => {
            if cl_id != client.id {
                return false;
            }
            if client.locked {
                return false;
            }
            assert(client.held >= tx_amount);
            client.held = client.held - tx_amount;
            client.available = client.available + tx_amount;
        },
        _ => {
            return false;
        },
    }
    client.locked = true;
    true
}

/// Processes a single operation, while updating the list of clients,
/// disputable operations, and disputes. The whole effect is given by one
/// step of the specification state machine, and well-formedness of the
/// state is preserved.
pub fn process_transaction(
    transaction: &Transaction,
    clients: &mut Vec<Client>,
    operations: &mut Vec<Transaction>,
    disputes: &mut Vec<Transaction>,
)
    requires
        inv(old(clients)@, old(disputes)@),
    ensures
        final(clients)@ == spec_step(
            old(clients)@,
            old(operations)@,
            old(disputes)@,
            *transaction,
        ).0,
        final(operations)@ == spec_step(
            old(clients)@,
            old(operations)@,
            old(disputes)@,
            *transaction,
        ).1,
        final(disputes)@ == spec_step(
            old(clients)@,
            old(operations)@,
            old(disputes)@,
            *transaction,
        ).2,
        inv(final(clients)@, final(disputes)@),
{
    match *transaction {
        Transaction::Deposit(client_id, tx_id, amount) => {
            match find_client_by_id(clients, client_id) {
                Some(i) => {
                    let cl = clients[i];
                    if cl.locked {
                        // rejected: no mutation, the deposit is not journaled
                    } else if cl.total > u64::MAX - amount {
                        // rejected: the balance cannot represent the result
                    } else {
                        assert(client_balanced(cl));
                        let c2 = Client {
                            available: cl.available + amount,
                            total: cl.total + amount,
                            ..cl
                        };
                        clients.set(i, c2);
                        operations.push(Transaction::Deposit(client_id, tx_id, amount));
                    }
                },
                None => {
                    // Unknown client: create its record with the deposit
                    clients.push(
                        Client {
                            id: client_id,
                            available: amount,
                            held: 0,
                            total: amount,
                            locked: false,
                        },
                    );
                    operations.push(Transaction::Deposit(client_id, tx_id, amount));
                },
            }
        },
        Transaction::Withdrawal(client_id, tx_id, amount) => {
            match find_client_by_id(clients, client_id) {
                Some(i) => {
                    let cl = clients[i];
                    if cl.locked {
                        // rejected
                    } else if cl.available < amount {
                        // rejected: insufficient funds
                    } else {
                        assert(client_balanced(cl));
                        let c2 = Client {
                            available: cl.available - amount,
                            total: cl.total - amount,
                            ..cl
                        };
                        clients.set(i, c2);
                        // Only journal the withdrawal if it was successful
                        operations.push(
                            Transaction::Withdrawal(client_id, tx_id, amount),
                        );
                    }
                },
                None => {
                    // rejected: unknown client
                },
            }
        },
        Transaction::Dispute(client_id, tx_id) => {
            match find_client_by_id(clients, client_id) {
                Some(i) => {
                    match find_operation_by_id(operations, tx_id) {
                        Some(j) => {
                            let dispute_tx = operations[j];
                            let mut cl = clients[i];
                            assert(client_balanced(cl));
                            if apply_dispute(&mut cl, &dispute_tx) {
                                clients.set(i, cl);
                                // Remember the operation for later settlement
                                disputes.push(dispute_tx);
                            }
                            // Handled once: the operation can no longer be
                            // challenged, whether or not it was accepted
                            remove_operation_by_id(operations, tx_id);
                        },
                        None => {
                            // rejected: unknown or already challenged id
                        },
                    }
                },
                None => {
                    // rejected: unknown client
                },
            }
        },
        Transaction::Resolve(client_id, tx_id) => {
            match find_client_by_id(clients, client_id) {
                Some(i) => {
                    match find_operation_by_id(disputes, tx_id) {
                        Some(j) => {
                            let resolve_tx = disputes[j];
                            let mut cl = clients[i];
                            proof {
                                assert(client_balanced(cl));
                                if tx_client(resolve_tx) == cl.id {
                                    lemma_held_sum_entry_le(disputes@, cl.id, j as int);
                                }
                            }
                            if apply_resolve(&mut cl, &resolve_tx) {
                                clients.set(i, cl);
                                // Settled: the dispute cannot be finalized again
                                remove_operation_by_id(disputes, tx_id);
                            }
                        },
                        None => {
                            // rejected: id not under dispute
                        },
                    }
                },
                None => {
                    // rejected: unknown client
                },
            }
        },
        Transaction::Chargeback(client_id, tx_id) => {
            match find_client_by_id(clients, client_id) {
                Some(i) => {
                    match find_operation_by_id(disputes, tx_id) {
                        Some(j) => {
                            let chargeback_tx = disputes[j];
                            let mut cl = clients[i];
                            proof {
                                assert(client_balanced(cl));
                                if tx_client(chargeback_tx) == cl.id {
                                    lemma_held_sum_entry_le(disputes@, cl.id, j as int);
                                }
                            }
                            if apply_chargeback(&mut cl, &chargeback_tx) {
                                clients.set(i, cl);
                                // Settled: the dispute cannot be finalized again
                                remove_operation_by_id(disputes, tx_id);
                            }
                        },
                        None => {
                            // rejected: id not under dispute
                        },
                    }
                },
                None => {
                    // rejected: unknown client
                },
            }
        },
    }
    proof {
        lemma_step_preserves_inv(
            old(clients)@,
            old(operations)@,
            old(disputes)@,
            *transaction,
        );
    }
}

/// Processes a list of parsed input records against a fresh ledger,
/// building the list of clients the replay touches. Records with an
/// unrecognized type, or a deposit or withdrawal without an amount, are
/// skipped. The final ledger is exactly the one the specification replay
/// reaches, its client identifiers are unique, and every client's total
/// equals available plus held.
pub fn process_transaction_list(clients: &mut Vec<Client>, lst: Vec<OperationInput>)
    requires
        old(clients)@.len() == 0,
    ensures
        final(clients)@ == spec_run(lst@).0,
        clients_wf(final(clients)@),
        forall|i: int|
            0 <= i < final(clients)@.len() ==> client_balanced(#[trigger] final(clients)@[i]),
{
    // Keeps the operations that can be disputed
    let mut transactions: Vec<Transaction> = Vec::new();
    // Keeps the operations under active dispute
    let mut disputes: Vec<Transaction> = Vec::new();
    proof {
        assert(clients@ =~= spec_run(lst@.take(0)).0);
        assert(transactions@ =~= spec_run(lst@.take(0)).1);
        assert(disputes@ =~= spec_run(lst@.take(0)).2);
    }
    let n = lst.len();
    let mut idx: usize = 0;
    while idx < n
        invariant
            n == lst@.len(),
            0 <= idx <= n,
            clients@ == spec_run(lst@.take(idx as int)).0,
            transactions@ == spec_run(lst@.take(idx as int)).1,
            disputes@ == spec_run(lst@.take(idx as int)).2,
            inv(clients@, disputes@),
        decreases n - idx,
    {
        let l = &lst[idx];
        let parsed: Option<Transaction>;
        if l.op_type == "deposit".to_owned() {
            match l.amount {
                Some(amount) => {
                    parsed = Some(Transaction::Deposit(l.client, l.tx, amount));
                },
                None => {
                    // skipped: a deposit record must carry an amount
                    parsed = None;
                },
            }
        } else if l.op_type == "withdrawal".to_owned() {
            match l.amount {
                Some(amount) => {
                    parsed = Some(Transaction::Withdrawal(l.client, l.tx, amount));
                },
                None => {
                    // skipped: a withdrawal record must carry an amount
                    parsed = None;
                },
            }
        } else if l.op_type == "dispute".to_owned() {
            parsed = Some(Transaction::Dispute(l.client, l.tx));
        } else if l.op_type == "resolve".to_owned() {
            parsed = Some(Transaction::Resolve(l.client, l.tx));
        } else if l.op_type == "chargeback".to_owned() {
            parsed = Some(Transaction::Chargeback(l.client, l.tx));
        } else {
            // skipped: unrecognized operation type
            parsed = None;
        }
        assert(parsed == spec_parse_record(lst@[idx as int]));
        match parsed {
            Some(transaction) => {
                process_transaction(&transaction, clients, &mut transactions, &mut disputes);
            },
            None => {},
        }
        idx += 1;
        proof {
            assert(lst@.take(idx as int).drop_last() =~= lst@.take(idx as int - 1));
            assert(lst@.take(idx as int).last() == lst@[idx as int - 1]);
        }
    }
    proof {
        assert(lst@.take(n as int) =~= lst@);
    }
}

} // verus!
