//! Engine-wide laws, each proved once over the specification state
//! machine: balance well-formedness at every step, retirement of disputed
//! transaction ids, settlement only out of the registry, locking only by
//! chargeback, and determinism of rejection.

use vstd::prelude::*;

use crate::engine::{
    clients_wf, inv, lemma_find_client_unique, lemma_find_tx_props,
    lemma_step_preserves_inv, spec_find_client, spec_find_operation, spec_run, spec_step,
};
use crate::types::{Client, OperationInput, Transaction};
use crate::types::{spec_same_tx_id, tx_client};

verus! {

/// Replaying any record sequence from the empty state yields a
/// well-formed state: in particular, for every client at every point of
/// the replay, `total == available + held`.
pub proof fn lemma_run_well_formed(records: Seq<OperationInput>)
    ensures
        inv(spec_run(records).0, spec_run(records).2),
    decreases records.len(),
{
    if records.len() == 0 {
        assert(inv(spec_run(records).0, spec_run(records).2));
    } else {
        let prev = spec_run(records.drop_last());
        lemma_run_well_formed(records.drop_last());
        match crate::engine::spec_parse_record(records.last()) {
            Some(t) => {
                lemma_step_preserves_inv(prev.0, prev.1, prev.2, t);
            },
            None => {},
        }
    }
}

/// A transaction id can be disputed at most once: as long as the journal
/// holds at most one entry under the id (the well-formed case — the
/// engine relies on first-match lookup and does not itself enforce
/// global uniqueness), a dispute of it by a known client retires the id
/// from the journal whether or not the dispute is accepted.
pub proof fn lemma_dispute_retires_tx(
    cs: Seq<Client>,
    jn: Seq<Transaction>,
    rg: Seq<Transaction>,
    cid: u16,
    tid: u32,
)
    requires
        spec_find_client(cs, cid) >= 0,
        forall|k1: int, k2: int|
            (0 <= k1 < jn.len() && 0 <= k2 < jn.len() && spec_same_tx_id(
                #[trigger] jn[k1],
                tid,
            ) && spec_same_tx_id(#[trigger] jn[k2], tid)) ==> k1 == k2,
    ensures
        forall|k: int|
            0 <= k < spec_step(cs, jn, rg, Transaction::Dispute(cid, tid)).1.len()
                ==> !spec_same_tx_id(
                #[trigger] spec_step(cs, jn, rg, Transaction::Dispute(cid, tid)).1[k],
                tid,
            ),
{
    let jn2 = spec_step(cs, jn, rg, Transaction::Dispute(cid, tid)).1;
    let j = spec_find_operation(jn, tid);
    lemma_find_tx_props(jn, tid, 0);
    if j < 0 {
        assert(jn2 == jn);
    } else {
        assert(jn2 == jn.remove(j));
        assert forall|k: int| 0 <= k < jn2.len() implies !spec_same_tx_id(
            #[trigger] jn2[k],
            tid,
        ) by {
            if k < j {
                assert(jn2[k] == jn[k]);
            } else {
                assert(jn2[k] == jn[k + 1]);
            }
        }
    }
}

/// Resolve and chargeback only ever mutate state for a transaction id
/// present in the dispute registry: referencing an absent id leaves the
/// whole state unchanged.
pub proof fn lemma_settle_absent_is_noop(
    cs: Seq<Client>,
    jn: Seq<Transaction>,
    rg: Seq<Transaction>,
    t: Transaction,
)
    requires
        t is Resolve || t is Chargeback,
        spec_find_operation(rg, if t is Resolve {
            t->Resolve_1
        } else {
            t->Chargeback_1
        }) == -1,
    ensures
        spec_step(cs, jn, rg, t).0 == cs,
        spec_step(cs, jn, rg, t).1 == jn,
        spec_step(cs, jn, rg, t).2 == rg,
{
}

/// How one step relates each client record to its predecessor: records
/// are never removed, identifiers never change, a created record starts
/// unlocked, and the lock flag of an existing record changes only when a
/// chargeback sets it.
proof fn lemma_step_pointwise(
    cs: Seq<Client>,
    jn: Seq<Transaction>,
    rg: Seq<Transaction>,
    t: Transaction,
)
    ensures
        spec_step(cs, jn, rg, t).0.len() >= cs.len(),
        forall|m: int|
            0 <= m < cs.len() ==> (#[trigger] spec_step(cs, jn, rg, t).0[m]).id == cs[m].id,
        forall|m: int|
            0 <= m < cs.len() ==> ((#[trigger] spec_step(cs, jn, rg, t).0[m]).locked == cs[
                m
            ].locked || (t is Chargeback && spec_step(cs, jn, rg, t).0[m].locked)),
        forall|m: int|
            cs.len() <= m < spec_step(cs, jn, rg, t).0.len() ==> !(#[trigger] spec_step(
                cs,
                jn,
                rg,
                t,
            ).0[m]).locked,
{
    let cs2 = spec_step(cs, jn, rg, t).0;
    match t {
        Transaction::Deposit(cid, tid, a) => {
            let i = spec_find_client(cs, cid);
            crate::engine::lemma_find_client_props(cs, cid, 0);
            if i < 0 {
                assert forall|m: int|
                    0 <= m < cs.len() implies (#[trigger] cs2[m]).id == cs[m].id && cs2[
                    m
                ].locked == cs[m].locked by {
                    assert(cs2[m] == cs[m]);
                }
            } else if !cs[i].locked && cs[i].total + a <= u64::MAX {
                assert forall|m: int|
                    0 <= m < cs.len() implies (#[trigger] cs2[m]).id == cs[m].id && cs2[
                    m
                ].locked == cs[m].locked by {
                    if m != i {
                        assert(cs2[m] == cs[m]);
                    }
                }
            }
        },
        Transaction::Withdrawal(cid, tid, a) => {
            let i = spec_find_client(cs, cid);
            crate::engine::lemma_find_client_props(cs, cid, 0);
            if i >= 0 && !cs[i].locked && cs[i].available >= a {
                assert forall|m: int|
                    0 <= m < cs.len() implies (#[trigger] cs2[m]).id == cs[m].id && cs2[
                    m
                ].locked == cs[m].locked by {
                    if m != i {
                        assert(cs2[m] == cs[m]);
                    }
                }
            }
        },
        Transaction::Dispute(cid, tid) => {
            let i = spec_find_client(cs, cid);
            crate::engine::lemma_find_client_props(cs, cid, 0);
            let j = spec_find_operation(jn, tid);
            lemma_find_tx_props(jn, tid, 0);
            if i >= 0 && j >= 0 {
                let r = crate::engine::spec_apply_dispute(cs[i], jn[j]);
                assert(r.0.id == cs[i].id && r.0.locked == cs[i].locked) by {
                    match jn[j] {
                        Transaction::Deposit(ecid, etid, ea) => {},
                        Transaction::Withdrawal(ecid, etid, ea) => {},
                        _ => {},
                    }
                }
                if r.1 {
                    assert forall|m: int|
                        0 <= m < cs.len() implies (#[trigger] cs2[m]).id == cs[m].id
                            && cs2[m].locked == cs[m].locked by {
                        if m != i {
                            assert(cs2[m] == cs[m]);
                        }
                    }
                }
            }
        },
        Transaction::Resolve(cid, tid) => {
            let i = spec_find_client(cs, cid);
            crate::engine::lemma_find_client_props(cs, cid, 0);
            let j = spec_find_operation(rg, tid);
            lemma_find_tx_props(rg, tid, 0);
            if i >= 0 && j >= 0 {
                let r = crate::engine::spec_apply_resolve(cs[i], rg[j]);
                assert(r.0.id == cs[i].id && r.0.locked == cs[i].locked) by {
                    match rg[j] {
                        Transaction::Deposit(ecid, etid, ea) => {},
                        Transaction::Withdrawal(ecid, etid, ea) => {},
                        _ => {},
                    }
                }
                if r.1 {
                    assert forall|m: int|
                        0 <= m < cs.len() implies (#[trigger] cs2[m]).id == cs[m].id
                            && cs2[m].locked == cs[m].locked by {
                        if m != i {
                            assert(cs2[m] == cs[m]);
                        }
                    }
                }
            }
        },
        Transaction::Chargeback(cid, tid) => {
            let i = spec_find_client(cs, cid);
            crate::engine::lemma_find_client_props(cs, cid, 0);
            let j = spec_find_operation(rg, tid);
            lemma_find_tx_props(rg, tid, 0);
            if i >= 0 && j >= 0 {
                let r = crate::engine::spec_apply_chargeback(cs[i], rg[j]);
                assert(r.0.id == cs[i].id && (r.1 ==> r.0.locked)) by {
                    match rg[j] {
                        Transaction::Deposit(ecid, etid, ea) => {},
                        Transaction::Withdrawal(ecid, etid, ea) => {},
                        _ => {},
                    }
                }
                if r.1 {
                    assert forall|m: int|
                        0 <= m < cs.len() implies (#[trigger] cs2[m]).id == cs[m].id && (
                        cs2[m].locked == cs[m].locked || cs2[m].locked) by {
                        if m != i {
                            assert(cs2[m] == cs[m]);
                        }
                    }
                }
            }
        },
    }
}

/// Chargeback is the only operation that sets `locked`: any other
/// operation leaves every existing client's flag as it was, and a client
/// record it creates starts unlocked.
pub proof fn lemma_only_chargeback_locks(
    cs: Seq<Client>,
    jn: Seq<Transaction>,
    rg: Seq<Transaction>,
    t: Transaction,
)
    requires
        !(t is Chargeback),
    ensures
        spec_step(cs, jn, rg, t).0.len() >= cs.len(),
        forall|m: int|
            0 <= m < cs.len() ==> (#[trigger] spec_step(cs, jn, rg, t).0[m]).locked == cs[
                m
            ].locked,
        forall|m: int|
            cs.len() <= m < spec_step(cs, jn, rg, t).0.len() ==> !(#[trigger] spec_step(
                cs,
                jn,
                rg,
                t,
            ).0[m]).locked,
{
    lemma_step_pointwise(cs, jn, rg, t);
}

/// An account never unlocks: whatever the operation, a locked client
/// stays locked.
pub proof fn lemma_locked_is_permanent(
    cs: Seq<Client>,
    jn: Seq<Transaction>,
    rg: Seq<Transaction>,
    t: Transaction,
)
    ensures
        spec_step(cs, jn, rg, t).0.len() >= cs.len(),
        forall|m: int|
            0 <= m < cs.len() && cs[m].locked ==> (#[trigger] spec_step(
                cs,
                jn,
                rg,
                t,
            ).0[m]).locked,
{
    lemma_step_pointwise(cs, jn, rg, t);
}

/// Once a client is locked, every further operation referencing it is
/// rejected and leaves every balance unchanged: the ledger after the step
/// is exactly the ledger before it.
pub proof fn lemma_locked_client_rejected(
    cs: Seq<Client>,
    jn: Seq<Transaction>,
    rg: Seq<Transaction>,
    t: Transaction,
    i: int,
)
    requires
        clients_wf(cs),
        0 <= i < cs.len(),
        cs[i].locked,
        tx_client(t) == cs[i].id,
    ensures
        spec_step(cs, jn, rg, t).0 == cs,
{
    lemma_find_client_unique(cs, i);
}

/// No two entries of `s` are journaled under the same transaction id.
pub open spec fn tx_ids_unique(s: Seq<Transaction>) -> bool {
    forall|k1: int, k2: int, tid: u32|
        (0 <= k1 < k2 < s.len() && #[trigger] spec_same_tx_id(s[k1], tid))
            ==> !(#[trigger] spec_same_tx_id(s[k2], tid))
}

/// Uniqueness of transaction ids carries over to a collection whose
/// entries are drawn, each from a distinct position, out of a collection
/// that has it.
proof fn lemma_tx_ids_unique_embed(
    s: Seq<Transaction>,
    s2: Seq<Transaction>,
    f: spec_fn(int) -> int,
)
    requires
        tx_ids_unique(s),
        forall|k: int| 0 <= k < s2.len() ==> 0 <= #[trigger] f(k) < s.len() && s2[k] == s[f(k)],
        forall|k1: int, k2: int|
            #![trigger f(k1), f(k2)]
            0 <= k1 < k2 < s2.len() ==> f(k1) != f(k2),
    ensures
        tx_ids_unique(s2),
{
    assert forall|k1: int, k2: int, tid: u32|
        (0 <= k1 < k2 < s2.len() && #[trigger] spec_same_tx_id(s2[k1], tid)) implies !(
    #[trigger] spec_same_tx_id(s2[k2], tid)) by {
        let m1 = f(k1);
        let m2 = f(k2);
        assert(spec_same_tx_id(s[m1], tid));
        if spec_same_tx_id(s2[k2], tid) {
            assert(spec_same_tx_id(s[m2], tid));
            if m1 < m2 {
                assert(!spec_same_tx_id(s[m2], tid));
            } else {
                assert(!spec_same_tx_id(s[m1], tid));
            }
        }
    }
}

/// A transaction id appears in at most one of journal and registry, and
/// there at most once: provided the log's deposit and withdrawal ids are
/// unique — which a well-formed log guarantees and the engine itself does
/// not enforce — every step preserves that the journal and the registry
/// together hold at most one entry per id. The incoming operation's own
/// id must be fresh when it is a deposit or a withdrawal; a
/// dispute-family operation carries no id of its own.
pub proof fn lemma_step_keeps_tx_ids_unique(
    cs: Seq<Client>,
    jn: Seq<Transaction>,
    rg: Seq<Transaction>,
    t: Transaction,
)
    requires
        tx_ids_unique(jn + rg),
        forall|k: int, tid: u32|
            (0 <= k < (jn + rg).len() && spec_same_tx_id(t, tid)) ==> !(
            #[trigger] spec_same_tx_id((jn + rg)[k], tid)),
    ensures
        tx_ids_unique(spec_step(cs, jn, rg, t).1 + spec_step(cs, jn, rg, t).2),
{
    let s = jn + rg;
    let jn2 = spec_step(cs, jn, rg, t).1;
    let rg2 = spec_step(cs, jn, rg, t).2;
    let s2 = jn2 + rg2;
    let jl = jn.len() as int;
    match t {
        Transaction::Deposit(cid, tid0, a) => {
            let i = spec_find_client(cs, cid);
            if i < 0 || (!cs[i].locked && cs[i].total + a <= u64::MAX) {
                lemma_append_fresh_unique(s, t);
                let f = (|k: int|
                    if k < jl {
                        k
                    } else if k == jl {
                        s.len() as int
                    } else {
                        k - 1
                    });
                assert forall|k: int| 0 <= k < s2.len() implies 0 <= #[trigger] f(k)
                    < s.push(t).len() && s2[k] == s.push(t)[f(k)] by {
                    if k < jl {
                        assert(s2[k] == jn[k]);
                        assert(s.push(t)[k] == jn[k]);
                    } else if k == jl {
                        assert(s2[k] == t);
                    } else {
                        assert(s2[k] == rg[k - jl - 1]);
                        assert(s.push(t)[k - 1] == rg[k - 1 - jl]);
                    }
                }
                lemma_tx_ids_unique_embed(s.push(t), s2, f);
            } else {
                assert(s2 == s);
            }
        },
        Transaction::Withdrawal(cid, tid0, a) => {
            let i = spec_find_client(cs, cid);
            if i >= 0 && !cs[i].locked && cs[i].available >= a {
                lemma_append_fresh_unique(s, t);
                let f = (|k: int|
                    if k < jl {
                        k
                    } else if k == jl {
                        s.len() as int
                    } else {
                        k - 1
                    });
                assert forall|k: int| 0 <= k < s2.len() implies 0 <= #[trigger] f(k)
                    < s.push(t).len() && s2[k] == s.push(t)[f(k)] by {
                    if k < jl {
                        assert(s2[k] == jn[k]);
                        assert(s.push(t)[k] == jn[k]);
                    } else if k == jl {
                        assert(s2[k] == t);
                    } else {
                        assert(s2[k] == rg[k - jl - 1]);
                        assert(s.push(t)[k - 1] == rg[k - 1 - jl]);
                    }
                }
                lemma_tx_ids_unique_embed(s.push(t), s2, f);
            } else {
                assert(s2 == s);
            }
        },
        Transaction::Dispute(cid, tid) => {
            let i = spec_find_client(cs, cid);
            crate::engine::lemma_find_client_props(cs, cid, 0);
            let j = spec_find_operation(jn, tid);
            lemma_find_tx_props(jn, tid, 0);
            if i >= 0 && j >= 0 {
                let e = jn[j];
                let r = crate::engine::spec_apply_dispute(cs[i], e);
                if r.1 {
                    // The entry moves from the journal to the registry.
                    let last = s.len() as int - 1;
                    let f = (|k: int|
                        if k < j {
                            k
                        } else if k < last {
                            k + 1
                        } else {
                            j
                        });
                    assert forall|k: int| 0 <= k < s2.len() implies 0 <= #[trigger] f(k)
                        < s.len() && s2[k] == s[f(k)] by {
                        if k < j {
                            assert(s2[k] == jn.remove(j)[k]);
                            assert(jn.remove(j)[k] == jn[k]);
                        } else if k < jl - 1 {
                            assert(s2[k] == jn.remove(j)[k]);
                            assert(jn.remove(j)[k] == jn[k + 1]);
                            assert(s[k + 1] == jn[k + 1]);
                        } else if k < last {
                            assert(s2[k] == rg.push(e)[k - (jl - 1)]);
                            assert(rg.push(e)[k - (jl - 1)] == rg[k - jl + 1]);
                            assert(s[k + 1] == rg[k + 1 - jl]);
                        } else {
                            assert(s2[k] == rg.push(e)[rg.len() as int]);
                            assert(rg.push(e)[rg.len() as int] == e);
                            assert(s[j] == jn[j]);
                        }
                    }
                    assert forall|k1: int, k2: int|
                        #![trigger f(k1), f(k2)]
                        0 <= k1 < k2 < s2.len() implies f(k1) != f(k2) by {}
                    lemma_tx_ids_unique_embed(s, s2, f);
                } else {
                    // The entry is retired without entering the registry.
                    let f = (|k: int|
                        if k < j {
                            k
                        } else {
                            k + 1
                        });
                    assert forall|k: int| 0 <= k < s2.len() implies 0 <= #[trigger] f(k)
                        < s.len() && s2[k] == s[f(k)] by {
                        if k < j {
                            assert(s2[k] == jn.remove(j)[k]);
                            assert(jn.remove(j)[k] == jn[k]);
                        } else if k < jl - 1 {
                            assert(s2[k] == jn.remove(j)[k]);
                            assert(jn.remove(j)[k] == jn[k + 1]);
                            assert(s[k + 1] == jn[k + 1]);
                        } else {
                            assert(s2[k] == rg[k - (jl - 1)]);
                            assert(s[k + 1] == rg[k + 1 - jl]);
                        }
                    }
                    lemma_tx_ids_unique_embed(s, s2, f);
                }
            } else {
                assert(s2 == s);
            }
        },
        Transaction::Resolve(cid, tid) => {
            lemma_settle_keeps_tx_ids_unique(cs, jn, rg, t);
        },
        Transaction::Chargeback(cid, tid) => {
            lemma_settle_keeps_tx_ids_unique(cs, jn, rg, t);
        },
    }
}

/// Appending an entry whose transaction id is fresh keeps the ids unique.
proof fn lemma_append_fresh_unique(s: Seq<Transaction>, t: Transaction)
    requires
        tx_ids_unique(s),
        forall|k: int, tid: u32|
            (0 <= k < s.len() && spec_same_tx_id(t, tid)) ==> !(#[trigger] spec_same_tx_id(
                s[k],
                tid,
            )),
    ensures
        tx_ids_unique(s.push(t)),
{
    assert forall|k1: int, k2: int, tid: u32|
        (0 <= k1 < k2 < s.push(t).len() && #[trigger] spec_same_tx_id(s.push(t)[k1], tid))
        implies !(#[trigger] spec_same_tx_id(s.push(t)[k2], tid)) by {
        if k2 == s.len() {
            assert(s.push(t)[k1] == s[k1]);
            assert(s.push(t)[k2] == t);
        } else {
            assert(s.push(t)[k1] == s[k1]);
            assert(s.push(t)[k2] == s[k2]);
        }
    }
}

/// Transaction-id uniqueness for the two settlement operations, which at
/// most remove one registry entry.
proof fn lemma_settle_keeps_tx_ids_unique(
    cs: Seq<Client>,
    jn: Seq<Transaction>,
    rg: Seq<Transaction>,
    t: Transaction,
)
    requires
        t is Resolve || t is Chargeback,
        tx_ids_unique(jn + rg),
    ensures
        tx_ids_unique(spec_step(cs, jn, rg, t).1 + spec_step(cs, jn, rg, t).2),
{
    let s = jn + rg;
    let jn2 = spec_step(cs, jn, rg, t).1;
    let rg2 = spec_step(cs, jn, rg, t).2;
    let s2 = jn2 + rg2;
    let jl = jn.len() as int;
    let cid = tx_client(t);
    let tid = if t is Resolve {
        t->Resolve_1
    } else {
        t->Chargeback_1
    };
    let i = spec_find_client(cs, cid);
    crate::engine::lemma_find_client_props(cs, cid, 0);
    let j = spec_find_operation(rg, tid);
    lemma_find_tx_props(rg, tid, 0);
    if i >= 0 && j >= 0 {
        let r = if t is Resolve {
            crate::engine::spec_apply_resolve(cs[i], rg[j])
        } else {
            crate::engine::spec_apply_chargeback(cs[i], rg[j])
        };
        if r.1 {
            let f = (|k: int|
                if k < jl + j {
                    k
                } else {
                    k + 1
                });
            assert forall|k: int| 0 <= k < s2.len() implies 0 <= #[trigger] f(k) < s.len()
                && s2[k] == s[f(k)] by {
                if k < jl {
                    assert(s2[k] == jn[k]);
                } else if k < jl + j {
                    assert(s2[k] == rg.remove(j)[k - jl]);
                    assert(rg.remove(j)[k - jl] == rg[k - jl]);
                    assert(s[k] == rg[k - jl]);
                } else {
                    assert(s2[k] == rg.remove(j)[k - jl]);
                    assert(rg.remove(j)[k - jl] == rg[k - jl + 1]);
                    assert(s[k + 1] == rg[k + 1 - jl]);
                }
            }
            lemma_tx_ids_unique_embed(s, s2, f);
        } else {
            assert(s2 == s);
        }
    } else {
        assert(s2 == s);
    }
}

/// Rejection is idempotent: replaying an operation that left the state
/// unchanged against that same state yields the same rejection, since a
/// step is a function of the state and the operation alone.
pub proof fn lemma_rejection_idempotent(
    cs: Seq<Client>,
    jn: Seq<Transaction>,
    rg: Seq<Transaction>,
    t: Transaction,
)
    requires
        spec_step(cs, jn, rg, t).0 == cs,
        spec_step(cs, jn, rg, t).1 == jn,
        spec_step(cs, jn, rg, t).2 == rg,
    ensures
        spec_step(
            spec_step(cs, jn, rg, t).0,
            spec_step(cs, jn, rg, t).1,
            spec_step(cs, jn, rg, t).2,
            t,
        ) == spec_step(cs, jn, rg, t),
{
}

} // verus!
