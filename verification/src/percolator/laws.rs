//! What the protocol promises across calls.
use vstd::prelude::*;
use super::oracle::next_timestamp;
use super::storage::{
    cleaned_up, commit_refused, expired, get_outcome, locked_before, prewrite_conflict, prewritten, roll_forward,
    snapshot_value,
};
use super::table::{
    commit_of, in_range, is_latest, latest, lemma_latest_is, lemma_latest_some, TableView, ValueView,
};

verus! {

/// Timestamps come out of the oracle in strictly increasing order, whatever
/// the clock reads.
pub proof fn law_timestamps_increase(last: u64, now1: u64, now2: u64)
    requires
        next_timestamp(last, now1) is Some,
        next_timestamp(next_timestamp(last, now1)->0, now2) is Some,
    ensures
        last < next_timestamp(last, now1)->0,
        next_timestamp(last, now1)->0 < next_timestamp(next_timestamp(last, now1)->0, now2)->0,
{
}

/// A transaction that prewrote `value` on `key` without conflict and then
/// committed at `commit_ts` is seen by every later read: a read at or after
/// the commit timestamp is not blocked and gives back `value`.
pub proof fn law_committed_write_visible(
    t: TableView,
    start_ts: u64,
    commit_ts: u64,
    read_ts: u64,
    primary: Seq<u8>,
    key: Seq<u8>,
    value: Seq<u8>,
    now: u64,
)
    requires
        !prewrite_conflict(t, start_ts, key),
        start_ts <= commit_ts <= read_ts,
    ensures
        ({
            let done = roll_forward(prewritten(t, start_ts, primary, key, value), key, start_ts, commit_ts);
            get_outcome(done, read_ts, key, now) == (done, Some(value))
        }),
{
    let done = roll_forward(prewritten(t, start_ts, primary, key, value), key, start_ts, commit_ts);
    assert(!locked_before(done, key, read_ts)) by {
        if locked_before(done, key, read_ts) {
            let l = choose|l: u64| l <= read_ts && done.lock.contains_key((key, l));
            assert(t.lock.contains_key((key, l)));
        }
    }
    assert(is_latest(done.write, key, None, Some(read_ts), commit_ts)) by {
        assert forall|u: u64| #[trigger]
            super::table::in_range(u, None, Some(read_ts)) && done.write.contains_key((key, u)) implies u
            <= commit_ts by {
            if u != commit_ts {
                assert(t.write.contains_key((key, u)));
            }
        }
    }
    lemma_latest_is(done.write, key, None, Some(read_ts), commit_ts);
    assert(snapshot_value(done, key, read_ts) == value);
}

/// A read whose snapshot predates a transaction's start does not see that
/// transaction, before or after it commits: it reads what it read before.
/// This holds of a table whose commit records on `key` point at start
/// timestamps no later than themselves, as the protocol writes them.
pub proof fn law_earlier_snapshot_unaffected(
    t: TableView,
    start_ts: u64,
    commit_ts: u64,
    read_ts: u64,
    primary: Seq<u8>,
    key: Seq<u8>,
    value: Seq<u8>,
    now: u64,
)
    requires
        !prewrite_conflict(t, start_ts, key),
        read_ts < start_ts <= commit_ts,
        forall|c: u64|
            #[trigger] t.write.contains_key((key, c)) ==> (t.write[(key, c)] matches ValueView::Timestamp(s)
                && s <= c),
    ensures
        ({
            let done = roll_forward(prewritten(t, start_ts, primary, key, value), key, start_ts, commit_ts);
            get_outcome(done, read_ts, key, now) == (done, Some(snapshot_value(t, key, read_ts)))
        }),
{
    let done = roll_forward(prewritten(t, start_ts, primary, key, value), key, start_ts, commit_ts);
    assert(!locked_before(done, key, read_ts)) by {
        if locked_before(done, key, read_ts) {
            let l = choose|l: u64| l <= read_ts && done.lock.contains_key((key, l));
            assert(t.lock.contains_key((key, l)));
        }
    }
    assert(!locked_before(t, key, read_ts));
    match latest(t.write, key, None, Some(read_ts)) {
        Some(c) => {
            lemma_latest_some(t.write, key, None, Some(read_ts));
            assert(is_latest(done.write, key, None, Some(read_ts), c)) by {
                assert forall|u: u64| #[trigger]
                    super::table::in_range(u, None, Some(read_ts)) && done.write.contains_key((key, u))
                    implies u <= c by {
                    assert(u != commit_ts);
                    assert(t.write.contains_key((key, u)));
                }
            }
            lemma_latest_is(done.write, key, None, Some(read_ts), c);
            assert(done.write[(key, c)] == t.write[(key, c)]);
        },
        None => {
            if latest(done.write, key, None, Some(read_ts)) is Some {
                let c = latest(done.write, key, None, Some(read_ts))->0;
                lemma_latest_some(done.write, key, None, Some(read_ts));
                assert(c != commit_ts);
                assert(is_latest(t.write, key, None, Some(read_ts), c)) by {
                    assert forall|u: u64| #[trigger]
                        super::table::in_range(u, None, Some(read_ts)) && t.write.contains_key((key, u))
                        implies u <= c by {
                        assert(done.write.contains_key((key, u)));
                    }
                }
            }
        },
    }
}

/// A reader that meets the expired lock of a secondary key whose primary
/// has committed finishes the commit for it: the first read cleans up and
/// reads nothing, the next one sees the value the transaction wrote, as if
/// the secondary had been committed with the primary.
pub proof fn law_secondary_rolled_forward(
    t: TableView,
    start_ts: u64,
    commit_ts: u64,
    read_ts: u64,
    primary: Seq<u8>,
    key: Seq<u8>,
    value: Seq<u8>,
    now: u64,
)
    requires
        primary != key,
        start_ts <= commit_ts <= read_ts,
        expired(start_ts, now),
        t.lock.contains_key((key, start_ts)),
        t.lock[(key, start_ts)] == ValueView::Vector(primary),
        forall|l: u64| #[trigger] t.lock.contains_key((key, l)) ==> l == start_ts,
        !t.lock.contains_key((primary, start_ts)),
        commit_of(t.write, primary, start_ts) == Some(commit_ts),
        t.data.contains_key((key, start_ts)),
        t.data[(key, start_ts)] == ValueView::Vector(value),
        forall|w: u64| #[trigger] t.write.contains_key((key, w)) ==> w < start_ts,
    ensures
        ({
            let t1 = roll_forward(t, key, start_ts, commit_ts);
            &&& get_outcome(t, read_ts, key, now) == (t1, None::<Seq<u8>>)
            &&& get_outcome(t1, read_ts, key, now) == (t1, Some(value))
        }),
{
    let t1 = roll_forward(t, key, start_ts, commit_ts);
    assert(locked_before(t, key, read_ts));
    assert(is_latest(t.lock, key, None, Some(read_ts), start_ts)) by {
        assert(in_range(start_ts, None, Some(read_ts)));
    }
    lemma_latest_is(t.lock, key, None, Some(read_ts), start_ts);
    assert(cleaned_up(t, read_ts, key, now) == t1);
    assert(!locked_before(t1, key, read_ts)) by {
        if locked_before(t1, key, read_ts) {
            let l = choose|l: u64| l <= read_ts && t1.lock.contains_key((key, l));
            assert(t.lock.contains_key((key, l)));
        }
    }
    assert(is_latest(t1.write, key, None, Some(read_ts), commit_ts)) by {
        assert forall|u: u64| #[trigger]
            in_range(u, None, Some(read_ts)) && t1.write.contains_key((key, u)) implies u <= commit_ts by {
            if u != commit_ts {
                assert(t.write.contains_key((key, u)));
            }
        }
    }
    lemma_latest_is(t1.write, key, None, Some(read_ts), commit_ts);
    assert(snapshot_value(t1, key, read_ts) == value);
}

/// A reader that meets the expired lock of a transaction whose primary is
/// still locked rolls the transaction back, and the primary's commit is
/// refused afterwards: the transaction cannot commit on some keys only.
pub proof fn law_rolled_back_transaction_cannot_commit(
    t: TableView,
    start_ts: u64,
    read_ts: u64,
    primary: Seq<u8>,
    key: Seq<u8>,
    now: u64,
)
    requires
        start_ts <= read_ts,
        expired(start_ts, now),
        t.lock.contains_key((key, start_ts)),
        t.lock[(key, start_ts)] == ValueView::Vector(primary),
        forall|l: u64| #[trigger] t.lock.contains_key((key, l)) ==> l == start_ts,
        t.lock.contains_key((primary, start_ts)),
    ensures
        commit_refused(get_outcome(t, read_ts, key, now).0, true, start_ts, primary),
        !get_outcome(t, read_ts, key, now).0.lock.contains_key((key, start_ts)),
{
    assert(locked_before(t, key, read_ts));
    assert(is_latest(t.lock, key, None, Some(read_ts), start_ts)) by {
        assert(in_range(start_ts, None, Some(read_ts)));
    }
    lemma_latest_is(t.lock, key, None, Some(read_ts), start_ts);
}

/// The table after the prewrites of the writes `ws` of the transaction
/// started at `start_ts`, in order; a refused prewrite leaves it as it was.
pub open spec fn prewrite_all(
    t: TableView,
    start_ts: u64,
    primary: Seq<u8>,
    ws: Seq<(Seq<u8>, Seq<u8>)>,
) -> TableView
    decreases ws.len(),
{
    if ws.len() == 0 {
        t
    } else {
        let t1 = prewrite_all(t, start_ts, primary, ws.drop_last());
        if prewrite_conflict(t1, start_ts, ws.last().0) {
            t1
        } else {
            prewritten(t1, start_ts, primary, ws.last().0, ws.last().1)
        }
    }
}

/// Every prewrite of `ws`, in order, took its lock.
pub open spec fn prewrites_ok(
    t: TableView,
    start_ts: u64,
    primary: Seq<u8>,
    ws: Seq<(Seq<u8>, Seq<u8>)>,
) -> bool
    decreases ws.len(),
{
    ws.len() == 0 || (prewrites_ok(t, start_ts, primary, ws.drop_last()) && !prewrite_conflict(
        prewrite_all(t, start_ts, primary, ws.drop_last()),
        start_ts,
        ws.last().0,
    ))
}

/// The table after committing the keys `ks`, in order, at `commit_ts`.
pub open spec fn commit_all(t: TableView, start_ts: u64, commit_ts: u64, ks: Seq<Seq<u8>>) -> TableView
    decreases ks.len(),
{
    if ks.len() == 0 {
        t
    } else {
        roll_forward(commit_all(t, start_ts, commit_ts, ks.drop_last()), ks.last(), start_ts, commit_ts)
    }
}

/// The keys of writes, in order.
pub open spec fn write_keys(ws: Seq<(Seq<u8>, Seq<u8>)>) -> Seq<Seq<u8>> {
    ws.map_values(|w: (Seq<u8>, Seq<u8>)| w.0)
}

proof fn lemma_prewrite_all(t: TableView, start_ts: u64, primary: Seq<u8>, ws: Seq<(Seq<u8>, Seq<u8>)>)
    requires
        forall|i: int, j: int| 0 <= i < ws.len() && 0 <= j < ws.len() && i != j ==> (#[trigger] ws[i]).0 != (
        #[trigger] ws[j]).0,
        forall|i: int| 0 <= i < ws.len() ==> !prewrite_conflict(t, start_ts, (#[trigger] ws[i]).0),
    ensures
        prewrites_ok(t, start_ts, primary, ws),
        prewrite_all(t, start_ts, primary, ws).write == t.write,
        forall|i: int|
            0 <= i < ws.len() ==> {
                &&& prewrite_all(t, start_ts, primary, ws).lock.contains_key(((#[trigger] ws[i]).0, start_ts))
                &&& prewrite_all(t, start_ts, primary, ws).lock[(ws[i].0, start_ts)] == ValueView::Vector(
                    primary,
                )
                &&& prewrite_all(t, start_ts, primary, ws).data.contains_key((ws[i].0, start_ts))
                &&& prewrite_all(t, start_ts, primary, ws).data[(ws[i].0, start_ts)] == ValueView::Vector(
                    ws[i].1,
                )
            },
        forall|k: Seq<u8>, l: u64|
            #[trigger] prewrite_all(t, start_ts, primary, ws).lock.contains_key((k, l)) ==> t.lock.contains_key(
                (k, l),
            ) || (l == start_ts && exists|i: int| 0 <= i < ws.len() && (#[trigger] ws[i]).0 == k),
    decreases ws.len(),
{
    if ws.len() > 0 {
        let pre = ws.drop_last();
        let n = ws.len() - 1;
        assert forall|i: int, j: int| 0 <= i < pre.len() && 0 <= j < pre.len() && i != j implies (
        #[trigger] pre[i]).0 != (#[trigger] pre[j]).0 by {
            assert(pre[i] == ws[i] && pre[j] == ws[j]);
        }
        assert forall|i: int| 0 <= i < pre.len() implies !prewrite_conflict(t, start_ts, (#[trigger] pre[i]).0) by {
            assert(pre[i] == ws[i]);
        }
        lemma_prewrite_all(t, start_ts, primary, pre);
        let t1 = prewrite_all(t, start_ts, primary, pre);
        let k = ws[n].0;
        assert(!prewrite_conflict(t, start_ts, k));
        assert(!prewrite_conflict(t1, start_ts, k)) by {
            if exists|l: u64| t1.lock.contains_key((k, l)) {
                let l = choose|l: u64| t1.lock.contains_key((k, l));
                assert(t1.lock.contains_key((k, l)));
                if !t.lock.contains_key((k, l)) {
                    let i = choose|i: int| 0 <= i < pre.len() && (#[trigger] pre[i]).0 == k;
                    assert(pre[i] == ws[i]);
                    assert(ws[i].0 != ws[n].0);
                }
            }
        }
        let t2 = prewrite_all(t, start_ts, primary, ws);
        assert(t2 == prewritten(t1, start_ts, primary, k, ws[n].1));
        assert forall|i: int| 0 <= i < ws.len() implies {
            &&& t2.lock.contains_key(((#[trigger] ws[i]).0, start_ts))
            &&& t2.lock[(ws[i].0, start_ts)] == ValueView::Vector(primary)
            &&& t2.data.contains_key((ws[i].0, start_ts))
            &&& t2.data[(ws[i].0, start_ts)] == ValueView::Vector(ws[i].1)
        } by {
            if i < n {
                assert(pre[i] == ws[i]);
                assert(ws[i].0 != k);
            }
        }
        assert forall|kk: Seq<u8>, l: u64| #[trigger] t2.lock.contains_key((kk, l)) implies t.lock.contains_key(
            (kk, l),
        ) || (l == start_ts && exists|i: int| 0 <= i < ws.len() && (#[trigger] ws[i]).0 == kk) by {
            if (kk, l) != (k, start_ts) {
                assert(t1.lock.contains_key((kk, l)));
                if !t.lock.contains_key((kk, l)) {
                    let i = choose|i: int| 0 <= i < pre.len() && (#[trigger] pre[i]).0 == kk;
                    assert(pre[i] == ws[i]);
                }
            } else {
                assert(ws[n].0 == kk);
            }
        }
    }
}

proof fn lemma_commit_all(t: TableView, start_ts: u64, commit_ts: u64, ks: Seq<Seq<u8>>)
    ensures
        commit_all(t, start_ts, commit_ts, ks).data == t.data,
        forall|i: int|
            0 <= i < ks.len() ==> commit_all(t, start_ts, commit_ts, ks).write.contains_key(((#[trigger] ks[i]), commit_ts))
                && commit_all(t, start_ts, commit_ts, ks).write[(ks[i], commit_ts)] == ValueView::Timestamp(
                start_ts,
            ),
        forall|k: Seq<u8>, c: u64|
            #[trigger] commit_all(t, start_ts, commit_ts, ks).write.contains_key((k, c)) ==> t.write.contains_key(
                (k, c),
            ) || c == commit_ts,
        forall|k: Seq<u8>, l: u64|
            #[trigger] commit_all(t, start_ts, commit_ts, ks).lock.contains_key((k, l)) ==> t.lock.contains_key(
                (k, l),
            ),
        forall|i: int, l: u64|
            0 <= i < ks.len() && #[trigger] commit_all(t, start_ts, commit_ts, ks).lock.contains_key((ks[i], l))
                ==> l != start_ts,
    decreases ks.len(),
{
    if ks.len() > 0 {
        let pre = ks.drop_last();
        let n = ks.len() - 1;
        lemma_commit_all(t, start_ts, commit_ts, pre);
        let t1 = commit_all(t, start_ts, commit_ts, pre);
        let t2 = commit_all(t, start_ts, commit_ts, ks);
        assert(t2 == roll_forward(t1, ks[n], start_ts, commit_ts));
        assert forall|i: int| 0 <= i < ks.len() implies t2.write.contains_key(((#[trigger] ks[i]), commit_ts))
            && t2.write[(ks[i], commit_ts)] == ValueView::Timestamp(start_ts) by {
            if i < n {
                assert(pre[i] == ks[i]);
            }
        }
        assert forall|i: int, l: u64| 0 <= i < ks.len() && #[trigger] t2.lock.contains_key((ks[i], l)) implies l
            != start_ts by {
            if i < n {
                assert(pre[i] == ks[i]);
            }
        }
    }
}

/// A transaction commits atomically. Its writes `ws` go to distinct keys
/// that hold no lock and no write committed at or after its start. Then
/// every prewrite takes its lock, the commit of the primary, the first key,
/// goes through, and once all its keys are committed at `commit_ts`, a read
/// of any of them at or after `commit_ts` is not blocked and sees the value
/// the transaction wrote.
pub proof fn law_transaction_commits_atomically(
    t: TableView,
    start_ts: u64,
    commit_ts: u64,
    read_ts: u64,
    ws: Seq<(Seq<u8>, Seq<u8>)>,
    now: u64,
)
    requires
        ws.len() > 0,
        start_ts <= commit_ts <= read_ts,
        forall|i: int, j: int| 0 <= i < ws.len() && 0 <= j < ws.len() && i != j ==> (#[trigger] ws[i]).0 != (
        #[trigger] ws[j]).0,
        forall|i: int| 0 <= i < ws.len() ==> !prewrite_conflict(t, start_ts, (#[trigger] ws[i]).0),
    ensures
        prewrites_ok(t, start_ts, ws[0].0, ws),
        !commit_refused(prewrite_all(t, start_ts, ws[0].0, ws), true, start_ts, ws[0].0),
        forall|i: int|
            0 <= i < ws.len() ==> {
                let done = commit_all(prewrite_all(t, start_ts, ws[0].0, ws), start_ts, commit_ts, write_keys(ws));
                get_outcome(done, read_ts, (#[trigger] ws[i]).0, now) == (done, Some(ws[i].1))
            },
{
    let primary = ws[0].0;
    lemma_prewrite_all(t, start_ts, primary, ws);
    let tp = prewrite_all(t, start_ts, primary, ws);
    let ks = write_keys(ws);
    lemma_commit_all(tp, start_ts, commit_ts, ks);
    let done = commit_all(tp, start_ts, commit_ts, ks);
    assert forall|i: int| 0 <= i < ws.len() implies get_outcome(done, read_ts, (#[trigger] ws[i]).0, now)
        == (done, Some(ws[i].1)) by {
        let k = ws[i].0;
        assert(ks[i] == k);
        assert(!locked_before(done, k, read_ts)) by {
            if locked_before(done, k, read_ts) {
                let l = choose|l: u64| l <= read_ts && done.lock.contains_key((k, l));
                assert(done.lock.contains_key((ks[i], l)));
                assert(tp.lock.contains_key((k, l)));
                if !t.lock.contains_key((k, l)) {
                    assert(l == start_ts);
                } else {
                    assert(prewrite_conflict(t, start_ts, k));
                }
            }
        }
        assert(is_latest(done.write, k, None, Some(read_ts), commit_ts)) by {
            assert(done.write.contains_key((ks[i], commit_ts)));
            assert forall|u: u64| #[trigger]
                in_range(u, None, Some(read_ts)) && done.write.contains_key((k, u)) implies u <= commit_ts by {
                if u != commit_ts {
                    assert(tp.write.contains_key((k, u)));
                    assert(t.write.contains_key((k, u)));
                    if u >= start_ts {
                        assert(prewrite_conflict(t, start_ts, k));
                    }
                }
            }
        }
        lemma_latest_is(done.write, k, None, Some(read_ts), commit_ts);
        assert(done.write[(ks[i], commit_ts)] == ValueView::Timestamp(start_ts));
        assert(snapshot_value(done, k, read_ts) == ws[i].1);
    }
}

} // verus!
