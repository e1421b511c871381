//! The chain that a valid request is answered with passes the checks that
//! the chain of a request goes through.

use vstd::prelude::*;
use crate::bigdec::ten_minutes_later;
use crate::chain::{
    block_hash, block_txs_outcome, chain_outcome, complete_tx, completed_new_tx, genesis_prev_hash,
    incomplete_tx_valid, lemma_reward_tx_checks, new_txs_after, new_txs_outcome, new_txs_stop, next_block,
    next_pow_ok, next_tx_hashes, normal_tx_panics, normal_tx_valid, request_panics, reward_tx_panics,
    reward_tx_spec, reward_tx_valid, signature_ok, time_less, tx_hash, tx_hash_source, BlockView, RequestView,
    TxView, TxsOutcome,
};
use crate::text::lex_less;

verus! {

/// Time and hash that checking the blocks from `i` on ends with, following
/// `t` and `h`, when they are valid.
pub open spec fn chain_end(chain: Seq<BlockView>, i: int, t: Seq<char>, h: Seq<char>) -> (Seq<char>, Seq<char>)
    decreases chain.len() - i,
{
    if i >= chain.len() || i < 0 {
        (t, h)
    } else {
        match block_txs_outcome(t, chain[i].all_tx, i as u64, 0, Seq::empty()) {
            TxsOutcome::Valid { time, hashes } => chain_end(chain, i + 1, time, chain[i].hash),
            _ => (t, h),
        }
    }
}

/// Checking a chain with one more block checks the old blocks as before,
/// then the new one after them.
pub(crate) proof fn lemma_chain_push(c: Seq<BlockView>, b: BlockView, i: int, t: Seq<char>, h: Seq<char>)
    requires
        0 <= i <= c.len(),
        chain_outcome(c, i, t, h) == Some(true),
    ensures
        chain_outcome(c.push(b), i, t, h) == chain_outcome(
            c.push(b),
            c.len() as int,
            chain_end(c, i, t, h).0,
            chain_end(c, i, t, h).1,
        ),
    decreases c.len() - i,
{
    if i < c.len() {
        assert(c.push(b)[i] == c[i]);
        match block_txs_outcome(t, c[i].all_tx, i as u64, 0, Seq::empty()) {
            TxsOutcome::Valid { time, hashes } => {
                lemma_chain_push(c, b, i + 1, time, c[i].hash);
            },
            _ => {},
        }
    }
}

/// A valid list of transactions ends at the time of its last one.
pub(crate) proof fn lemma_block_txs_end_time(prev: Seq<char>, txs: Seq<TxView>, id: u64, j: int, hs: Seq<char>)
    requires
        0 <= j < txs.len(),
        block_txs_outcome(prev, txs, id, j, hs) is Valid,
    ensures
        block_txs_outcome(prev, txs, id, j, hs)->time == txs.last().time,
    decreases txs.len() - j,
{
    let t = txs[j];
    let next = block_txs_outcome(t.time, txs, id, j + 1, hs + seq!['|'] + t.hash.unwrap());
    assert(block_txs_outcome(prev, txs, id, j, hs) == next);
    if j + 1 < txs.len() {
        lemma_block_txs_end_time(t.time, txs, id, j + 1, hs + seq!['|'] + t.hash.unwrap());
    } else {
        assert(next->time == t.time);
        assert(txs.last() == t);
    }
}

/// After a valid chain, checking goes on from the last block's hash and,
/// when that block holds transactions, from the time of its last one.
pub(crate) proof fn lemma_chain_end_last(c: Seq<BlockView>, i: int, t: Seq<char>, h: Seq<char>)
    requires
        0 <= i < c.len(),
        chain_outcome(c, i, t, h) == Some(true),
    ensures
        chain_end(c, i, t, h).1 == c.last().hash,
        c.last().all_tx.len() > 0 ==> chain_end(c, i, t, h).0 == c.last().all_tx.last().time,
    decreases c.len() - i,
{
    match block_txs_outcome(t, c[i].all_tx, i as u64, 0, Seq::empty()) {
        TxsOutcome::Valid { time, hashes } => {
            assert(chain_end(c, i, t, h) == chain_end(c, i + 1, time, c[i].hash));
            assert(chain_outcome(c, i + 1, time, c[i].hash) == Some(true));
            if i + 1 < c.len() {
                lemma_chain_end_last(c, i + 1, time, c[i].hash);
            } else {
                assert(c.last() == c[i]);
                if c[i].all_tx.len() > 0 {
                    lemma_block_txs_end_time(t, c[i].all_tx, i as u64, 0, Seq::empty());
                }
            }
        },
        _ => {},
    }
}

/// A completed transaction is hashed as the transaction it completes,
/// with sender `E` and no fee, and keeps its time.
pub(crate) proof fn lemma_complete_tx_hash(t: TxView)
    ensures
        tx_hash(complete_tx(t)) == complete_tx(t).hash.unwrap(),
        complete_tx(t).time == t.time,
        complete_tx(t).sig is Some,
        complete_tx(t).fee is Some,
        complete_tx(t).send is Some,
        complete_tx(t).hash is Some,
{
    let t1 = TxView { send: Some(crate::chain::E), fee: Some(0), ..t };
    assert(tx_hash_source(complete_tx(t)) == tx_hash_source(t1));
}

/// The transaction at `k` as the block holds it: completed when it was
/// incomplete.
pub open spec fn as_stored(t: TxView) -> TxView {
    if t.send is None {
        complete_tx(t)
    } else {
        t
    }
}

/// A stored transaction passes the check of complete, signed transactions
/// when it did as a new one: its hash is a hex integer and, for one that
/// was completed, its signature opens to its hash.
pub open spec fn stored_tx_checks(t: TxView) -> bool {
    t.send is None ==> (!normal_tx_panics(complete_tx(t)) && signature_ok(complete_tx(t), complete_tx(t).hash.unwrap()))
}

/// Where the new transactions pass their check, the same transactions as
/// stored, followed by `reward`, pass the check of the transactions of a
/// block, given that the reward comes after the last of them.
pub(crate) proof fn lemma_new_txs_as_block(
    prev: Seq<char>,
    txs: Seq<TxView>,
    full: Seq<TxView>,
    reward: TxView,
    id: u64,
    k: int,
    hs: Seq<char>,
)
    requires
        0 <= k <= txs.len(),
        full.len() == txs.len() + 1,
        forall|q: int| 0 <= q < txs.len() ==> #[trigger] full[q] == as_stored(txs[q]),
        full[txs.len() as int] == reward,
        forall|q: int| k <= q < txs.len() ==> #[trigger] stored_tx_checks(txs[q]),
        new_txs_outcome(prev, txs, k, hs) is Valid,
        !reward_tx_panics(reward, id),
        reward_tx_valid(reward, new_txs_outcome(prev, txs, k, hs)->time, id),
    ensures
        block_txs_outcome(prev, full, id, k, hs) == (TxsOutcome::Valid {
            time: reward.time,
            hashes: new_txs_outcome(prev, txs, k, hs)->hashes + seq!['|'] + reward.hash.unwrap(),
        }),
    decreases txs.len() - k,
{
    if k == txs.len() {
        assert(full[k] == reward);
        assert(block_txs_outcome(reward.time, full, id, k + 1, hs + seq!['|'] + reward.hash.unwrap()) == (TxsOutcome::Valid {
            time: reward.time,
            hashes: hs + seq!['|'] + reward.hash.unwrap(),
        }));
    } else {
        let t = txs[k];
        assert(full[k] == as_stored(t));
        assert(stored_tx_checks(t));
        if t.send is Some {
            lemma_new_txs_as_block(t.time, txs, full, reward, id, k + 1, hs + seq!['|'] + t.hash.unwrap());
        } else {
            lemma_complete_tx_hash(t);
            let c = complete_tx(t);
            assert(normal_tx_valid(c, prev));
            lemma_new_txs_as_block(t.time, txs, full, reward, id, k + 1, hs + seq!['|'] + c.hash.unwrap());
        }
    }
}

/// Checking the new transactions from a later start time gives the same
/// result when the first of them still comes after it.
pub(crate) proof fn lemma_new_txs_restart(p1: Seq<char>, p2: Seq<char>, txs: Seq<TxView>, hs: Seq<char>)
    requires
        txs.len() > 0,
        new_txs_outcome(p1, txs, 0, hs) is Valid,
        time_less(p2, txs[0].time),
    ensures
        new_txs_outcome(p2, txs, 0, hs) == new_txs_outcome(p1, txs, 0, hs),
{
}

/// A valid list of new transactions ends at the time of its last one, or
/// at the start time when it is empty.
pub(crate) proof fn lemma_new_txs_end_time(prev: Seq<char>, txs: Seq<TxView>, k: int, hs: Seq<char>)
    requires
        0 <= k <= txs.len(),
        new_txs_outcome(prev, txs, k, hs) is Valid,
    ensures
        new_txs_outcome(prev, txs, k, hs)->time == if k < txs.len() { txs.last().time } else { prev },
    decreases txs.len() - k,
{
    if k < txs.len() {
        let t = txs[k];
        let h = if t.send is Some { t.hash.unwrap() } else { complete_tx(t).hash.unwrap() };
        assert(new_txs_outcome(prev, txs, k, hs) == new_txs_outcome(t.time, txs, k + 1, hs + seq!['|'] + h));
        lemma_new_txs_end_time(t.time, txs, k + 1, hs + seq!['|'] + h);
    }
}

/// Where the new transactions are all accepted, the check stops at their end.
pub(crate) proof fn lemma_new_txs_stop_full(prev: Seq<char>, txs: Seq<TxView>, k: int, hs: Seq<char>)
    requires
        0 <= k <= txs.len(),
        new_txs_outcome(prev, txs, k, hs) is Valid,
    ensures
        new_txs_stop(prev, txs, k) == txs.len(),
    decreases txs.len() - k,
{
    if k < txs.len() {
        let t = txs[k];
        let h = if t.send is Some { t.hash.unwrap() } else { complete_tx(t).hash.unwrap() };
        lemma_new_txs_stop_full(t.time, txs, k + 1, hs + seq!['|'] + h);
    }
}

/// The new transactions of `r` come after the last transaction of its
/// chain, and the reward, ten minutes after that one, comes after them.
pub open spec fn extension_in_time(r: RequestView) -> bool {
    let t = r.chain.last().all_tx.last().time;
    let last = if r.new_tx.len() > 0 { r.new_tx.last().time } else { t };
    &&& r.new_tx.len() > 0 ==> time_less(t, r.new_tx[0].time)
    &&& time_less(last, ten_minutes_later(t))
}

/// The signature given to each transaction of `r` that is completed opens
/// to its hash.
pub open spec fn completed_signatures_open(r: RequestView) -> bool {
    forall|k: int|
        0 <= k < r.new_tx.len() && r.new_tx[k].send is None ==> signature_ok(
            #[trigger] complete_tx(r.new_tx[k]),
            complete_tx(r.new_tx[k]).hash.unwrap(),
        )
}

/// The chain of a valid request, extended with the block mined with proof
/// of work `w`, passes the checks of a chain, when the new transactions
/// come in time and the signatures given open to their hashes.
pub(crate) proof fn lemma_extended_chain(o: RequestView, w: int)
    requires
        !request_panics(o),
        chain_outcome(o.chain, 0, Seq::empty(), genesis_prev_hash()) == Some(true),
        new_txs_outcome(Seq::empty(), o.new_tx, 0, Seq::empty()) is Valid,
        0 <= w,
        next_pow_ok(o, w),
        extension_in_time(o),
        completed_signatures_open(o),
        forall|k: int| 0 <= k < o.new_tx.len() && o.new_tx[k].send is None ==> !normal_tx_panics(#[trigger] complete_tx(o.new_tx[k])),
    ensures
        chain_outcome(o.chain.push(next_block(o, w)), 0, Seq::empty(), genesis_prev_hash()) == Some(true),
{
    let c = o.chain;
    let n = c.len() as int;
    let b = next_block(o, w);
    let txs = o.new_tx;
    let id = n as u64;
    lemma_chain_push(c, b, 0, Seq::empty(), genesis_prev_hash());
    lemma_chain_end_last(c, 0, Seq::empty(), genesis_prev_hash());
    let end = chain_end(c, 0, Seq::empty(), genesis_prev_hash());
    let t = c.last().all_tx.last().time;
    assert(end.0 == t);
    assert(end.1 == c.last().hash);
    // the new transactions, checked after the chain
    let from_empty = new_txs_outcome(Seq::empty(), txs, 0, Seq::empty());
    if txs.len() > 0 {
        lemma_new_txs_restart(Seq::empty(), t, txs, Seq::empty());
    }
    let from_t = new_txs_outcome(t, txs, 0, Seq::empty());
    assert(from_t is Valid);
    assert(from_t->hashes == from_empty->hashes);
    lemma_new_txs_end_time(t, txs, 0, Seq::empty());
    lemma_new_txs_stop_full(Seq::empty(), txs, 0, Seq::empty());
    // the reward
    let reward = reward_tx_spec(t, id);
    lemma_reward_tx_checks(t, id, from_t->time);
    assert(reward_tx_valid(reward, from_t->time, id));
    // the block's transactions
    let full = completed_new_tx(o);
    assert(full == new_txs_after(txs, txs.len() as int).push(reward));
    assert forall|q: int| 0 <= q < txs.len() implies #[trigger] full[q] == as_stored(txs[q]) by {}
    assert forall|q: int| 0 <= q < txs.len() implies #[trigger] stored_tx_checks(txs[q]) by {
        if txs[q].send is None {
            assert(!normal_tx_panics(complete_tx(txs[q])));
            assert(signature_ok(complete_tx(txs[q]), complete_tx(txs[q]).hash.unwrap()));
        }
    }
    lemma_new_txs_as_block(t, txs, full, reward, id, 0, Seq::empty());
    assert(block_txs_outcome(t, b.all_tx, id, 0, Seq::empty()) == (TxsOutcome::Valid {
        time: reward.time,
        hashes: next_tx_hashes(o),
    }));
    assert(c.push(b)[n] == b);
    assert(b.hash == block_hash(id, c.last().hash, next_tx_hashes(o), b.pow));
    assert(chain_outcome(c.push(b), n + 1, reward.time, b.hash) == Some(true));
}

} // verus!
