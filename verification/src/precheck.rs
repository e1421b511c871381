//! Decides, before a request is processed, whether processing it would
//! reach one of the failures that the checks leave out by their `requires`.

use vstd::prelude::*;
use crate::bigdec::bigint_parses;
use crate::text::string_less;
use crate::chain::{
    Block, Request, Transaction, TxsOutcome, block_txs_outcome, blocks_view, calculate_block_hash,
    chain_outcome, clone_transaction, complete_incomplete_transaction, genesis_prev_hash,
    is_chain_valid, new_txs_outcome, push_bar, normal_tx_panics, request_panics, reward_tx_panics,
    txs_view, validate_all_tx, validate_incomplete_transaction,
    validate_normal_transaction, validate_reward_transaction,
};

verus! {

/// Whether checking `tx` as a complete transaction would fail on a missing
/// field or a hash that is no hex integer.
pub fn normal_tx_would_panic(tx: &Transaction) -> (b: bool)
    ensures
        b == normal_tx_panics(tx@),
{
    match &tx.hash {
        None => true,
        Some(h) => !bigint_parses(h.as_str(), 16) || tx.sig.is_none() || tx.send.is_none(),
    }
}

/// Whether checking `tx` as the reward of block `block_id` would fail.
pub fn reward_tx_would_panic(tx: &Transaction, block_id: u64) -> (b: bool)
    ensures
        b == reward_tx_panics(tx@, block_id),
{
    block_id / 2 >= 64 || tx.hash.is_none()
}

/// Whether checking the transactions of block `block_id` would fail.
pub fn block_txs_would_panic(time: &String, tx: &Vec<Transaction>, block_id: u64) -> (b: bool)
    ensures
        b == (block_txs_outcome(time@, txs_view(tx@), block_id, 0, Seq::empty()) is Panic),
{
    let ghost txs = txs_view(tx@);
    let ghost goal = block_txs_outcome(time@, txs, block_id, 0, Seq::empty());
    let length = tx.len();
    let mut prev_time: String = time.clone();
    let mut hashes = String::new();
    let mut i: usize = 0;
    while i < length
        invariant
            txs == txs_view(tx@),
            length == tx@.len(),
            i <= length,
            goal == block_txs_outcome(time@, txs, block_id, 0, Seq::empty()),
            goal == block_txs_outcome(prev_time@, txs, block_id, i as int, hashes@),
        decreases length - i,
    {
        let cur = &tx[i];
        assert(txs[i as int] == cur@);
        if i < length - 1 {
            if normal_tx_would_panic(cur) {
                return true;
            }
            if !validate_normal_transaction(cur, &prev_time) {
                return false;
            }
        } else {
            if reward_tx_would_panic(cur, block_id) {
                return true;
            }
            if !validate_reward_transaction(cur, &prev_time, block_id) {
                return false;
            }
        }
        let h: &String = match &cur.hash {
            Some(h) => h,
            None => {
                proof {
                    assert(false);
                }
                return true;
            },
        };
        push_bar(&mut hashes);
        hashes.append(h.as_str());
        prev_time = cur.time.clone();
        i = i + 1;
    }
    false
}

/// Whether checking every block of `chain` would fail.
pub fn chain_would_panic(chain: &Vec<Block>) -> (b: bool)
    ensures
        b == chain_outcome(blocks_view(chain@), 0, Seq::empty(), genesis_prev_hash()) is None,
{
    let ghost blocks = blocks_view(chain@);
    let ghost goal = chain_outcome(blocks, 0, Seq::empty(), genesis_prev_hash());
    let length = chain.len();
    let mut prev_block_hash = String::from_str("00000000");
    proof {
        reveal_strlit("00000000");
        assert(prev_block_hash@ =~= genesis_prev_hash());
    }
    let mut prev_time = String::new();
    let mut i: usize = 0;
    while i < length
        invariant
            blocks == blocks_view(chain@),
            length == chain@.len(),
            i <= length,
            goal == chain_outcome(blocks, 0, Seq::empty(), genesis_prev_hash()),
            goal == chain_outcome(blocks, i as int, prev_time@, prev_block_hash@),
        decreases length - i,
    {
        let cur_block = &chain[i];
        assert(blocks[i as int] == cur_block@);
        if block_txs_would_panic(&prev_time, &cur_block.all_tx, i as u64) {
            return true;
        }
        let result = validate_all_tx(&prev_time, &cur_block.all_tx, i as u64);
        if !result.validity || cur_block.id != i as u64 {
            return false;
        }
        let block_hash = calculate_block_hash(cur_block.id, &prev_block_hash, &result.transaction_hashes, &cur_block.pow);
        if !(block_hash == cur_block.hash) || !string_less(block_hash.as_str(), cur_block.target.as_str()) {
            return false;
        }
        prev_time = result.time;
        prev_block_hash = cur_block.hash.clone();
        i = i + 1;
    }
    false
}

/// Whether checking the new transactions, which follow `time`, would fail.
pub fn new_txs_would_panic(time: &String, tx: &Vec<Transaction>) -> (b: bool)
    ensures
        b == (new_txs_outcome(time@, txs_view(tx@), 0, Seq::empty()) is Panic),
{
    let ghost txs = txs_view(tx@);
    let ghost goal = new_txs_outcome(time@, txs, 0, Seq::empty());
    let length = tx.len();
    let mut prev_time: String = time.clone();
    let mut hashes = String::new();
    let mut i: usize = 0;
    while i < length
        invariant
            txs == txs_view(tx@),
            length == tx@.len(),
            i <= length,
            goal == new_txs_outcome(time@, txs, 0, Seq::empty()),
            goal == new_txs_outcome(prev_time@, txs, i as int, hashes@),
        decreases length - i,
    {
        let cur = &tx[i];
        assert(txs[i as int] == cur@);
        let h: String = if cur.send.is_some() {
            if normal_tx_would_panic(cur) {
                return true;
            }
            if !validate_normal_transaction(cur, &prev_time) {
                return false;
            }
            match &cur.hash {
                Some(h) => h.clone(),
                None => {
                    proof {
                        assert(false);
                    }
                    return true;
                },
            }
        } else {
            if !validate_incomplete_transaction(cur, &prev_time) {
                return false;
            }
            let mut done = clone_transaction(cur);
            complete_incomplete_transaction(&mut done);
            match done.hash {
                Some(h) => h,
                None => {
                    proof {
                        assert(false);
                    }
                    return true;
                },
            }
        };
        push_bar(&mut hashes);
        hashes.append(h.as_str());
        prev_time = cur.time.clone();
        i = i + 1;
    }
    false
}

/// Whether `is_request_valid` would fail on `request` before it starts the
/// proof of work.
pub fn request_would_panic(request: &Request) -> (b: bool)
    ensures
        b == request_panics(request@),
{
    if chain_would_panic(&request.chain) {
        return true;
    }
    if !is_chain_valid(&request.chain) {
        return false;
    }
    let empty = String::new();
    if new_txs_would_panic(&empty, &request.new_tx) {
        return true;
    }
    let n = request.chain.len();
    if n == 0 {
        return true;
    }
    assert(request.chain@[n - 1]@ == request@.chain.last());
    request.chain[n - 1].all_tx.len() == 0 || (n as u64) / 2 >= 64
}

} // verus!
