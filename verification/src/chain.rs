//! Transactions, blocks and the checks that a toy blockchain applies to them.

use vstd::prelude::*;
use vstd::string::StringExecFns;
use vstd::utf8::encode_utf8;
use crate::bigdec::{
    add_ten_minutes, bigint_hex_equals, bigint_magnitude, bigint_parse, is_bigint_char, remove_underscores,
    ten_minutes_later,
};
use crate::codec::{is_lower_hex, sha256_digest, sha256_hex, substring_of, substring_spec};
use crate::decimal::{dec_digits, u64_to_decimal};
use crate::extension::{completed_signatures_open, extension_in_time, lemma_extended_chain, lemma_new_txs_stop_full};
use crate::numparse::{all_digits, digit_value, digits_value, parse_unsigned, parse_unsigned_exec, pow16};
use crate::rsa::{rsa, rsa_spec};
use crate::signature::lemma_signature_opens;
use crate::text::{chars_to_string, lemma_lex_less_irreflexive, lemma_lex_less_transitive, lex_less, str_to_chars, string_less};

verus! {

/// Reward of the first blocks; halved every second block.
pub const AMT: u64 = 500000000;
/// Public modulus of the signatures.
pub const N: u64 = 1561906343821;
/// Public exponent, also the sender of completed transactions.
pub const E: u64 = 1097844002039;
/// Private exponent used to sign completed transactions.
pub const D: u64 = 343710770439;

/// A transfer of `amt` from `send` to `recv`, signed with `sig`.
pub struct Transaction {
    pub sig: Option<u64>,
    pub recv: u64,
    pub fee: Option<u64>,
    pub amt: u64,
    pub time: String,
    pub send: Option<u64>,
    pub hash: Option<String>,
}

/// The contents of a transaction.
pub struct TxView {
    pub sig: Option<u64>,
    pub recv: u64,
    pub fee: Option<u64>,
    pub amt: u64,
    pub time: Seq<char>,
    pub send: Option<u64>,
    pub hash: Option<Seq<char>>,
}

impl View for Transaction {
    type V = TxView;

    open spec fn view(&self) -> TxView {
        TxView {
            sig: self.sig,
            recv: self.recv,
            fee: self.fee,
            amt: self.amt,
            time: self.time@,
            send: self.send,
            hash: match self.hash {
                Some(h) => Some(h@),
                None => None,
            },
        }
    }
}

/// Optional number rendered in decimal, empty when absent.
pub open spec fn opt_dec(o: Option<u64>) -> Seq<char> {
    match o {
        Some(v) => dec_digits(v as nat),
        None => Seq::empty(),
    }
}

/// The text hashed for a transaction: `time|send|recv|amt|fee`.
pub open spec fn tx_hash_source(t: TxView) -> Seq<char> {
    t.time + seq!['|'] + opt_dec(t.send) + seq!['|'] + dec_digits(t.recv as nat) + seq!['|']
        + dec_digits(t.amt as nat) + seq!['|'] + opt_dec(t.fee)
}

/// The first eight hex digits of the SHA-256 digest of `s`.
pub open spec fn short_hash(s: Seq<char>) -> Seq<char> {
    substring_spec(sha256_hex(s), 0, 8)
}

/// The hash of a transaction.
pub open spec fn tx_hash(t: TxView) -> Seq<char> {
    short_hash(tx_hash_source(t))
}

/// The hash of a block with the given id, previous block hash, transaction
/// hashes and proof of work.
pub open spec fn block_hash(id: u64, prev: Seq<char>, txh: Seq<char>, pow: Seq<char>) -> Seq<char> {
    short_hash(sha256_hex(dec_digits(id as nat) + seq!['|'] + prev + txh) + pow)
}

/// `h` has the shape of every hash here: eight lower-case hex digits.
pub open spec fn is_short_hex(h: Seq<char>) -> bool {
    &&& h.len() == 8
    &&& forall|i: int| 0 <= i < 8 ==> is_lower_hex(#[trigger] h[i])
}

/// `k` zero digits.
pub open spec fn zeros(k: nat) -> Seq<char> {
    Seq::new(k, |i: int| '0')
}

/// A string whose first `k` characters are no less than `'0'` does not lie
/// below `k` zeros.
proof fn lemma_not_below_zeros(h: Seq<char>, k: nat)
    requires
        h.len() >= k,
        forall|i: int| 0 <= i < k ==> (#[trigger] h[i] as u32) >= ('0' as u32),
    ensures
        !lex_less(h, zeros(k)),
    decreases k,
{
    if k > 0 {
        assert(zeros(k).drop_first() =~= zeros((k - 1) as nat));
        assert forall|i: int| 0 <= i < k - 1 implies (#[trigger] h.drop_first()[i] as u32) >= ('0' as u32) by {
            assert(h.drop_first()[i] == h[i + 1]);
        }
        lemma_not_below_zeros(h.drop_first(), (k - 1) as nat);
    }
}

/// A target at or below `00000000` is never met: no hash of eight
/// lower-case hex digits lies below it.
pub proof fn lemma_zero_target_unreachable(h: Seq<char>, target: Seq<char>)
    requires
        is_short_hex(h),
        target == zeros(8) || lex_less(target, zeros(8)),
    ensures
        !lex_less(h, target),
{
    assert forall|i: int| 0 <= i < 8 implies (#[trigger] h[i] as u32) >= ('0' as u32) by {
        assert(is_lower_hex(h[i]));
    }
    lemma_not_below_zeros(h, 8);
    if lex_less(h, target) && lex_less(target, zeros(8)) {
        lemma_lex_less_transitive(h, target, zeros(8));
    }
}

/// Number of bytes of the UTF-8 encoding of `s`, as `str::len` reports it.
pub open spec fn byte_len(s: Seq<char>) -> usize {
    encode_utf8(s).len() as usize
}

/// Order of time stamps: the one with fewer bytes first, else by `lex_less`.
pub open spec fn time_less(a: Seq<char>, b: Seq<char>) -> bool {
    let la = byte_len(a);
    let lb = byte_len(b);
    if la != lb {
        la < lb
    } else {
        lex_less(a, b)
    }
}

/// No time stamp comes before itself.
pub proof fn lemma_time_less_irreflexive(a: Seq<char>)
    ensures
        !time_less(a, a),
{
    lemma_lex_less_irreflexive(a);
}

/// The order of time stamps is transitive, so the times of a valid list
/// of transactions strictly increase.
pub proof fn lemma_time_less_transitive(a: Seq<char>, b: Seq<char>, c: Seq<char>)
    requires
        time_less(a, b),
        time_less(b, c),
    ensures
        time_less(a, c),
{
    if byte_len(a) == byte_len(b) && byte_len(b) == byte_len(c) {
        lemma_lex_less_transitive(a, b, c);
    }
}

/// Compares two time stamps.
pub fn is_less_than(a: &String, b: &String) -> (r: bool)
    ensures
        r == time_less(a@, b@),
{
    let la = a.as_str().len();
    let lb = b.as_str().len();
    if la != lb {
        la < lb
    } else {
        string_less(a.as_str(), b.as_str())
    }
}

/// Appends the decimal digits of `v`.
fn push_decimal(out: &mut String, v: u64)
    ensures
        final(out)@ == old(out)@ + dec_digits(v as nat),
{
    let ds = u64_to_decimal(v);
    let s = chars_to_string(ds.as_slice());
    out.append(s.as_str());
}

/// Appends `|`.
pub(crate) fn push_bar(out: &mut String)
    ensures
        final(out)@ == old(out)@ + seq!['|'],
{
    let bar = "|";
    proof {
        reveal_strlit("|");
    }
    out.append(bar);
}

/// The first eight characters of the hex SHA-256 digest of `s`.
pub fn calculate_short_hash(s: &String) -> (h: String)
    ensures
        h@ == short_hash(s@),
        h@.len() == 8,
        forall|i: int| 0 <= i < 8 ==> is_lower_hex(#[trigger] h@[i]),
{
    let digest = sha256_digest(s.as_str());
    let h = substring_of(digest.as_str(), 0, 8);
    assert(h@ =~= digest@.subrange(0, 8));
    h
}

/// The hash of a transaction: of `time|send|recv|amt|fee`.
pub fn calculate_transaction_hash(tx: &Transaction) -> (h: String)
    ensures
        h@ == tx_hash(tx@),
        h@.len() == 8,
        forall|i: int| 0 <= i < 8 ==> is_lower_hex(#[trigger] h@[i]),
{
    let mut hash_source = String::new();
    hash_source.append(tx.time.as_str());
    push_bar(&mut hash_source);
    match tx.send {
        Some(v) => push_decimal(&mut hash_source, v),
        None => {},
    }
    push_bar(&mut hash_source);
    push_decimal(&mut hash_source, tx.recv);
    push_bar(&mut hash_source);
    push_decimal(&mut hash_source, tx.amt);
    push_bar(&mut hash_source);
    match tx.fee {
        Some(v) => push_decimal(&mut hash_source, v),
        None => {},
    }
    assert(hash_source@ =~= tx_hash_source(tx@));
    calculate_short_hash(&hash_source)
}

/// The hash of a block: twice SHA-256, the proof of work appended in between.
pub fn calculate_block_hash(block_id: u64, prev_block_hash: &String, transaction_hashes: &String, pow: &String) -> (h: String)
    ensures
        h@ == block_hash(block_id, prev_block_hash@, transaction_hashes@, pow@),
        is_short_hex(h@),
{
    let mut source = String::new();
    push_decimal(&mut source, block_id);
    push_bar(&mut source);
    source.append(prev_block_hash.as_str());
    source.append(transaction_hashes.as_str());
    let inner = sha256_digest(source.as_str());
    let mut outer = String::new();
    outer.append(inner.as_str());
    outer.append(pow.as_str());
    assert(source@ =~= dec_digits(block_id as nat) + seq!['|'] + prev_block_hash@ + transaction_hashes@);
    calculate_short_hash(&outer)
}

/// `validate_normal_transaction` would panic on `t`: a field it unwraps is
/// missing, or the hash is no hex integer.
pub open spec fn normal_tx_panics(t: TxView) -> bool {
    t.hash is None || bigint_parse(t.hash.unwrap(), 16) is None || t.sig is None || t.send is None
}

/// The signature of `t` opens to the integer written in hex as `h`.
pub open spec fn signature_ok(t: TxView, h: Seq<char>) -> bool {
    bigint_parse(h, 16).unwrap() == rsa_spec(t.sig.unwrap() as nat, t.send.unwrap() as nat, N as nat)
}

/// A complete, signed transaction that follows `prev_time`.
pub open spec fn normal_tx_valid(t: TxView, prev_time: Seq<char>) -> bool {
    &&& t.sig is Some
    &&& t.fee is Some
    &&& t.send is Some
    &&& t.hash is Some
    &&& time_less(prev_time, t.time)
    &&& tx_hash(t) == t.hash.unwrap()
    &&& signature_ok(t, t.hash.unwrap())
}

/// `validate_reward_transaction` would panic: the reward shift overflows or
/// the hash is missing.
pub open spec fn reward_tx_panics(t: TxView, block_id: u64) -> bool {
    block_id / 2 >= 64 || t.hash is None
}

/// Reward of block `block_id`.
pub open spec fn reward_amount(block_id: u64) -> u64 {
    (AMT >> ((block_id / 2) as u64)) as u64
}

/// An unsigned reward of the right amount that follows `prev_time`.
pub open spec fn reward_tx_valid(t: TxView, prev_time: Seq<char>, block_id: u64) -> bool {
    &&& t.sig is None
    &&& t.fee is None
    &&& t.send is None
    &&& t.hash is Some
    &&& reward_amount(block_id) == t.amt
    &&& time_less(prev_time, t.time)
    &&& tx_hash(t) == t.hash.unwrap()
}

/// A transaction still to be completed: no signature, fee, sender or hash,
/// and it follows `prev_time`.
pub open spec fn incomplete_tx_valid(t: TxView, prev_time: Seq<char>) -> bool {
    &&& t.sig is None
    &&& t.fee is None
    &&& t.send is None
    &&& t.hash is None
    &&& time_less(prev_time, t.time)
}

/// A complete transaction accepted as valid carries the fields it is read
/// by, follows the time before it, carries its own hash, and is signed by
/// its sender: the signature raised to the sender's key modulo `N` is the
/// value of the hash read in hex.
pub proof fn lemma_valid_normal_tx_is_signed(t: TxView, prev_time: Seq<char>)
    requires
        normal_tx_valid(t, prev_time),
        !normal_tx_panics(t),
    ensures
        t.sig is Some && t.fee is Some && t.send is Some,
        time_less(prev_time, t.time),
        t.hash == Some(tx_hash(t)),
        bigint_parse(t.hash.unwrap(), 16) == Some(rsa_spec(t.sig.unwrap() as nat, t.send.unwrap() as nat, N as nat)),
{
}

/// A reward accepted as valid is unsigned, pays the block's reward, follows
/// the time before it and carries its own hash.
pub proof fn lemma_valid_reward_is_hashed(t: TxView, prev_time: Seq<char>, block_id: u64)
    requires
        reward_tx_valid(t, prev_time, block_id),
    ensures
        t.sig is None && t.fee is None && t.send is None,
        t.amt == reward_amount(block_id),
        time_less(prev_time, t.time),
        t.hash == Some(tx_hash(t)),
{
}

/// A transaction accepted for completion carries no signature, fee, sender
/// or hash, and follows the time before it.
pub proof fn lemma_valid_incomplete_tx_is_bare(t: TxView, prev_time: Seq<char>)
    requires
        incomplete_tx_valid(t, prev_time),
    ensures
        t.sig is None && t.fee is None && t.send is None && t.hash is None,
        time_less(prev_time, t.time),
{
}

/// `t` completed: sent by `E` with no fee, hashed, and signed with `D`.
pub open spec fn complete_tx(t: TxView) -> TxView {
    let t1 = TxView { send: Some(E), fee: Some(0), ..t };
    let h = tx_hash(t1);
    let hv = parse_unsigned(h, 16, 0xffff_ffff_ffff_ffff).unwrap();
    TxView { hash: Some(h), sig: Some(rsa_spec(hv as nat, D as nat, N as nat) as u64), ..t1 }
}

/// Whether the signature of `tx` opens to the integer written in hex as `cc_hash`.
pub fn verify_signature(tx: &Transaction, cc_hash: &String) -> (b: bool)
    requires
        tx.sig is Some,
        tx.send is Some,
        bigint_parse(cc_hash@, 16) is Some,
    ensures
        b == signature_ok(tx@, cc_hash@),
{
    let sig = match tx.sig { Some(v) => v, None => 0 };
    let send = match tx.send { Some(v) => v, None => 0 };
    let rsa_output = rsa(sig, send, N);
    bigint_hex_equals(cc_hash.as_str(), rsa_output)
}

/// Checks a complete, signed transaction.
pub fn validate_normal_transaction(tx: &Transaction, prev_time: &String) -> (b: bool)
    requires
        !normal_tx_panics(tx@),
    ensures
        b == normal_tx_valid(tx@, prev_time@),
        b ==> tx@.sig is Some && tx@.fee is Some && tx@.send is Some,
        b ==> time_less(prev_time@, tx@.time),
        b ==> tx@.hash == Some(tx_hash(tx@)),
        b ==> bigint_parse(tx@.hash.unwrap(), 16) == Some(
            rsa_spec(tx@.sig.unwrap() as nat, tx@.send.unwrap() as nat, N as nat),
        ),
{
    let is_field_valid = tx.sig.is_some() && tx.fee.is_some() && tx.send.is_some() && tx.hash.is_some();
    let is_prev_time_less_than_cur_time = is_less_than(prev_time, &tx.time);
    let cc_hash: &String = match &tx.hash {
        Some(h) => h,
        None => {
            proof {
                assert(false);
            }
            return false;
        },
    };
    let computed = calculate_transaction_hash(tx);
    let is_hash_valid = computed == *cc_hash;
    let is_signature_valid = verify_signature(tx, cc_hash);
    is_field_valid && is_prev_time_less_than_cur_time && is_hash_valid && is_signature_valid
}

/// Checks the reward transaction that closes block `block_id`.
pub fn validate_reward_transaction(tx: &Transaction, prev_time: &String, block_id: u64) -> (b: bool)
    requires
        !reward_tx_panics(tx@, block_id),
    ensures
        b == reward_tx_valid(tx@, prev_time@, block_id),
        b ==> tx@.sig is None && tx@.fee is None && tx@.send is None,
        b ==> tx@.amt == reward_amount(block_id),
        b ==> time_less(prev_time@, tx@.time),
        b ==> tx@.hash == Some(tx_hash(tx@)),
{
    let is_field_valid = tx.sig.is_none() && tx.fee.is_none() && tx.send.is_none() && tx.hash.is_some();
    let is_amt_invalid = AMT >> (block_id / 2) != tx.amt;
    let is_prev_time_less_than_cur_time = is_less_than(prev_time, &tx.time);
    let computed = calculate_transaction_hash(tx);
    let is_hash_valid = match &tx.hash {
        Some(h) => computed == *h,
        None => false,
    };
    is_field_valid && !is_amt_invalid && is_prev_time_less_than_cur_time && is_hash_valid
}

/// Checks a transaction still to be completed.
pub fn validate_incomplete_transaction(tx: &Transaction, prev_time: &String) -> (b: bool)
    ensures
        b == incomplete_tx_valid(tx@, prev_time@),
        b ==> tx@.sig is None && tx@.fee is None && tx@.send is None && tx@.hash is None,
        b ==> time_less(prev_time@, tx@.time),
{
    if !(tx.sig.is_none() && tx.fee.is_none() && tx.send.is_none() && tx.hash.is_none()) {
        return false;
    }
    is_less_than(prev_time, &tx.time)
}

/// Hex digits are worth less than 16 to the power of their count.
proof fn lemma_hex_value_bound(s: Seq<char>)
    requires
        all_digits(s, 16),
    ensures
        0 <= digits_value(s, 16) < pow16(s.len()),
    decreases s.len(),
{
    if s.len() > 0 {
        lemma_hex_value_bound(s.drop_last());
        let v = digits_value(s.drop_last(), 16);
        let p = pow16((s.len() - 1) as nat);
        assert(0 <= digit_value(s[s.len() - 1]) < 16);
        assert(v * 16 + digit_value(s.last()) < 16 * p) by (nonlinear_arith)
            requires
                0 <= v < p,
                0 <= digit_value(s.last()) < 16,
        ;
        assert(v * 16 + digit_value(s.last()) >= 0) by (nonlinear_arith)
            requires
                0 <= v,
                0 <= digit_value(s.last()),
        ;
    }
}

/// Eight lower-case hex digits read as a `u64`.
proof fn lemma_short_hash_parses(h: Seq<char>)
    requires
        h.len() == 8,
        forall|i: int| 0 <= i < 8 ==> is_lower_hex(#[trigger] h[i]),
    ensures
        parse_unsigned(h, 16, 0xffff_ffff_ffff_ffff) is Some,
{
    assert forall|i: int| 0 <= i < h.len() implies 0 <= #[trigger] digit_value(h[i]) < 16 by {
        assert(is_lower_hex(h[i]));
    }
    assert(h[0] != '+') by {
        assert(is_lower_hex(h[0]));
    }
    lemma_hex_value_bound(h);
    reveal_with_fuel(pow16, 9);
    assert(pow16(8) == 0x1_0000_0000);
}

/// Text without underscores keeps all its characters.
proof fn lemma_no_underscores(s: Seq<char>)
    requires
        forall|i: int| 0 <= i < s.len() ==> #[trigger] s[i] != '_',
    ensures
        remove_underscores(s) == s,
    decreases s.len(),
{
    if s.len() > 0 {
        lemma_no_underscores(s.drop_last());
        assert(s.drop_last().push(s.last()) =~= s);
    }
}

/// Eight lower-case hex digits are text that `BigInt::from_str_radix`
/// reads in base 16, as the same value that `u64::from_str_radix` reads,
/// which is below `2^32`.
proof fn lemma_short_hash_is_bigint(h: Seq<char>)
    requires
        h.len() == 8,
        forall|i: int| 0 <= i < 8 ==> is_lower_hex(#[trigger] h[i]),
    ensures
        bigint_parse(h, 16) is Some,
        bigint_parse(h, 16) == parse_unsigned(h, 16, 0xffff_ffff_ffff_ffff),
        bigint_parse(h, 16).unwrap() < 0x1_0000_0000,
{
    assert(is_lower_hex(h[0]));
    assert(bigint_magnitude(h) == h);
    assert forall|i: int| 0 <= i < h.len() implies #[trigger] is_bigint_char(h[i], 16) by {
        assert(is_lower_hex(h[i]));
    }
    assert forall|i: int| 0 <= i < h.len() implies #[trigger] h[i] != '_' by {
        assert(is_lower_hex(h[i]));
    }
    lemma_no_underscores(h);
    lemma_short_hash_parses(h);
    assert forall|i: int| 0 <= i < h.len() implies 0 <= #[trigger] digit_value(h[i]) < 16 by {
        assert(is_lower_hex(h[i]));
    }
    lemma_hex_value_bound(h);
    reveal_with_fuel(pow16, 9);
}

/// Completes an incomplete transaction: sender `E`, no fee, its hash, and
/// the signature of the hash with the private exponent `D`. The result
/// carries its own hash and every field that the check of complete
/// transactions reads, so that check rests on its time and signature alone.
pub fn complete_incomplete_transaction(tx: &mut Transaction)
    ensures
        final(tx)@ == complete_tx(old(tx)@),
        !normal_tx_panics(final(tx)@),
        tx_hash(final(tx)@) == final(tx)@.hash.unwrap(),
        signature_ok(final(tx)@, final(tx)@.hash.unwrap()),
        final(tx)@.time == old(tx)@.time,
{
    tx.send = Some(E);
    tx.fee = Some(0);
    let tx_hash = calculate_transaction_hash(tx);
    let hs = str_to_chars(tx_hash.as_str());
    proof {
        lemma_short_hash_parses(hs@);
        lemma_short_hash_is_bigint(hs@);
    }
    let tx_hash_u64 = match parse_unsigned_exec(hs.as_slice(), 16, 0xffff_ffff_ffff_ffff) {
        Some(v) => v,
        None => {
            proof {
                assert(false);
            }
            0
        },
    };
    let tx_sig = rsa(tx_hash_u64, D, N);
    proof {
        lemma_signature_opens(tx_hash_u64 as nat);
    }
    tx.hash = Some(tx_hash);
    tx.sig = Some(tx_sig);
}

/// The contents of a sequence of transactions.
pub open spec fn txs_view(v: Seq<Transaction>) -> Seq<TxView> {
    Seq::new(v.len(), |i: int| v[i]@)
}

/// How checking a list of transactions ends: a panic, a rejection, or
/// acceptance with the last time stamp and the hashes, each after `|`.
pub enum TxsOutcome {
    Panic,
    Invalid,
    Valid { time: Seq<char>, hashes: Seq<char> },
}

/// Checks the transactions of block `block_id` from index `i` on: all
/// complete and signed but the last, a reward; each after its predecessor.
pub open spec fn block_txs_outcome(prev: Seq<char>, txs: Seq<TxView>, block_id: u64, i: int, hashes: Seq<char>) -> TxsOutcome
    decreases txs.len() - i,
{
    if i >= txs.len() || i < 0 {
        TxsOutcome::Valid { time: prev, hashes: hashes }
    } else {
        let t = txs[i];
        if i < txs.len() - 1 {
            if normal_tx_panics(t) {
                TxsOutcome::Panic
            } else if !normal_tx_valid(t, prev) {
                TxsOutcome::Invalid
            } else {
                block_txs_outcome(t.time, txs, block_id, i + 1, hashes + seq!['|'] + t.hash.unwrap())
            }
        } else {
            if reward_tx_panics(t, block_id) {
                TxsOutcome::Panic
            } else if !reward_tx_valid(t, prev, block_id) {
                TxsOutcome::Invalid
            } else {
                block_txs_outcome(t.time, txs, block_id, i + 1, hashes + seq!['|'] + t.hash.unwrap())
            }
        }
    }
}

/// Result of checking a list of transactions.
pub struct TxVerifyResult {
    pub time: String,
    pub transaction_hashes: String,
    pub validity: bool,
}

/// `r` reports `o`: the time and hashes when valid, empty texts otherwise.
pub open spec fn reports(r: TxVerifyResult, o: TxsOutcome) -> bool {
    match o {
        TxsOutcome::Valid { time, hashes } => r.validity && r.time@ == time && r.transaction_hashes@ == hashes,
        _ => !r.validity && r.time@ == Seq::<char>::empty() && r.transaction_hashes@ == Seq::<char>::empty(),
    }
}

/// The result of a rejected list of transactions.
fn invalid_result() -> (r: TxVerifyResult)
    ensures
        !r.validity,
        r.time@ == Seq::<char>::empty(),
        r.transaction_hashes@ == Seq::<char>::empty(),
{
    TxVerifyResult { time: String::new(), transaction_hashes: String::new(), validity: false }
}

/// Checks the transactions of block `block_id`, which follow `time`.
pub fn validate_all_tx(time: &String, tx: &Vec<Transaction>, block_id: u64) -> (r: TxVerifyResult)
    requires
        !(block_txs_outcome(time@, txs_view(tx@), block_id, 0, Seq::empty()) is Panic),
    ensures
        reports(r, block_txs_outcome(time@, txs_view(tx@), block_id, 0, Seq::empty())),
{
    let ghost txs = txs_view(tx@);
    let ghost goal = block_txs_outcome(time@, txs, block_id, 0, Seq::empty());
    let length = tx.len();
    let mut prev_time: String = time.clone();
    let mut all_tx_hashes = String::new();
    let mut i: usize = 0;
    while i < length
        invariant
            txs == txs_view(tx@),
            length == tx@.len(),
            i <= length,
            goal == block_txs_outcome(time@, txs, block_id, 0, Seq::empty()),
            !(goal is Panic),
            goal == block_txs_outcome(prev_time@, txs, block_id, i as int, all_tx_hashes@),
        decreases length - i,
    {
        let cur_tx = &tx[i];
        assert(txs[i as int] == cur_tx@);
        if i < length - 1 {
            if !validate_normal_transaction(cur_tx, &prev_time) {
                return invalid_result();
            }
        } else {
            if !validate_reward_transaction(cur_tx, &prev_time, block_id) {
                return invalid_result();
            }
        }
        let h: &String = match &cur_tx.hash {
            Some(h) => h,
            None => {
                proof {
                    assert(false);
                }
                return invalid_result();
            },
        };
        push_bar(&mut all_tx_hashes);
        all_tx_hashes.append(h.as_str());
        prev_time = cur_tx.time.clone();
        i = i + 1;
    }
    TxVerifyResult { time: prev_time, transaction_hashes: all_tx_hashes, validity: true }
}

/// Checks the new transactions from index `i` on, completing the incomplete
/// ones: complete ones must be valid and signed, incomplete ones valid to
/// complete; each after its predecessor.
pub open spec fn new_txs_outcome(prev: Seq<char>, txs: Seq<TxView>, i: int, hashes: Seq<char>) -> TxsOutcome
    decreases txs.len() - i,
{
    if i >= txs.len() || i < 0 {
        TxsOutcome::Valid { time: prev, hashes: hashes }
    } else {
        let t = txs[i];
        if t.send is Some {
            if normal_tx_panics(t) {
                TxsOutcome::Panic
            } else if !normal_tx_valid(t, prev) {
                TxsOutcome::Invalid
            } else {
                new_txs_outcome(t.time, txs, i + 1, hashes + seq!['|'] + t.hash.unwrap())
            }
        } else {
            if !incomplete_tx_valid(t, prev) {
                TxsOutcome::Invalid
            } else {
                new_txs_outcome(t.time, txs, i + 1, hashes + seq!['|'] + complete_tx(t).hash.unwrap())
            }
        }
    }
}

/// Index at which checking the new transactions from `i` on stops: the
/// first one rejected, or the length.
pub open spec fn new_txs_stop(prev: Seq<char>, txs: Seq<TxView>, i: int) -> int
    decreases txs.len() - i,
{
    if i >= txs.len() || i < 0 {
        txs.len() as int
    } else {
        let t = txs[i];
        if t.send is Some {
            if normal_tx_panics(t) || !normal_tx_valid(t, prev) {
                i
            } else {
                new_txs_stop(t.time, txs, i + 1)
            }
        } else {
            if !incomplete_tx_valid(t, prev) {
                i
            } else {
                new_txs_stop(t.time, txs, i + 1)
            }
        }
    }
}

/// The new transactions after checking: those before the stop that were
/// incomplete are completed.
pub open spec fn new_txs_after(txs: Seq<TxView>, stop: int) -> Seq<TxView> {
    Seq::new(txs.len(), |k: int| if k < stop && txs[k].send is None { complete_tx(txs[k]) } else { txs[k] })
}

/// The stop of the check of new transactions lies between `i` and the end.
proof fn lemma_new_txs_stop_bounds(prev: Seq<char>, txs: Seq<TxView>, i: int)
    requires
        0 <= i,
    ensures
        i <= new_txs_stop(prev, txs, i) || i > txs.len(),
        new_txs_stop(prev, txs, i) <= txs.len(),
    decreases txs.len() - i,
{
    if i < txs.len() {
        lemma_new_txs_stop_bounds(txs[i].time, txs, i + 1);
    }
}

/// A copy of a transaction.
pub fn clone_transaction(t: &Transaction) -> (r: Transaction)
    ensures
        r@ == t@,
{
    Transaction {
        sig: t.sig,
        recv: t.recv,
        fee: t.fee,
        amt: t.amt,
        time: t.time.clone(),
        send: t.send,
        hash: match &t.hash {
            Some(h) => Some(h.clone()),
            None => None,
        },
    }
}

/// A copy of a list of transactions.
pub fn clone_transactions(v: &Vec<Transaction>) -> (r: Vec<Transaction>)
    ensures
        txs_view(r@) == txs_view(v@),
{
    let mut r: Vec<Transaction> = Vec::new();
    let mut i: usize = 0;
    while i < v.len()
        invariant
            i <= v@.len(),
            r@.len() == i,
            forall|k: int| 0 <= k < i ==> #[trigger] r@[k]@ == v@[k]@,
        decreases v@.len() - i,
    {
        r.push(clone_transaction(&v[i]));
        i = i + 1;
    }
    assert(txs_view(r@) =~= txs_view(v@));
    r
}

/// Checks the new transactions, which follow `time`, completing the
/// incomplete ones.
pub fn validate_and_complete_all_new_tx(time: &String, tx: &mut Vec<Transaction>) -> (r: TxVerifyResult)
    requires
        !(new_txs_outcome(time@, txs_view(old(tx)@), 0, Seq::empty()) is Panic),
    ensures
        reports(r, new_txs_outcome(time@, txs_view(old(tx)@), 0, Seq::empty())),
        txs_view(final(tx)@) == new_txs_after(txs_view(old(tx)@), new_txs_stop(time@, txs_view(old(tx)@), 0)),
        forall|k: int|
            0 <= k < new_txs_stop(time@, txs_view(old(tx)@), 0) && txs_view(old(tx)@)[k].send is None ==> {
                &&& !normal_tx_panics(#[trigger] txs_view(final(tx)@)[k])
                &&& signature_ok(txs_view(final(tx)@)[k], txs_view(final(tx)@)[k].hash.unwrap())
            },
{
    let ghost txs = txs_view(tx@);
    let ghost goal = new_txs_outcome(time@, txs, 0, Seq::empty());
    let ghost stop = new_txs_stop(time@, txs, 0);
    proof {
        lemma_new_txs_stop_bounds(time@, txs, 0);
    }
    let length = tx.len();
    let mut prev_time: String = time.clone();
    let mut all_tx_hashes = String::new();
    let mut i: usize = 0;
    while i < length
        invariant
            txs == txs_view(old(tx)@),
            txs.len() == length,
            tx@.len() == length,
            i <= length,
            goal == new_txs_outcome(time@, txs, 0, Seq::empty()),
            stop == new_txs_stop(time@, txs, 0),
            !(goal is Panic),
            goal == new_txs_outcome(prev_time@, txs, i as int, all_tx_hashes@),
            stop == new_txs_stop(prev_time@, txs, i as int),
            i <= stop <= length,
            forall|k: int| 0 <= k < i ==> #[trigger] tx@[k]@ == new_txs_after(txs, stop)[k],
            forall|k: int| i <= k < length ==> #[trigger] tx@[k]@ == txs[k],
            forall|k: int| 0 <= k < i && txs[k].send is None ==> {
                &&& !normal_tx_panics(#[trigger] tx@[k]@)
                &&& signature_ok(tx@[k]@, tx@[k]@.hash.unwrap())
            },
        decreases length - i,
    {
        let ghost before = tx@;
        let cur_send = tx[i].send;
        assert(txs[i as int] == tx@[i as int]@);
        if cur_send.is_some() {
            if !validate_normal_transaction(&tx[i], &prev_time) {
                proof {
                    assert(stop == i);
                    assert(txs_view(tx@) =~= new_txs_after(txs, stop));
                }
                return invalid_result();
            }
        } else {
            if !validate_incomplete_transaction(&tx[i], &prev_time) {
                proof {
                    assert(stop == i);
                    assert(txs_view(tx@) =~= new_txs_after(txs, stop));
                }
                return invalid_result();
            }
            let mut cur = clone_transaction(&tx[i]);
            complete_incomplete_transaction(&mut cur);
            tx.set(i, cur);
            proof {
                lemma_new_txs_stop_bounds(txs[i as int].time, txs, i + 1);
            }
        }
        let h: String = match &tx[i].hash {
            Some(h) => h.clone(),
            None => {
                proof {
                    assert(false);
                }
                return invalid_result();
            },
        };
        push_bar(&mut all_tx_hashes);
        all_tx_hashes.append(h.as_str());
        prev_time = tx[i].time.clone();
        proof {
            lemma_new_txs_stop_bounds(txs[i as int].time, txs, i + 1);
            assert forall|k: int| 0 <= k < length && k != i implies #[trigger] tx@[k] == before[k] by {}
        }
        i = i + 1;
    }
    proof {
        assert(txs_view(tx@) =~= new_txs_after(txs, stop));
    }
    TxVerifyResult { time: prev_time, transaction_hashes: all_tx_hashes, validity: true }
}

/// The reward transaction that closes block `block_id`, ten minutes after `prev_time`.
pub open spec fn reward_tx_spec(prev_time: Seq<char>, block_id: u64) -> TxView {
    let t = TxView {
        sig: None,
        recv: E,
        amt: reward_amount(block_id),
        fee: None,
        time: ten_minutes_later(prev_time),
        send: None,
        hash: Some(Seq::empty()),
    };
    TxView { hash: Some(tx_hash(t)), ..t }
}

/// Appends the reward transaction of block `block_id` and returns its hash.
pub fn add_reward_transaction(tx: &mut Vec<Transaction>, prev_time: &String, block_id: u64) -> (h: String)
    requires
        block_id / 2 < 64,
    ensures
        txs_view(final(tx)@) == txs_view(old(tx)@).push(reward_tx_spec(prev_time@, block_id)),
        h@ == reward_tx_spec(prev_time@, block_id).hash.unwrap(),
{
    let new_time = add_ten_minutes(prev_time);
    let new_reward_amt = AMT >> (block_id / 2);
    let mut reward_tx = Transaction {
        sig: None,
        recv: E,
        amt: new_reward_amt,
        fee: None,
        time: new_time,
        send: None,
        hash: Some(String::new()),
    };
    let reward_tx_hash = calculate_transaction_hash(&reward_tx);
    reward_tx.hash = Some(reward_tx_hash.clone());
    let ghost before = tx@;
    tx.push(reward_tx);
    assert(txs_view(tx@) =~= txs_view(before).push(reward_tx_spec(prev_time@, block_id)));
    reward_tx_hash
}

/// The reward that closes block `block_id` passes the reward check of that
/// block exactly when its time, ten minutes after `prev_time`, follows the
/// time before it.
pub proof fn lemma_reward_tx_checks(prev_time: Seq<char>, block_id: u64, before: Seq<char>)
    requires
        block_id / 2 < 64,
    ensures
        !reward_tx_panics(reward_tx_spec(prev_time, block_id), block_id),
        reward_tx_valid(reward_tx_spec(prev_time, block_id), before, block_id) == time_less(before, ten_minutes_later(prev_time)),
{
    let t = TxView {
        sig: None,
        recv: E,
        amt: reward_amount(block_id),
        fee: None,
        time: ten_minutes_later(prev_time),
        send: None,
        hash: Some(Seq::empty()),
    };
    let r = reward_tx_spec(prev_time, block_id);
    assert(tx_hash_source(r) == tx_hash_source(t));
}

/// A block of transactions, chained to its predecessor by `hash`.
pub struct Block {
    pub all_tx: Vec<Transaction>,
    pub pow: String,
    pub id: u64,
    pub hash: String,
    pub target: String,
}

/// The contents of a block.
pub struct BlockView {
    pub all_tx: Seq<TxView>,
    pub pow: Seq<char>,
    pub id: u64,
    pub hash: Seq<char>,
    pub target: Seq<char>,
}

impl View for Block {
    type V = BlockView;

    open spec fn view(&self) -> BlockView {
        BlockView {
            all_tx: txs_view(self.all_tx@),
            pow: self.pow@,
            id: self.id,
            hash: self.hash@,
            target: self.target@,
        }
    }
}

/// A chain, the target of the next block, and the transactions to put in it.
pub struct Request {
    pub chain: Vec<Block>,
    pub new_target: String,
    pub new_tx: Vec<Transaction>,
}

/// The contents of a request.
pub struct RequestView {
    pub chain: Seq<BlockView>,
    pub new_target: Seq<char>,
    pub new_tx: Seq<TxView>,
}

/// The contents of a sequence of blocks.
pub open spec fn blocks_view(v: Seq<Block>) -> Seq<BlockView> {
    Seq::new(v.len(), |i: int| v[i]@)
}

impl View for Request {
    type V = RequestView;

    open spec fn view(&self) -> RequestView {
        RequestView { chain: blocks_view(self.chain@), new_target: self.new_target@, new_tx: txs_view(self.new_tx@) }
    }
}

/// Hash that the first block follows.
pub open spec fn genesis_prev_hash() -> Seq<char> {
    seq!['0', '0', '0', '0', '0', '0', '0', '0']
}

/// Checks the blocks from index `i` on, following `prev_time` and
/// `prev_hash`: `None` where the check panics, else whether all are valid.
/// A block is valid when its transactions are, its id is its index, and its
/// hash is the one computed and below its target.
pub open spec fn chain_outcome(chain: Seq<BlockView>, i: int, prev_time: Seq<char>, prev_hash: Seq<char>) -> Option<bool>
    decreases chain.len() - i,
{
    if i >= chain.len() || i < 0 {
        Some(true)
    } else {
        let b = chain[i];
        match block_txs_outcome(prev_time, b.all_tx, i as u64, 0, Seq::empty()) {
            TxsOutcome::Panic => None,
            TxsOutcome::Invalid => Some(false),
            TxsOutcome::Valid { time, hashes } => {
                if b.id != i as u64 {
                    Some(false)
                } else {
                    let h = block_hash(b.id, prev_hash, hashes, b.pow);
                    if h != b.hash || !lex_less(h, b.target) {
                        Some(false)
                    } else {
                        chain_outcome(chain, i + 1, time, b.hash)
                    }
                }
            },
        }
    }
}

/// The transaction hashes of `txs`, each after a `|`.
pub open spec fn joined_hashes(txs: Seq<TxView>) -> Seq<char>
    decreases txs.len(),
{
    if txs.len() == 0 {
        Seq::empty()
    } else {
        joined_hashes(txs.drop_last()) + seq!['|'] + txs.last().hash.unwrap()
    }
}

/// `t` is signed by its sender: it names sender and fee, and its signature
/// raised to the sender's key modulo `N` is the value of its hash in hex.
pub open spec fn signed_by_sender(t: TxView) -> bool {
    &&& t.sig is Some && t.fee is Some && t.send is Some && t.hash is Some
    &&& bigint_parse(t.hash.unwrap(), 16) == Some(rsa_spec(t.sig.unwrap() as nat, t.send.unwrap() as nat, N as nat))
}

/// `t` is the unsigned reward of block `block_id`.
pub open spec fn is_block_reward(t: TxView, block_id: u64) -> bool {
    &&& t.sig is None && t.fee is None && t.send is None
    &&& t.amt == reward_amount(block_id)
}

/// What a valid block holds: each transaction carries its own hash and
/// comes after the one before it; all but the last are signed by their
/// senders, and the last is the block's reward.
pub open spec fn block_txs_sound(txs: Seq<TxView>, block_id: u64) -> bool {
    &&& forall|k: int| 0 <= k < txs.len() ==> (#[trigger] txs[k]).hash == Some(tx_hash(txs[k]))
    &&& forall|k: int| 0 <= k < txs.len() - 1 ==> signed_by_sender(#[trigger] txs[k])
    &&& txs.len() > 0 ==> is_block_reward(txs.last(), block_id)
    &&& forall|k: int| 1 <= k < txs.len() ==> time_less(txs[k - 1].time, #[trigger] txs[k].time)
}

/// Checking the transactions of a block from index `i` on, with the hashes
/// of the first `i` already joined: when valid, every later transaction is
/// sound and the hashes joined are those of the whole block.
proof fn lemma_block_txs_valid(prev: Seq<char>, txs: Seq<TxView>, block_id: u64, i: int, acc: Seq<char>)
    requires
        0 <= i <= txs.len(),
        acc == joined_hashes(txs.take(i)),
        i > 0 ==> prev == txs[i - 1].time,
        block_txs_outcome(prev, txs, block_id, i, acc) is Valid,
    ensures
        block_txs_outcome(prev, txs, block_id, i, acc)->hashes == joined_hashes(txs),
        forall|k: int| i <= k < txs.len() ==> (#[trigger] txs[k]).hash == Some(tx_hash(txs[k])),
        forall|k: int| i <= k < txs.len() - 1 ==> signed_by_sender(#[trigger] txs[k]),
        i < txs.len() ==> is_block_reward(txs.last(), block_id),
        forall|k: int| i <= k < txs.len() && k >= 1 ==> time_less(txs[k - 1].time, #[trigger] txs[k].time),
    decreases txs.len() - i,
{
    if i == txs.len() {
        assert(txs.take(i) =~= txs);
    } else {
        let t = txs[i];
        assert(txs.take(i + 1).drop_last() =~= txs.take(i));
        assert(txs.take(i + 1).last() == t);
        lemma_block_txs_valid(t.time, txs, block_id, i + 1, acc + seq!['|'] + t.hash.unwrap());
        if i < txs.len() - 1 {
            lemma_valid_normal_tx_is_signed(t, prev);
        } else {
            lemma_valid_reward_is_hashed(t, prev, block_id);
        }
    }
}

/// The hash a block of a chain follows: the zero hash for the first block,
/// else the hash of the block before.
pub open spec fn hash_before(chain: Seq<BlockView>, j: int) -> Seq<char> {
    if j == 0 {
        genesis_prev_hash()
    } else {
        chain[j - 1].hash
    }
}

/// What a valid chain holds at block `j`: its index as id, a hash below its
/// target that is the hash of its id, the hash of the block before, its
/// transaction hashes and its proof of work, and sound transactions.
pub open spec fn block_sound(chain: Seq<BlockView>, j: int) -> bool {
    &&& chain[j].id == j as u64
    &&& lex_less(chain[j].hash, chain[j].target)
    &&& chain[j].hash == block_hash(j as u64, hash_before(chain, j), joined_hashes(chain[j].all_tx), chain[j].pow)
    &&& block_txs_sound(chain[j].all_tx, j as u64)
}

/// The blocks of a chain checked valid from index `i` on are sound.
proof fn lemma_valid_chain_tail_sound(chain: Seq<BlockView>, i: int, prev_time: Seq<char>, prev_hash: Seq<char>)
    requires
        0 <= i,
        prev_hash == hash_before(chain, i),
        chain_outcome(chain, i, prev_time, prev_hash) == Some(true),
    ensures
        forall|j: int| i <= j < chain.len() ==> #[trigger] block_sound(chain, j),
    decreases chain.len() - i,
{
    if i < chain.len() {
        let b = chain[i];
        assert(b.all_tx.take(0) =~= Seq::<TxView>::empty());
        assert(joined_hashes(Seq::<TxView>::empty()) == Seq::<char>::empty());
        lemma_block_txs_valid(prev_time, b.all_tx, i as u64, 0, Seq::empty());
        match block_txs_outcome(prev_time, b.all_tx, i as u64, 0, Seq::empty()) {
            TxsOutcome::Valid { time, hashes } => {
                lemma_valid_chain_tail_sound(chain, i + 1, time, b.hash);
                assert(block_sound(chain, i));
            },
            _ => {},
        }
    }
}

/// Every block of a valid chain is sound: it carries its index as id, its
/// hash lies below its target and is the hash of its id, of the hash of the
/// block before (zeros for the first), of its transaction hashes and of its
/// proof of work; its transactions carry their own hashes and come in time
/// order; all but the last are signed by their senders, and the last is the
/// block's reward.
pub proof fn lemma_valid_chain_is_sound(chain: Seq<BlockView>)
    requires
        chain_outcome(chain, 0, Seq::empty(), genesis_prev_hash()) == Some(true),
    ensures
        forall|j: int| 0 <= j < chain.len() ==> #[trigger] block_sound(chain, j),
{
    lemma_valid_chain_tail_sound(chain, 0, Seq::empty(), genesis_prev_hash());
}

/// Checks every block of `chain`.
pub fn is_chain_valid(chain: &Vec<Block>) -> (b: bool)
    requires
        chain_outcome(blocks_view(chain@), 0, Seq::empty(), genesis_prev_hash()) is Some,
    ensures
        b == chain_outcome(blocks_view(chain@), 0, Seq::empty(), genesis_prev_hash()).unwrap(),
        b ==> forall|j: int| #![trigger chain@[j]] 0 <= j < chain@.len() ==> chain@[j].id == j as u64 && lex_less(
            chain@[j].hash@,
            chain@[j].target@,
        ),
        b ==> forall|j: int| 0 <= j < chain@.len() ==> #[trigger] block_sound(blocks_view(chain@), j),
{
    let ghost blocks = blocks_view(chain@);
    let ghost goal = chain_outcome(blocks, 0, Seq::empty(), genesis_prev_hash());
    let length = chain.len();
    let mut prev_block_hash = String::from_str("00000000");
    proof {
        reveal_strlit("00000000");
        assert(prev_block_hash@ =~= genesis_prev_hash());
    }
    let mut prev_time = String::new();
    let mut i: usize = 0;
    while i < length
        invariant
            blocks == blocks_view(chain@),
            length == chain@.len(),
            i <= length,
            goal == chain_outcome(blocks, 0, Seq::empty(), genesis_prev_hash()),
            goal is Some,
            goal == chain_outcome(blocks, i as int, prev_time@, prev_block_hash@),
            forall|j: int| #![trigger chain@[j]] 0 <= j < i ==> chain@[j].id == j as u64 && lex_less(chain@[j].hash@, chain@[j].target@),
        decreases length - i,
    {
        let cur_block = &chain[i];
        assert(blocks[i as int] == cur_block@);
        let result = validate_all_tx(&prev_time, &cur_block.all_tx, i as u64);
        let is_block_id_valid: bool = cur_block.id == i as u64;
        if !result.validity || !is_block_id_valid {
            return false;
        }
        let block_hash = calculate_block_hash(cur_block.id, &prev_block_hash, &result.transaction_hashes, &cur_block.pow);
        if !(block_hash == cur_block.hash) || !string_less(block_hash.as_str(), cur_block.target.as_str()) {
            return false;
        }
        assert(lex_less(cur_block.hash@, cur_block.target@));
        assert(chain@[i as int].id == i as u64 && lex_less(chain@[i as int].hash@, chain@[i as int].target@));
        prev_time = result.time;
        prev_block_hash = cur_block.hash.clone();
        i = i + 1;
    }
    proof {
        lemma_valid_chain_is_sound(blocks);
    }
    true
}

/// `request` makes `is_request_valid` panic before it starts the proof of
/// work: checking the chain or the new transactions panics, or the chain is
/// valid but empty, its last block has no transaction, or the next block's
/// reward shift overflows.
pub open spec fn request_panics(r: RequestView) -> bool {
    match chain_outcome(r.chain, 0, Seq::empty(), genesis_prev_hash()) {
        None => true,
        Some(false) => false,
        Some(true) => {
            ||| new_txs_outcome(Seq::empty(), r.new_tx, 0, Seq::empty()) is Panic
            ||| r.chain.len() == 0
            ||| r.chain.last().all_tx.len() == 0
            ||| (r.chain.len() as u64) / 2 >= 64
        },
    }
}

/// The proof of work `i` (in decimal) gives a block hash below `target`.
pub open spec fn pow_ok(id: u64, prev: Seq<char>, txh: Seq<char>, target: Seq<char>, i: int) -> bool {
    lex_less(block_hash(id, prev, txh, dec_digits(i as nat)), target)
}

/// The proof of work `i` mines the next block of `r`.
pub open spec fn next_pow_ok(r: RequestView, i: int) -> bool {
    pow_ok(r.chain.len() as u64, r.chain.last().hash, next_tx_hashes(r), r.new_target, i)
}

/// The new transactions of `r` after checking, completion and the reward.
pub open spec fn completed_new_tx(r: RequestView) -> Seq<TxView> {
    let txs = r.new_tx;
    let stop = new_txs_stop(Seq::empty(), txs, 0);
    let id = r.chain.len() as u64;
    new_txs_after(txs, stop).push(reward_tx_spec(r.chain.last().all_tx.last().time, id))
}

/// Hashes of the transactions of the next block: the new ones, then the reward.
pub open spec fn next_tx_hashes(r: RequestView) -> Seq<char> {
    let id = r.chain.len() as u64;
    match new_txs_outcome(Seq::empty(), r.new_tx, 0, Seq::empty()) {
        TxsOutcome::Valid { time, hashes } => hashes + seq!['|'] + reward_tx_spec(r.chain.last().all_tx.last().time, id).hash.unwrap(),
        _ => Seq::empty(),
    }
}

/// The block that `is_request_valid` appends with proof of work `i`.
pub open spec fn next_block(r: RequestView, i: int) -> BlockView {
    let id = r.chain.len() as u64;
    let pow = dec_digits(i as nat);
    BlockView {
        all_tx: completed_new_tx(r),
        pow: pow,
        id: id,
        hash: block_hash(id, r.chain.last().hash, next_tx_hashes(r), pow),
        target: r.new_target,
    }
}

/// Searches the least proof of work from 0 to `i32::MAX` that puts the
/// block hash below `target`.
pub fn find_proof_of_work(block_id: u64, prev_block_hash: &String, transaction_hashes: &String, target: &String) -> (r: Option<(String, String)>)
    ensures
        match r {
            Some((pow, hash)) => exists|i: int| {
                &&& 0 <= i <= i32::MAX
                &&& #[trigger] pow_ok(block_id, prev_block_hash@, transaction_hashes@, target@, i)
                &&& forall|j: int| 0 <= j < i ==> !pow_ok(block_id, prev_block_hash@, transaction_hashes@, target@, j)
                &&& pow@ == dec_digits(i as nat)
                &&& hash@ == block_hash(block_id, prev_block_hash@, transaction_hashes@, pow@)
                &&& is_short_hex(hash@)
            },
            None => forall|i: int| 0 <= i <= i32::MAX ==> !pow_ok(block_id, prev_block_hash@, transaction_hashes@, target@, i),
        },
{
    let mut i: i32 = 0;
    loop
        invariant
            0 <= i,
            forall|j: int| 0 <= j < i ==> !pow_ok(block_id, prev_block_hash@, transaction_hashes@, target@, j),
        decreases i32::MAX - i,
    {
        let ds = u64_to_decimal(i as u64);
        let pow = chars_to_string(ds.as_slice());
        let new_block_hash = calculate_block_hash(block_id, prev_block_hash, transaction_hashes, &pow);
        if string_less(new_block_hash.as_str(), target.as_str()) {
            assert(pow_ok(block_id, prev_block_hash@, transaction_hashes@, target@, i as int));
            return Some((pow, new_block_hash));
        }
        if i == i32::MAX {
            return None;
        }
        i = i + 1;
    }
}

/// Checks the chain and the new transactions, completes them, adds the
/// reward, mines the next block and appends it. `Some(true)` when the block
/// was appended, `Some(false)` when the request is invalid, and `None` when
/// no proof of work up to `i32::MAX` meets the target. When the new
/// transactions come after the last one of the chain and before the
/// reward, the extended chain passes the checks of a chain again.
pub fn is_request_valid(request: &mut Request) -> (r: Option<bool>)
    requires
        !request_panics(old(request)@),
    ensures
        ({
            let o = old(request)@;
            let f = final(request)@;
            match chain_outcome(o.chain, 0, Seq::empty(), genesis_prev_hash()) {
                Some(false) => r == Some(false) && f == o,
                Some(true) => {
                    &&& f.new_tx == completed_new_tx(o)
                    &&& f.new_target == o.new_target
                    &&& match new_txs_outcome(Seq::empty(), o.new_tx, 0, Seq::empty()) {
                        TxsOutcome::Valid { .. } => {
                            &&& r != Some(false)
                            &&& (r is None <==> forall|i: int| 0 <= i <= i32::MAX ==> !#[trigger] next_pow_ok(o, i))
                            &&& r is None ==> f.chain == o.chain
                            &&& r == Some(true) ==> exists|i: int| {
                                &&& 0 <= i <= i32::MAX
                                &&& #[trigger] next_pow_ok(o, i)
                                &&& forall|j: int| 0 <= j < i ==> !#[trigger] next_pow_ok(o, j)
                                &&& f.chain == o.chain.push(next_block(o, i))
                            }
                        },
                        _ => r == Some(false) && f.chain == o.chain,
                    }
                },
                None => false,
            }
        }),
        r == Some(true) ==> is_short_hex(final(request)@.chain.last().hash),
        r == Some(true) ==> lex_less(final(request)@.chain.last().hash, old(request)@.new_target),
        old(request)@.new_target == zeros(8) || lex_less(old(request)@.new_target, zeros(8)) ==> r != Some(true),
        r == Some(true) && extension_in_time(old(request)@)
            ==> chain_outcome(final(request)@.chain, 0, Seq::empty(), genesis_prev_hash()) == Some(true),
{
    let ghost o = request@;
    if !is_chain_valid(&request.chain) {
        return Some(false);
    }
    let next_block_id = request.chain.len();
    let prev_time = String::new();
    let result = validate_and_complete_all_new_tx(&prev_time, &mut request.new_tx);
    let ghost stop = new_txs_stop(Seq::<char>::empty(), o.new_tx, 0);
    proof {
        assert(prev_time@ =~= Seq::<char>::empty());
        lemma_new_txs_stop_bounds(Seq::<char>::empty(), o.new_tx, 0);
        assert(txs_view(request.new_tx@) == new_txs_after(o.new_tx, stop));
        assert forall|k: int| 0 <= k < stop && o.new_tx[k].send is None implies {
            &&& !normal_tx_panics(#[trigger] complete_tx(o.new_tx[k]))
            &&& signature_ok(complete_tx(o.new_tx[k]), complete_tx(o.new_tx[k]).hash.unwrap())
        } by {
            assert(new_txs_after(o.new_tx, stop)[k] == complete_tx(o.new_tx[k]));
            assert(!normal_tx_panics(txs_view(request.new_tx@)[k]));
        }
    }
    let last_block = &request.chain[next_block_id - 1];
    assert(last_block@ == o.chain.last());
    let last_tx_index = last_block.all_tx.len() - 1;
    let last_block_time = &last_block.all_tx[last_tx_index].time;
    assert(last_block.all_tx@[last_tx_index as int]@ == o.chain.last().all_tx.last());
    let reward_hash = add_reward_transaction(&mut request.new_tx, last_block_time, next_block_id as u64);
    let mut transaction_hashes = result.transaction_hashes;
    push_bar(&mut transaction_hashes);
    transaction_hashes.append(reward_hash.as_str());
    assert(request@.new_tx =~= completed_new_tx(o));
    if !result.validity {
        return Some(false);
    }
    assert(transaction_hashes@ == next_tx_hashes(o));
    let prev_block_hash = &request.chain[next_block_id - 1].hash;
    match find_proof_of_work(next_block_id as u64, prev_block_hash, &transaction_hashes, &request.new_target) {
        None => None,
        Some((pow, new_block_hash)) => {
            let ghost id = next_block_id as u64;
            let ghost w = choose|i: int| {
                &&& 0 <= i <= i32::MAX
                &&& #[trigger] pow_ok(id, prev_block_hash@, transaction_hashes@, request.new_target@, i)
                &&& forall|j: int| 0 <= j < i ==> !#[trigger] pow_ok(id, prev_block_hash@, transaction_hashes@, request.new_target@, j)
                &&& pow@ == dec_digits(i as nat)
                &&& new_block_hash@ == block_hash(id, prev_block_hash@, transaction_hashes@, pow@)
                &&& is_short_hex(new_block_hash@)
            };
            let new_block = Block {
                all_tx: clone_transactions(&request.new_tx),
                pow: pow,
                id: next_block_id as u64,
                hash: new_block_hash,
                target: request.new_target.clone(),
            };
            let ghost before = request.chain@;
            request.chain.push(new_block);
            assert(blocks_view(request.chain@) =~= blocks_view(before).push(request.chain@.last()@));
            proof {
                assert(next_pow_ok(o, w));
                assert forall|j: int| 0 <= j < w implies !#[trigger] next_pow_ok(o, j) by {
                    assert(!pow_ok(id, prev_block_hash@, transaction_hashes@, request.new_target@, j));
                }
                assert(request.chain@.last()@ == next_block(o, w));
                assert(request@.chain == o.chain.push(next_block(o, w)));
                assert(lex_less(new_block_hash@, o.new_target));
                if o.new_target == zeros(8) || lex_less(o.new_target, zeros(8)) {
                    lemma_zero_target_unreachable(new_block_hash@, o.new_target);
                }
                if extension_in_time(o) {
                    lemma_new_txs_stop_full(Seq::empty(), o.new_tx, 0, Seq::empty());
                    assert(completed_signatures_open(o));
                    lemma_extended_chain(o, w);
                }
            }
            Some(true)
        },
    }
}

} // verus!
