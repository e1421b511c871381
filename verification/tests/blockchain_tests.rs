use ccproject::bigdec::add_ten_minutes;
use ccproject::chain::{
    add_reward_transaction, calculate_block_hash, calculate_short_hash, calculate_transaction_hash,
    complete_incomplete_transaction, is_less_than, is_request_valid, validate_incomplete_transaction,
    validate_normal_transaction, validate_reward_transaction, verify_signature, Block, Request, Transaction, D, E, N,
};
use ccproject::precheck::request_would_panic;
use ccproject::reply::{
    decode_reader, malformed_response, read_payload, rejection_response, success_response, DecodeError, Payload,
    Rejection,
};
use ccproject::rsa::rsa;
use serde_json::Value;

const TEST_STRING: &str = "eJyFk9tum0AQht9lr7mYw85heZWqigBDbClxqxg1lSK_ewcCBddJuldoF3a--f7hLXXH5nRO9be31Dw9PYy_58eXvvuVai-SRd3Ji1WpeR5TLbCsKo2n5z7VCcVJCDJsK1Xp2FyOcZhbMnOFdP1epZ8_XmNrOj0dUg1_XwLrilu2OBibl8d-nG5N1-qG6HJ6TDUKcRCwBVepVkpGViRAp9gb-oCiDL4AI6lnL1nvgKc7TAiLaVS-9OfDvx0vfB1k46Y9zEjvNZUwxx1MbOU_ZhCA0OMGl4KbmaYVHfDgOzMEtLjBzQ2IDAeUvRv4WE60D0ScobCtbgqIFQgHBVc35kiyMGc3LYT3xIWyUg4g2dTcaF7z1VZx8H4GmimoCDmia5kieKdAKOY5JiSMrRiwIDgbSfF7BlSPtDFagq_jabXDFmHYxXPb9lyH5JN4FBhIVQ2Ut3haMAn1sosH13Rolw65N-w36TTzN-f-9WHbg2m45639NEfpQgaCRKsqFVcjN2bgxRQL69IEZ1K2fCdLWZkMgxf168BwaLN3hjtZH_zln9bJYjm7ksI0uNc_g4cQeA==";

fn opt_u64(o: &serde_json::Map<String, Value>, k: &str) -> Option<Option<u64>> {
    match o.get(k) {
        None | Some(Value::Null) => Some(None),
        Some(v) => v.as_u64().map(Some),
    }
}

fn opt_string(o: &serde_json::Map<String, Value>, k: &str) -> Option<Option<String>> {
    match o.get(k) {
        None | Some(Value::Null) => Some(None),
        Some(v) => v.as_str().map(|s| Some(s.to_string())),
    }
}

fn tx_of(v: &Value) -> Option<Transaction> {
    let o = v.as_object()?;
    Some(Transaction {
        sig: opt_u64(o, "sig")?,
        recv: o.get("recv")?.as_u64()?,
        fee: opt_u64(o, "fee")?,
        amt: o.get("amt")?.as_u64()?,
        time: o.get("time")?.as_str()?.to_string(),
        send: opt_u64(o, "send")?,
        hash: opt_string(o, "hash")?,
    })
}

fn txs_of(v: &Value) -> Option<Vec<Transaction>> {
    v.as_array()?.iter().map(tx_of).collect()
}

fn block_of(v: &Value) -> Option<Block> {
    let o = v.as_object()?;
    Some(Block {
        all_tx: txs_of(o.get("all_tx")?)?,
        pow: o.get("pow")?.as_str()?.to_string(),
        id: o.get("id")?.as_u64()?,
        hash: o.get("hash")?.as_str()?.to_string(),
        target: o.get("target")?.as_str()?.to_string(),
    })
}

/// Reads a request the way the service's JSON layer does.
fn request_of(text: &str) -> Option<Request> {
    let v: Value = serde_json::from_str(text).ok()?;
    let o = v.as_object()?;
    Some(Request {
        chain: o.get("chain")?.as_array()?.iter().map(block_of).collect::<Option<Vec<Block>>>()?,
        new_target: o.get("new_target")?.as_str()?.to_string(),
        new_tx: txs_of(o.get("new_tx")?)?,
    })
}

fn tx_value(t: &Transaction) -> Value {
    let mut o = serde_json::Map::new();
    if let Some(s) = t.sig {
        o.insert("sig".to_string(), Value::from(s));
    }
    o.insert("recv".to_string(), Value::from(t.recv));
    if let Some(f) = t.fee {
        o.insert("fee".to_string(), Value::from(f));
    }
    o.insert("amt".to_string(), Value::from(t.amt));
    o.insert("time".to_string(), Value::from(t.time.clone()));
    if let Some(s) = t.send {
        o.insert("send".to_string(), Value::from(s));
    }
    if let Some(h) = &t.hash {
        o.insert("hash".to_string(), Value::from(h.clone()));
    }
    Value::Object(o)
}

/// Writes a request the way the service's JSON layer does.
fn request_text(r: &Request) -> String {
    let chain: Vec<Value> = r
        .chain
        .iter()
        .map(|b| {
            let mut o = serde_json::Map::new();
            o.insert("all_tx".to_string(), Value::Array(b.all_tx.iter().map(tx_value).collect()));
            o.insert("pow".to_string(), Value::from(b.pow.clone()));
            o.insert("id".to_string(), Value::from(b.id));
            o.insert("hash".to_string(), Value::from(b.hash.clone()));
            o.insert("target".to_string(), Value::from(b.target.clone()));
            Value::Object(o)
        })
        .collect();
    let mut o = serde_json::Map::new();
    o.insert("chain".to_string(), Value::Array(chain));
    o.insert("new_target".to_string(), Value::from(r.new_target.clone()));
    o.insert("new_tx".to_string(), Value::Array(r.new_tx.iter().map(tx_value).collect()));
    serde_json::to_string(&Value::Object(o)).unwrap()
}

/// The whole service: read, check, extend, answer.
fn validate_encoded_json(encoded_json: &String) -> String {
    let json = match read_payload(encoded_json) {
        Payload::Json(s) => s,
        Payload::Reply(r) => return r,
        Payload::NotUtf8 => panic!("String parsing error"),
    };
    let mut request = match request_of(&json) {
        Some(r) => r,
        None => return rejection_response(Rejection::InvalidFields),
    };
    assert!(!request_would_panic(&request));
    match is_request_valid(&mut request) {
        Some(true) => success_response(&request_text(&request)).unwrap(),
        Some(false) => malformed_response(),
        None => panic!("no proof of work"),
    }
}

fn body_is_invalid(response_str: &String) -> bool {
    response_str.get(27..34) == Some("INVALID")
}

fn validate_and_parse_response(response_str: &String) -> Option<Request> {
    assert_eq!(&response_str[0..27], "CCprojectFor3,851725245278\n");
    let encoded_json = response_str[27..].to_string();
    match read_payload(&encoded_json) {
        Payload::Json(s) => request_of(&s),
        _ => None,
    }
}

#[test]
fn test_valid_json() {
    let response_str = validate_encoded_json(&TEST_STRING.to_string());
    let json_result = validate_and_parse_response(&response_str);
    assert!(json_result.is_some());
}

#[test]
fn test_invalid_json() {
    let response_str = validate_encoded_json(&"eJyFk9tum0AQht9lr7mYw85heZWqigBDbClxqxg1lSK_ewcCBddJuldoF3a--f7hLXXH5nRO9be31Dw9PYy_58eXvvuVai-SRd3Ji1WpeR5TLbCsKo2n5z7VCcVJCDJsK1Xp2FyOcZhbMnOFdP1epZ8_XmNrOj0dUg1_XwLrilu2OBibl8d-nG5N1-qG6HJ6TDUKcRCwBVepVkpGViRAp9gb-oCiDL4AI6lnL1nvgKc7TAiLaVS-9OfDvx0vfB1k46Y9zEjvNZUwxx1MbOU_ZhCA0OMGl4KbmaYVHfDgOzMEtLjBzQ2IDAeUvRv4WE60D0ScobCtbgqIFQgHBVc35kiyMGc3LYT3xIWyUg4g2dTcaF7z1VZx8H4GmimoCDmia5kieKdAKOY5JiSMrRiwIDgbSfF7BlSPtDFagq_jabXDFmHYxXPb9lyH5JN4FBhIVQ2Ut3haMAn1sosH13Rol".to_string());
    assert!(body_is_invalid(&response_str.to_string()));
}

fn test_request() -> Request {
    match read_payload(&TEST_STRING.to_string()) {
        Payload::Json(s) => request_of(&s).expect("request"),
        _ => panic!("unreadable"),
    }
}

#[test]
fn valid_request_gains_a_mined_block() {
    let mut request = test_request();
    assert_eq!(request.chain.len(), 3);
    assert!(!request_would_panic(&request));
    assert_eq!(is_request_valid(&mut request), Some(true));
    assert_eq!(request.chain.len(), 4);
    let block = &request.chain[3];
    assert_eq!(block.id, 3);
    assert_eq!(block.target, "007");
    assert!(block.hash.as_str() < "007");
    assert_eq!(block.hash.len(), 8);
    assert!(block.hash.chars().all(|c| c.is_ascii_digit() || ('a'..='f').contains(&c)));
    assert_eq!(block.all_tx.len(), 3);
    // the incomplete transaction was completed by the server
    let done = &block.all_tx[1];
    assert_eq!(done.send, Some(E));
    assert_eq!(done.fee, Some(0));
    assert_eq!(done.hash.as_deref().map(|h| h.len()), Some(8));
    // the reward closes the block, ten minutes after the last block
    let reward = &block.all_tx[2];
    assert_eq!(reward.amt, 250000000);
    assert_eq!(reward.recv, E);
    assert_eq!(reward.time, "1582522203026667063");
    assert_eq!(reward.hash, Some(calculate_transaction_hash(reward)));
    // the new transactions of the request are the block's
    assert_eq!(request.new_tx.len(), 3);
    // the extended chain is accepted again when sent back
    let mut again = Request { chain: request.chain, new_target: "007".to_string(), new_tx: Vec::new() };
    assert!(!request_would_panic(&again));
    assert_eq!(is_request_valid(&mut again), Some(true));
}

#[test]
fn tampered_chain_is_refused() {
    let mut request = test_request();
    request.chain[1].pow = "203".to_string();
    assert!(!request_would_panic(&request));
    let before = request.chain.len();
    assert_eq!(is_request_valid(&mut request), Some(false));
    assert_eq!(request.chain.len(), before);
}

#[test]
fn new_transaction_out_of_order_is_refused() {
    let mut request = test_request();
    request.new_tx[1].time = "1582521636327155515".to_string();
    assert!(!request_would_panic(&request));
    assert_eq!(is_request_valid(&mut request), Some(false));
    assert_eq!(request.chain.len(), 3);
}

#[test]
fn missing_signature_would_panic() {
    let mut request = test_request();
    request.chain[1].all_tx[0].sig = None;
    assert!(request_would_panic(&request));
    let mut request = test_request();
    request.new_tx[0].hash = Some("xyz".to_string());
    assert!(request_would_panic(&request));
}

#[test]
fn completed_transaction_is_signed_validly() {
    let mut tx = Transaction {
        sig: None,
        recv: 895456882897,
        fee: None,
        amt: 34263741,
        time: "1582521645744862608".to_string(),
        send: None,
        hash: None,
    };
    let prev = "1582521636327155516".to_string();
    assert!(validate_incomplete_transaction(&tx, &prev));
    complete_incomplete_transaction(&mut tx);
    assert!(!validate_incomplete_transaction(&tx, &prev));
    let hash = tx.hash.clone().unwrap();
    assert_eq!(hash, calculate_transaction_hash(&tx));
    assert!(verify_signature(&tx, &hash));
    assert!(validate_normal_transaction(&tx, &prev));
    assert!(!validate_normal_transaction(&tx, &tx.time.clone()));
}

#[test]
fn reward_passes_the_reward_check() {
    let mut txs: Vec<Transaction> = Vec::new();
    let h = add_reward_transaction(&mut txs, &"100".to_string(), 5);
    assert_eq!(txs.len(), 1);
    assert_eq!(txs[0].amt, 500000000 >> 2);
    assert_eq!(txs[0].time, "600000000100");
    assert_eq!(txs[0].hash, Some(h));
    assert!(validate_reward_transaction(&txs[0], &"100".to_string(), 5));
    assert!(!validate_reward_transaction(&txs[0], &"100".to_string(), 6));
}

#[test]
fn time_stamps_order_by_length_then_text() {
    assert!(is_less_than(&"9".to_string(), &"10".to_string()));
    assert!(!is_less_than(&"10".to_string(), &"9".to_string()));
    assert!(is_less_than(&"12".to_string(), &"13".to_string()));
    assert!(!is_less_than(&"13".to_string(), &"13".to_string()));
    assert!(is_less_than(&"".to_string(), &"0".to_string()));
    assert!(is_less_than(&"ab".to_string(), &"b".to_string()) == false);
}

#[test]
fn ten_minutes_are_added_to_integer_times() {
    assert_eq!(add_ten_minutes(&"1".to_string()), "600000000001");
    assert_eq!(add_ten_minutes(&"-5".to_string()), "599999999995");
    assert_eq!(add_ten_minutes(&"-600000000005".to_string()), "-5");
    assert_eq!(add_ten_minutes(&"+7".to_string()), "600000000007");
    assert_eq!(add_ten_minutes(&"1_000".to_string()), "600000001000");
    assert_eq!(add_ten_minutes(&"99999999999999999999999".to_string()), "100000000000599999999999");
    assert_eq!(add_ten_minutes(&"abc".to_string()), "N\\A");
    assert_eq!(add_ten_minutes(&"".to_string()), "N\\A");
    assert_eq!(add_ten_minutes(&"_1".to_string()), "N\\A");
}

#[test]
fn rsa_is_modular_power() {
    assert_eq!(rsa(2, 10, 1000), 24);
    assert_eq!(rsa(5, 0, 7), 1);
    assert_eq!(rsa(123456789, 65537, 1561906343821), {
        let mut r: u128 = 1;
        for _ in 0..65537u32 {
            r = r * 123456789 % 1561906343821;
        }
        r as u64
    });
}

#[test]
fn hashes_are_sha256_prefixes() {
    assert_eq!(calculate_short_hash(&"abc".to_string()), "ba7816bf");
    assert_eq!(calculate_short_hash(&"".to_string()), "e3b0c442");
    let tx = Transaction {
        sig: None,
        recv: 895456882897,
        fee: None,
        amt: 500000000,
        time: "1582520400000000000".to_string(),
        send: None,
        hash: None,
    };
    assert_eq!(calculate_transaction_hash(&tx), "4b277860");
    let h = calculate_block_hash(0, &"00000000".to_string(), &"|4b277860".to_string(), &"0".to_string());
    assert_eq!(h, "07c98747");
}

#[test]
fn rejections_name_their_cause() {
    assert_eq!(malformed_response(), "CCprojectFor3,851725245278\nINVALID");
    assert_eq!(
        rejection_response(Rejection::UrlDecoding),
        "CCprojectFor3,851725245278\nINVALID||0, URL decoding error"
    );
    assert_eq!(
        rejection_response(Rejection::JsonDecoding),
        "CCprojectFor3,851725245278\nINVALID||1, JSON decoding error"
    );
    assert_eq!(
        rejection_response(Rejection::InvalidFields),
        "CCprojectFor3,851725245278\nINVALID||2, invalid fields in JSON"
    );
    match read_payload(&"%%%".to_string()) {
        Payload::Reply(r) => assert_eq!(r, rejection_response(Rejection::UrlDecoding)),
        _ => panic!("expected a rejection"),
    }
    match read_payload(&"AAAA".to_string()) {
        Payload::Reply(r) => assert_eq!(r, rejection_response(Rejection::JsonDecoding)),
        _ => panic!("expected a rejection"),
    }
    assert_eq!(validate_encoded_json(&"eJyrVkrOSMzMU7KKjq0FABshBDI=".to_string()), rejection_response(Rejection::InvalidFields));
}

#[test]
fn answer_reads_back_as_its_json() {
    let json = "{\"chain\":[],\"note\":\"é\"}".to_string();
    let answer = success_response(&json).unwrap();
    assert!(answer.starts_with("CCprojectFor3,851725245278\n"));
    assert_ne!(&answer[27..], json);
    match read_payload(&answer[27..].to_string()) {
        Payload::Json(s) => assert_eq!(s, json),
        _ => panic!("unreadable answer"),
    }
}

#[test]
fn zlib_payloads_are_inflated() {
    // zlib stream of "hi"
    let bytes = vec![0x78, 0x9c, 0xcb, 0xc8, 0x04, 0x00, 0x01, 0x3b, 0x00, 0xd2];
    match decode_reader(bytes) {
        Ok(s) => assert_eq!(s, "hi"),
        Err(_) => panic!("valid stream"),
    }
    assert!(matches!(decode_reader(vec![1, 2, 3]), Err(DecodeError::Inflate)));
    // zlib stream of the bytes ff fe
    let bytes = vec![0x78, 0x9c, 0xfb, 0xff, 0x0f, 0x00, 0x02, 0xfe, 0x01, 0xfe];
    assert!(matches!(decode_reader(bytes), Err(DecodeError::NotUtf8)));
}

fn resubmit(request: Request) -> Option<bool> {
    let mut again = Request { chain: request.chain, new_target: "007".to_string(), new_tx: Vec::new() };
    assert!(!request_would_panic(&again));
    is_request_valid(&mut again)
}

fn incomplete_at(time: &str) -> Transaction {
    Transaction {
        sig: None,
        recv: 895456882897,
        fee: None,
        amt: 34263741,
        time: time.to_string(),
        send: None,
        hash: None,
    }
}

#[test]
fn transaction_before_the_chain_end_is_accepted_but_not_kept_valid() {
    let mut request = test_request();
    request.new_tx = vec![incomplete_at("1582521000000000000")];
    assert!(!request_would_panic(&request));
    assert_eq!(is_request_valid(&mut request), Some(true));
    assert_eq!(resubmit(request), Some(false));
}

#[test]
fn transaction_after_the_reward_time_is_accepted_but_not_kept_valid() {
    let mut request = test_request();
    request.new_tx = vec![incomplete_at("1582529999999999999")];
    assert_eq!(is_request_valid(&mut request), Some(true));
    assert_eq!(resubmit(request), Some(false));
}

#[test]
fn transaction_in_time_is_kept_valid() {
    let mut request = test_request();
    request.new_tx = vec![incomplete_at("1582521700000000000"), incomplete_at("1582521800000000000")];
    assert_eq!(is_request_valid(&mut request), Some(true));
    assert_eq!(resubmit(request), Some(true));
}

#[test]
fn the_key_opens_what_it_signs() {
    for m in [0u64, 1, 2, 0xffff_ffff, 123456789, 1231697, 1268093, N - 1] {
        assert_eq!(rsa(rsa(m, D, N), E, N), m);
    }
}
