use brc20_indexer::btc::{Block, ScriptPubKey, Transaction, Vin, Vout};
use brc20_indexer::btc_utils::address_from_scriptpubkey;
use brc20_indexer::events::InscribedTransferLocation;
use brc20_indexer::store::PendingTransferStore;
use brc20_indexer::ord::envelope::RawEnvelope;
use brc20_indexer::{map_brc20_events, map_resolve_transfers, store_balances,
    store_inscribed_transfers, store_transferable_balances};

const SPK_A: &str = "76a914534e48e9a49ce7ebf8d84c8313e4edfa48852fa188ac";
const SPK_B: &str = "76a914010101010101010101010101010101010101010188ac";

fn to_hex(bytes: &[u8]) -> String {
    let mut s = String::new();
    for b in bytes {
        s.push_str(&format!("{:02x}", b));
    }
    s
}

/// The reveal script carrying one inscription: content type text/plain and
/// the given body.
fn envelope_script(body: &[u8]) -> Vec<u8> {
    let mut s: Vec<u8> = Vec::new();
    s.push(0x00); // push empty
    s.push(0x63); // branch opcode
    s.extend_from_slice(&[0x03, 0x6f, 0x72, 0x64]); // protocol marker
    s.extend_from_slice(&[0x01, 0x01]); // content type tag
    let mime = b"text/plain;charset=utf-8";
    s.push(mime.len() as u8);
    s.extend_from_slice(mime);
    s.push(0x00); // body marker
    assert!(body.len() <= 255);
    if body.len() > 75 {
        s.push(0x4c);
    }
    s.push(body.len() as u8);
    s.extend_from_slice(body);
    s.push(0x68); // closing opcode
    s
}

/// A raw segwit transaction with one input revealing `script` and one
/// 100-sat output locked by SPK_A.
fn raw_reveal_tx(script: &[u8]) -> Vec<u8> {
    let mut v: Vec<u8> = Vec::new();
    v.extend_from_slice(&[0x02, 0x00, 0x00, 0x00]); // version
    v.extend_from_slice(&[0x00, 0x01]); // segwit marker and flag
    v.push(0x01); // one input
    v.extend_from_slice(&[0x11; 32]); // previous txid
    v.extend_from_slice(&[0x00, 0x00, 0x00, 0x00]); // previous output index
    v.push(0x00); // empty unlocking script
    v.extend_from_slice(&[0xff, 0xff, 0xff, 0xff]); // sequence
    v.push(0x01); // one output
    v.extend_from_slice(&100u64.to_le_bytes()); // 100 sats
    let spk = [
        0x76, 0xa9, 0x14, 0x53, 0x4e, 0x48, 0xe9, 0xa4, 0x9c, 0xe7, 0xeb, 0xf8, 0xd8, 0x4c, 0x83,
        0x13, 0xe4, 0xed, 0xfa, 0x48, 0x85, 0x2f, 0xa1, 0x88, 0xac,
    ];
    v.push(spk.len() as u8);
    v.extend_from_slice(&spk);
    // witness: the revealed script and a control block
    v.push(0x02);
    assert!(script.len() <= 0xfc);
    v.push(script.len() as u8);
    v.extend_from_slice(script);
    v.push(0x21);
    v.push(0xc0);
    v.extend_from_slice(&[0x02; 32]);
    v.extend_from_slice(&[0x00, 0x00, 0x00, 0x00]); // locktime
    v
}

fn spk(hex: &str) -> Option<ScriptPubKey> {
    Some(ScriptPubKey { hex: hex.to_string(), address: String::new() })
}

fn reveal_block(body: &[u8], txid: &str) -> Block {
    let script = envelope_script(body);
    let raw = raw_reveal_tx(&script);
    let t1 = Transaction {
        hex: to_hex(&raw),
        txid: txid.to_string(),
        vin: vec![Vin {
            txid: "11".repeat(32),
            vout: 0,
            script_sig: None,
            sequence: 0xffffffff,
            txinwitness: Vec::new(),
            coinbase: String::new(),
        }],
        vout: vec![Vout { value: 100, n: 0, script_pub_key: spk(SPK_A) }],
    };
    Block { tx: vec![t1] }
}

fn spend_block(from_txid: &str) -> Block {
    let t2 = Transaction {
        hex: "00".to_string(),
        txid: "t2".to_string(),
        vin: vec![Vin {
            txid: from_txid.to_string(),
            vout: 0,
            script_sig: None,
            sequence: 0xffffffff,
            txinwitness: Vec::new(),
            coinbase: String::new(),
        }],
        vout: vec![Vout { value: 150, n: 0, script_pub_key: spk(SPK_B) }],
    };
    Block { tx: vec![t2] }
}

fn fold(deltas: &[brc20_indexer::store::BalanceDelta], key: &str) -> i128 {
    let mut total: i128 = 0;
    for d in deltas {
        if d.key == key {
            let amount: i128 = d.amount.parse().unwrap();
            total += if d.negative { -amount } else { amount };
        }
    }
    total
}

// The end-to-end scenario: a transfer inscribed in one block and executed by
// the spend of its UTXO in the next, with the balance movements it implies.
#[test]
fn end_to_end_transfer() {
    let addr_a = address_from_scriptpubkey(SPK_A).unwrap();
    let addr_b = address_from_scriptpubkey(SPK_B).unwrap();

    let block1 = reveal_block(br#"{"p":"brc-20","op":"transfer","tick":"ordi","amt":"100"}"#, "t1");
    let events1 = map_brc20_events(&block1);
    assert_eq!(events1.deploys.len(), 0);
    assert_eq!(events1.mints.len(), 0);
    assert_eq!(events1.inscribed_transfers.len(), 1);
    let t = &events1.inscribed_transfers[0];
    assert_eq!(t.token, "ordi");
    assert_eq!(t.amount, "100");
    assert_eq!(t.from, addr_a);
    assert_eq!(t.utxo, "t1:0");
    assert_eq!(t.offset, 0);
    assert_eq!(t.utxo_amount, 100);

    let mut pending = PendingTransferStore::new();
    store_inscribed_transfers(&events1, &mut pending);
    let deltas1 = store_balances(&events1);
    let tdeltas1 = store_transferable_balances(&events1);

    let block2 = spend_block("t1");
    let base2 = map_brc20_events(&block2);
    assert_eq!(base2.inscribed_transfers.len(), 0);
    let events2 = map_resolve_transfers(&block2, base2, &pending);
    assert_eq!(events2.executed_transfers.len(), 1);
    let x = &events2.executed_transfers[0];
    assert_eq!(x.token, "ordi");
    assert_eq!(x.from, addr_a);
    assert_eq!(x.to, addr_b);
    assert_eq!(x.amount, "100");

    let deltas2 = store_balances(&events2);
    let tdeltas2 = store_transferable_balances(&events2);

    let key_a = format!("ordi:{}", addr_a);
    let key_b = format!("ordi:{}", addr_b);
    let mut all = deltas1.clone();
    all.extend(deltas2.clone());
    let mut allt = tdeltas1.clone();
    allt.extend(tdeltas2.clone());
    assert_eq!(fold(&all, &key_a), -100);
    assert_eq!(fold(&all, &key_b), 100);
    assert_eq!(fold(&allt, &key_a), 0);
    assert_eq!(fold(&allt, &key_b), 0);
}

// Reprocessing both blocks against freshly reset prior state yields the very
// same batches and the same store contents.
#[test]
fn reprocess_is_identical() {
    let block1 = reveal_block(br#"{"p":"brc-20","op":"transfer","tick":"ordi","amt":"100"}"#, "t1");
    let block2 = spend_block("t1");

    let run = || {
        let events1 = map_brc20_events(&block1);
        let mut pending = PendingTransferStore::new();
        store_inscribed_transfers(&events1, &mut pending);
        let base2 = map_brc20_events(&block2);
        let events2 = map_resolve_transfers(&block2, base2, &pending);
        let deltas = store_balances(&events2);
        let stored = pending.get_at(&"t1:0".to_string()).cloned();
        (events1, events2, deltas, stored)
    };
    let first = run();
    let second = run();
    assert_eq!(first.0, second.0);
    assert_eq!(first.1, second.1);
    assert_eq!(first.2, second.2);
    assert_eq!(first.3, second.3);
}

// A witness script without the protocol marker yields no envelope and hence
// no event.
#[test]
fn no_marker_no_envelopes() {

    // a script pushing unrelated data between branch opcodes
    let script: Vec<u8> = vec![0x00, 0x63, 0x03, 0x6f, 0x72, 0x63, 0x68];
    let envs = RawEnvelope::from_tapscript(&script, 0);
    assert_eq!(envs.len(), 0);

    // a transaction carrying the content-type marker in its hex but no
    // protocol marker in the witness
    let mut s: Vec<u8> = vec![0x00, 0x63];
    let mime = b"text/plain;charset=utf-8";
    s.push(mime.len() as u8);
    s.extend_from_slice(mime);
    s.push(0x68);
    let raw = raw_reveal_tx(&s);
    let block = Block {
        tx: vec![Transaction {
            hex: to_hex(&raw),
            txid: "t3".to_string(),
            vin: vec![Vin {
                txid: "22".repeat(32),
                vout: 0,
                script_sig: None,
                sequence: 0,
                txinwitness: Vec::new(),
                coinbase: String::new(),
            }],
            vout: vec![Vout { value: 100, n: 0, script_pub_key: spk(SPK_A) }],
        }],
    };
    let events = map_brc20_events(&block);
    assert_eq!(events.deploys.len(), 0);
    assert_eq!(events.mints.len(), 0);
    assert_eq!(events.inscribed_transfers.len(), 0);
}

// A pending transfer whose stored offset lies past the spending
// transaction's total output value resolves to nothing: the sat left the
// tracked set.
#[test]
fn unresolved_when_offset_exceeds_outputs() {
    let mut pending = PendingTransferStore::new();
    pending.set(
        "t1:0".to_string(),
        InscribedTransferLocation {
            id: String::new(),
            token: "ordi".to_string(),
            from: "a".to_string(),
            amount: "100".to_string(),
            offset: 500,
            utxo_amount: 600,
        },
    );
    let block2 = spend_block("t1");
    let base = map_brc20_events(&block2);
    let events = map_resolve_transfers(&block2, base, &pending);
    assert_eq!(events.executed_transfers.len(), 0);
}

// Only the spending transaction's first input is held against the store: a
// pending transfer spent through the second input stays unresolved.
#[test]
fn only_first_input_resolves() {
    let mut pending = PendingTransferStore::new();
    pending.set(
        "t1:0".to_string(),
        InscribedTransferLocation {
            id: String::new(),
            token: "ordi".to_string(),
            from: "a".to_string(),
            amount: "100".to_string(),
            offset: 0,
            utxo_amount: 100,
        },
    );
    let other = Vin {
        txid: "other".to_string(),
        vout: 0,
        script_sig: None,
        sequence: 0,
        txinwitness: Vec::new(),
        coinbase: String::new(),
    };
    let spender = Vin {
        txid: "t1".to_string(),
        vout: 0,
        script_sig: None,
        sequence: 0,
        txinwitness: Vec::new(),
        coinbase: String::new(),
    };
    let tx = Transaction {
        hex: "00".to_string(),
        txid: "t2".to_string(),
        vin: vec![other, spender],
        vout: vec![Vout { value: 150, n: 0, script_pub_key: spk(SPK_B) }],
    };
    let block = Block { tx: vec![tx] };
    let base = map_brc20_events(&block);
    let events = map_resolve_transfers(&block, base, &pending);
    assert_eq!(events.executed_transfers.len(), 0);
}

// A deploy event flows through extraction with its fields and deployer.
#[test]
fn deploy_extraction() {
    let addr_a = address_from_scriptpubkey(SPK_A).unwrap();
    let block = reveal_block(
        br#"{"p":"brc-20","op":"deploy","tick":"ordi","max":"21000000","lim":"1000","dec":8}"#,
        "t6",
    );
    let events = map_brc20_events(&block);
    assert_eq!(events.deploys.len(), 1);
    let d = &events.deploys[0];
    assert_eq!(d.symbol, "ordi");
    assert_eq!(d.max_supply, "21000000");
    assert_eq!(d.mint_limit.as_deref(), Some("1000"));
    assert_eq!(d.decimals, 8);
    assert_eq!(d.deployer, addr_a);
    assert_eq!(d.mint_limit(), "1000");
}

// An invalid event is gated out: a mint of amount zero never reaches the
// batch.
#[test]
fn invalid_event_gated() {

    let block = reveal_block(br#"{"p":"brc-20","op":"mint","tick":"ordi","amt":"0"}"#, "t4");
    let events = map_brc20_events(&block);
    assert_eq!(events.mints.len(), 0);

    let block = reveal_block(br#"{"p":"brc-20","op":"mint","tick":"ordi","amt":"5"}"#, "t5");
    let events = map_brc20_events(&block);
    assert_eq!(events.mints.len(), 1);
    assert_eq!(events.mints[0].amount, "5");
    assert_eq!(events.mints[0].token, "ordi");
}
