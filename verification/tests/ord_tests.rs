use brc20_indexer::btc_utils::inscriptions_from_tapscripts;
use brc20_indexer::hex_util::decode_hex;
use brc20_indexer::ord::envelope::{ParsedEnvelope, RawEnvelope};
use brc20_indexer::ord::inscription::Inscription;
use brc20_indexer::ord::inscription_id::{InscriptionId, ParseError};
use brc20_indexer::events::InscribedTransferLocation;
use brc20_indexer::store::PendingTransferStore;
use brc20_indexer::btc::{Transaction, Vout};

fn ins(content_type: &[u8], body: &[u8]) -> Inscription {
    Inscription::new(Some(content_type.to_vec()), Some(body.to_vec()))
}

// Round trip: an inscription built into a reveal script and parsed back
// through the envelope parser and decoder comes out unchanged.
#[test]
fn reveal_round_trip() {
    let mut i = ins(b"text/plain;charset=utf-8", b"hello");
    i.content_encoding = Some(b"br".to_vec());
    i.metaprotocol = Some(b"brc-20".to_vec());
    i.parent = Some(vec![7u8; 32]);
    i.pointer = Some(vec![1u8]);
    i.metadata = Some(b"meta".to_vec());
    let script = i.append_reveal_script(Vec::new());
    let parsed = ParsedEnvelope::from_tapscript(&script, 0);
    assert_eq!(parsed.len(), 1);
    assert_eq!(parsed[0].payload, i);
    assert_eq!(parsed[0].input, 0);
    assert_eq!(parsed[0].offset, 0);
    assert!(!parsed[0].pushnum);
    assert!(!parsed[0].stutter);
}

// A long body round-trips through its chunks; an absent body stays absent.
#[test]
fn reveal_round_trip_edges() {
    let long = vec![0xabu8; 1300];
    let i = ins(b"text/plain", &long);
    let script = i.append_reveal_script(Vec::new());
    let parsed = ParsedEnvelope::from_tapscript(&script, 3);
    assert_eq!(parsed.len(), 1);
    assert_eq!(parsed[0].payload, i);
    assert_eq!(parsed[0].input, 3);

    let i = Inscription::new(Some(b"text/plain".to_vec()), None);
    let script = i.append_reveal_script(Vec::new());
    let parsed = ParsedEnvelope::from_tapscript(&script, 0);
    assert_eq!(parsed.len(), 1);
    assert_eq!(parsed[0].payload, i);
}

// A field long enough for each of the longer push encodings still round
// trips; an oversized metadata field is split, so the decoder flags the
// repeat and joins the chunks back.
#[test]
fn longer_push_encodings() {
    let i = ins(&[0x55u8; 100], b"x");
    let script = i.append_reveal_script(Vec::new());
    let parsed = ParsedEnvelope::from_tapscript(&script, 0);
    assert_eq!(parsed[0].payload, i);

    let i = ins(&[0x56u8; 400], b"x");
    let script = i.append_reveal_script(Vec::new());
    let parsed = ParsedEnvelope::from_tapscript(&script, 0);
    assert_eq!(parsed[0].payload, i);

    let mut i = ins(b"t", b"x");
    i.metadata = Some(vec![0x57u8; 600]);
    let script = i.append_reveal_script(Vec::new());
    let parsed = ParsedEnvelope::from_tapscript(&script, 0);
    assert!(parsed[0].payload.duplicate_field);
    assert_eq!(parsed[0].payload.metadata, i.metadata);
}

// A push running past the end of the script yields no envelope at all.
#[test]
fn truncated_push_yields_nothing() {
    let script: Vec<u8> = vec![0x00, 0x63, 0x03, 0x6f, 0x72, 0x64, 0x4c, 0x20, 0x01];
    let envs = RawEnvelope::from_tapscript(&script, 0);
    assert_eq!(envs.len(), 0);
}

// A small-number opcode inside an envelope stands for its canonical byte and
// marks the envelope.
#[test]
fn pushnum_shorthand() {
    let script: Vec<u8> = vec![0x00, 0x63, 0x03, 0x6f, 0x72, 0x64, 0x51, 0x68];
    let envs = RawEnvelope::from_tapscript(&script, 0);
    assert_eq!(envs.len(), 1);
    assert_eq!(envs[0].payload, vec![vec![1u8]]);
    assert!(envs[0].pushnum);
}

// A failed opening directly followed by another empty push marks the next
// envelope as a stutter.
#[test]
fn stutter_marks_next_candidate() {
    let mut script: Vec<u8> = vec![0x00];
    script.extend_from_slice(&[0x00, 0x63, 0x03, 0x6f, 0x72, 0x64, 0x68]);
    let envs = RawEnvelope::from_tapscript(&script, 0);
    assert_eq!(envs.len(), 1);
    assert!(envs[0].stutter);
    assert_eq!(envs[0].offset, 0);
}

// The decoder raises its flags on duplicated, dangling and unknown even
// fields, and never fails.
#[test]
fn decoder_flags() {
    // content type twice: a duplicate
    let script: Vec<u8> = vec![
        0x00, 0x63, 0x03, 0x6f, 0x72, 0x64, 0x01, 0x01, 0x01, 0x61, 0x01, 0x01, 0x01, 0x62, 0x68,
    ];
    let parsed = ParsedEnvelope::from_tapscript(&script, 0);
    assert_eq!(parsed.len(), 1);
    assert!(parsed[0].payload.duplicate_field);
    assert_eq!(parsed[0].payload.content_type.as_deref(), Some(&b"a"[..]));

    // a lone trailing key: incomplete
    let script: Vec<u8> = vec![0x00, 0x63, 0x03, 0x6f, 0x72, 0x64, 0x01, 0x01, 0x68];
    let parsed = ParsedEnvelope::from_tapscript(&script, 0);
    assert!(parsed[0].payload.incomplete_field);

    // an unknown tag with an even first byte: flagged
    let script: Vec<u8> = vec![0x00, 0x63, 0x03, 0x6f, 0x72, 0x64, 0x01, 0x08, 0x01, 0x61, 0x68];
    let parsed = ParsedEnvelope::from_tapscript(&script, 0);
    assert!(parsed[0].payload.unrecognized_even_field);

    // an unknown odd tag: ignorable
    let script: Vec<u8> = vec![0x00, 0x63, 0x03, 0x6f, 0x72, 0x64, 0x01, 0x0b, 0x01, 0x61, 0x68];
    let parsed = ParsedEnvelope::from_tapscript(&script, 0);
    assert!(!parsed[0].payload.unrecognized_even_field);
}

// The pointer field reads as a little-endian number and the shortest bytes
// for a number read back as it.
#[test]
fn pointer_round_trip() {
    let mut i = Inscription::new(None, None);
    i.pointer = Some(Inscription::pointer_value(0));
    assert_eq!(i.pointer(), Some(0));
    i.pointer = Some(Inscription::pointer_value(5));
    assert_eq!(i.pointer(), Some(5));
    i.pointer = Some(Inscription::pointer_value(0x0102030405060708));
    assert_eq!(i.pointer(), Some(0x0102030405060708));
    // a ninth nonzero byte refuses the field
    i.pointer = Some(vec![0, 0, 0, 0, 0, 0, 0, 0, 1]);
    assert_eq!(i.pointer(), None);
    i.pointer = Some(vec![2, 1]);
    assert_eq!(i.pointer(), Some(258));
    i.pointer = None;
    assert_eq!(i.pointer(), None);
}

// The body and content accessors.
#[test]
fn accessors() {
    let i = ins(b"text/plain", b"abc");
    assert_eq!(i.content_length(), Some(3));
    assert_eq!(i.body().map(|b| b.as_slice()), Some(&b"abc"[..]));
    assert_eq!(i.content_type().as_deref(), Some("text/plain"));
    let mut i = ins(&[0xff, 0xfe], b"abc");
    assert_eq!(i.content_type(), None);
    i.metaprotocol = Some(b"brc-20".to_vec());
    assert_eq!(i.metaprotocol().as_deref(), Some("brc-20"));
    i.content_encoding = Some(b"gzip".to_vec());
    assert_eq!(i.content_encoding().as_deref(), Some("gzip"));
    i.content_encoding = Some(vec![0x01]);
    assert_eq!(i.content_encoding(), None);
    assert_eq!(i.clone().into_body(), Some(b"abc".to_vec()));
}

// Reading an inscription id from text, and each way it can fail.
#[test]
fn inscription_id_from_str() {
    let txid_hex = "0123456789abcdef0123456789abcdef0123456789abcdef0123456789abcdef";
    let id = InscriptionId::from_str(&format!("{}i7", txid_hex)).unwrap();
    assert_eq!(id.index, 7);
    assert_eq!(id.txid[0], 0xef);
    assert_eq!(id.txid[31], 0x01);
    assert!(matches!(
        InscriptionId::from_str("short"),
        Err(ParseError::Length(5))
    ));
    assert!(matches!(
        InscriptionId::from_str(&format!("{}x7", txid_hex)),
        Err(ParseError::Separator('x'))
    ));
    assert!(matches!(
        InscriptionId::from_str(&format!("{}i7\u{00e9}", txid_hex)),
        Err(ParseError::Character('\u{00e9}'))
    ));
    let bad = "zz23456789abcdef0123456789abcdef0123456789abcdef0123456789abcdef";
    assert!(matches!(
        InscriptionId::from_str(&format!("{}i7", bad)),
        Err(ParseError::Txid)
    ));
    assert!(matches!(
        InscriptionId::from_str(&format!("{}ix", txid_hex)),
        Err(ParseError::Index)
    ));
    assert!(matches!(
        InscriptionId::from_str(&format!("{}i4294967296", txid_hex)),
        Err(ParseError::Index)
    ));
}

// The parent field round-trips through an id and back.
#[test]
fn parent_round_trip() {
    let id = InscriptionId { txid: vec![9u8; 32], index: 772 };
    let mut i = Inscription::new(None, None);
    i.parent = Some(id.parent_value());
    let back = i.parent().unwrap();
    assert_eq!(back.txid, id.txid);
    assert_eq!(back.index, id.index);

    // a short index encoding ending in zero is refused
    i.parent = Some([vec![9u8; 32], vec![1, 0]].concat());
    assert!(i.parent().is_none());
    // the full four-byte form may end in zero
    i.parent = Some([vec![9u8; 32], vec![1, 0, 0, 0]].concat());
    assert_eq!(i.parent().unwrap().index, 1);
    // too short or too long is refused
    i.parent = Some(vec![9u8; 31]);
    assert!(i.parent().is_none());
    i.parent = Some(vec![9u8; 37]);
    assert!(i.parent().is_none());
    assert_eq!(InscriptionId::default().index, 0);
}

// Inscriptions of several inputs come out in input order, inputs without a
// revealed script contributing none.
#[test]
fn inscriptions_across_inputs() {
    let first: Vec<u8> = vec![0x00, 0x63, 0x03, 0x6f, 0x72, 0x64, 0x00, 0x01, 0x61, 0x68];
    let second: Vec<u8> = vec![0x00, 0x63, 0x03, 0x6f, 0x72, 0x64, 0x00, 0x01, 0x62, 0x68];
    let scripts = vec![Some(first), None, Some(second)];
    let inscriptions = inscriptions_from_tapscripts(&scripts);
    assert_eq!(inscriptions.len(), 2);
    assert_eq!(inscriptions[0].body.as_deref(), Some(&b"a"[..]));
    assert_eq!(inscriptions[1].body.as_deref(), Some(&b"b"[..]));
}

// Hex decoding: both cases accepted, malformed input refused.
#[test]
fn hex_decoding() {
    assert_eq!(decode_hex("0aFf"), Some(vec![0x0a, 0xff]));
    assert_eq!(decode_hex(""), Some(Vec::new()));
    assert_eq!(decode_hex("abc"), None);
    assert_eq!(decode_hex("zz"), None);
}

// The pending store: the latest write under a key wins, unknown keys miss.
#[test]
fn pending_store() {

    let loc = |id: &str| InscribedTransferLocation {
        id: id.to_string(),
        token: "ordi".to_string(),
        from: "a".to_string(),
        amount: "1".to_string(),
        offset: 0,
        utxo_amount: 1,
    };
    let mut s = PendingTransferStore::new();
    assert!(s.get_at(&"k".to_string()).is_none());
    s.set("k".to_string(), loc("one"));
    s.set("k2".to_string(), loc("two"));
    s.set("k".to_string(), loc("three"));
    assert_eq!(s.get_at(&"k".to_string()).unwrap().id, "three");
    assert_eq!(s.get_at(&"k2".to_string()).unwrap().id, "two");
    assert!(s.get_at(&"missing".to_string()).is_none());
}

// The sat-offset resolution over a list of outputs: each offset lands in the
// output whose range holds it, the total lands nowhere.
#[test]
fn nth_sat_resolution() {

    let tx = Transaction {
        hex: String::new(),
        txid: "t".to_string(),
        vin: Vec::new(),
        vout: vec![
            Vout { value: 100, n: 0, script_pub_key: None },
            Vout { value: 50, n: 1, script_pub_key: None },
            Vout { value: 350, n: 2, script_pub_key: None },
        ],
    };
    let (v, r) = tx.nth_sat_utxo(0).unwrap();
    assert_eq!((v.n, r), (0, 0));
    let (v, r) = tx.nth_sat_utxo(120).unwrap();
    assert_eq!((v.n, r), (1, 20));
    let (v, r) = tx.nth_sat_utxo(499).unwrap();
    assert_eq!((v.n, r), (2, 349));
    assert!(tx.nth_sat_utxo(500).is_none());
    assert!(tx.nth_sat_utxo(10_000).is_none());
}
