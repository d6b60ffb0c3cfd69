use brc20_indexer::brc20::{Brc20Event, Deploy, Mint, Transfer};
use brc20_indexer::digits::{normalize_int_text, u64_to_text};
use brc20_indexer::brc20::event_from_text;

fn deploy(p: &str, max: &str, lim: Option<&str>, dec: Option<i32>) -> Deploy {
    Deploy {
        p: p.to_string(),
        tick: "ordi".to_string(),
        max: max.to_string(),
        lim: lim.map(|s| s.to_string()),
        dec,
    }
}

// Validation: the wrong protocol tag, a zero maximum supply, a zero amount
// and out-of-range decimals are each invalid; absent fields take their
// defaults.
#[test]
fn validation_rules() {
    assert!(deploy("brc-20", "21000000", None, None).valid());
    assert!(!deploy("brc-21", "21000000", None, None).valid());
    assert!(!deploy("brc-20", "0", None, None).valid());
    assert!(!deploy("brc-20", "21000000", Some("0"), None).valid());
    assert!(!deploy("brc-20", "21000000", None, Some(19)).valid());
    assert!(!deploy("brc-20", "21000000", None, Some(-1)).valid());
    assert!(deploy("brc-20", "21000000", None, Some(18)).valid());

    let d = deploy("brc-20", "21000000", None, Some(18));
    assert_eq!(d.lim(), "21000000");
    assert_eq!(d.dec(), 18);
    let d = deploy("brc-20", "21000000", Some("1000"), None);
    assert_eq!(d.lim(), "1000");
    assert_eq!(d.dec(), 18);

    let m = Mint { p: "brc-20".to_string(), tick: "ordi".to_string(), amt: "0".to_string() };
    assert!(!m.valid());
    let m = Mint { p: "brc-20".to_string(), tick: "ordi".to_string(), amt: "10".to_string() };
    assert!(m.valid());
    let t = Transfer { p: "brc-20".to_string(), tick: "ordi".to_string(), amt: "0".to_string() };
    assert!(!t.valid());
    let t = Transfer { p: "x".to_string(), tick: "ordi".to_string(), amt: "10".to_string() };
    assert!(!t.valid());
}

// Events read from JSON text: the operation tag picks the variant, amounts
// must be integer text, and malformed input drops the event.
#[test]
fn event_from_text_reads_json() {

    let e = event_from_text(
        r#"{"p":"brc-20","op":"deploy","tick":"ordi","max":"21000000","lim":"1000","dec":18}"#,
    );
    match e {
        Some(Brc20Event::Deploy(d)) => {
            assert_eq!(d.p, "brc-20");
            assert_eq!(d.tick, "ordi");
            assert_eq!(d.max, "21000000");
            assert_eq!(d.lim.as_deref(), Some("1000"));
            assert_eq!(d.dec, Some(18));
        },
        _ => panic!("expected a deploy"),
    }
    // a missing mint limit stays absent; leading zeros are canonicalized
    let e = event_from_text(r#"{"p":"brc-20","op":"deploy","tick":"ordi","max":"007"}"#);
    match e {
        Some(Brc20Event::Deploy(d)) => {
            assert_eq!(d.max, "7");
            assert_eq!(d.lim, None);
            assert_eq!(d.dec, None);
        },
        _ => panic!("expected a deploy"),
    }
    let e = event_from_text(r#"{"p":"brc-20","op":"transfer","tick":"ordi","amt":"100"}"#);
    assert!(matches!(e, Some(Brc20Event::Transfer(_))));
    // a non-integer amount, a numeric amount, a wrong tag, broken JSON
    assert!(event_from_text(r#"{"p":"brc-20","op":"mint","tick":"o","amt":"1.5"}"#).is_none());
    assert!(event_from_text(r#"{"p":"brc-20","op":"mint","tick":"o","amt":100}"#).is_none());
    assert!(event_from_text(r#"{"p":"brc-20","op":"burn","tick":"o","amt":"1"}"#).is_none());
    assert!(event_from_text(r#"{"p":"brc-20","op":"mint""#).is_none());
    assert!(event_from_text("").is_none());
    // decimals must be an integral number fitting thirty-two bits
    assert!(event_from_text(
        r#"{"p":"brc-20","op":"deploy","tick":"o","max":"1","dec":2147483648}"#,
    )
    .is_none());
    assert!(event_from_text(r#"{"p":"brc-20","op":"deploy","tick":"o","max":"1","dec":1.5}"#)
        .is_none());
}

// Integer text canonicalization: signs and leading zeros.
#[test]
fn normalize_integer_text() {
    assert_eq!(normalize_int_text("007").as_deref(), Some("7"));
    assert_eq!(normalize_int_text("0").as_deref(), Some("0"));
    assert_eq!(normalize_int_text("000").as_deref(), Some("0"));
    assert_eq!(normalize_int_text("-0").as_deref(), Some("0"));
    assert_eq!(normalize_int_text("-042").as_deref(), Some("-42"));
    assert_eq!(normalize_int_text("+42").as_deref(), Some("42"));
    assert_eq!(normalize_int_text(""), None);
    assert_eq!(normalize_int_text("-"), None);
    assert_eq!(normalize_int_text("4a2"), None);
}

// Decimal rendering of numbers.
#[test]
fn render_decimal() {
    assert_eq!(u64_to_text(0), "0");
    assert_eq!(u64_to_text(7), "7");
    assert_eq!(u64_to_text(100), "100");
    assert_eq!(u64_to_text(18446744073709551615), "18446744073709551615");
}
