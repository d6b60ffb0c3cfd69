use brc20_indexer::digits::btc_text_to_sats;
use brc20_indexer::sats_utils::{block_supply, subsidy};

#[test]
fn test_subsidy() {
    assert_eq!(subsidy(0), 5000000000);
    assert_eq!(subsidy(209999), 5000000000);
    assert_eq!(subsidy(210000), 2500000000);
    assert_eq!(subsidy(419999), 2500000000);
    assert_eq!(subsidy(420000), 1250000000);
}

#[test]
fn test_block_supply() {
    assert_eq!(block_supply(0), 5000000000, "Block 0 has 5000000000 sats");
    assert_eq!(block_supply(1), 10000000000, "Block 1 has 10000000000 sats");
    assert_eq!(block_supply(4), 25000000000, "Block 4 has 25000000000 sats");
    assert_eq!(
        block_supply(209999),
        1050000000000000,
        "Block 209999 has 1050000000000000 sats"
    );
    assert_eq!(
        block_supply(210000),
        1050002500000000,
        "Block 210000 has 1050002500000000 sats"
    );
    assert_eq!(
        block_supply(210001),
        1050005000000000,
        "Block 210001 has 1050005000000000 sats"
    );
    assert_eq!(
        block_supply(419999),
        1575000000000000,
        "Block 419999 has 1575000000000000 sats"
    );
    assert_eq!(
        block_supply(420000),
        1575001250000000,
        "Block 420000 has 1575001250000000 sats"
    );
}

#[test]
fn sats_utils_test_subsidy() {
    assert_eq!(subsidy(0), 5000000000);
    assert_eq!(subsidy(209999), 5000000000);
    assert_eq!(subsidy(210000), 2500000000);
    assert_eq!(subsidy(419999), 2500000000);
    assert_eq!(subsidy(420000), 1250000000);
}

#[test]
fn sats_utils_test_block_supply() {
    assert_eq!(block_supply(0), 5000000000, "Block 0 has 5000000000 sats");
    assert_eq!(block_supply(1), 10000000000, "Block 1 has 10000000000 sats");
    assert_eq!(block_supply(4), 25000000000, "Block 4 has 25000000000 sats");
    assert_eq!(
        block_supply(209999),
        1050000000000000,
        "Block 209999 has 1050000000000000 sats"
    );
    assert_eq!(
        block_supply(210000),
        1050002500000000,
        "Block 210000 has 1050002500000000 sats"
    );
    assert_eq!(
        block_supply(210001),
        1050005000000000,
        "Block 210001 has 1050005000000000 sats"
    );
    assert_eq!(
        block_supply(419999),
        1575000000000000,
        "Block 419999 has 1575000000000000 sats"
    );
    assert_eq!(
        block_supply(420000),
        1575001250000000,
        "Block 420000 has 1575001250000000 sats"
    );
}

// The fixed-point conversion: one smallest unit in coin form converts to
// exactly one sat, and whole amounts scale by a hundred million.
#[test]
fn test_btc_text_to_sats() {
    assert_eq!(btc_text_to_sats("0.00000001"), Some(1));
    assert_eq!(btc_text_to_sats("1.00000000"), Some(100000000));
    assert_eq!(btc_text_to_sats("0.00000100"), Some(100));
    assert_eq!(btc_text_to_sats("20999999.97690000"), Some(2099999997690000));
    assert_eq!(btc_text_to_sats("x"), None);
    assert_eq!(btc_text_to_sats(""), None);
}
