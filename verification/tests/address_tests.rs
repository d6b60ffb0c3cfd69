use brc20_indexer::btc_utils::address_from_scriptpubkey;

#[test]
fn test_address_from_scriptpubkey() {
    assert_eq!(
        address_from_scriptpubkey("76a914534e48e9a49ce7ebf8d84c8313e4edfa48852fa188ac"),
        Some("18bUsFHLgFotUqAL9ftLBVenJDVP7M64Nu".into())
    )
}

#[test]
fn btc_utils_test_address_from_scriptpubkey() {
    assert_eq!(
        address_from_scriptpubkey("76a914534e48e9a49ce7ebf8d84c8313e4edfa48852fa188ac"),
        Some("18bUsFHLgFotUqAL9ftLBVenJDVP7M64Nu".into())
    )
}

// An output script with no address form yields nothing: an empty script.
#[test]
fn address_from_scriptpubkey_no_form() {
    assert_eq!(address_from_scriptpubkey(""), None);
}
