use base64::Engine;
use market_making::kraken::{
    add_order_request, client_order_id, kraken_sign,
    kraken_sign_checked, ADD_ORDER_PATH, ADD_ORDER_URL,
};

const DOC_SECRET: &str =
    "kQH5HW/8p1uGOVjbgWA7FunAmGO8lsSUXNsu3eow76sz84Q18fWxnyRzBHCd3pd5nE9qa99HAZtuZuj6F1huXg==";

#[test]
fn sign_matches_published_example() {
    let sig = kraken_sign(
        "/0/private/AddOrder",
        "1616492376594",
        "nonce=1616492376594&ordertype=limit&pair=XBTUSD&price=37500&type=buy&volume=1.25",
        DOC_SECRET,
    );
    assert_eq!(
        sig,
        "4/dpxb3iT4tp/ZCVEwSnEsLxx0bqyhLpdfOpc6fn7OR8+UClSV5n9E6aSS8MPtnRfp32bAb0nmbRn6H8ndwLUQ=="
    );
}

#[test]
fn sign_with_short_secret() {
    let sig = kraken_sign(
        "/0/private/AddOrder",
        "1616492376594",
        "nonce=1616492376594&ordertype=limit&pair=XBTUSD",
        "a3Jha2VuLXRlc3Qtc2VjcmV0LWtleQ==",
    );
    assert_eq!(
        sig,
        "GlZ7pMW54FMJwXr3NfDuC/Xhb6jy+B2vfHGkEv+lBpkDoxOVsA8ZLaYupg9mn8qnDPLFtW42cudAtMhqs0D5jA=="
    );
}

#[test]
fn sign_checked_refuses_bad_secret() {
    assert_eq!(kraken_sign_checked("/p", "1", "x", "not base64!"), None);
    let ok = kraken_sign_checked(
        "/0/private/AddOrder",
        "1616492376594",
        "nonce=1616492376594&ordertype=limit&pair=XBTUSD&price=37500&type=buy&volume=1.25",
        DOC_SECRET,
    );
    assert_eq!(
        ok.as_deref(),
        Some("4/dpxb3iT4tp/ZCVEwSnEsLxx0bqyhLpdfOpc6fn7OR8+UClSV5n9E6aSS8MPtnRfp32bAb0nmbRn6H8ndwLUQ==")
    );
}

#[test]
fn client_order_id_pads_to_five_digits() {
    assert_eq!(client_order_id("20240102", 0), "bot_20240102_00000");
    assert_eq!(client_order_id("20240102", 7), "bot_20240102_00007");
    assert_eq!(client_order_id("20240102", 42), "bot_20240102_00042");
    assert_eq!(client_order_id("20240102", 99999), "bot_20240102_99999");
    assert_eq!(client_order_id("20240102", 123456), "bot_20240102_123456");
    assert_eq!(
        client_order_id("20240102", u64::MAX),
        "bot_20240102_18446744073709551615"
    );
}

#[test]
fn add_order_request_builds_body_fields_and_signature() {
    let q = add_order_request(
        "1700000000000",
        "XBT/USD",
        "buy",
        "37500.5",
        "1",
        "bot_20240102_00042",
        DOC_SECRET,
    )
    .unwrap();
    assert_eq!(
        q.post_data,
        "nonce=1700000000000&pair=XBT/USD&type=buy&ordertype=limit&price=37500.5&volume=1&cl_ord_id=bot_20240102_00042"
    );
    let fields: Vec<(&str, &str)> = q.fields.iter().map(|(k, v)| (k.as_str(), v.as_str())).collect();
    assert_eq!(
        fields,
        vec![
            ("nonce", "1700000000000"),
            ("pair", "XBT/USD"),
            ("type", "buy"),
            ("ordertype", "limit"),
            ("price", "37500.5"),
            ("volume", "1"),
            ("cl_ord_id", "bot_20240102_00042"),
        ]
    );
    assert_eq!(
        q.api_sign,
        "1ATDj4PRK45qiJDMLF31fz5lbLNvkddBtPuZgTHqjQ+ng07SNJlwUm/+3kK6Sw1RLdotPiVjRNAbuCqBPsfJuw=="
    );
}

#[test]
fn add_order_request_refuses_bad_secret() {
    assert!(add_order_request("1", "XBT/USD", "sell", "1", "1", "id", "%%%").is_none());
}

#[test]
fn endpoint_constants() {
    assert_eq!(ADD_ORDER_PATH, "/0/private/AddOrder");
    assert!(ADD_ORDER_URL.ends_with(ADD_ORDER_PATH));
}

#[test]
fn signature_is_base64_of_a_64_byte_tag() {
    let sig = kraken_sign("/0/private/AddOrder", "1", "nonce=1", DOC_SECRET);
    assert_eq!(sig.len(), 88);
    assert!(sig.ends_with("=="));
    let tag = base64::engine::general_purpose::STANDARD.decode(&sig).unwrap();
    assert_eq!(tag.len(), 64);
    assert_eq!(sig, kraken_sign("/0/private/AddOrder", "1", "nonce=1", DOC_SECRET));
}
