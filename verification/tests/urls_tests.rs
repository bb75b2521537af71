use qkd_relay::urls::{fmt_usize, info_keys_uri, kme_dec_keys_uri, kme_enc_keys_uri, proxy_uri};

#[test]
fn decimal_formatting_is_exact() {
    assert_eq!(fmt_usize(0), "0");
    assert_eq!(fmt_usize(7), "7");
    assert_eq!(fmt_usize(10), "10");
    assert_eq!(fmt_usize(256), "256");
    assert_eq!(fmt_usize(98765), "98765");
}

#[test]
fn enc_keys_request_line() {
    assert_eq!(
        kme_enc_keys_uri("https://kme:443", "Test_2SAE", 256, 1),
        "https://kme:443/api/v1/keys/Test_2SAE/enc_keys?size=256&number=1"
    );
}

#[test]
fn dec_keys_request_line() {
    assert_eq!(
        kme_dec_keys_uri("https://kme:443", "Test_2SAE", "id-17"),
        "https://kme:443/api/v1/keys/Test_2SAE/dec_keys?key_ID=id-17"
    );
}

#[test]
fn info_keys_request_line() {
    assert_eq!(info_keys_uri("https://peer:8443"), "https://peer:8443/info_keys");
}

#[test]
fn pass_through_request_line_keeps_path_and_query() {
    assert_eq!(
        proxy_uri("https://kme:443", "/api/v1/keys/Test_2SAE/status"),
        "https://kme:443/api/v1/keys/Test_2SAE/status"
    );
    assert_eq!(
        proxy_uri("https://kme:443", "/api/v1/keys/Test_2SAE/enc_keys?size=256&number=1"),
        "https://kme:443/api/v1/keys/Test_2SAE/enc_keys?size=256&number=1"
    );
}
