use qkd_relay::errors::RelayServerError;
use qkd_relay::keys::{KeyId, KeyIds};
use qkd_relay::store::KeyStore;

fn ids(list: &[&str]) -> KeyIds {
    KeyIds {
        key_ids: list
            .iter()
            .map(|s| KeyId { key_id: String::from(*s) })
            .collect(),
    }
}

#[test]
fn put_then_take_returns_the_key() {
    let mut store = KeyStore::new();
    store
        .add_key(
            String::from("Test_1SAE"),
            String::from("id-1"),
            String::from("QUJDRA=="),
        )
        .unwrap();
    let got = store.get_key("Test_1SAE", &ids(&["id-1"]));
    assert_eq!(got.keys.len(), 1);
    assert_eq!(got.keys[0].key_id, "id-1");
    assert_eq!(got.keys[0].key, "QUJDRA==");
}

#[test]
fn consume_on_read_second_take_is_empty() {
    let mut store = KeyStore::new();
    store
        .add_key(
            String::from("Test_1SAE"),
            String::from("id-1"),
            String::from("QUJDRA=="),
        )
        .unwrap();
    let first = store.get_key("Test_1SAE", &ids(&["id-1"]));
    assert_eq!(first.keys.len(), 1);
    let second = store.get_key("Test_1SAE", &ids(&["id-1"]));
    assert!(second.keys.is_empty());
}

#[test]
fn duplicate_arrival_with_identical_key_is_idempotent() {
    let mut store = KeyStore::new();
    store
        .add_key(String::from("src"), String::from("id"), String::from("kkk"))
        .unwrap();
    store
        .add_key(String::from("src"), String::from("id"), String::from("kkk"))
        .unwrap();
    let got = store.get_key("src", &ids(&["id", "id"]));
    assert_eq!(got.keys.len(), 1, "two identical arrivals leave one record");
}

#[test]
fn duplicate_arrival_with_differing_key_is_rejected() {
    let mut store = KeyStore::new();
    store
        .add_key(String::from("src"), String::from("id"), String::from("aaa"))
        .unwrap();
    let r = store.add_key(String::from("src"), String::from("id"), String::from("bbb"));
    assert!(matches!(r, Err(RelayServerError::KeysDoNotMatch)));
    let got = store.get_key("src", &ids(&["id"]));
    assert_eq!(got.keys[0].key, "aaa", "the store is never overwritten");
}

#[test]
fn take_preserves_request_order_and_skips_missing() {
    let mut store = KeyStore::new();
    store
        .add_key(String::from("src"), String::from("a"), String::from("ka"))
        .unwrap();
    store
        .add_key(String::from("src"), String::from("b"), String::from("kb"))
        .unwrap();
    store
        .add_key(String::from("other"), String::from("a"), String::from("xx"))
        .unwrap();
    let got = store.get_key("src", &ids(&["b", "missing", "a"]));
    assert_eq!(got.keys.len(), 2);
    assert_eq!(got.keys[0].key_id, "b");
    assert_eq!(got.keys[0].key, "kb");
    assert_eq!(got.keys[1].key_id, "a");
    assert_eq!(got.keys[1].key, "ka");
    let other = store.get_key("other", &ids(&["a"]));
    assert_eq!(other.keys[0].key, "xx", "records are keyed by source too");
}

#[test]
fn error_status_codes_collapse_to_500() {
    assert_eq!(RelayServerError::KeysDoNotMatch.status_code(), 500);
    assert_eq!(RelayServerError::AddKeyError.status_code(), 500);
    assert_eq!(RelayServerError::GetKeysError.status_code(), 500);
    assert_eq!(
        qkd_relay::errors::EtsiServerError::PathError.status_code(),
        500
    );
    assert_eq!(
        qkd_relay::errors::EtsiServerError::PqkdRequestError(503).status_code(),
        500
    );
}
