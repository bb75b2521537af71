use qkd_relay::errors::RelayServerError;
use qkd_relay::keys::{Key, Prom};
use qkd_relay::relay::{build_proms_origin, build_proms_xor, prom_fetch_id, resolve_prom,
    xor_key_size};
use qkd_relay::util::xor;

fn key(id: &str, material: &str) -> Key {
    Key { key: String::from(material), key_id: String::from(id) }
}

fn ascii_xor(a: &str, b: &str) -> Vec<u8> {
    a.as_bytes().iter().zip(b.as_bytes().iter()).map(|(x, y)| x ^ y).collect()
}

#[test]
fn xor_is_bytewise_and_truncates_to_the_shorter() {
    assert_eq!(xor(vec![0x01, 0x02, 0x03], vec![0x01, 0x02, 0x03]), vec![0, 0, 0]);
    assert_eq!(xor(vec![0xff, 0x0f], vec![0x0f, 0xf0, 0x55]), vec![0xf0, 0xff]);
    assert_eq!(xor(vec![], vec![1, 2]), Vec::<u8>::new());
}

#[test]
fn xor_twice_restores_the_input() {
    let a = vec![0x10u8, 0x42, 0x99, 0x00];
    let b = vec![0xffu8, 0x01, 0x77, 0x13];
    assert_eq!(xor(xor(a.clone(), b.clone()), b), a);
}

#[test]
fn origin_carriers_hold_identifiers_only() {
    let keys = vec![key("id-a", "QUJDRA=="), key("id-b", "RUZHSA==")];
    let proms = build_proms_origin(&keys);
    assert_eq!(proms.len(), 2);
    assert_eq!(proms[0].key_id(), "id-a");
    assert!(proms[0].key_id_xor().is_none());
    assert!(proms[0].key().is_none());
    assert_eq!(proms[1].key_id(), "id-b");
}

#[test]
fn link_payload_is_base64_ascii_xor() {
    let k = key("k1", "QUJDRA==");
    let h = key("h1", "RUZHSA==");
    let proms = build_proms_xor(&vec![k], &vec![h]).unwrap();
    assert_eq!(proms.len(), 1);
    assert_eq!(proms[0].key_id(), "k1");
    assert_eq!(proms[0].key_id_xor().as_deref(), Some("h1"));
    let expected = ascii_xor("QUJDRA==", "RUZHSA==");
    assert_eq!(proms[0].key().as_deref(), Some(&expected[..]));
}

#[test]
fn too_few_fresh_keys_fail_the_hop() {
    let keys = vec![key("k1", "QUJDRA=="), key("k2", "RUZHSA==")];
    let fresh = vec![key("h1", "SUpLTA==")];
    assert!(build_proms_xor(&keys, &fresh).is_err());
}

#[test]
fn terminal_decapsulation_reconstructs_the_origin_key() {
    let k = key("k1", "QUJDRA==");
    let h = key("h1", "RUZHSA==");
    let proms = build_proms_xor(&vec![k], &vec![h.clone()]).unwrap();
    let recovered = resolve_prom(&proms[0], Some(&h)).unwrap().unwrap();
    assert_eq!(recovered.key_id, "k1");
    assert_eq!(recovered.key, "QUJDRA==");
}

#[test]
fn three_hop_chain_hands_the_same_key_to_the_terminal() {
    // S3 shape: the key crosses two masking hops; each link carries only
    // ciphertext under its own hop key, and the terminal sees the original.
    let k = key("k1", "QUJDRA==");
    let h1 = key("h1", "RUZHSA==");
    let h2 = key("h2", "SUpLTA==");

    let leg1 = build_proms_xor(&vec![k], &vec![h1.clone()]).unwrap();
    assert_eq!(leg1[0].key().as_deref(), Some(&ascii_xor("QUJDRA==", "RUZHSA==")[..]));

    let mid = resolve_prom(&leg1[0], Some(&h1)).unwrap().unwrap();
    assert_eq!(mid.key, "QUJDRA==");

    let leg2 = build_proms_xor(&vec![mid], &vec![h2.clone()]).unwrap();
    assert_eq!(leg2[0].key().as_deref(), Some(&ascii_xor("QUJDRA==", "SUpLTA==")[..]));

    let terminal = resolve_prom(&leg2[0], Some(&h2)).unwrap().unwrap();
    assert_eq!(terminal.key_id, "k1");
    assert_eq!(terminal.key, "QUJDRA==");
}

#[test]
fn fetch_id_follows_the_carrier_shape() {
    let origin = Prom::new(String::from("id"), None, None);
    assert_eq!(prom_fetch_id(&origin).as_deref(), Some("id"));

    let masked = Prom::new(String::from("id"), Some(String::from("hx")), Some(vec![1, 2]));
    assert_eq!(prom_fetch_id(&masked).as_deref(), Some("hx"));

    let passthrough = Prom::new(String::from("id"), None, Some(vec![1, 2]));
    assert!(prom_fetch_id(&passthrough).is_none());

    let hollow = Prom::new(String::from("id"), Some(String::from("hx")), None);
    assert!(prom_fetch_id(&hollow).is_none());
}

#[test]
fn passthrough_carrier_resolves_without_a_fetch() {
    let p = Prom::new(String::from("id"), None, Some(Vec::from("hello".as_bytes())));
    let k = resolve_prom(&p, None).unwrap().unwrap();
    assert_eq!(k.key_id, "id");
    assert_eq!(k.key, "hello");
}

#[test]
fn origin_carrier_resolves_to_the_fetched_key() {
    let p = Prom::new(String::from("id"), None, None);
    let f = key("kme-id", "QUJDRA==");
    let k = resolve_prom(&p, Some(&f)).unwrap().unwrap();
    assert_eq!(k.key_id, "kme-id");
    assert_eq!(k.key, "QUJDRA==");
}

#[test]
fn missing_fetch_is_an_error() {
    let p = Prom::new(String::from("id"), None, None);
    assert!(matches!(resolve_prom(&p, None), Err(RelayServerError::GetKeysError)));
}

#[test]
fn unmasking_to_non_text_is_an_error() {
    let p = Prom::new(String::from("id"), None, Some(vec![0xff, 0xfe]));
    assert!(matches!(resolve_prom(&p, None), Err(RelayServerError::GetKeysError)));
}

#[test]
fn hollow_carrier_resolves_to_nothing() {
    let p = Prom::new(String::from("id"), Some(String::from("hx")), None);
    assert!(resolve_prom(&p, None).unwrap().is_none());
}

#[test]
fn hop_key_size_is_eight_times_the_decoded_length() {
    // "QUJDRA==" is the base64 of four bytes: 32 bits are requested.
    assert_eq!(xor_key_size(&key("k", "QUJDRA==")), Some(32));
    // sixteen raw bytes
    assert_eq!(xor_key_size(&key("k", "QUFBQUFBQUFBQUFBQUFBQQ==")), Some(128));
    // not base64 at all
    assert_eq!(xor_key_size(&key("k", "not base64 !!")), None);
}
