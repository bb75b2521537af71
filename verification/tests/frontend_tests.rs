use qkd_relay::config::{Args, Config, Connection, Hypercube, Pqkd, Relay};
use qkd_relay::errors::{EtsiServerError, RelayServerError};
use qkd_relay::etsi::{is_pass_through, parse_label, plan_paths, plan_send_etsi};
use qkd_relay::keys::{DataKeys, Key, Keys, Prom};
use qkd_relay::relay::{plan_send_relay, relay_route, HopSend, RelayAction};

fn pqkd(sae: &str, remote: &str) -> Pqkd {
    Pqkd {
        port: 8001,
        sae_id: String::from(sae),
        remote_sae_id: String::from(remote),
        remote_proxy_address: format!("https://proxy-of-{}", remote),
        kme_address: format!("https://kme-of-{}", sae),
        ca_cert: None,
        client_cert: None,
        client_key: None,
    }
}

fn relay(id: &str, pqkds: &[&str]) -> Relay {
    Relay { id: String::from(id), pqkds: pqkds.iter().map(|s| String::from(*s)).collect() }
}

fn connection(a: &str, b: &str) -> Connection {
    Connection { first: String::from(a), second: String::from(b) }
}

/// The S2 topology: one edge, two relays of two PQKDs each.
fn two_relay_cube() -> Hypercube {
    Hypercube {
        dimension: 1,
        n: 1,
        relay: vec![
            relay("0", &["Test_1SAE", "Test_2SAE"]),
            relay("1", &["Val_1SAE", "Val_2SAE"]),
        ],
        connection: vec![connection("Test_2SAE", "Val_1SAE")],
    }
}

fn strings(list: &[&str]) -> Vec<String> {
    list.iter().map(|s| String::from(*s)).collect()
}

#[test]
fn pass_through_exactly_for_the_quantum_peer() {
    assert!(is_pass_through("Test_2SAE", "Test_2SAE"));
    assert!(!is_pass_through("Val_2SAE", "Test_2SAE"));
    assert!(!is_pass_through("", "Test_2SAE"));
}

#[test]
fn labels_read_back_from_relay_ids() {
    assert_eq!(parse_label("0", 1), Some(0));
    assert_eq!(parse_label("1", 1), Some(1));
    assert_eq!(parse_label("10", 2), Some(2));
    assert_eq!(parse_label("11", 2), Some(3));
    assert_eq!(parse_label("1", 2), None);
    assert_eq!(parse_label("2x", 2), None);
}

#[test]
fn find_relay_by_owned_sae() {
    let h = two_relay_cube();
    assert_eq!(h.find_relay("Val_1SAE"), Some("1"));
    assert_eq!(h.find_relay("Test_1SAE"), Some("0"));
    assert_eq!(h.find_relay("Unknown_SAE"), None);
}

#[test]
fn two_hop_plan_lifts_the_single_edge() {
    let h = two_relay_cube();
    let plan = plan_paths(&h, "0", "Test_1SAE", "Val_2SAE", "Test_2SAE").unwrap();
    assert_eq!(
        plan.primary,
        strings(&["Test_1SAE", "Test_2SAE", "Val_1SAE", "Val_2SAE"])
    );
    assert!(plan.alternates.is_empty());
}

#[test]
fn unknown_destination_is_a_path_error() {
    let h = two_relay_cube();
    let r = plan_paths(&h, "0", "Test_1SAE", "Unknown_SAE", "Test_2SAE");
    assert!(matches!(r, Err(EtsiServerError::PathError)));
}

#[test]
fn no_primary_among_lifted_paths_is_a_path_error() {
    let h = two_relay_cube();
    // the origin's quantum peer is not on any lifted path
    let r = plan_paths(&h, "0", "Test_1SAE", "Val_2SAE", "Elsewhere_SAE");
    assert!(matches!(r, Err(EtsiServerError::PathError)));
}

/// A square overlay with two label routes between opposite corners.
fn four_relay_cube() -> Hypercube {
    Hypercube {
        dimension: 2,
        n: 2,
        relay: vec![
            relay("00", &["Test_1SAE", "Test_2SAE", "Alt_1SAE"]),
            relay("01", &["Val_1SAE", "Val_2SAE"]),
            relay("10", &["B_1SAE", "B_2SAE"]),
            relay("11", &["C_1SAE", "C_2SAE", "Dst_SAE"]),
        ],
        connection: vec![
            connection("Test_2SAE", "Val_1SAE"),
            connection("Alt_1SAE", "B_1SAE"),
            connection("Val_2SAE", "C_1SAE"),
            connection("B_2SAE", "C_2SAE"),
        ],
    }
}

#[test]
fn fan_out_plan_keeps_one_primary_and_one_alternate() {
    let h = four_relay_cube();
    let plan = plan_paths(&h, "00", "Test_1SAE", "Dst_SAE", "Test_2SAE").unwrap();
    assert_eq!(
        plan.primary,
        strings(&["Test_1SAE", "Test_2SAE", "Val_1SAE", "Val_2SAE", "C_1SAE", "Dst_SAE"])
    );
    assert_eq!(plan.alternates.len(), 1);
    assert_eq!(
        plan.alternates[0],
        strings(&["Test_1SAE", "Alt_1SAE", "B_1SAE", "B_2SAE", "C_2SAE", "Dst_SAE"])
    );
}

#[test]
fn first_send_with_invalid_material_fails() {
    let pqkds = vec![pqkd("Test_1SAE", "Test_2SAE"), pqkd("Test_2SAE", "Val_1SAE")];
    let path = strings(&["Test_1SAE", "Test_2SAE", "Val_1SAE", "Val_2SAE"]);
    let keys = vec![Key { key: String::from("not base64 !!"), key_id: String::from("k1") }];
    assert!(matches!(
        plan_send_etsi(&pqkds, "Test_1SAE", &path, &keys),
        Err(EtsiServerError::SendKeysError)
    ));
}

#[test]
fn envelope_route_terminal_stores_under_source() {
    let path = strings(&["Test_1SAE", "Test_2SAE", "Val_1SAE", "Val_2SAE"]);
    let act = relay_route(&path, "Val_2SAE").unwrap();
    match act {
        RelayAction::Store { dest_sae, source_sae } => {
            assert_eq!(dest_sae, "Val_2SAE");
            assert_eq!(source_sae, "Test_1SAE");
        },
        _ => panic!("expected the terminal store action"),
    }
}

#[test]
fn envelope_route_stores_when_the_next_entry_is_terminal() {
    let path = strings(&["Test_1SAE", "Test_2SAE", "Val_1SAE", "Val_2SAE"]);
    let act = relay_route(&path, "Val_1SAE").unwrap();
    match act {
        RelayAction::Store { dest_sae, source_sae } => {
            assert_eq!(dest_sae, "Val_2SAE");
            assert_eq!(source_sae, "Test_1SAE");
        },
        _ => panic!("expected the store-at-next action"),
    }
}

#[test]
fn envelope_route_forwards_through_the_next_entry() {
    let path = strings(&[
        "Test_1SAE",
        "Test_2SAE",
        "Mid_1SAE",
        "Mid_2SAE",
        "Val_1SAE",
        "Val_2SAE",
    ]);
    let act = relay_route(&path, "Test_2SAE").unwrap();
    match act {
        RelayAction::Forward { next_sae } => assert_eq!(next_sae, "Mid_1SAE"),
        _ => panic!("expected a forward"),
    }
}

#[test]
fn envelope_route_rejects_a_foreign_path() {
    let path = strings(&["A", "B"]);
    assert!(matches!(
        relay_route(&path, "C"),
        Err(RelayServerError::GetKeysError)
    ));
    assert!(matches!(
        relay_route(&Vec::new(), "C"),
        Err(RelayServerError::GetKeysError)
    ));
}

#[test]
fn first_send_uses_the_origin_shape_at_position_zero() {
    let pqkds = vec![pqkd("Test_1SAE", "Test_2SAE")];
    let path = strings(&["Test_1SAE", "Test_2SAE", "Val_1SAE", "Val_2SAE"]);
    let keys = vec![Key { key: String::from("QUJDRA=="), key_id: String::from("k1") }];
    match plan_send_etsi(&pqkds, "Test_1SAE", &path, &keys).unwrap() {
        HopSend::Origin { from, to, proxy } => {
            assert_eq!(from, "Test_1SAE");
            assert_eq!(to, "Test_2SAE");
            assert_eq!(proxy, "https://proxy-of-Test_2SAE");
        },
        _ => panic!("expected the origin shape"),
    }
}

#[test]
fn first_send_masks_when_the_relay_owns_the_second_entry() {
    // the relay owns both halves of the first hop, so the chain starts at
    // position one and must fetch fresh hop keys
    let pqkds = vec![pqkd("Test_1SAE", "Test_2SAE"), pqkd("Test_2SAE", "Val_1SAE")];
    let path = strings(&["Test_1SAE", "Test_2SAE", "Val_1SAE", "Val_2SAE"]);
    let keys = vec![Key { key: String::from("QUJDRA=="), key_id: String::from("k1") }];
    match plan_send_etsi(&pqkds, "Test_1SAE", &path, &keys).unwrap() {
        HopSend::Xor { from, to, proxy, kme, size, number } => {
            assert_eq!(from, "Test_2SAE");
            assert_eq!(to, "Val_1SAE");
            assert_eq!(proxy, "https://proxy-of-Val_1SAE");
            assert_eq!(kme, "https://kme-of-Test_2SAE");
            assert_eq!(size, 32);
            assert_eq!(number, 1);
        },
        _ => panic!("expected the masking shape"),
    }
}

#[test]
fn first_send_without_any_matching_pqkd_is_unknown() {
    let pqkds: Vec<Pqkd> = Vec::new();
    let path = strings(&["Test_1SAE", "Test_2SAE"]);
    let r = plan_send_etsi(&pqkds, "Test_1SAE", &path, &Vec::new());
    match r {
        Err(EtsiServerError::UnknownPqkd(sae)) => assert_eq!(sae, "Test_1SAE"),
        _ => panic!("expected an unknown-PQKD error"),
    }
}

#[test]
fn first_send_with_a_short_path_is_a_path_error() {
    let pqkds = vec![pqkd("Test_1SAE", "Test_2SAE")];
    let r = plan_send_etsi(&pqkds, "Test_1SAE", &strings(&["Test_1SAE"]), &Vec::new());
    assert!(matches!(r, Err(EtsiServerError::PathError)));
}

#[test]
fn relay_send_masks_beyond_position_zero() {
    let pqkds = vec![pqkd("Mid_1SAE", "Test_2SAE"), pqkd("Mid_2SAE", "Val_1SAE")];
    let path = strings(&[
        "Test_1SAE",
        "Test_2SAE",
        "Mid_1SAE",
        "Mid_2SAE",
        "Val_1SAE",
        "Val_2SAE",
    ]);
    let keys = vec![Key { key: String::from("QUJDRA=="), key_id: String::from("k1") }];
    match plan_send_relay(&pqkds, "Mid_1SAE", &path, &keys).unwrap() {
        HopSend::Xor { from, to, size, number, .. } => {
            assert_eq!(from, "Mid_2SAE");
            assert_eq!(to, "Val_1SAE");
            assert_eq!(size, 32);
            assert_eq!(number, 1);
        },
        _ => panic!("expected the masking shape"),
    }
}

#[test]
fn relay_send_with_invalid_material_fails() {
    let pqkds = vec![pqkd("Mid_1SAE", "X"), pqkd("Mid_2SAE", "Y")];
    let path = strings(&["A", "Mid_1SAE", "Mid_2SAE", "Z"]);
    let keys = vec![Key { key: String::from("not base64 !!"), key_id: String::from("k1") }];
    assert!(matches!(
        plan_send_relay(&pqkds, "Mid_1SAE", &path, &keys),
        Err(RelayServerError::GetKeysError)
    ));
}

#[test]
fn data_model_getters_round_trip() {
    let p = Prom::new(String::from("id"), Some(String::from("hx")), Some(vec![7u8]));
    let env = DataKeys::new(
        String::from("A"),
        String::from("B"),
        strings(&["A", "B", "C"]),
        vec![p],
    );
    assert_eq!(env.from(), "A");
    assert_eq!(env.to(), "B");
    assert_eq!(env.path(), &strings(&["A", "B", "C"]));
    assert_eq!(env.keys().len(), 1);
    assert_eq!(env.keys()[0].key_id(), "id");

    let ks = Keys { keys: vec![Key { key: String::from("m"), key_id: String::from("i") }] };
    let v = ks.keys();
    assert_eq!(v[0].key, "m");

    let q = pqkd("S", "R");
    assert_eq!(q.port(), 8001);
    assert_eq!(q.sae_id(), "S");
    assert_eq!(q.remote_sae_id(), "R");
    assert_eq!(q.kme_address(), "https://kme-of-S");
    assert_eq!(q.remote_proxy_address(), "https://proxy-of-R");
    assert!(q.ca_cert().is_none());
    assert!(q.client_cert().is_none());
    assert!(q.client_key().is_none());

    let cfg = Config { id: String::from("0"), port: 9000, pqkds: vec![pqkd("S", "R")] };
    assert_eq!(cfg.id(), "0");
    assert_eq!(cfg.port(), 9000);
    assert_eq!(cfg.pqkds().len(), 1);

    let rel = relay("01", &["S"]);
    assert_eq!(rel.id(), "01");
    assert_eq!(rel.pqkds(), &strings(&["S"]));

    let con = connection("S", "R");
    assert_eq!(con.first(), "S");
    assert_eq!(con.second(), "R");

    let h = two_relay_cube();
    assert_eq!(h.dimension(), 1);
    assert_eq!(h.n(), 1);
    assert_eq!(h.relay().len(), 2);
    assert_eq!(h.connection().len(), 1);

    let args = Args {
        config_file: String::from("config.toml"),
        hypercube_file: String::from("cube.toml"),
    };
    assert_eq!(args.config_file, "config.toml");
    assert_eq!(args.hypercube_file, "cube.toml");
}
