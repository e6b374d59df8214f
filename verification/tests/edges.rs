use relay::cli::{Cli, Command};
use relay::cmd::{enroll, was_pasted, EnrollStep};
use relay::control::{clear_reply, dispatch, reply_failed, ControlStep};
use relay::dht::config::{dht_domain_prefix, DhtConfig, DHT_DOMAIN_PREFIX};
use relay::dht::keyspace::{has_prefix, key_less, Keyspace};
use relay::dht::metrics::Metrics;
use relay::dht::wire::KeyPackageRecord;
use relay::text::append_decimal;

#[test]
fn signature_domains_have_one_prefix() {
    assert_eq!(dht_domain_prefix(), b"promtuz-dht-v1");
    assert_eq!(DHT_DOMAIN_PREFIX.as_bytes(), dht_domain_prefix());
}

#[test]
fn events_are_counted_each_under_its_kind() {
    let mut m = Metrics::new();
    for n in 0..100u64 {
        m.inc_stores_received();
        if n % 4 == 0 {
            m.inc_stores_accepted();
        }
        m.inc_pings_sent();
    }
    let expected = Metrics { stores_received: 100, stores_accepted: 25, pings_sent: 100, ..Metrics::new() };
    assert_eq!(m, expected);
    m.stores_received = u64::MAX;
    m.inc_stores_received();
    assert_eq!(m.stores_received, 0);
}

#[test]
fn control_line_is_trimmed() {
    assert!(matches!(dispatch("  clear-db\n"), ControlStep::ClearDb));
    assert!(matches!(dispatch("clear-db\u{2003}"), ControlStep::ClearDb));
    match dispatch(" reboot \r\n") {
        ControlStep::Reply(reply) => {
            let text = String::from_utf8(reply).unwrap();
            assert!(text.starts_with("error"));
            assert!(text.contains("reboot"));
            assert!(!text.contains(" reboot \r"));
            assert!(reply_failed(&text));
        }
        ControlStep::ClearDb => panic!("unknown command"),
    }
}

#[test]
fn wipe_is_reported() {
    let ok = String::from_utf8(clear_reply(Ok(120))).unwrap();
    assert_eq!(ok, "ok: cleared 120 entries\n");
    assert!(!reply_failed(&ok));
    let bad = String::from_utf8(clear_reply(Err("disk"))).unwrap();
    assert_eq!(bad, "error: clear-db: disk\n");
    assert!(reply_failed(&bad));
}

#[test]
fn decimal_digits() {
    for n in [0u64, 7, 10, 4_096, u64::MAX] {
        let mut out = Vec::new();
        append_decimal(&mut out, n);
        assert_eq!(String::from_utf8(out).unwrap(), n.to_string());
    }
}

#[test]
fn arguments_default_to_the_daemon() {
    let cli = Cli::get(None, None);
    assert_eq!(cli.config, "/etc/promtuz/relay.toml");
    assert!(cli.runs_daemon());
    let cli = Cli::get(Some("r.toml".to_string()), Some(Command::Enroll));
    assert_eq!(cli.config, "r.toml");
    assert!(!cli.runs_daemon());
}

#[test]
fn enrolment_is_skipped_where_the_certificate_is_good() {
    assert_eq!(enroll(Some(true)), EnrollStep::AlreadyEnrolled);
    assert_eq!(enroll(Some(false)), EnrollStep::AskForCert);
    assert_eq!(enroll(None), EnrollStep::AskForCert);
    assert!(!was_pasted(" \t\n"));
    assert!(was_pasted(" -----BEGIN"));
}

#[test]
fn keys_are_ordered_byte_by_byte() {
    assert!(key_less(b"a", b"ab"));
    assert!(key_less(b"ab", b"b"));
    assert!(!key_less(b"b", b"ab"));
    assert!(!key_less(b"a", b"a"));
    assert!(has_prefix(b"abc", b"ab"));
    assert!(!has_prefix(b"a", b"ab"));
}

fn value(n: u8) -> KeyPackageRecord {
    KeyPackageRecord { ipk: [n; 32], kp_ref: vec![n], kp_bytes: vec![n], expires_at_ms: 1, owner_sig: [0u8; 64] }
}

#[test]
fn keyspace_keeps_its_rows_in_order() {
    let mut ks: Keyspace<KeyPackageRecord> = Keyspace::new();
    for n in [3u8, 1, 2] {
        ks.put(vec![7, n], value(n)).unwrap();
    }
    ks.put(vec![7, 1], value(9)).unwrap();
    let keys: Vec<u8> = ks.rows.iter().map(|r| r.key[1]).collect();
    assert_eq!(keys, vec![1, 2, 3]);
    assert_eq!(ks.rows[0].value.as_ref().unwrap().ipk, [9u8; 32]);
    assert_eq!(ks.count_under(&[7]), 3);
    assert_eq!(ks.locate(&[7, 2]), (true, 1));
    ks.delete(&[7, 2]).unwrap();
    assert_eq!(ks.locate(&[7, 2]), (false, 1));
    assert!(ks.delete_each(&vec![vec![7, 1], vec![8, 8]]));
    assert_eq!(ks.rows.len(), 1);
    ks.writable = false;
    assert!(ks.put(vec![1], value(1)).is_err());
    assert!(ks.delete(&[7, 3]).is_err());
    assert_eq!(ks.rows.len(), 1);
}

#[test]
fn bucket_size_can_be_set() {
    assert_eq!(DhtConfig::default().bucket_size(), 16);
    assert!(!DhtConfig::default().enabled);
    let cfg = DhtConfig { enabled: false, bucket_size: Some(4) };
    assert_eq!(cfg.bucket_size(), 4);
}
