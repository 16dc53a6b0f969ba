use drone::fanout::{encode_sample, sample_wanted, start_destination, Destination, StopReason, SubscriberTable, SubscriptionCmd};
use drone::telemetry::{plotter_name, protoplotter_name, starts_with, TelemetryID, TelemetryServiceBuilder};

fn listed(b: TelemetryServiceBuilder, base: &str) -> Vec<(u64, String)> {
    b.build()
        .list_telemetries(base)
        .into_iter()
        .map(|e| (e.id.as_u64(), e.name))
        .collect()
}

#[test]
fn s4_telemetry_discovery() {
    let mut b = TelemetryServiceBuilder::new(16);
    assert_eq!(b.register_signal("/a"), TelemetryID(0));
    assert_eq!(b.register_signal("/a/b"), TelemetryID(1));
    assert_eq!(b.register_signal("/c"), TelemetryID(2));
    assert_eq!(listed(b, "/a"), vec![(0, "/a".to_string()), (1, "/a/b".to_string())]);
}

#[test]
fn p7_ids_dense_and_listed_once() {
    let mut b = TelemetryServiceBuilder::new(4);
    let names = ["/x", "/y", "/x/1", "/z", "/x/2"];
    for (i, n) in names.iter().enumerate() {
        assert_eq!(b.register_signal(n).as_u64(), i as u64);
    }
    let all = listed(b, "");
    assert_eq!(all.len(), names.len());
    for (i, (id, name)) in all.iter().enumerate() {
        assert_eq!(*id, i as u64);
        assert_eq!(name, names[i]);
    }
}

#[test]
fn listing_with_no_match_is_empty() {
    let mut b = TelemetryServiceBuilder::new(4);
    b.register_signal("/a");
    assert_eq!(listed(b, "/b"), vec![]);
}

#[test]
fn channel_size_is_kept() {
    let b = TelemetryServiceBuilder::new(32);
    assert_eq!(b.channel_size(), 32);
}

#[test]
fn register_components_of_a_vector() {
    let mut b = TelemetryServiceBuilder::new(4);
    b.register_signal("/before");
    let suffixes = vec!["/x".to_string(), "/y".to_string(), "/z".to_string()];
    let ids = b.register_components("/imu/acc", &suffixes);
    assert_eq!(ids, vec![TelemetryID(1), TelemetryID(2), TelemetryID(3)]);
    assert_eq!(
        listed(b, "/imu"),
        vec![
            (1, "/imu/acc/x".to_string()),
            (2, "/imu/acc/y".to_string()),
            (3, "/imu/acc/z".to_string())
        ]
    );
}

#[test]
fn scalar_component_keeps_the_topic() {
    let mut b = TelemetryServiceBuilder::new(4);
    let ids = b.register_components("/cart/pos", &vec!["".to_string()]);
    assert_eq!(ids, vec![TelemetryID(0)]);
    assert_eq!(listed(b, "/cart/pos"), vec![(0, "/cart/pos".to_string())]);
}

#[test]
fn prefix_test() {
    assert!(starts_with("/a/b", "/a"));
    assert!(starts_with("/a", ""));
    assert!(starts_with("/a", "/a"));
    assert!(!starts_with("/a", "/a/b"));
    assert!(!starts_with("/c", "/a"));
}

#[test]
fn plotter_block_name() {
    assert_eq!(plotter_name("/cart/pos", "abc123"), "protoplotter_cart_pos_abc123");
    assert_eq!(plotter_name("force", "Z9Z9Z9"), "protoplotterforce_Z9Z9Z9");
}

#[test]
fn protoplotter_name_has_random_suffix() {
    let n = protoplotter_name("/ref/vel");
    let head = "protoplotter_ref_vel_";
    assert!(n.starts_with(head), "{n}");
    let suffix = &n[head.len()..];
    assert_eq!(suffix.chars().count(), 6);
    assert!(suffix.chars().all(|c| c.is_ascii_alphanumeric()));
}

#[test]
fn as_u64_gives_the_number() {
    assert_eq!(TelemetryID(42).as_u64(), 42);
}

#[test]
fn sample_encoding_exact() {
    let mut buf = vec![];
    encode_sample(1, 1.5f64.to_bits(), 0.0f64.to_bits(), &mut buf);
    assert_eq!(buf, vec![0x08, 0x01, 0x11, 0, 0, 0, 0, 0, 0, 0xF8, 0x3F]);
}

#[test]
fn sample_encoding_all_fields() {
    let mut buf = vec![0xAA];
    encode_sample(300, 2.0f64.to_bits(), (-1.0f64).to_bits(), &mut buf);
    assert_eq!(
        buf,
        vec![
            0xAA, 0x08, 0xAC, 0x02, 0x11, 0, 0, 0, 0, 0, 0, 0, 0x40, 0x19, 0, 0, 0, 0, 0, 0, 0xF0,
            0xBF
        ]
    );
}

#[test]
fn sample_encoding_skips_zero_fields() {
    let mut buf = vec![];
    encode_sample(0, (-0.0f64).to_bits(), 0.0f64.to_bits(), &mut buf);
    assert!(buf.is_empty());
    encode_sample(u64::MAX, 0, 0, &mut buf);
    assert_eq!(buf, vec![0x08, 0xFF, 0xFF, 0xFF, 0xFF, 0xFF, 0xFF, 0xFF, 0xFF, 0xFF, 0x01]);
}

#[test]
fn s6_bad_port() {
    let mut table: SubscriberTable<u32> = SubscriberTable::new();
    let r = start_destination(0x7f00_0001, false, 70000);
    assert_eq!(r, Err(StopReason::BadPort));
    if let Ok(d) = r {
        table.apply(SubscriptionCmd::New(d, 1));
    }
    assert_eq!(table.len(), 0);
    assert_eq!(start_destination(0x7f00_0001, false, 65536), Err(StopReason::BadPort));
    assert_eq!(
        start_destination(0x7f00_0001, false, 65535),
        Ok(Destination { ip: 0x7f00_0001, v6: false, port: 65535 })
    );
}

#[test]
fn s5_subscribe_unsubscribe() {
    let mut table: SubscriberTable<&str> = SubscriberTable::new();
    let d = start_destination(0x0a00_0002, false, 9000).unwrap();
    assert_eq!(table.apply(SubscriptionCmd::New(d, "socket")), None);
    let mut sent = 0;
    for _ in 0..1000 {
        for i in 0..table.len() {
            let (dest, _socket) = table.get(i);
            assert_eq!(*dest, d);
            sent += 1;
        }
        assert_eq!(table.len(), 1);
    }
    assert_eq!(sent, 1000);
    assert_eq!(table.apply(SubscriptionCmd::Drop(d)), Some("socket"));
    assert_eq!(table.len(), 0);
}

#[test]
fn p9_resubscribe_replaces_and_drop_removes() {
    let mut table: SubscriberTable<u8> = SubscriberTable::new();
    let d1 = Destination { ip: 1, v6: false, port: 10 };
    let d2 = Destination { ip: 1, v6: true, port: 10 };
    assert_eq!(table.apply(SubscriptionCmd::New(d1, 1)), None);
    assert_eq!(table.apply(SubscriptionCmd::New(d2, 2)), None);
    assert_eq!(table.apply(SubscriptionCmd::New(d1, 3)), Some(1));
    assert_eq!(table.len(), 2);
    let sockets: Vec<(Destination, u8)> = (0..table.len()).map(|i| (*table.get(i).0, *table.get(i).1)).collect();
    assert!(sockets.contains(&(d1, 3)));
    assert!(sockets.contains(&(d2, 2)));
    assert_eq!(table.apply(SubscriptionCmd::Drop(d1)), Some(3));
    assert_eq!(table.apply(SubscriptionCmd::Drop(d1)), None);
    assert_eq!(table.len(), 1);
    assert_eq!(*table.get(0).0, d2);
    assert_eq!(*table.get(0).1, 2);
}

#[test]
fn ids_filter() {
    assert!(sample_wanted(&vec![], 7));
    assert!(sample_wanted(&vec![1, 7], 7));
    assert!(!sample_wanted(&vec![1, 2], 7));
}
