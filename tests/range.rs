use big_blocker::prefix::{BlockError, IpPrefix, V4Prefix, V6Prefix};
use big_blocker::range::{AWSRange, AmazonIp, Blocker, GoogleIp, GoogleRange, Range};

fn aws_entry(v4: Option<&str>, v6: Option<&str>) -> AmazonIp {
    AmazonIp {
        ip_prefix: v4.map(|s| V4Prefix::from_str(s).unwrap()),
        ipv6_prefix: v6.map(|s| V6Prefix::from_str(s).unwrap()),
        region: String::from("us-east-1"),
        service: String::from("AMAZON"),
        network_border_group: String::from("us-east-1"),
    }
}

fn google_entry(v4: Option<&str>, v6: Option<&str>) -> GoogleIp {
    GoogleIp {
        ipv4_prefix: v4.map(|s| V4Prefix::from_str(s).unwrap()),
        ipv6_prefix: v6.map(|s| V6Prefix::from_str(s).unwrap()),
        service: Some(String::from("Google Cloud")),
        scope: None,
    }
}

fn aws_doc(entries: Vec<AmazonIp>) -> AWSRange {
    AWSRange {
        sync_token: String::from("1700000000"),
        create_date: String::from("2023-11-14-22-13-20"),
        prefixes: entries,
    }
}

fn google_doc(entries: Vec<GoogleIp>) -> GoogleRange {
    GoogleRange {
        sync_token: String::from("1700000000"),
        creation_time: String::from("2023-11-14T22:13:20"),
        prefixes: entries,
    }
}

#[test]
fn google_v6_entry_keeps_its_place() {
    let doc = google_doc(vec![
        google_entry(Some("8.8.8.0/24"), None),
        google_entry(None, Some("2001:4860::/32")),
        google_entry(Some("34.64.0.0/10"), None),
    ]);
    let out = doc.prefixes().unwrap();
    assert_eq!(
        out,
        vec![
            IpPrefix::V4(V4Prefix { ip: [8, 8, 8, 0], prefix: 24 }),
            IpPrefix::V6(V6Prefix { ip: [0x2001, 0x4860, 0, 0, 0, 0, 0, 0], prefix: 32 }),
            IpPrefix::V4(V4Prefix { ip: [34, 64, 0, 0], prefix: 10 }),
        ]
    );
}

#[test]
fn aws_entry_without_prefix_fails_document() {
    let doc = aws_doc(vec![
        aws_entry(Some("3.5.140.0/22"), None),
        aws_entry(None, None),
        aws_entry(None, Some("2600:1f18::/36")),
    ]);
    assert_eq!(doc.prefixes(), Err(BlockError::MissingPrefix));
}

#[test]
fn entry_count_matches_raw_entries() {
    let failing = aws_doc(vec![aws_entry(None, None), aws_entry(Some("3.5.140.0/22"), None)]);
    assert_eq!(failing.prefix_count(), 2);
    assert_eq!(failing.prefixes(), Err(BlockError::MissingPrefix));
    let fine = google_doc(vec![
        google_entry(Some("8.8.8.0/24"), None),
        google_entry(None, Some("2001:4860::/32")),
        google_entry(Some("8.8.4.0/24"), None),
    ]);
    assert_eq!(fine.prefix_count(), 3);
    assert_eq!(fine.prefixes().unwrap().len(), 3);
    assert_eq!(aws_doc(vec![]).prefix_count(), 0);
    assert_eq!(aws_doc(vec![]).prefixes(), Ok(vec![]));
}

#[test]
fn v4_field_wins_over_v6() {
    let e = aws_entry(Some("3.5.140.0/22"), Some("2600:1f18::/36"));
    assert_eq!(e.try_to_prefix(), Ok(IpPrefix::V4(V4Prefix { ip: [3, 5, 140, 0], prefix: 22 })));
    let g = google_entry(None, Some("2600:1f18::/36"));
    assert_eq!(
        g.try_to_prefix(),
        Ok(IpPrefix::V6(V6Prefix { ip: [0x2600, 0x1f18, 0, 0, 0, 0, 0, 0], prefix: 36 }))
    );
    assert_eq!(google_entry(None, None).try_to_prefix(), Err(BlockError::MissingPrefix));
}

#[test]
fn google_entry_without_prefix_fails_document() {
    let doc = google_doc(vec![google_entry(None, None), google_entry(Some("8.8.8.0/24"), None)]);
    assert_eq!(doc.prefixes(), Err(BlockError::MissingPrefix));
}

#[test]
fn blocker_keeps_prefixes() {
    let ips = vec![IpPrefix::V4(V4Prefix { ip: [1, 2, 3, 0], prefix: 24 })];
    let b = Blocker::new(ips.clone(), true);
    assert_eq!(b.ips, ips);
    assert!(b.save);
}
