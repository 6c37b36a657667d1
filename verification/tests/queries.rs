use firewalleye::models::queries::{
    advance_cursor, classify_filters, distinct_address, prefix_pattern, summary_totals, timeline_plan, top_plan, Address, RankBy, TopKey, TopKind, distribution, label_protocols, tally_interfaces,
    time_cutoff, timeline_bucket, Condition, FilterForm, InterfaceTraffic,
};
use firewalleye::models::tables::filters::{self, Kind};
use firewalleye::models::tables::log;
use firewalleye::models::Interface;

fn form() -> FilterForm {
    FilterForm {
        time_range: 3600,
        src_ip: None,
        dst_ip: None,
        src_port: None,
        dst_port: None,
        protocol: None,
        iiface: None,
        oiface: None,
        allowed: None,
        limit: 100,
        offset: 0,
    }
}

fn row(rowid: i64) -> log::Model {
    log::Model {
        rowid,
        oob_time_sec: 0,
        oob_time_usec: 0,
        prefix: String::new(),
        iiface: String::new(),
        oiface: String::new(),
        src_ip: String::new(),
        dst_ip: String::new(),
        proto: None,
        ttl: None,
        tcp_sport: None,
        tcp_dport: None,
        udp_sport: None,
        udp_dport: None,
        icmp_type: None,
        icmp_code: None,
        length: 0,
    }
}

fn traffic(i: Option<&str>, o: Option<&str>, packets: i64, bytes: i64) -> InterfaceTraffic {
    InterfaceTraffic {
        iiface: i.map(|s| s.to_string()),
        oiface: o.map(|s| s.to_string()),
        packets,
        bytes,
    }
}

#[test]
fn base_conditions_without_filters_is_the_time_window() {
    let c = form().base_conditions(1234);
    assert_eq!(c.len(), 1);
    assert!(matches!(c[0], Condition::TimeFrom(1234)));
}

#[test]
fn base_conditions_with_every_filter() {
    let f = FilterForm {
        src_ip: Some("10.0.0.1".to_string()),
        dst_ip: Some("10.0.0.2".to_string()),
        src_port: Some(1234),
        dst_port: Some(443),
        protocol: Some(6),
        iiface: Some("eth0".to_string()),
        oiface: Some("eth1".to_string()),
        allowed: Some(true),
        ..form()
    };
    let c = f.base_conditions(7);
    assert_eq!(c.len(), 9);
    assert!(matches!(c[0], Condition::TimeFrom(7)));
    assert!(matches!(&c[1], Condition::SrcIp(s) if s == "10.0.0.1"));
    assert!(matches!(&c[2], Condition::DstIp(s) if s == "10.0.0.2"));
    assert!(matches!(c[3], Condition::SrcPort(1234)));
    assert!(matches!(c[4], Condition::DstPort(443)));
    assert!(matches!(c[5], Condition::Proto(6)));
    assert!(matches!(&c[6], Condition::Iiface(s) if s == "eth0"));
    assert!(matches!(&c[7], Condition::Oiface(s) if s == "eth1"));
    assert!(matches!(c[8], Condition::Verdict(true)));
}

#[test]
fn base_conditions_dropped_traffic_and_wide_protocol() {
    let f = FilterForm {
        protocol: Some(256 + 17),
        allowed: Some(false),
        ..form()
    };
    let c = f.base_conditions(0);
    assert_eq!(c.len(), 3);
    assert!(matches!(c[1], Condition::Proto(17)));
    assert!(matches!(c[2], Condition::Verdict(false)));
}

#[test]
fn prefix_patterns() {
    assert_eq!(prefix_pattern(true), "allow");
    assert_eq!(prefix_pattern(false), "drop");
}

#[test]
fn time_cutoff_subtracts_the_range() {
    assert_eq!(time_cutoff(10_000, 3600), 6400);
    assert_eq!(time_cutoff(3600, 3600), 0);
}

#[test]
fn time_cutoff_stops_at_zero() {
    assert_eq!(time_cutoff(100, 3600), 0);
    assert_eq!(time_cutoff(0, u32::MAX), 0);
}

#[test]
fn time_cutoff_reads_seconds_as_u32() {
    assert_eq!(time_cutoff((1u64 << 32) + 5000, 1000), 4000);
}

#[test]
fn timeline_bucket_widths() {
    assert_eq!(timeline_bucket(0), 10);
    assert_eq!(timeline_bucket(300), 10);
    assert_eq!(timeline_bucket(301), 30);
    assert_eq!(timeline_bucket(900), 30);
    assert_eq!(timeline_bucket(901), 60);
    assert_eq!(timeline_bucket(3600), 60);
    assert_eq!(timeline_bucket(3601), 300);
    assert_eq!(timeline_bucket(21600), 300);
    assert_eq!(timeline_bucket(21601), 900);
    assert_eq!(timeline_bucket(u32::MAX), 900);
}

#[test]
fn live_window_always_pages() {
    let f = FilterForm {
        limit: 20,
        offset: 5,
        ..form()
    };
    let first = f.live_window(0);
    assert_eq!(first.after_rowid, 0);
    assert_eq!(first.page, (20, 5));
    let next = f.live_window(42);
    assert_eq!(next.after_rowid, 42);
    assert_eq!(next.page, (20, 5));
}

#[test]
fn advance_cursor_moves_to_the_last_row() {
    assert_eq!(advance_cursor(7, &vec![]), 7);
    assert_eq!(advance_cursor(7, &vec![row(8), row(9), row(12)]), 12);
}

#[test]
fn tally_interfaces_sums_each_side() {
    let rows = vec![
        traffic(Some("eth0"), Some("eth1"), 3, 300),
        traffic(Some("eth0"), None, 2, 20),
        traffic(Some("eth1"), Some("eth0"), 5, 50),
        traffic(Some(""), Some("eth2"), 1, 1),
        traffic(None, Some(""), 4, 4),
    ];
    let m = tally_interfaces(&rows).unwrap();
    assert_eq!(m.get(&"eth0".to_string()), Some(Interface::new(5, 5, 320, 50)));
    assert_eq!(m.get(&"eth1".to_string()), Some(Interface::new(5, 3, 50, 300)));
    assert_eq!(m.get(&"eth2".to_string()), Some(Interface::new(0, 1, 0, 1)));
    assert_eq!(m.get(&"".to_string()), None);
    assert_eq!(m.entries().len(), 3);
}

#[test]
fn tally_interfaces_same_interface_both_sides() {
    let rows = vec![traffic(Some("lo"), Some("lo"), 2, 8)];
    let m = tally_interfaces(&rows).unwrap();
    assert_eq!(m.get(&"lo".to_string()), Some(Interface::new(2, 2, 8, 8)));
}

#[test]
fn tally_interfaces_empty() {
    let m = tally_interfaces(&vec![]).unwrap();
    assert!(m.entries().is_empty());
}

#[test]
fn tally_interfaces_reads_counts_as_u32() {
    let rows = vec![traffic(Some("eth0"), None, (1i64 << 32) + 3, -1)];
    let m = tally_interfaces(&rows).unwrap();
    assert_eq!(m.get(&"eth0".to_string()), Some(Interface::new(3, 0, u32::MAX, 0)));
}

#[test]
fn tally_interfaces_overflow() {
    let rows = vec![
        traffic(Some("eth0"), None, 1, i64::from(u32::MAX)),
        traffic(None, Some("eth1"), 1, 1),
        traffic(Some("eth0"), None, 1, 1),
    ];
    assert!(tally_interfaces(&rows).is_none());
    let fits = vec![
        traffic(Some("eth0"), None, 1, i64::from(u32::MAX)),
        traffic(Some("eth1"), None, 1, 1),
    ];
    assert!(tally_interfaces(&fits).is_some());
}

#[test]
fn distribution_keeps_the_last_count() {
    let rows = vec![
        ("allow".to_string(), 10),
        ("drop".to_string(), 3),
        ("allow".to_string(), 12),
    ];
    let m = distribution(&rows);
    assert_eq!(m.get(&"allow".to_string()), Some(12));
    assert_eq!(m.get(&"drop".to_string()), Some(3));
    assert_eq!(m.entries().len(), 2);
}

#[test]
fn label_protocols_in_decimal() {
    let labels = label_protocols(&vec![(1, 5), (17, 9), (255, 1), (0, 2)]);
    assert_eq!(
        labels,
        vec![
            ("1".to_string(), 5),
            ("17".to_string(), 9),
            ("255".to_string(), 1),
            ("0".to_string(), 2)
        ]
    );
    let m = distribution(&labels);
    assert_eq!(m.get(&"17".to_string()), Some(9));
}

#[test]
fn classify_filters_by_kind() {
    let f = |kind: Kind, value: &str| filters::Model {
        oob_time_sec: 0,
        oob_time_usec: 0,
        kind,
        value: value.to_string(),
    };
    let rows = vec![
        f(Kind::InputInterface, "eth0"),
        f(Kind::Protocol, "tcp"),
        f(Kind::OutputInterface, "eth1"),
        f(Kind::InputInterface, "eth2"),
        f(Kind::Protocol, "udp"),
    ];
    let o = classify_filters(&rows);
    assert_eq!(o.iifaces, vec!["eth0".to_string(), "eth2".to_string()]);
    assert_eq!(o.oifaces, vec!["eth1".to_string()]);
    assert_eq!(o.protocols, vec!["tcp".to_string(), "udp".to_string()]);
}

#[test]
fn summary_totals_read_counts_as_u32() {
    let t = summary_totals((12, Some((1i64 << 32) + 7)), 3, (1u64 << 32) + 2);
    assert_eq!(t.packets, 12);
    assert_eq!(t.bytes, 7);
    assert_eq!(t.src, 3);
    assert_eq!(t.dst, 2);
}

#[test]
fn top_plans() {
    let p = top_plan(TopKind::SrcIp);
    assert_eq!(p.key, TopKey::SrcIp);
    assert!(!p.with_proto && !p.port_required);
    assert_eq!(p.rank_by, RankBy::Bytes);
    assert!(p.descending);
    assert_eq!(p.limit, 10);
    let p = top_plan(TopKind::DstIp);
    assert_eq!(p.key, TopKey::DstIp);
    assert!(!p.with_proto && !p.port_required);
    assert_eq!(p.rank_by, RankBy::Bytes);
    assert!(p.descending);
    assert_eq!(p.limit, 10);
    let p = top_plan(TopKind::DstPort);
    assert_eq!(p.key, TopKey::DstPortText);
    assert!(p.with_proto && p.port_required);
    assert_eq!(p.rank_by, RankBy::Bytes);
    assert!(p.descending);
    assert_eq!(p.limit, 10);
}

#[test]
fn distinct_addresses() {
    assert_eq!(distinct_address(TopKind::SrcIp), Address::Source);
    assert_eq!(distinct_address(TopKind::DstIp), Address::Destination);
}

#[test]
fn timeline_plans() {
    let p = timeline_plan(3600);
    assert_eq!(p.width, 60);
    assert_eq!(p.bucket_expression, "(oob_time_sec / 60) * 60");
    assert!(p.ascending);
    let p = timeline_plan(100_000);
    assert_eq!(p.width, 900);
    assert_eq!(p.bucket_expression, "(oob_time_sec / 900) * 900");
}

#[test]
fn summary_totals_of_an_empty_selection() {
    let t = summary_totals((0, None), 0, 0);
    assert_eq!(t.packets, 0);
    assert_eq!(t.bytes, 0);
}
