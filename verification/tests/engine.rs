use cdn_optimizer::link::{generate_top_links, parse_node_link};
use cdn_optimizer::probe::{collect_outcomes, rank_outcomes, select_fastest, take_top, Outcome};

fn strings(v: &[&str]) -> Vec<String> {
    v.iter().map(|s| s.to_string()).collect()
}

#[test]
fn empty_candidate_set_yields_empty_output() {
    let r = select_fastest(&Vec::new(), &Vec::new());
    assert!(r.is_empty());
}

#[test]
fn all_unreachable_yields_empty_output() {
    let ips = strings(&["10.0.0.1", "10.0.0.2", "10.0.0.3"]);
    let measured = vec![None, None, None];
    let r = select_fastest(&ips, &measured);
    assert!(r.is_empty());
}

#[test]
fn closed_port_is_absent_and_output_is_ranked() {
    let ips = strings(&["10.0.0.1", "10.0.0.2", "10.0.0.3"]);
    let measured = vec![Some(20), None, Some(5)];
    let r = select_fastest(&ips, &measured);
    assert_eq!(r.len(), 2);
    assert_eq!(r[0].ip, "10.0.0.3");
    assert_eq!(r[0].latency_ms, 5);
    assert_eq!(r[1].ip, "10.0.0.1");
    assert_eq!(r[1].latency_ms, 20);
}

#[test]
fn collect_pairs_survivors_with_their_latency() {
    let ips = strings(&["a", "b", "c", "d"]);
    let measured = vec![None, Some(7), Some(3), None];
    let r = collect_outcomes(&ips, &measured);
    assert_eq!(r.len(), 2);
    assert_eq!((r[0].ip.as_str(), r[0].latency_ms), ("b", 7));
    assert_eq!((r[1].ip.as_str(), r[1].latency_ms), ("c", 3));
}

#[test]
fn ranking_sorts_ascending_and_keeps_every_outcome() {
    let input = vec![
        Outcome { ip: "e".to_string(), latency_ms: 40 },
        Outcome { ip: "a".to_string(), latency_ms: 12 },
        Outcome { ip: "b".to_string(), latency_ms: 40 },
        Outcome { ip: "c".to_string(), latency_ms: 1 },
        Outcome { ip: "d".to_string(), latency_ms: 12 },
    ];
    let r = rank_outcomes(&input);
    assert_eq!(r.len(), input.len());
    for w in r.windows(2) {
        assert!(w[0].latency_ms <= w[1].latency_ms);
    }
    let mut got: Vec<(String, u64)> = r.iter().map(|o| (o.ip.clone(), o.latency_ms)).collect();
    let mut want: Vec<(String, u64)> =
        input.iter().map(|o| (o.ip.clone(), o.latency_ms)).collect();
    got.sort();
    want.sort();
    assert_eq!(got, want);
}

#[test]
fn output_addresses_come_from_input() {
    let ips = strings(&["1.1.1.1", "2.2.2.2", "3.3.3.3"]);
    let measured = vec![Some(9), Some(2), None];
    let r = select_fastest(&ips, &measured);
    for o in &r {
        assert!(ips.contains(&o.ip));
    }
}

#[test]
fn latencies_stay_within_the_timeout_bound() {
    let timeout: u64 = 500;
    let ips = strings(&["1.1.1.1", "2.2.2.2"]);
    let measured = vec![Some(499), Some(500)];
    let r = select_fastest(&ips, &measured);
    for o in &r {
        assert!(o.latency_ms <= timeout);
    }
}

#[test]
fn take_top_truncates_only_when_over_the_limit() {
    let mk = |n: u64| Outcome { ip: format!("10.0.0.{}", n), latency_ms: n };
    let ranked = vec![mk(1), mk(2), mk(3)];
    let top2 = take_top(ranked, 2);
    assert_eq!(top2.len(), 2);
    assert_eq!(top2[0].latency_ms, 1);
    assert_eq!(top2[1].latency_ms, 2);
    let ranked = vec![mk(1), mk(2), mk(3)];
    let top10 = take_top(ranked, 10);
    assert_eq!(top10.len(), 3);
}

#[test]
fn top_links_rewrite_the_fastest_candidates_in_order() {
    let config = parse_node_link("vless://uuid@1.2.3.4:443#Fast").unwrap();
    let ranked = vec![
        Outcome { ip: "10.0.0.3".to_string(), latency_ms: 5 },
        Outcome { ip: "10.0.0.1".to_string(), latency_ms: 20 },
    ];
    let links = generate_top_links(&config, &ranked, 10);
    assert_eq!(links.len(), 2);
    assert_eq!(links[0], ("vless://uuid@10.0.0.3:443#Fast".to_string(), 5));
    assert_eq!(links[1], ("vless://uuid@10.0.0.1:443#Fast".to_string(), 20));
    let only_one = generate_top_links(&config, &ranked, 1);
    assert_eq!(only_one.len(), 1);
    assert_eq!(only_one[0].1, 5);
}
