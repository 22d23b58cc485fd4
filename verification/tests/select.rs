use flcommon::rng::SplitMix64;
use flcommon::select::{
    apply_service_verdicts, build_pool, native_verdicts, rank_candidates, rank_pool, score_key, select_random,
    service_reply_verdict, views_from_probes, NodeView, Policy, ProbeFacts, Strategy,
};

/// Resource figures of a node, as the scheduler measures them.
struct Metrics {
    bench_mops: f64,
    bandwidth_mbps: f64,
    rtt_ms: f64,
    availability: f64,
}

fn node(id: &str, jur: &str, mops: f64, rtt: f64) -> (NodeView, Metrics) {
    (
        NodeView {
            id: id.into(),
            reachable: true,
            jurisdiction: jur.into(),
            license_active: true,
            residency_zone: if jur == "UG" { "ug-central".into() } else { "xx-1".into() },
        },
        Metrics { bench_mops: mops, bandwidth_mbps: 50.0, rtt_ms: rtt, availability: 1.0 },
    )
}

fn policy() -> Policy {
    Policy { allowed_jurisdictions: vec!["UG".into()], allowed_zones: vec!["ug-central".into()] }
}

fn verdicts(nodes: &[(NodeView, Metrics)]) -> Vec<Result<(), String>> {
    nodes.iter().map(|(n, _)| policy().check(n)).collect()
}

fn minmax(vals: &[f64]) -> (f64, f64) {
    let mut lo = f64::INFINITY;
    let mut hi = f64::NEG_INFINITY;
    for v in vals {
        lo = lo.min(*v);
        hi = hi.max(*v);
    }
    (lo, hi)
}

fn norm(v: f64, lo: f64, hi: f64) -> f64 {
    if (hi - lo).abs() < 1e-12 {
        1.0
    } else {
        (v - lo) / (hi - lo)
    }
}

struct Selected {
    selected: Vec<(usize, f64)>,
    excluded: Vec<(usize, String)>,
}

/// The selection round, composed from the library as the scheduler does,
/// with the default weights (0.35 / 0.25 / 0.25 / 0.15).
fn select(
    nodes: &[(NodeView, Metrics)],
    verdicts: &[Result<(), String>],
    k: usize,
    strategy: Strategy,
    rng: &mut SplitMix64,
) -> Selected {
    let views: Vec<NodeView> = nodes.iter().map(|(n, _)| n.clone()).collect();
    if strategy == Strategy::Random {
        let idx = select_random(views.len(), k, rng);
        return Selected { selected: idx.into_iter().map(|i| (i, 0.0)).collect(), excluded: vec![] };
    }
    let p = build_pool(&views, verdicts, strategy);
    if p.pool.is_empty() {
        return Selected { selected: vec![], excluded: p.excluded };
    }
    let col = |f: &dyn Fn(&Metrics) -> f64| minmax(&p.pool.iter().map(|&i| f(&nodes[i].1)).collect::<Vec<_>>());
    let (c_lo, c_hi) = col(&|m| m.bench_mops);
    let (b_lo, b_hi) = col(&|m| m.bandwidth_mbps);
    let (l_lo, l_hi) = col(&|m| m.rtt_ms);
    let (a_lo, a_hi) = col(&|m| m.availability);
    let scores: Vec<(usize, f64)> = p
        .pool
        .iter()
        .map(|&i| {
            let m = &nodes[i].1;
            let s = 0.35 * norm(m.bench_mops, c_lo, c_hi)
                + 0.25 * norm(m.bandwidth_mbps, b_lo, b_hi)
                + 0.25 * (1.0 - norm(m.rtt_ms, l_lo, l_hi))
                + 0.15 * norm(m.availability, a_lo, a_hi);
            (i, s)
        })
        .collect();
    let keys: Vec<u64> = scores.iter().map(|&(_, s)| score_key(s.to_bits())).collect();
    let ranked = rank_pool(&views, verdicts, strategy, &keys, k);
    let selected = ranked
        .iter()
        .map(|&(i, _)| (i, scores.iter().find(|(j, _)| *j == i).unwrap().1))
        .collect();
    Selected { selected, excluded: p.excluded }
}

#[test]
fn policy_is_hard_filter_even_for_best_node() {
    let nodes = vec![node("fast_foreign", "XX", 9999.0, 1.0), node("slow_ok", "UG", 10.0, 200.0)];
    let mut rng = SplitMix64::new(1);
    let s = select(&nodes, &verdicts(&nodes), 1, Strategy::PolicyResource, &mut rng);
    assert_eq!(s.selected.len(), 1);
    assert_eq!(nodes[s.selected[0].0].0.id, "slow_ok");
    assert_eq!(s.excluded.len(), 1);
}

#[test]
fn resource_only_ignores_policy() {
    let nodes = vec![node("fast_foreign", "XX", 9999.0, 1.0), node("slow_ok", "UG", 10.0, 200.0)];
    let mut rng = SplitMix64::new(1);
    let s = select(&nodes, &verdicts(&nodes), 1, Strategy::ResourceOnly, &mut rng);
    assert_eq!(nodes[s.selected[0].0].0.id, "fast_foreign");
}

#[test]
fn unreachable_nodes_excluded_from_scored_strategies() {
    let mut nodes = vec![node("a", "UG", 100.0, 10.0), node("b", "UG", 200.0, 10.0)];
    nodes[1].0.reachable = false;
    let mut rng = SplitMix64::new(1);
    let s = select(&nodes, &verdicts(&nodes), 2, Strategy::PolicyResource, &mut rng);
    assert_eq!(s.selected.len(), 1);
    assert_eq!(nodes[s.selected[0].0].0.id, "a");
}

#[test]
fn random_is_seed_deterministic() {
    let nodes: Vec<(NodeView, Metrics)> = (0..8).map(|i| node(&format!("n{i}"), "UG", 100.0, 10.0)).collect();
    let v = verdicts(&nodes);
    let a = select(&nodes, &v, 4, Strategy::Random, &mut SplitMix64::new(9));
    let b = select(&nodes, &v, 4, Strategy::Random, &mut SplitMix64::new(9));
    assert_eq!(a.selected.iter().map(|x| x.0).collect::<Vec<_>>(), b.selected.iter().map(|x| x.0).collect::<Vec<_>>());
}

#[test]
fn k_larger_than_pool_returns_pool() {
    let nodes = vec![node("a", "UG", 1.0, 1.0)];
    let mut rng = SplitMix64::new(1);
    let s = select(&nodes, &verdicts(&nodes), 5, Strategy::PolicyResource, &mut rng);
    assert_eq!(s.selected.len(), 1);
}

#[test]
fn strategy_names_round_trip() {
    for s in [Strategy::Random, Strategy::ResourceOnly, Strategy::PolicyResource] {
        assert_eq!(Strategy::parse(s.as_str()), Some(s));
    }
    assert_eq!(Strategy::parse("policy_resource"), Some(Strategy::PolicyResource));
    assert_eq!(Strategy::parse("Random"), None);
    assert_eq!(Strategy::parse(""), None);
    assert_eq!(Strategy::ResourceOnly.as_str(), "resource_only");
}

#[test]
fn policy_reasons_in_rule_order() {
    let p = policy();
    let (mut n, _) = node("x", "XX", 1.0, 1.0);
    assert_eq!(p.check(&n), Err("jurisdiction_not_permitted".to_string()));
    n.jurisdiction = "UG".into();
    assert_eq!(p.check(&n), Err("zone_not_permitted".to_string()));
    n.residency_zone = "ug-central".into();
    n.license_active = false;
    assert_eq!(p.check(&n), Err("license_not_active".to_string()));
    n.license_active = true;
    assert_eq!(p.check(&n), Ok(()));
}

#[test]
fn pool_and_exclusions_follow_node_order() {
    let mut nodes = vec![node("a", "UG", 1.0, 1.0), node("b", "XX", 1.0, 1.0), node("c", "UG", 1.0, 1.0)];
    nodes[2].0.reachable = false;
    let views: Vec<NodeView> = nodes.iter().map(|(n, _)| n.clone()).collect();
    let v = verdicts(&nodes);
    let p = build_pool(&views, &v, Strategy::PolicyResource);
    assert_eq!(p.pool, vec![0]);
    assert_eq!(p.excluded, vec![(1, "jurisdiction_not_permitted".to_string()), (2, "unreachable".to_string())]);
    let q = build_pool(&views, &[], Strategy::ResourceOnly);
    assert_eq!(q.pool, vec![0, 1]);
    assert_eq!(q.excluded, vec![(2, "unreachable".to_string())]);
}

#[test]
fn ranking_orders_by_key_then_id_then_position() {
    let ids: Vec<String> = ["n3", "n1", "n2", "n1"].iter().map(|s| s.to_string()).collect();
    let scored = vec![(0, 5), (1, 7), (2, 7), (3, 7)];
    assert_eq!(rank_candidates(&ids, &scored, 10), vec![(1, 7), (3, 7), (2, 7), (0, 5)]);
    assert_eq!(rank_candidates(&ids, &scored, 2), vec![(1, 7), (3, 7)]);
    assert_eq!(rank_candidates(&ids, &scored, 0), vec![]);
    // the same node scored twice keeps the order in which it was given
    let twice = vec![(1, 4), (1, 4)];
    assert_eq!(rank_candidates(&ids, &twice, 2), vec![(1, 4), (1, 4)]);
}

#[test]
fn score_keys_order_like_the_scores() {
    let xs: [f64; 9] = [-1e300, -2.5, -1e-300, -0.0, 0.0, 1e-300, 0.35, 1.0, 1e300];
    for w in xs.windows(2) {
        assert!(score_key(w[0].to_bits()) <= score_key(w[1].to_bits()));
        if w[0] < w[1] {
            assert!(score_key(w[0].to_bits()) < score_key(w[1].to_bits()));
        }
    }
    assert_eq!(score_key((-0.0f64).to_bits()), score_key(0.0f64.to_bits()));
    assert_eq!(score_key(0.0f64.to_bits()), 0x8000_0000_0000_0000);
    assert_eq!(score_key(1.0f64.to_bits()), 0x8000_0000_0000_0000 + 0x3FF0_0000_0000_0000);
}

#[test]
fn random_selection_is_a_shuffled_prefix() {
    let mut rng = SplitMix64::new(5);
    let got = select_random(8, 3, &mut rng);
    assert_eq!(got, vec![0, 7, 3]);
    let all = select_random(8, 20, &mut SplitMix64::new(5));
    assert_eq!(all, vec![0, 7, 3, 1, 4, 6, 5, 2]);
    assert!(select_random(0, 4, &mut SplitMix64::new(5)).is_empty());
    for seed in 0..20u64 {
        let mut picked = select_random(12, 5, &mut SplitMix64::new(seed));
        assert_eq!(picked.len(), 5);
        picked.sort();
        picked.dedup();
        assert_eq!(picked.len(), 5);
        assert!(picked.iter().all(|&i| i < 12));
    }
}

#[test]
fn native_verdicts_mark_unreachable() {
    let mut nodes = vec![node("a", "UG", 1.0, 1.0), node("b", "XX", 1.0, 1.0)];
    nodes[0].0.reachable = false;
    let views: Vec<NodeView> = nodes.iter().map(|(n, _)| n.clone()).collect();
    let v = native_verdicts(&policy(), &views);
    assert_eq!(v, vec![Err("unreachable".to_string()), Err("jurisdiction_not_permitted".to_string())]);
}

#[test]
fn service_verdicts_override_and_count_disagreements() {
    let native = vec![Ok(()), Err("zone_not_permitted".to_string()), Ok(()), Err("unreachable".to_string())];
    let service = vec![Some(Ok(())), Some(Ok(())), Some(Err("opa_denied".to_string())), None];
    let (v, d) = apply_service_verdicts(&native, &service);
    assert_eq!(v, vec![Ok(()), Ok(()), Err("opa_denied".to_string()), Err("unreachable".to_string())]);
    assert_eq!(d, 2);
}

#[test]
fn service_reply_is_fail_closed() {
    assert_eq!(service_reply_verdict(Some(true), None), Ok(()));
    assert_eq!(service_reply_verdict(Some(false), Some("zone".to_string())), Err("zone".to_string()));
    assert_eq!(service_reply_verdict(None, None), Err("opa_denied".to_string()));
    assert_eq!(service_reply_verdict(Some(false), None), Err("opa_denied".to_string()));
}

#[test]
fn views_from_probes_reflect_answers() {
    let ids: Vec<String> = vec!["n1".into(), "n2".into()];
    let probes = vec![
        Some(ProbeFacts { jurisdiction: "UG".into(), license_status: "revoked".into(), residency_zone: "ug-central".into() }),
        None,
    ];
    let v = views_from_probes(&ids, &probes, Strategy::PolicyResource);
    assert!(v[0].reachable && !v[0].license_active && v[0].jurisdiction == "UG");
    assert!(!v[1].reachable && v[1].jurisdiction.is_empty());
    let r = views_from_probes(&ids, &probes, Strategy::Random);
    assert!(r[1].reachable);
    let active = vec![Some(ProbeFacts { jurisdiction: "UG".into(), license_status: "active".into(), residency_zone: "z".into() })];
    assert!(views_from_probes(&ids[..1], &active, Strategy::ResourceOnly)[0].license_active);
}

#[test]
fn rank_pool_ranks_only_pool_members() {
    let mut nodes = vec![node("c", "UG", 1.0, 1.0), node("a", "XX", 1.0, 1.0), node("b", "UG", 1.0, 1.0)];
    nodes[2].0.reachable = false;
    let views: Vec<NodeView> = nodes.iter().map(|(n, _)| n.clone()).collect();
    let v = verdicts(&nodes);
    // PolicyResource pool is [0]; ResourceOnly pool is [0, 1]
    assert_eq!(rank_pool(&views, &v, Strategy::PolicyResource, &[9], 3), vec![(0, 9)]);
    assert_eq!(rank_pool(&views, &v, Strategy::ResourceOnly, &[5, 5], 3), vec![(1, 5), (0, 5)]);
    assert_eq!(rank_pool(&views, &v, Strategy::ResourceOnly, &[4, 5], 1), vec![(1, 5)]);
}

#[test]
fn nan_scores_share_the_lowest_key_and_rank_by_id() {
    let nans: [u64; 4] = [
        f64::NAN.to_bits(),
        (-f64::NAN).to_bits(),
        0x7FF0_0000_0000_0001,
        0xFFF8_0000_0000_0001,
    ];
    for &b in &nans {
        assert!(f64::from_bits(b).is_nan());
        assert_eq!(score_key(b), 0);
        assert!(score_key(b) < score_key(f64::NEG_INFINITY.to_bits()));
    }
    // a pool whose scores are all NaN, of both signs, ranks by id alone
    let ids: Vec<String> = ["n3", "n1", "n4", "n2"].iter().map(|s| s.to_string()).collect();
    let scored: Vec<(usize, u64)> = (0..4).map(|i| (i, score_key(nans[i]))).collect();
    assert_eq!(rank_candidates(&ids, &scored, 4), vec![(1, 0), (3, 0), (0, 0), (2, 0)]);
}
