use flcommon::model::{fedavg_total, quorum_reached, round_outcome};

#[test]
fn fedavg_rejects_empty_and_mismatched() {
    assert_eq!(fedavg_total(&[], &[]), None);
    assert_eq!(fedavg_total(&[1, 2], &[1, 1]), None);
}

#[test]
fn fedavg_total_of_admissible_updates() {
    assert_eq!(fedavg_total(&[2, 2], &[1, 3]), Some(4));
    assert_eq!(fedavg_total(&[5], &[1000]), Some(1000));
}

#[test]
fn fedavg_needs_at_least_one_sample() {
    assert_eq!(fedavg_total(&[3, 3], &[0, 0]), None);
}

#[test]
fn fedavg_weighted_mean() {
    let u = vec![(vec![1.0f32, 1.0], 1u64), (vec![3.0f32, 5.0], 3u64)];
    let lens: Vec<usize> = u.iter().map(|(w, _)| w.len()).collect();
    let counts: Vec<u64> = u.iter().map(|(_, n)| *n).collect();
    let total = fedavg_total(&lens, &counts).unwrap();
    let mut m = vec![0.0f32; lens[0]];
    for (w, n) in &u {
        let f = (*n as f32) / (total as f32);
        for (o, v) in m.iter_mut().zip(w.iter()) {
            *o += f * *v;
        }
    }
    assert!((m[0] - 2.5).abs() < 1e-6);
    assert!((m[1] - 4.0).abs() < 1e-6);
}

#[test]
fn round_succeeds_with_quorum_and_admissible_updates() {
    assert!(round_outcome(3, 3, &[5, 5, 5], &[10, 10, 10]));
    assert!(!round_outcome(2, 3, &[5, 5], &[10, 10]));
    assert!(!round_outcome(3, 3, &[5, 4, 5], &[10, 10, 10]));
    assert!(!round_outcome(3, 3, &[5, 5, 5], &[0, 0, 0]));
    assert!(!round_outcome(0, 0, &[], &[]));
    assert!(quorum_reached(3, 3));
    assert!(!quorum_reached(2, 3));
}
