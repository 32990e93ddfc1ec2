use image_folder::scheduler::Plateau;

/// Runs the metrics through a policy, comparing each with the best seen so
/// far, and returns the learning rate after each step.
fn run(patience: i64, lr: f64, factor: f64, metrics: &[f64]) -> Vec<f64> {
    let mut policy = Plateau::new(patience);
    let mut best = f64::INFINITY;
    let mut lr = lr;
    let mut out = Vec::new();
    for &m in metrics {
        let improved = m < best;
        if improved {
            best = m;
        }
        if policy.step(improved) {
            lr *= factor;
        }
        out.push(lr);
    }
    out
}

#[test]
fn constant_metric_decays_after_patience_misses() {
    // The first observation improves on the initial +infinity, so the three
    // misses that the patience asks for are steps 2, 3 and 4.
    let lrs = run(3, 0.1, 0.5, &[1.0, 1.0, 1.0, 1.0, 1.0]);
    assert_eq!(lrs, vec![0.1, 0.1, 0.1, 0.05, 0.05]);
}

#[test]
fn plateau_after_improvements_waits_full_patience() {
    let lrs = run(5, 1e-3, 0.5, &[2.0, 1.5, 1.5, 1.5, 1.5, 1.5]);
    assert_eq!(lrs, vec![1e-3; 6]);
    let lrs = run(5, 1e-3, 0.5, &[2.0, 1.5, 1.5, 1.5, 1.5, 1.5, 1.5]);
    assert_eq!(*lrs.last().unwrap(), 5e-4);
}

#[test]
fn decays_repeat_each_window() {
    let mut p = Plateau::new(2);
    let decays: Vec<bool> = [false, false, false, false, true, false, false]
        .iter()
        .map(|&i| p.step(i))
        .collect();
    assert_eq!(decays, vec![false, true, false, true, false, false, true]);
}

#[test]
fn non_positive_patience_defaults_to_five() {
    assert_eq!(Plateau::new(0).patience(), 5);
    assert_eq!(Plateau::new(-3).patience(), 5);
    assert_eq!(Plateau::new(7).patience(), 7);
}
