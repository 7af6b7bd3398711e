use drop_client::manager::DownloadManagerSignal;
use drop_client::progress::ProgressObject;
use drop_client::rolling::RollingProgressWindow;

#[test]
fn rolling_mean_of_empty_window_is_zero() {
    let w: RollingProgressWindow<4> = RollingProgressWindow::new();
    assert_eq!(w.get_average(), 0);
}

#[test]
fn rolling_mean_during_warm_up_ignores_empty_slots() {
    let mut w: RollingProgressWindow<4> = RollingProgressWindow::new();
    w.update(10);
    w.update(20);
    assert_eq!(w.get_average(), 15);
}

#[test]
fn rolling_mean_uses_most_recent_samples() {
    let mut w: RollingProgressWindow<3> = RollingProgressWindow::new();
    for v in [100, 1, 2, 3] {
        w.update(v);
    }
    assert_eq!(w.get_average(), 2);
    w.update(9);
    assert_eq!(w.get_average(), (2 + 3 + 9) / 3);
    w.reset();
    assert_eq!(w.get_average(), 0);
}

#[test]
fn rolling_mean_of_large_samples_does_not_overflow() {
    let mut w: RollingProgressWindow<2> = RollingProgressWindow::new();
    w.update(usize::MAX);
    w.update(usize::MAX);
    assert_eq!(w.get_average(), usize::MAX);
}

fn stats(signals: &[DownloadManagerSignal]) -> Option<(usize, usize)> {
    match signals.first() {
        Some(DownloadManagerSignal::UpdateUIStats(k, s)) => Some((*k, *s)),
        _ => None,
    }
}

#[test]
fn publisher_fires_at_most_every_quarter_second() {
    let mut p = ProgressObject::new(1_000_000, 2, 0);
    let first = p.add(0, 1000, 10);
    assert_eq!(first.len(), 2);
    assert!(matches!(first[1], DownloadManagerSignal::UpdateUIQueue));
    assert_eq!(stats(&first), Some((100, (999_000 / 1000) / 100)));
    let mut fired = 0;
    for t in 11..260u64 {
        fired += p.add(1, 1, t).len();
    }
    assert_eq!(fired, 0);
    assert_eq!(p.add(1, 1, 260).len(), 0);
    assert_eq!(p.add(1, 1, 270).len(), 2);
    assert_eq!(p.add(1, 1, 300).len(), 0);
}

#[test]
fn skipped_bytes_are_not_throughput() {
    let mut p = ProgressObject::new(10_000, 1, 0);
    p.skip(0, 5000);
    let s = p.add(0, 100, 50);
    assert_eq!(stats(&s), Some((2, (4900 / 1000) / 2)));
    assert_eq!(p.sum(), 5100);
}

#[test]
fn counters_never_pass_the_total() {
    let mut p = ProgressObject::new(100, 2, 0);
    p.add(0, 70, 0);
    p.add(1, 70, 1);
    assert_eq!(p.sum(), 100);
    assert_eq!(p.get(0), 70);
    assert_eq!(p.get(1), 30);
    p.reset(5);
    assert_eq!(p.sum(), 0);
    p.set_size(3);
    p.set_max(7);
    assert_eq!(p.get_max(), 7);
    assert_eq!(p.size(), 3);
}
