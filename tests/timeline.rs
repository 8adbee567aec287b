use etas::simulation::{Event, Progress, Sequence, Timeline, Verdict, INFINITY_BITS};
use rand_chacha::rand_core::SeedableRng;
use rand_chacha::ChaCha8Rng;
use rand_distr::{Distribution, Exp, Poisson, Uniform};

fn bits(x: f32) -> u32 {
    x.to_bits()
}

fn times_of(seq: &Sequence) -> Vec<f32> {
    seq.events().iter().map(|e| f32::from_bits(e.t)).collect()
}

/// One child draw: a candidate time, and the magnitude drawn if it is accepted.
enum Draw {
    Candidate(Option<f32>, f32),
}

/// Feeds each expanded event the draws given for it, in order, and ends each
/// stream with no further offspring.
fn replay(
    horizon: f32,
    max_len: Option<usize>,
    background: &[(f32, f32)],
    draws: &[Vec<Draw>],
) -> (Sequence, Vec<Progress>) {
    let times: Vec<u32> = background.iter().map(|b| bits(b.0)).collect();
    let mags: Vec<u32> = background.iter().map(|b| bits(b.1)).collect();
    let mut timeline = Timeline::start(bits(horizon), max_len, &times, &mags);
    let mut progress = Vec::new();
    let mut n = 0;
    while timeline.is_running() {
        if let Some(list) = draws.get(n) {
            for Draw::Candidate(t, m) in list {
                let candidate = t.map(bits);
                match timeline.judge(candidate) {
                    Verdict::Accept => timeline.add_child(candidate.unwrap(), bits(*m)),
                    Verdict::Skip => {}
                    Verdict::Stop => break,
                }
            }
        }
        assert_eq!(timeline.judge(None), Verdict::Stop);
        progress.push(timeline.advance());
        n += 1;
    }
    (timeline.into_sequence(), progress)
}

fn check_invariants(seq: &Sequence, horizon: f32) {
    let ev = seq.events();
    for i in 0..ev.len() {
        let t = f32::from_bits(ev[i].t);
        assert!(t >= 0.0 && t < horizon);
        if i + 1 < ev.len() {
            assert!(f32::from_bits(ev[i].t) <= f32::from_bits(ev[i + 1].t));
        }
        if let Some(p) = ev[i].parent {
            assert!(p < i);
            assert!(f32::from_bits(ev[p].t) < t);
        }
    }
}

#[test]
fn background_is_sorted_stably() {
    let times = vec![bits(3.0), bits(1.0), bits(2.0), bits(1.0)];
    let mags = vec![bits(0.1), bits(0.2), bits(0.3), bits(0.4)];
    let timeline = Timeline::start(bits(10.0), None, &times, &mags);
    assert!(timeline.is_running());
    let seq = timeline.into_sequence();
    let got: Vec<(u32, u32, Option<usize>)> =
        seq.events().iter().map(|e| (e.t, e.m, e.parent)).collect();
    assert_eq!(
        got,
        vec![
            (bits(1.0), bits(0.2), None),
            (bits(1.0), bits(0.4), None),
            (bits(2.0), bits(0.3), None),
            (bits(3.0), bits(0.1), None),
        ]
    );
}

#[test]
fn empty_background_gives_empty_sequence() {
    let timeline = Timeline::start(bits(10.0), None, &vec![], &vec![]);
    assert!(!timeline.is_running());
    let seq = timeline.into_sequence();
    assert!(seq.is_empty());
    assert_eq!(seq.len(), 0);
    assert!(Sequence::new().is_empty());
}

#[test]
fn verdicts_on_candidates() {
    let timeline = Timeline::start(bits(10.0), None, &vec![bits(2.0)], &vec![bits(1.0)]);
    assert_eq!(timeline.current(), Event { t: bits(2.0), m: bits(1.0), parent: None });
    assert_eq!(timeline.judge(None), Verdict::Stop);
    assert_eq!(timeline.judge(Some(bits(10.0))), Verdict::Stop);
    assert_eq!(timeline.judge(Some(bits(12.5))), Verdict::Stop);
    assert_eq!(timeline.judge(Some(bits(-1.0))), Verdict::Stop);
    assert_eq!(timeline.judge(Some(bits(-0.0))), Verdict::Stop);
    assert_eq!(timeline.judge(Some(bits(f32::NAN))), Verdict::Stop);
    assert_eq!(timeline.judge(Some(bits(f32::INFINITY))), Verdict::Stop);
    assert_eq!(timeline.judge(Some(bits(1.5))), Verdict::Skip);
    assert_eq!(timeline.judge(Some(bits(2.0))), Verdict::Skip);
    assert_eq!(timeline.judge(Some(bits(2.000001))), Verdict::Accept);
    assert_eq!(timeline.judge(Some(bits(9.99))), Verdict::Accept);
}

#[test]
fn infinite_horizon_bits() {
    assert_eq!(INFINITY_BITS, f32::INFINITY.to_bits());
}

#[test]
fn children_are_inserted_in_time_order() {
    let times = vec![bits(1.0), bits(5.0)];
    let mags = vec![bits(0.5), bits(0.6)];
    let mut timeline = Timeline::start(bits(10.0), None, &times, &mags);
    timeline.add_child(bits(6.0), bits(0.7));
    timeline.add_child(bits(5.0), bits(0.8));
    timeline.add_child(bits(1.5), bits(0.9));
    let seq = timeline.into_sequence();
    let got: Vec<(f32, Option<usize>)> =
        seq.events().iter().map(|e| (f32::from_bits(e.t), e.parent)).collect();
    assert_eq!(
        got,
        vec![
            (1.0, None),
            (1.5, Some(0)),
            (5.0, None),
            (5.0, Some(0)),
            (6.0, Some(0)),
        ]
    );
}

#[test]
fn expansion_runs_to_exhaustion() {
    let (seq, progress) = replay(
        10.0,
        None,
        &[(1.0, 0.1), (4.0, 0.2)],
        &[
            vec![Draw::Candidate(Some(2.0), 0.3), Draw::Candidate(Some(7.0), 0.4)],
            vec![Draw::Candidate(Some(3.0), 0.5)],
            vec![Draw::Candidate(Some(0.5), 0.6), Draw::Candidate(Some(4.5), 0.7)],
        ],
    );
    assert_eq!(times_of(&seq), vec![1.0, 2.0, 3.0, 4.0, 4.5, 7.0]);
    let parents: Vec<Option<usize>> = seq.events().iter().map(|e| e.parent).collect();
    assert_eq!(parents, vec![None, Some(0), Some(1), None, Some(2), Some(0)]);
    assert_eq!(
        progress,
        vec![
            Progress::Continue,
            Progress::Continue,
            Progress::Continue,
            Progress::Continue,
            Progress::Continue,
            Progress::Exhausted
        ]
    );
    check_invariants(&seq, 10.0);
}

#[test]
fn stop_ends_the_offspring_stream() {
    let (seq, _) = replay(
        10.0,
        None,
        &[(1.0, 0.1)],
        &[vec![
            Draw::Candidate(Some(2.0), 0.3),
            Draw::Candidate(Some(11.0), 0.4),
            Draw::Candidate(Some(3.0), 0.5),
        ]],
    );
    assert_eq!(times_of(&seq), vec![1.0, 2.0]);
    let (seq, _) = replay(
        10.0,
        None,
        &[(1.0, 0.1)],
        &[vec![Draw::Candidate(None, 0.3), Draw::Candidate(Some(3.0), 0.5)]],
    );
    assert_eq!(times_of(&seq), vec![1.0]);
}

#[test]
fn child_at_parent_time_is_skipped() {
    let (seq, _) = replay(
        2000.0,
        None,
        &[(1000.0, 0.1)],
        &[vec![
            Draw::Candidate(Some(1000.0 + 1e-9), 0.3),
            Draw::Candidate(Some(1000.5), 0.4),
        ]],
    );
    assert_eq!(times_of(&seq), vec![1000.0, 1000.5]);
    let parents: Vec<Option<usize>> = seq.events().iter().map(|e| e.parent).collect();
    assert_eq!(parents, vec![None, Some(0)]);
}

fn busy_draws() -> Vec<Vec<Draw>> {
    vec![
        vec![Draw::Candidate(Some(1.5), 0.3), Draw::Candidate(Some(6.0), 0.4)],
        vec![Draw::Candidate(Some(2.5), 0.5)],
        vec![Draw::Candidate(Some(2.0), 0.6)],
        vec![Draw::Candidate(Some(2.6), 0.7)],
        vec![],
        vec![Draw::Candidate(Some(8.0), 0.8)],
    ]
}

#[test]
fn truncation_keeps_the_earliest_events() {
    let background = [(1.0, 0.1), (3.0, 0.2)];
    let (full, _) = replay(10.0, None, &background, &busy_draws());
    let (cut, progress) = replay(10.0, Some(3), &background, &busy_draws());
    assert!(full.len() > 3);
    assert_eq!(cut.len(), 3);
    assert_eq!(progress.last(), Some(&Progress::Truncated));
    assert_eq!(progress.len(), 4);
    for i in 0..3 {
        assert_eq!(cut.get(i), full.get(i));
    }
    check_invariants(&cut, 10.0);
}

#[test]
fn zero_bound_gives_empty_sequence() {
    let (cut, progress) = replay(10.0, Some(0), &[(1.0, 0.1), (3.0, 0.2)], &busy_draws());
    assert!(cut.is_empty());
    assert_eq!(progress, vec![Progress::Truncated]);
}

#[test]
fn bound_above_length_changes_nothing() {
    let background = [(1.0, 0.1), (3.0, 0.2)];
    let (full, _) = replay(10.0, None, &background, &busy_draws());
    let (bounded, progress) = replay(10.0, Some(100), &background, &busy_draws());
    assert_eq!(bounded.events(), full.events());
    assert_eq!(progress.last(), Some(&Progress::Exhausted));
}

#[test]
fn same_draws_give_same_sequence() {
    let background = [(1.0, 0.1), (3.0, 0.2)];
    let (a, pa) = replay(10.0, None, &background, &busy_draws());
    let (b, pb) = replay(10.0, None, &background, &busy_draws());
    assert_eq!(a.events(), b.events());
    assert_eq!(pa, pb);
    check_invariants(&a, 10.0);
}

/// Runs the background and a branching ratio of zero, as the driver does:
/// with no productivity there is no offspring candidate.
fn background_only(seed: u64, mu: f32, t_end: f32) -> (Sequence, usize) {
    let mut rng = ChaCha8Rng::seed_from_u64(seed);
    let mean = mu * t_end;
    let k = if mean == 0.0 {
        0
    } else {
        Poisson::new(mean).unwrap().sample(&mut rng) as usize
    };
    let exp = Exp::<f32>::new(10f32.ln()).unwrap();
    let times: Vec<u32> = Uniform::from(0.0..t_end)
        .sample_iter(&mut rng)
        .take(k)
        .map(|t: f32| t.to_bits())
        .collect();
    let mags: Vec<u32> = exp.sample_iter(&mut rng).take(k).map(|m: f32| m.to_bits()).collect();
    let mut timeline = Timeline::start(bits(t_end), None, &times, &mags);
    while timeline.is_running() {
        assert_eq!(timeline.judge(None), Verdict::Stop);
        timeline.advance();
    }
    (timeline.into_sequence(), k)
}

#[test]
fn zero_background_rate_is_empty_for_any_seed() {
    for seed in [0u64, 1, 42, 12345] {
        let (seq, k) = background_only(seed, 0.0, 10.0);
        assert_eq!(k, 0);
        assert!(seq.is_empty());
    }
}

#[test]
fn zero_branching_ratio_keeps_background_only() {
    let (seq, k) = background_only(42, 5.0, 1.0);
    let (again, k_again) = background_only(42, 5.0, 1.0);
    assert_eq!(seq.len(), k);
    assert_eq!(k, k_again);
    assert_eq!(seq.events(), again.events());
    assert!(seq.events().iter().all(|e| e.parent.is_none()));
    check_invariants(&seq, 1.0);
}
