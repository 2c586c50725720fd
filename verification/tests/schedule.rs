use burn_stack::utils::schedule::{Applications, BidiSchedule, GradHorizon, Schedule};

#[test]
fn schedule() {
    assert_eq!(
        (0..8)
            .map(|i| Schedule::real_idx(&Schedule::Cyclic, i, 8, 3))
            .collect::<Vec<_>>(),
        vec![0, 1, 2, 0, 1, 2, 0, 1]
    );
    assert_eq!(
        (0..8)
            .map(|i| Schedule::real_idx(&Schedule::Stretched, i, 8, 3))
            .collect::<Vec<_>>(),
        vec![0, 0, 0, 1, 1, 1, 2, 2]
    );
    let custom = vec![0, 1, 2, 2, 1, 0, 0, 0];
    assert_eq!(
        (0..8)
            .map(|i| Schedule::real_idx(&Schedule::Custom(custom.clone()), i, 8, 3))
            .collect::<Vec<_>>(),
        custom
    );
}

#[test]
fn bidi_schedule() {
    assert_eq!(
        (0..10)
            .map(|i| BidiSchedule::real_idx(&BidiSchedule::StridedCyclic, i, 10, 4))
            .collect::<Vec<_>>(),
        vec![
            0, 1, /**/ 2, 3, /**/ 0, 1, /**/ 2, 3, /**/ 0, 1
        ]
    );
    assert_eq!(
        (0..10)
            .map(|i| BidiSchedule::real_idx(&BidiSchedule::StridedStretched, i, 10, 4))
            .collect::<Vec<_>>(),
        vec![
            0, 1, /**/ 0, 1, /**/ 0, 1, /**/ 2, 3, /**/ 2, 3
        ]
    );
    assert_eq!(
        (0..10)
            .map(|i| BidiSchedule::real_idx(&BidiSchedule::SymmetricCyclic, i, 10, 4))
            .collect::<Vec<_>>(),
        vec![
            0, 0, /**/ 1, 1, /**/ 2, 2, /**/ 3, 3, /**/ 0, 0
        ]
    );
    assert_eq!(
        (0..10)
            .map(|i| BidiSchedule::real_idx(&BidiSchedule::SymmetricStretched, i, 10, 4))
            .collect::<Vec<_>>(),
        vec![
            0, 0, /**/ 0, 0, /**/ 1, 1, /**/ 2, 2, /**/ 3, 3
        ]
    );
    let custom = vec![
        0, 1, /**/ 2, 2, /**/ 1, 0, /**/ 0, 0, /**/ 3, 2,
    ];
    assert_eq!(
        (0..10)
            .map(|i| BidiSchedule::real_idx(&BidiSchedule::Custom(custom.clone()), i, 10, 4))
            .collect::<Vec<_>>(),
        custom
    );
}

#[test]
fn grad_horizon_depth_keeps_every_real_layer() {
    let t = |schedule: Option<&Schedule>, k: usize| {
        GradHorizon::Depth(k)
            .tracked_mask(schedule, 8, 3)
            .into_iter()
            .map(|b| if b { 'T' } else { '.' })
            .collect::<String>()
    };

    // Cyclic (0 1 2 0 1 2 0 1) spreads each real layer's applications, so the
    // last `k` of each are a single top suffix.
    assert_eq!(t(Some(&Schedule::Cyclic), 0), "........");
    assert_eq!(t(Some(&Schedule::Cyclic), 1), ".....TTT");
    assert_eq!(t(Some(&Schedule::Cyclic), 2), "..TTTTTT");
    assert_eq!(t(Some(&Schedule::Cyclic), 3), "TTTTTTTT");

    // Stretched (0 0 0 1 1 1 2 2) runs each real layer once, contiguously, so
    // the tail of *every* run is kept: one cut per real layer.
    assert_eq!(t(Some(&Schedule::Stretched), 1), "..T..T.T");
    assert_eq!(t(Some(&Schedule::Stretched), 2), ".TT.TTTT");
    assert_eq!(t(Some(&Schedule::Stretched), 3), "TTTTTTTT");

    // No virtual scheduling: one application per real layer, so any k >= 1
    // keeps the whole stack (`GradHorizon::last` is the suffix cut there).
    assert_eq!(
        GradHorizon::Depth(1).tracked_mask(None, 3, 3),
        vec![true, true, true]
    );
    assert_eq!(
        GradHorizon::Depth(0).tracked_mask(None, 3, 3),
        vec![false, false, false]
    );
}

#[test]
fn grad_horizon_last_is_a_plain_suffix() {
    let mask = |h: GradHorizon| match h {
        GradHorizon::Mask(m) => m,
        _ => unreachable!("last() builds a mask"),
    };
    assert_eq!(mask(GradHorizon::last(0, 3)), vec![false, false, false]);
    assert_eq!(mask(GradHorizon::last(2, 3)), vec![false, true, true]);
    assert_eq!(mask(GradHorizon::last(9, 3)), vec![true, true, true]);
    // A mask is taken as given, whatever the schedule.
    let m = vec![true, false, true, false, false, true, false, true];
    assert_eq!(
        GradHorizon::Mask(m.clone()).tracked_mask(Some(&Schedule::Stretched), 8, 3),
        m
    );
}

#[test]
fn applications_number_each_real_layer() {
    let apps = Schedule::Stretched.applications(8, 3);
    assert_eq!(
        apps,
        Applications {
            index: vec![0, 1, 2, 0, 1, 2, 0, 1],
            count: vec![3, 3, 2],
        }
    );
    let apps = BidiSchedule::SymmetricCyclic.applications(6, 2);
    assert_eq!(apps.index, vec![0, 1, 0, 1, 2, 3]);
    assert_eq!(apps.count, vec![4, 2]);
}

#[test]
fn grad_horizon_depth_rejects_a_custom_schedule() {
    let custom = Schedule::Custom(vec![0, 1, 2, 2, 1, 0, 0, 0]);
    assert!(!GradHorizon::Depth(1).resolves(Some(&custom), 8, 3));
    assert!(GradHorizon::Depth(1).resolves(Some(&Schedule::Cyclic), 8, 3));
}

#[test]
fn grad_horizon_mask_must_match_the_stack() {
    let mask = GradHorizon::Mask(vec![true, false]);
    assert!(!mask.resolves(Some(&Schedule::Cyclic), 8, 3));
    assert!(mask.resolves(None, 2, 2));
}

#[test]
fn a_schedule_must_land_on_real_layers() {
    assert!(Schedule::Cyclic.runs(8, 3));
    assert!(Schedule::Stretched.runs(8, 3));
    assert!(!Schedule::Cyclic.runs(8, 0));
    assert!(!Schedule::Stretched.runs(8, 0));
    assert!(!Schedule::Custom(vec![0, 3]).runs(2, 3));
    assert!(!Schedule::Custom(vec![0]).runs(2, 3));
    assert!(BidiSchedule::StridedCyclic.runs(10, 4));
    assert!(!BidiSchedule::Custom(vec![4, 0]).runs(2, 4));
    assert_eq!(Schedule::default().real_idx(5, 8, 3), 2);
    assert_eq!(BidiSchedule::default().real_idx(5, 10, 4), 1);
}

#[test]
fn a_pair_schedule_stays_within_an_odd_stack() {
    let stretched = |s: &BidiSchedule, len: usize, real: usize| -> Vec<usize> {
        (0..len).map(|i| s.real_idx(i, len, real)).collect()
    };
    let symmetric = BidiSchedule::SymmetricStretched;
    assert_eq!(stretched(&symmetric, 3, 4), vec![0, 0, 3]);
    assert_eq!(stretched(&symmetric, 5, 4), vec![0, 0, 2, 2, 3]);
    assert_eq!(stretched(&symmetric, 1, 4), vec![0]);
    let strided = BidiSchedule::StridedStretched;
    assert_eq!(stretched(&strided, 5, 4), vec![0, 1, 2, 3, 2]);
    assert!(symmetric.runs(3, 4));
    assert!(strided.runs(5, 4));
    assert!(!strided.runs(2, 1));
    assert!(strided.runs(1, 1));
    assert!(!symmetric.runs(2, 0));
    assert!(!Schedule::Stretched.runs(2, 0));
}

#[test]
fn stretched_runs_are_even() {
    let reals: Vec<usize> = (0..8).map(|i| Schedule::Stretched.real_idx(i, 8, 3)).collect();
    assert_eq!(reals, vec![0, 0, 0, 1, 1, 1, 2, 2]);
}
