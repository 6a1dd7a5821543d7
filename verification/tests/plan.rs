use om2nc::plan::{SourceStep, interval_comment, plan_steps};

fn h(x: i64) -> i64 {
    x * 60
}

// ecmwf_ifs-like cadence: hourly to 6 h, then 3-hourly to 12 h.
fn av() -> Vec<i64> {
    let mut v: Vec<i64> = (0..=6).map(h).collect();
    v.extend([9, 12].map(h));
    v
}

#[test]
fn native_intervals_without_accumulate() {
    let p = plan_steps(&[h(0), h(3), h(6), h(12)], Some(&av()), false);
    assert!(p.subsampled);
    assert_eq!(p.outputs[0].interval, (0, 0));
    assert_eq!(p.outputs[1].interval, (h(2), h(3)));
    assert_eq!(p.outputs[3].interval, (h(9), h(12)));
    assert_eq!(p.outputs[3].sources, vec![SourceStep { step: h(12), duration: h(3) }]);
    assert_eq!(p.unique_steps(), &[h(0), h(3), h(6), h(12)]);
    // Requesting every native step is not subsampled.
    assert!(!plan_steps(&av(), Some(&av()), false).subsampled);
}

#[test]
fn accumulate_combines_native_files() {
    let p = plan_steps(&[h(3), h(6), h(12)], Some(&av()), true);
    assert!(!p.subsampled);
    assert_eq!(p.outputs[0].interval, (0, h(3)));
    assert_eq!(
        p.outputs[0].sources.iter().map(|s| (s.step, s.duration)).collect::<Vec<_>>(),
        vec![(h(1), h(1)), (h(2), h(1)), (h(3), h(1))]
    );
    assert_eq!(p.outputs[1].interval, (h(3), h(6)));
    assert_eq!(p.outputs[2].interval, (h(6), h(12)));
    assert_eq!(
        p.outputs[2].sources.iter().map(|s| (s.step, s.duration)).collect::<Vec<_>>(),
        vec![(h(9), h(3)), (h(12), h(3))]
    );
    assert_eq!(p.unique_steps().len(), 8);
}

#[test]
fn unknown_cadence() {
    let p = plan_steps(&[h(3), h(6)], None, false);
    assert_eq!(p.outputs[1].interval, (h(6), h(6)));
    assert_eq!(p.outputs[1].sources, vec![SourceStep { step: h(6), duration: 0 }]);
}

#[test]
fn comment_describes_cadence() {
    let c = interval_comment(Some(&av()), false);
    assert!(c.contains("1 h to +6 h, 3 h to +12 h"), "{c}");
    assert!(interval_comment(Some(&av()), true).starts_with("Combined by om2nc"));
}

#[test]
fn comments_in_full() {
    assert_eq!(
        interval_comment(None, true),
        "Value covers the interval since the previous model output time; the native output interval of this run is unknown."
    );
    assert_eq!(
        interval_comment(Some(&[0, 15, 30, 90]), false),
        "Value covers only the interval since the previous native model output time (time_bnds), not since the previous step in this file. Native output interval of this run: 0.25 h to +0.5 h, 1 h to +1.5 h."
    );
    assert_eq!(
        interval_comment(Some(&[]), true),
        "Combined by om2nc --accumulate from the model's native output files so that each value covers the interval between consecutive output steps (time_bnds). Native output interval of this run: ."
    );
}

#[test]
fn accumulated_files_cover_the_gap() {
    let steps = [h(2), h(5), h(12)];
    let p = plan_steps(&steps, Some(&av()), true);
    for o in &p.outputs {
        let total: i64 = o.sources.iter().map(|s| s.duration).sum();
        assert_eq!(total, o.interval.1 - o.interval.0);
        assert_eq!(o.sources.last().unwrap().step, o.step);
        let mut start = o.interval.0;
        for s in &o.sources {
            assert_eq!(s.step - s.duration, start);
            start = s.step;
        }
    }
    assert_eq!(p.intervals(), vec![(0, h(2)), (h(2), h(5)), (h(5), h(12))]);
}

#[test]
fn a_gap_without_files_reads_the_step_itself() {
    let p = plan_steps(&[0], Some(&av()), true);
    assert_eq!(p.outputs[0].interval, (0, 0));
    assert_eq!(p.outputs[0].sources, vec![SourceStep { step: 0, duration: 0 }]);
    // Native files before init.
    let p = plan_steps(&[-60], Some(&[-180, -60, 0]), true);
    assert_eq!(p.outputs[0].interval, (-60, -60));
    assert_eq!(p.outputs[0].sources, vec![SourceStep { step: -60, duration: 120 }]);
}

#[test]
fn a_start_before_init_and_before_every_file_is_not_covered() {
    let p = plan_steps(&[-60, 60], Some(&[30, 60]), true);
    assert_eq!(p.outputs[1].interval, (-60, 60));
    assert_eq!(
        p.outputs[1].sources,
        vec![SourceStep { step: 30, duration: 30 }, SourceStep { step: 60, duration: 30 }]
    );
}

#[test]
fn unsorted_times_are_read_in_their_order() {
    let p = plan_steps(&[h(3)], Some(&[h(3), h(1), h(2)]), true);
    assert_eq!(
        p.outputs[0].sources.iter().map(|s| (s.step, s.duration)).collect::<Vec<_>>(),
        vec![(h(3), h(1)), (h(1), h(1)), (h(2), h(1))]
    );
    assert_eq!(p.unique_steps(), &[h(1), h(2), h(3)]);
}

#[test]
fn without_steps_there_is_nothing_to_read() {
    let p = plan_steps(&[], Some(&av()), true);
    assert!(p.outputs.is_empty() && p.unique_steps().is_empty() && !p.subsampled);
}
