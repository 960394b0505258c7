use miniprof::frame::FrameData;
use miniprof::run::ProfileData;
use miniprof::scope::ScopeTimer;
use miniprof::stats::SegmentStats;
use miniprof::text::{format_time, u128_to_string};

#[test]
fn fold_tracks_count_min_max() {
    let mut s = SegmentStats::new();
    s.fold(5);
    s.fold(3);
    s.fold(9);
    assert_eq!(s.count(), 3);
    assert_eq!(s.min, 3);
    assert_eq!(s.max, 9);
    assert_eq!(s.samples, vec![5, 3, 9]);
}

#[test]
fn mean_is_exact_sum_over_count() {
    let mut s = SegmentStats::new();
    s.fold(100);
    s.fold(200);
    s.fold(300);
    assert_eq!(s.mean(), 200);

    let mut t = SegmentStats::new();
    t.fold(1);
    t.fold(2);
    assert_eq!(t.mean(), 1);
}

#[test]
fn mean_and_mad_are_order_independent() {
    let orders: [[u64; 4]; 3] = [[7, 400, 23, 1000], [1000, 23, 400, 7], [23, 1000, 7, 400]];
    let mut means = Vec::new();
    let mut mads = Vec::new();
    for order in orders.iter() {
        let mut s = SegmentStats::new();
        for x in order.iter() {
            s.fold(*x);
        }
        means.push(s.mean());
        mads.push(s.mean_absolute_deviation());
    }
    assert_eq!(means[0], means[1]);
    assert_eq!(means[0], means[2]);
    assert_eq!(mads[0], mads[1]);
    assert_eq!(mads[0], mads[2]);
}

#[test]
fn mad_matches_two_pass_computation() {
    let samples: [u64; 4] = [100, 200, 300, 50];
    let mut s = SegmentStats::new();
    for x in samples.iter() {
        s.fold(*x);
    }
    let mean = s.mean();
    let mut dev_total: u64 = 0;
    for x in samples.iter() {
        dev_total += if *x >= mean { *x - mean } else { mean - *x };
    }
    let direct = dev_total / samples.len() as u64;
    assert_eq!(mean, 162);
    assert_eq!(s.mean_absolute_deviation(), direct);
    assert_eq!(direct, 87);
}

#[test]
fn unit_scaling_boundaries() {
    assert_eq!(format_time(1_000), "1.00 us");
    assert_eq!(format_time(999), "999 ns");
    assert_eq!(format_time(1_000_000), "1.00 ms");
    assert_eq!(format_time(1_000_000_000), "1.00 s");
}

#[test]
fn fixed_two_decimals_round_half_up() {
    assert_eq!(format_time(0), "0 ns");
    assert_eq!(format_time(1_005), "1.01 us");
    assert_eq!(format_time(1_499), "1.50 us");
    assert_eq!(format_time(1_234_567), "1.23 ms");
    assert_eq!(format_time(999_999_995), "1000.00 ms");
    assert_eq!(format_time(1_500_000_000), "1.50 s");
}

#[test]
fn decimal_rendering() {
    assert_eq!(u128_to_string(0), "0");
    assert_eq!(u128_to_string(7), "7");
    assert_eq!(u128_to_string(10), "10");
    assert_eq!(u128_to_string(12345), "12345");
}

#[test]
fn end_to_end_alpha_three_calls() {
    let mut p = ProfileData::new();
    p.frame();
    {
        let f = p.curr_frame_mut();
        f.record("alpha", 100);
        f.record("alpha", 200);
        f.record("alpha", 300);
        assert_eq!(f.table.len(), 1);
        assert_eq!(f.table[0].stats.count(), 3);
        assert_eq!(f.table[0].stats.min, 100);
        assert_eq!(f.table[0].stats.max, 300);
        assert_eq!(f.table[0].stats.mean(), 200);
        assert_eq!(f.table[0].stats.mean_absolute_deviation(), 66);
    }
    let text = p.stringify();
    assert_eq!(
        text,
        ">-- Frame 0: --<\n    * alpha: 3 calls, mean: 200 ns +- 66 ns, range: 100 ns--300 ns\n\n"
    );
}

#[test]
fn report_is_deterministic_and_breaks_ties_by_key() {
    let mut p = ProfileData::new();
    p.frame();
    {
        let f = p.curr_frame_mut();
        f.record("bravo", 100);
        f.record("bravo", 100);
        f.record("alpha", 200);
    }
    let first = p.stringify();
    let second = p.stringify();
    assert_eq!(first, second);
    assert_eq!(
        first,
        ">-- Frame 0: --<\n    * alpha: 1 calls, mean: 200 ns +- 0 ns, range: 200 ns--200 ns\n    * bravo: 2 calls, mean: 100 ns +- 0 ns, range: 100 ns--100 ns\n\n"
    );
}

#[test]
fn report_ranks_by_total_time_descending() {
    let mut p = ProfileData::new();
    p.frame();
    {
        let f = p.curr_frame_mut();
        f.record("small", 10);
        f.record("big", 1000);
    }
    let text = p.stringify();
    assert_eq!(
        text,
        ">-- Frame 0: --<\n    * big: 1 calls, mean: 1.00 us +- 0 ns, range: 1.00 us--1.00 us\n    * small: 1 calls, mean: 10 ns +- 0 ns, range: 10 ns--10 ns\n\n"
    );
}

#[test]
fn two_frames_render_in_creation_order() {
    let mut p = ProfileData::new();
    p.frame();
    p.curr_frame_mut().record("a", 1000);
    p.frame();
    p.curr_frame_mut().record("b", 999);
    let text = p.stringify();
    assert_eq!(
        text,
        ">-- Frame 0: --<\n    * a: 1 calls, mean: 1.00 us +- 0 ns, range: 1.00 us--1.00 us\n\n>-- Frame 1: --<\n    * b: 1 calls, mean: 999 ns +- 0 ns, range: 999 ns--999 ns\n\n"
    );
}

#[test]
fn nested_enter_leave_attributes_to_matching_keys() {
    let mut f = FrameData::new();
    f.enter("outer");
    f.enter("inner");
    assert_eq!(f.path.len(), 2);
    assert!(f.leave());
    assert_eq!(f.path.len(), 1);
    assert_eq!(f.table.len(), 1);
    assert_eq!(f.table[0].key, "inner");
    assert!(f.leave());
    assert_eq!(f.path.len(), 0);
    assert_eq!(f.table.len(), 2);
    assert_eq!(f.table[1].key, "outer");
    assert_eq!(f.table[0].stats.count(), 1);
    assert_eq!(f.table[1].stats.count(), 1);
}

#[test]
fn imbalanced_leave_is_a_safe_observable_no_op() {
    let mut p = ProfileData::new();
    p.frame();
    p.curr_frame_mut().record("alpha", 100);
    let before = p.stringify();
    let closed = p.curr_frame_mut().leave();
    assert!(!closed);
    let after = p.stringify();
    assert_eq!(before, after);
    assert_eq!(p.frames[0].table[0].stats.count(), 1);
}

#[test]
fn post_message_attaches_to_innermost_open_segment() {
    let mut f = FrameData::new();
    f.enter("a");
    f.enter("b");
    assert!(f.post_message(String::from("note")));
    assert_eq!(f.messages.len(), 1);
    assert_eq!(f.messages[0].0, "b");
    assert_eq!(f.messages[0].1, "note");

    let mut g = FrameData::new();
    assert!(!g.post_message(String::from("lost")));
    assert_eq!(g.messages.len(), 0);
}

#[test]
fn implicit_first_frame_on_access() {
    let mut p = ProfileData::new();
    p.curr_frame_mut().record("k", 5);
    assert_eq!(p.frames.len(), 1);
    assert_eq!(p.frame_count, 0);
    p.frame();
    assert_eq!(p.frames.len(), 2);
    assert_eq!(p.frame_count, 1);
}

#[test]
fn frame_appends_empty_record() {
    let mut p = ProfileData::new();
    p.frame();
    assert_eq!(p.frames.len(), 1);
    assert_eq!(p.frames[0].path.len(), 0);
    assert_eq!(p.frames[0].table.len(), 0);
    assert_eq!(p.stringify(), ">-- Frame 0: --<\n\n");
}

#[test]
fn enter_leave_with_real_clock_records_one_sample() {
    let mut f = FrameData::new();
    f.enter("timed");
    let _marker = ScopeTimer::new();
    assert!(f.leave());
    assert_eq!(f.table.len(), 1);
    assert_eq!(f.table[0].key, "timed");
    assert_eq!(f.table[0].stats.count(), 1);
    assert!(f.table[0].stats.min <= f.table[0].stats.max);
}
