use headless_schedule::repeat::{
    average_seconds, RepeatInterval, RepeatType, RepeatingDate, RepeatingEvent, SearchError,
};

fn event(initial: i64, t: RepeatType, n: i64) -> RepeatingEvent {
    RepeatingEvent { id: 0, initial, repeating: RepeatInterval::new(t, n).unwrap() }
}

#[test]
fn weekly_third_occurrence() {
    let e = event(1_700_000_000, RepeatType::Weeks, 1);
    assert_eq!(e.nth(3), Some(1_701_814_400));
}

#[test]
fn fixed_units_step_evenly() {
    let cases = [
        (RepeatType::Seconds, 7, 7),
        (RepeatType::Minutes, 2, 120),
        (RepeatType::Hours, 3, 10_800),
        (RepeatType::Days, 1, 86_400),
        (RepeatType::Weeks, 2, 1_209_600),
    ];
    for (t, n, step) in cases {
        let e = event(1_000, t, n);
        for k in -3..4 {
            assert_eq!(e.nth(k + 1).unwrap() - e.nth(k).unwrap(), step);
        }
    }
}

#[test]
fn negative_indices_lie_before_anchor() {
    let e = event(1_000_000, RepeatType::Days, 2);
    assert_eq!(e.nth(-1), Some(1_000_000 - 172_800));
    assert_eq!(e.nth(0), Some(1_000_000));
}

#[test]
fn nth_out_of_range() {
    let e = event(i64::MAX - 10, RepeatType::Seconds, 5);
    assert_eq!(e.nth(2), Some(i64::MAX));
    assert_eq!(e.nth(3), None);
    let far = event(i64::MAX, RepeatType::Months, 1);
    assert_eq!(far.nth(0), None);
}

#[test]
fn months_clamp_to_month_end() {
    let e = event(1_706_659_200, RepeatType::Months, 1); // 2024-01-31
    assert_eq!(e.nth(1), Some(1_709_164_800)); // 2024-02-29
    assert_eq!(e.nth(2), Some(1_711_843_200)); // 2024-03-31
    assert_eq!(e.nth(3), Some(1_714_435_200)); // 2024-04-30
    assert_eq!(e.nth(-1), Some(1_703_980_800)); // 2023-12-31
    assert_eq!(e.nth(-2), Some(1_701_302_400)); // 2023-11-30
}

#[test]
fn months_keep_time_of_day() {
    let e = event(1_706_704_215, RepeatType::Months, 1); // 2024-01-31 12:30:15
    assert_eq!(e.nth(1), Some(1_709_209_815)); // 2024-02-29 12:30:15
}

#[test]
fn years_from_leap_day() {
    let e = event(1_709_164_800, RepeatType::Years, 1); // 2024-02-29
    assert_eq!(e.nth(1), Some(1_740_700_800)); // 2025-02-28
    assert_eq!(e.nth(4), Some(1_835_395_200)); // 2028-02-29
    assert_eq!(e.nth(-1), Some(1_677_542_400)); // 2023-02-28
}

#[test]
fn most_recent_and_next_bracket_now() {
    let e = event(1_700_000_000, RepeatType::Weeks, 1);
    for now in [1_600_000_000, 1_700_000_000, 1_700_000_001, 1_701_814_399, 1_800_000_000] {
        let a = e.most_recent(now).unwrap();
        let b = e.next(now).unwrap();
        assert!(a <= now && now < b);
        assert_eq!(b - a, 604_800);
    }
}

#[test]
fn most_recent_at_an_occurrence() {
    let e = event(1_700_000_000, RepeatType::Weeks, 1);
    assert_eq!(e.most_recent(1_701_814_400), Ok(1_701_814_400));
    assert_eq!(e.next(1_701_814_400), Ok(1_702_419_200));
    assert_eq!(e.most_recent(1_701_814_399), Ok(1_701_209_600));
}

#[test]
fn most_recent_before_anchor() {
    let e = event(1_000_000, RepeatType::Hours, 1);
    assert_eq!(e.most_recent(996_000), Ok(992_800));
    assert_eq!(e.next(996_000), Ok(996_400));
}

#[test]
fn calendar_search() {
    let e = event(-30_603_916_800, RepeatType::Months, 1); // 1000-03-15
    assert_eq!(e.most_recent(1_767_225_600), Ok(1_765_756_800)); // 2025-12-15
    assert_eq!(e.next(1_767_225_600), Ok(1_768_435_200)); // 2026-01-15
    assert_eq!(e.elapsed(1_767_225_600), Ok(1_767_225_600 - 1_765_756_800));
    let m = event(1_706_659_200, RepeatType::Months, 1);
    assert_eq!(m.most_recent(1_709_164_800), Ok(1_709_164_800));
    assert_eq!(m.most_recent(1_709_164_799), Ok(1_706_659_200));
    assert_eq!(m.next(1_709_164_800), Ok(1_711_843_200));
}

#[test]
fn calendar_search_step_limit() {
    let e = event(-8_000_000_000_000, RepeatType::Months, 1);
    assert_eq!(e.most_recent(1_700_000_000), Err(SearchError::StepLimit));
    assert_eq!(e.next(1_700_000_000), Err(SearchError::StepLimit));
}

#[test]
fn search_out_of_range() {
    let low = event(i64::MIN + 5, RepeatType::Seconds, 10);
    assert_eq!(low.most_recent(i64::MIN + 2), Err(SearchError::OutOfRange));
    assert_eq!(low.elapsed(i64::MIN + 2), Err(SearchError::OutOfRange));
    let high = event(i64::MAX - 5, RepeatType::Seconds, 10);
    assert_eq!(high.next(i64::MAX - 1), Err(SearchError::OutOfRange));
    let far = event(i64::MAX, RepeatType::Years, 1);
    assert_eq!(far.most_recent(0), Err(SearchError::OutOfRange));
}

#[test]
fn elapsed_is_zero_exactly_at_occurrences() {
    let e = event(1_700_000_000, RepeatType::Days, 1);
    assert_eq!(e.elapsed(1_700_086_400), Ok(0));
    assert_eq!(e.elapsed(1_700_086_401), Ok(1));
    assert_eq!(e.elapsed(1_700_086_399), Ok(86_399));
}

#[test]
fn repeated_queries_agree() {
    let e = event(1_706_659_200, RepeatType::Months, 2);
    let now = 1_750_000_000;
    assert_eq!(e.most_recent(now), e.most_recent(now));
    assert_eq!(e.next(now), e.next(now));
    assert_eq!(e.elapsed(now), e.elapsed(now));
    assert_eq!(e.nth(5), e.nth(5));
}

#[test]
fn interval_rejects_bad_counts() {
    assert_eq!(RepeatInterval::new(RepeatType::Days, 0), None);
    assert_eq!(RepeatInterval::new(RepeatType::Days, -3), None);
    assert_eq!(RepeatInterval::new(RepeatType::Years, i64::MAX), None);
    assert_eq!(
        RepeatInterval::new(RepeatType::Weeks, 3),
        Some(RepeatInterval { t: RepeatType::Weeks, n: 3 })
    );
}

#[test]
fn average_lengths() {
    let i = |t, n| RepeatInterval { t, n };
    assert_eq!(average_seconds(i(RepeatType::Seconds, 5)), 5);
    assert_eq!(average_seconds(i(RepeatType::Weeks, 3)), 1_814_400);
    assert_eq!(average_seconds(i(RepeatType::Months, 2)), 5_256_576);
    assert_eq!(average_seconds(i(RepeatType::Years, 1)), 31_556_952);
}

#[test]
fn unit_names() {
    assert_eq!(RepeatType::Days.with_plurality(1), "day");
    assert_eq!(RepeatType::Days.with_plurality(0), "day");
    assert_eq!(RepeatType::Days.with_plurality(2), "days");
    assert_eq!(RepeatType::Months.with_plurality(12), "months");
    assert_eq!(RepeatType::Seconds.with_plurality(1), "second");
}

#[test]
fn repeating_date_round_trip() {
    let d = RepeatingDate::from_input(RepeatType::Hours, 6);
    assert_eq!(d, RepeatingDate::Hours(6));
    assert_eq!(d.decompose(), (RepeatType::Hours, 6));
    assert_eq!(RepeatingDate::Years(2).decompose(), (RepeatType::Years, 2));
}
