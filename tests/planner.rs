use trade_planner::actions::{decode, encode, Side, TradeAction};
use trade_planner::matrix::{build_matrix, BuildError, CalendarDate, FetchPolicy, PriceMatrix, PricePoint, TIMESTAMP_BOUND};
use trade_planner::planner::{best_plan, scaled_ratio, RawTransaction, ONE};
use trade_planner::report::{find_max_n_day, PlanError, Transaction};

fn row(prices: &[u64]) -> Vec<PricePoint> {
    prices
        .iter()
        .enumerate()
        .map(|(d, &price)| PricePoint {
            date: CalendarDate { year: 2023, month: 1, day: d as u32 + 2 },
            price,
        })
        .collect()
}

fn matrix(rows: &[&[u64]]) -> PriceMatrix {
    let raw: Vec<Option<Vec<PricePoint>>> = rows.iter().map(|r| Some(row(r))).collect();
    build_matrix(&raw, FetchPolicy::DropMissing).unwrap()
}

fn names(n: usize) -> Vec<String> {
    ["A", "B", "C", "D"].iter().take(n).map(|s| s.to_string()).collect()
}

#[test]
fn falling_prices_keep_capital() {
    let m = matrix(&[&[9, 7, 7, 2], &[5, 5, 4, 1]]);
    let (value, txs) = find_max_n_day(&m, &names(2)).unwrap();
    assert_eq!(value, ONE);
    assert!(txs.is_empty());
}

#[test]
fn single_instrument_chains_two_trades() {
    let m = matrix(&[&[1, 5, 3, 8]]);
    let (value, raw) = best_plan(&m);
    // 5 / 1 on days 0..1, then 8 / 3 on days 2..3
    assert_eq!(value, 5 * ONE * 8 / 3);
    assert_eq!(
        raw,
        vec![
            RawTransaction { stock: 0, day: 0 },
            RawTransaction { stock: 0, day: 1 },
            RawTransaction { stock: 0, day: 2 },
            RawTransaction { stock: 0, day: 3 },
        ]
    );
}

#[test]
fn single_instrument_without_dip_holds_throughout() {
    let m = matrix(&[&[1, 5, 6, 8]]);
    let (value, raw) = best_plan(&m);
    assert_eq!(value, 8 * ONE);
    assert_eq!(raw, vec![RawTransaction { stock: 0, day: 0 }, RawTransaction { stock: 0, day: 3 }]);
}

#[test]
fn picks_the_rising_instrument() {
    let m = matrix(&[&[1, 10], &[10, 1]]);
    let (value, txs) = find_max_n_day(&m, &names(2)).unwrap();
    assert_eq!(value, 10 * ONE);
    assert_eq!(
        txs,
        vec![
            Transaction { date: "2023-01-02".to_string(), action: "BUY".to_string(), ticker: "A".to_string() },
            Transaction { date: "2023-01-03".to_string(), action: "SELL".to_string(), ticker: "A".to_string() },
        ]
    );
}

#[test]
fn two_runs_agree() {
    let m = matrix(&[&[3, 1, 4, 1, 5], &[9, 2, 6, 5, 3], &[5, 8, 9, 7, 9]]);
    assert_eq!(best_plan(&m), best_plan(&m));
    assert_eq!(find_max_n_day(&m, &names(3)), find_max_n_day(&m, &names(3)));
}

#[test]
fn decode_then_encode_gives_back_the_entries() {
    let raw = vec![
        RawTransaction { stock: 1, day: 0 },
        RawTransaction { stock: 1, day: 2 },
        RawTransaction { stock: 0, day: 2 },
        RawTransaction { stock: 0, day: 5 },
    ];
    let actions = decode(&raw);
    assert_eq!(actions[0], TradeAction { day: 0, side: Side::Buy, instrument: 1 });
    assert_eq!(actions[3], TradeAction { day: 5, side: Side::Sell, instrument: 0 });
    assert_eq!(encode(&actions), raw);
}

#[test]
fn decode_leaves_out_an_unpaired_entry() {
    let raw = vec![RawTransaction { stock: 0, day: 0 }, RawTransaction { stock: 0, day: 1 }, RawTransaction { stock: 2, day: 3 }];
    assert_eq!(decode(&raw).len(), 2);
}

#[test]
fn one_trading_day_means_no_trade() {
    let m = matrix(&[&[4], &[7]]);
    let (value, txs) = find_max_n_day(&m, &names(2)).unwrap();
    assert_eq!(value, ONE);
    assert!(txs.is_empty());
}

#[test]
fn actions_alternate_and_are_ordered() {
    let m = matrix(&[&[3, 1, 4, 1, 5, 9], &[9, 2, 6, 5, 3, 5], &[5, 8, 9, 7, 9, 3]]);
    let (_, raw) = best_plan(&m);
    let actions = decode(&raw);
    assert!(!actions.is_empty());
    assert_eq!(actions.len() % 2, 0);
    for (k, a) in actions.iter().enumerate() {
        assert_eq!(a.side, if k % 2 == 0 { Side::Buy } else { Side::Sell });
        if k % 2 == 0 {
            assert!(a.day < actions[k + 1].day);
            assert_eq!(a.instrument, actions[k + 1].instrument);
        } else if k + 1 < actions.len() {
            assert!(a.day <= actions[k + 1].day);
        }
    }
}

#[test]
fn next_buy_uses_plans_sold_before_its_day() {
    // selling A on day 1 and buying B on day 1 would give 6; a buy on day 1
    // builds on plans whose sells are on day 0 at the latest
    let m = matrix(&[&[1, 2, 1], &[1, 1, 3]]);
    let (value, raw) = best_plan(&m);
    assert_eq!(value, 3 * ONE);
    assert_eq!(raw, vec![RawTransaction { stock: 1, day: 0 }, RawTransaction { stock: 1, day: 2 }]);
}

#[test]
fn ties_keep_the_first_candidate() {
    let m = matrix(&[&[2, 4], &[1, 2]]);
    let (value, raw) = best_plan(&m);
    assert_eq!(value, 2 * ONE);
    assert_eq!(raw, vec![RawTransaction { stock: 0, day: 0 }, RawTransaction { stock: 0, day: 1 }]);
}

#[test]
fn scaled_ratio_rounds_down() {
    assert_eq!(scaled_ratio(ONE, 8, 3), 2_666_666_666_666);
    assert_eq!(scaled_ratio(10, 1, 3), 3);
    assert_eq!(scaled_ratio(u128::MAX, 3, 3), u128::MAX);
}

#[test]
fn scaled_ratio_saturates() {
    assert_eq!(scaled_ratio(u128::MAX, 2, 1), u128::MAX);
    assert_eq!(scaled_ratio(u128::MAX / 2, 5, 2), u128::MAX);
    assert_eq!(scaled_ratio(u128::MAX / 2, 3, 2), u128::MAX / 4 * 3 + 1);
}

#[test]
fn build_drops_missing_instruments() {
    let raw = vec![Some(row(&[1, 2])), None, Some(vec![]), Some(row(&[3, 4]))];
    let m = build_matrix(&raw, FetchPolicy::DropMissing).unwrap();
    assert_eq!(m.instruments, vec![0, 3]);
    assert_eq!(m.rows.len(), 2);
    assert_eq!(m.rows[1][1].price, 4);
    let (_, txs) = find_max_n_day(&m, &names(4)).unwrap();
    assert_eq!(txs[0].ticker, "A");
}

#[test]
fn build_fails_on_missing_under_strict_policy() {
    let raw = vec![Some(row(&[1, 2])), Some(vec![]), None];
    assert_eq!(build_matrix(&raw, FetchPolicy::FailOnMissing).err(), Some(BuildError::MissingData { instrument: 1 }));
}

#[test]
fn build_rejects_no_data() {
    let raw: Vec<Option<Vec<PricePoint>>> = vec![None, None];
    assert_eq!(build_matrix(&raw, FetchPolicy::DropMissing).err(), Some(BuildError::InsufficientData));
    assert_eq!(build_matrix(&vec![], FetchPolicy::FailOnMissing).err(), Some(BuildError::InsufficientData));
}

#[test]
fn build_rejects_mismatched_lengths() {
    let raw = vec![Some(row(&[1, 2, 3])), Some(row(&[3, 4]))];
    assert_eq!(build_matrix(&raw, FetchPolicy::DropMissing).err(), Some(BuildError::MismatchedLengths));
}

#[test]
fn build_rejects_zero_price() {
    let raw = vec![Some(row(&[1, 2])), Some(row(&[3, 0]))];
    assert_eq!(build_matrix(&raw, FetchPolicy::DropMissing).err(), Some(BuildError::ZeroPrice));
}

#[test]
fn planner_rejects_empty_matrix() {
    let m = PriceMatrix { rows: vec![], instruments: vec![] };
    assert_eq!(find_max_n_day(&m, &names(1)), Err(PlanError::InsufficientData));
    let m = PriceMatrix { rows: vec![vec![]], instruments: vec![0] };
    assert_eq!(find_max_n_day(&m, &names(1)), Err(PlanError::InsufficientData));
}

#[test]
fn planner_rejects_malformed_matrix() {
    let m = PriceMatrix { rows: vec![row(&[1, 2]), row(&[1])], instruments: vec![0, 1] };
    assert_eq!(find_max_n_day(&m, &names(2)), Err(PlanError::Malformed));
    let m = PriceMatrix { rows: vec![row(&[1, 0])], instruments: vec![0] };
    assert_eq!(find_max_n_day(&m, &names(2)), Err(PlanError::Malformed));
}

#[test]
fn planner_rejects_unknown_instrument() {
    let m = PriceMatrix { rows: vec![row(&[1, 2])], instruments: vec![5] };
    assert_eq!(find_max_n_day(&m, &names(2)), Err(PlanError::UnknownInstrument));
}

#[test]
fn price_point_from_timestamp() {
    // 2023-01-03 14:30:00 UTC
    let p = PricePoint::from_timestamp(1_672_756_200, 42).unwrap();
    assert_eq!(p.date, CalendarDate { year: 2023, month: 1, day: 3 });
    assert_eq!(p.price, 42);
    let q = PricePoint::from_timestamp(0, 1).unwrap();
    assert_eq!(q.date, CalendarDate { year: 1970, month: 1, day: 1 });
    assert!(PricePoint::from_timestamp(i64::MAX, 1).is_none());
}

#[test]
fn transaction_formats_its_date() {
    let t = Transaction::new(CalendarDate { year: 2023, month: 3, day: 7 }, Side::Sell, &"HA".to_string());
    assert_eq!(t.date, "2023-03-07");
    assert_eq!(t.action, "SELL");
    assert_eq!(t.ticker, "HA");
    let u = Transaction::new(CalendarDate { year: 2024, month: 11, day: 25 }, Side::Buy, &"DAL".to_string());
    assert_eq!(u.date, "2024-11-25");
    assert_eq!(u.action, "BUY");
}

#[test]
fn timestamps_in_range_have_a_date() {
    let early = PricePoint::from_timestamp(-TIMESTAMP_BOUND, 7).unwrap();
    assert_eq!(early.price, 7);
    assert!(early.date.year < -250_000);
    let late = PricePoint::from_timestamp(TIMESTAMP_BOUND, 9).unwrap();
    assert_eq!(late.price, 9);
    assert!(late.date.year > 250_000);
    // one second before the epoch
    let p = PricePoint::from_timestamp(-1, 3).unwrap();
    assert_eq!(p.date, CalendarDate { year: 1969, month: 12, day: 31 });
}

#[test]
fn date_text_of_unusual_years() {
    let t = Transaction::new(CalendarDate { year: -44, month: 3, day: 15 }, Side::Buy, &"X".to_string());
    assert_eq!(t.date, "-44-03-15");
    let u = Transaction::new(CalendarDate { year: 7, month: 10, day: 1 }, Side::Buy, &"X".to_string());
    assert_eq!(u.date, "7-10-01");
    let v = Transaction::new(CalendarDate { year: i32::MIN, month: 1, day: 9 }, Side::Sell, &"X".to_string());
    assert_eq!(v.date, "-2147483648-01-09");
    let w = Transaction::new(CalendarDate { year: 2023, month: 1, day: 3 }, Side::Sell, &"X".to_string());
    assert_eq!(w.date.len(), 10);
}
