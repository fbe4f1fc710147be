use vstd::arithmetic::div_mod::{
    lemma_div_by_multiple, lemma_div_is_ordered, lemma_fundamental_div_mod, lemma_fundamental_div_mod_converse,
    lemma_hoist_over_denominator,
};
use vstd::prelude::*;

use crate::actions::{decoded, is_ordered};
use crate::matrix::{wf_prices, PriceMatrix, PricePoint};

verus! {

/// The value of one unit of capital, as a fixed-point integer.
pub const ONE: u128 = 1_000_000_000_000;

/// One raw entry of a plan: an instrument (a row of the matrix) on a day (a column).
#[derive(Clone, Copy, Debug, PartialEq, Eq, Structural)]
pub struct RawTransaction {
    pub stock: usize,
    pub day: usize,
}

/// Capital `prev` carried through one transaction bought at `buy` and sold at
/// `sell`, rounded down, and held at `u128::MAX` where it would not fit.
pub open spec fn scaled_step(prev: nat, sell: nat, buy: nat) -> nat {
    let v = prev * sell / buy;
    if v > u128::MAX as nat {
        u128::MAX as nat
    } else {
        v
    }
}

/// No trade: capital unchanged, no transaction.
pub open spec fn baseline() -> (nat, Seq<RawTransaction>) {
    (ONE as nat, Seq::empty())
}

/// The plan held for sell day `s` after the first `k` candidates of that day
/// were tried, candidates ordered by buy day, then by instrument. Day 0 and
/// the start of each later day take over the final plan of the day before.
pub open spec fn scan(p: Seq<Seq<PricePoint>>, s: nat, k: nat) -> (nat, Seq<RawTransaction>)
    decreases s, k,
{
    let n = p.len();
    if k == 0 {
        if s == 0 {
            baseline()
        } else {
            scan(p, (s - 1) as nat, ((s - 1) * n) as nat)
        }
    } else {
        let cur = scan(p, s, (k - 1) as nat);
        let b = (((k - 1) as int) / (n as int)) as nat;
        let i = ((k - 1) as int) % (n as int);
        let base = if b == 0 || b > s {
            baseline()
        } else {
            scan(p, (b - 1) as nat, ((b - 1) * n) as nat)
        };
        let c = scaled_step(base.0, p[i][s as int].price as nat, p[i][b as int].price as nat);
        if c > cur.0 {
            (
                c,
                base.1 + seq![
                    RawTransaction { stock: i as usize, day: b as usize },
                    RawTransaction { stock: i as usize, day: s as usize },
                ],
            )
        } else {
            cur
        }
    }
}

/// The reference plan for day `s`: all its sells fall on or before day `s`,
/// and its value is the largest that the candidates of days up to `s` reached.
pub open spec fn best(p: Seq<Seq<PricePoint>>, s: nat) -> (nat, Seq<RawTransaction>) {
    scan(p, s, s * p.len())
}

/// The best plan over the whole matrix.
pub open spec fn best_overall(p: Seq<Seq<PricePoint>>) -> (nat, Seq<RawTransaction>) {
    best(p, (p[0].len() - 1) as nat)
}

pub open spec fn entry(e: (u128, Vec<RawTransaction>)) -> (nat, Seq<RawTransaction>) {
    (e.0 as nat, e.1@)
}

/// `prev * sell / buy` rounded down, saturating at `u128::MAX`.
pub fn scaled_ratio(prev: u128, sell: u64, buy: u64) -> (r: u128)
    requires
        buy > 0,
    ensures
        r as nat == scaled_step(prev as nat, sell as nat, buy as nat),
{
    let b = buy as u128;
    let q = prev / b;
    let rem = prev % b;
    let s = sell as u128;
    proof {
        lemma_fundamental_div_mod(prev as int, b as int);
        assert(rem * s < 0x1_0000_0000_0000_0000_0000_0000_0000_0000) by (nonlinear_arith)
            requires
                rem < b,
                b <= 0xffff_ffff_ffff_ffffu128,
                s <= 0xffff_ffff_ffff_ffffu128,
        ;
        assert(prev * s == rem * s + (q * s) * b) by (nonlinear_arith)
            requires
                prev == b * q + rem,
        ;
        lemma_hoist_over_denominator((rem * s) as int, (q * s) as int, b as nat);
    }
    let low = rem * s / b;
    match q.checked_mul(s) {
        None => u128::MAX,
        Some(high) => match high.checked_add(low) {
            None => u128::MAX,
            Some(v) => v,
        },
    }
}

fn copy_chain(v: &Vec<RawTransaction>) -> (r: Vec<RawTransaction>)
    ensures
        r@ == v@,
{
    let mut r: Vec<RawTransaction> = Vec::new();
    let mut i: usize = 0;
    while i < v.len()
        invariant
            i <= v.len(),
            r@ == v@.take(i as int),
        decreases v.len() - i,
    {
        r.push(v[i]);
        i += 1;
        proof {
            assert(r@ =~= v@.take(i as int));
        }
    }
    proof {
        assert(v@.take(v@.len() as int) =~= v@);
    }
    r
}

proof fn lemma_candidate_index(b: nat, i: nat, n: nat)
    requires
        i < n,
    ensures
        ((b * n + i) as int) / (n as int) == b,
        ((b * n + i) as int) % (n as int) == i,
{
    lemma_fundamental_div_mod_converse((b * n + i) as int, n as int, b as int, i as int);
}


/// Runs the dynamic program over sell days, buy days and instruments. A
/// strictly better candidate for a sell day becomes the plan of that day and
/// of every later day. Returns the final capital and the flat list of
/// alternating buy and sell entries of the plan.
pub fn best_plan(m: &PriceMatrix) -> (r: (u128, Vec<RawTransaction>))
    requires
        m.wf(),
    ensures
        entry(r) == best_overall(m.prices()),
{
    let ghost p = m.prices();
    let n = m.rows.len();
    let days = m.rows[0].len();
    proof {
        assert(p[0].len() == days);
    }
    let mut table: Vec<(u128, Vec<RawTransaction>)> = Vec::new();
    let mut d: usize = 0;
    while d < days
        invariant
            d <= days,
            table@.len() == d,
            forall|j: int| 0 <= j < d ==> entry(#[trigger] table@[j]) == baseline(),
        decreases days - d,
    {
        table.push((ONE, Vec::new()));
        d += 1;
    }
    proof {
        assert(0 * p.len() == 0);
        assert(best(p, 0) == baseline());
    }
    let mut sell_day: usize = 1;
    while sell_day < days
        invariant
            wf_prices(p),
            p == m.prices(),
            n == p.len(),
            days == p[0].len(),
            1 <= sell_day <= days,
            table@.len() == days,
            forall|j: int| 0 <= j < sell_day - 1 ==> entry(#[trigger] table@[j]) == best(p, j as nat),
            forall|j: int|
                sell_day - 1 <= j < days ==> entry(#[trigger] table@[j]) == best(
                    p,
                    (sell_day - 1) as nat,
                ),
        decreases days - sell_day,
    {
        proof {
            assert(scan(p, sell_day as nat, 0) == best(p, (sell_day - 1) as nat));
        }
        let mut buy_day: usize = 0;
        while buy_day < sell_day
            invariant
                wf_prices(p),
                p == m.prices(),
                n == p.len(),
                days == p[0].len(),
                1 <= sell_day < days,
                buy_day <= sell_day,
                table@.len() == days,
                forall|j: int| 0 <= j < sell_day ==> entry(#[trigger] table@[j]) == best(p, j as nat),
                forall|j: int|
                    sell_day <= j < days ==> entry(#[trigger] table@[j]) == scan(
                        p,
                        sell_day as nat,
                        (buy_day * n) as nat,
                    ),
            decreases sell_day - buy_day,
        {
            let mut stock: usize = 0;
            while stock < n
                invariant
                    wf_prices(p),
                    p == m.prices(),
                    n == p.len(),
                    days == p[0].len(),
                    1 <= sell_day < days,
                    buy_day < sell_day,
                    stock <= n,
                    table@.len() == days,
                    forall|j: int|
                        0 <= j < sell_day ==> entry(#[trigger] table@[j]) == best(p, j as nat),
                    forall|j: int|
                        sell_day <= j < days ==> entry(#[trigger] table@[j]) == scan(
                            p,
                            sell_day as nat,
                            (buy_day * n + stock) as nat,
                        ),
                decreases n - stock,
            {
                let ghost k = (buy_day * n + stock) as nat;
                proof {
                    lemma_candidate_index(buy_day as nat, stock as nat, n as nat);
                    assert(p[stock as int].len() == days);
                    assert(p[stock as int][buy_day as int].price > 0);
                    assert(m.rows@[stock as int]@ == p[stock as int]);
                    assert(k < sell_day * n) by (nonlinear_arith)
                        requires
                            k == buy_day * n + stock,
                            buy_day < sell_day,
                            stock < n,
                    ;
                    assert(buy_day as nat * n as nat <= sell_day as nat * n as nat) by (nonlinear_arith)
                        requires
                            buy_day < sell_day,
                    ;
                }
                let prev_value: u128 = if buy_day == 0 {
                    ONE
                } else {
                    table[buy_day - 1].0
                };
                let new_ratio = scaled_ratio(
                    prev_value,
                    m.rows[stock][sell_day].price,
                    m.rows[stock][buy_day].price,
                );
                if new_ratio > table[sell_day].0 {
                    let mut transaction = if buy_day == 0 {
                        Vec::new()
                    } else {
                        copy_chain(&table[buy_day - 1].1)
                    };
                    transaction.push(RawTransaction { stock, day: buy_day });
                    transaction.push(RawTransaction { stock, day: sell_day });
                    let ghost next = scan(p, sell_day as nat, (k + 1) as nat);
                    proof {
                        assert(entry((new_ratio, transaction)) == next);
                    }
                    let mut day: usize = sell_day;
                    while day < days
                        invariant
                            sell_day <= day <= days,
                            table@.len() == days,
                            entry((new_ratio, transaction)) == next,
                            forall|j: int|
                                0 <= j < sell_day ==> entry(#[trigger] table@[j]) == best(
                                    p,
                                    j as nat,
                                ),
                            forall|j: int| sell_day <= j < day ==> entry(#[trigger] table@[j]) == next,
                            forall|j: int|
                                day <= j < days ==> entry(#[trigger] table@[j]) == scan(
                                    p,
                                    sell_day as nat,
                                    k,
                                ),
                        decreases days - day,
                    {
                        let copy = copy_chain(&transaction);
                        table.set(day, (new_ratio, copy));
                        day += 1;
                    }
                }
                stock += 1;
            }
            proof {
                assert((buy_day * n + n) as nat == ((buy_day + 1) * n) as nat) by (nonlinear_arith);
            }
            buy_day += 1;
        }
        sell_day += 1;
    }
    let last = &table[days - 1];
    (last.0, copy_chain(&last.1))
}


/// A flat plan of even length over `n` instruments whose pairs buy and sell
/// the same instrument with the buy strictly first, whose sells come no later
/// than the next buy, and whose days are all at most `s`.
pub open spec fn is_chain(t: Seq<RawTransaction>, s: nat, n: nat) -> bool {
    &&& t.len() % 2 == 0
    &&& forall|k: int| 0 <= k < t.len() ==> (#[trigger] t[k]).day <= s && t[k].stock < n
    &&& forall|k: int|
        0 <= k < t.len() && k % 2 == 0 ==> (#[trigger] t[k]).day < t[k + 1].day && t[k].stock
            == t[k + 1].stock
    &&& forall|k: int| 0 <= k && k + 1 < t.len() && k % 2 == 1 ==> (#[trigger] t[k]).day <= t[k + 1].day
}

proof fn lemma_buy_day_before(k: nat, n: nat, s: nat)
    requires
        0 < k <= s * n,
        n > 0,
    ensures
        ((k - 1) as int) / (n as int) < s,
        0 <= ((k - 1) as int) % (n as int) < n,
{
    lemma_fundamental_div_mod((k - 1) as int, n as int);
    let b = ((k - 1) as int) / (n as int);
    assert(b < s) by (nonlinear_arith)
        requires
            n * b + ((k - 1) as int) % (n as int) == k - 1,
            ((k - 1) as int) % (n as int) >= 0,
            k - 1 < s * n,
            n > 0,
    ;
}

proof fn lemma_scan_chain(p: Seq<Seq<PricePoint>>, s: nat, k: nat)
    requires
        wf_prices(p),
        s < p[0].len(),
        k <= s * p.len(),
    ensures
        is_chain(scan(p, s, k).1, s, p.len()),
    decreases s, k,
{
    let n = p.len();
    if k == 0 {
        if s > 0 {
            assert((s - 1) * n <= (s - 1) * n);
            lemma_scan_chain(p, (s - 1) as nat, ((s - 1) * n) as nat);
        }
    } else {
        lemma_scan_chain(p, s, (k - 1) as nat);
        lemma_buy_day_before(k, n, s);
        let b = (((k - 1) as int) / (n as int)) as nat;
        let i = ((k - 1) as int) % (n as int);
        let base = if b == 0 || b > s {
            baseline()
        } else {
            scan(p, (b - 1) as nat, ((b - 1) * n) as nat)
        };
        if b > 0 {
            lemma_scan_chain(p, (b - 1) as nat, ((b - 1) * n) as nat);
        }
        let t = base.1 + seq![
            RawTransaction { stock: i as usize, day: b as usize },
            RawTransaction { stock: i as usize, day: s as usize },
        ];
        let bl = base.1.len() as int;
        assert(is_chain(base.1, s, n));
        assert(t[bl] == RawTransaction { stock: i as usize, day: b as usize });
        assert(t[bl + 1] == RawTransaction { stock: i as usize, day: s as usize });
        assert forall|j: int| 0 <= j < bl implies #[trigger] t[j] == base.1[j] by {}
        assert(is_chain(t, s, n)) by {
            assert forall|j: int| 0 <= j < t.len() && j % 2 == 0 implies (#[trigger] t[j]).day
                < t[j + 1].day && t[j].stock == t[j + 1].stock by {
                if j < bl {
                    assert(t[j + 1] == base.1[j + 1]);
                }
            }
            assert forall|j: int| 0 <= j && j + 1 < t.len() && j % 2 == 1 implies (
            #[trigger] t[j]).day <= t[j + 1].day by {
                if j + 1 < bl {
                    assert(t[j + 1] == base.1[j + 1]);
                } else if j + 1 == bl {
                    assert(b > 0);
                    assert(is_chain(base.1, (b - 1) as nat, n));
                    assert(base.1[j].day <= b - 1);
                }
            }
        }
    }
}

/// Every plan that the planner reports alternates buy, sell, buy, sell; each
/// buy's day is strictly before its sell's day, and each sell's day is no
/// later than the next buy's day.
pub proof fn lemma_plan_is_ordered(p: Seq<Seq<PricePoint>>)
    requires
        wf_prices(p),
    ensures
        is_ordered(decoded(best_overall(p).1)),
        is_chain(best_overall(p).1, (p[0].len() - 1) as nat, p.len()),
{
    let s = (p[0].len() - 1) as nat;
    lemma_scan_chain(p, s, s * p.len());
    let t = best_overall(p).1;
    let a = decoded(t);
    assert(is_chain(t, s, p.len()));
    assert(2 * (t.len() / 2) == t.len()) by (nonlinear_arith)
        requires
            t.len() % 2 == 0,
    ;
    assert(a.len() == t.len());
    assert(a.len() % 2 == 0);
    assert forall|k: int| 0 <= k < a.len() && k % 2 == 0 implies (#[trigger] a[k]).day < a[k
        + 1].day && a[k].instrument == a[k + 1].instrument by {
        assert(t[k].day < t[k + 1].day);
    }
    assert forall|k: int| 0 <= k && k + 1 < a.len() && k % 2 == 1 implies (
    #[trigger] a[k]).day <= a[k + 1].day by {
        assert(t[k].day <= t[k + 1].day);
    }
}

pub(crate) proof fn lemma_actions_in_range(p: Seq<Seq<PricePoint>>)
    requires
        wf_prices(p),
    ensures
        forall|k: int|
            0 <= k < decoded(best_overall(p).1).len() ==> (#[trigger] decoded(
                best_overall(p).1,
            )[k]).instrument < p.len() && decoded(best_overall(p).1)[k].day < p[0].len(),
{
    lemma_plan_is_ordered(p);
    let t = best_overall(p).1;
    let c = (p[0].len() - 1) as nat;
    assert forall|k: int| 0 <= k < decoded(t).len() implies (#[trigger] decoded(t)[k]).instrument
        < p.len() && decoded(t)[k].day < p[0].len() by {
        assert(t[k].stock < p.len() && t[k].day <= c);
    }
}

proof fn lemma_no_gain_scan(p: Seq<Seq<PricePoint>>, s: nat, k: nat)
    requires
        wf_prices(p),
        s < p[0].len(),
        k <= s * p.len(),
        forall|i: int, b: int, d: int|
            0 <= i < p.len() && 0 <= b < d < p[0].len() ==> #[trigger] p[i][d].price
                <= #[trigger] p[i][b].price,
    ensures
        scan(p, s, k) == baseline(),
    decreases s, k,
{
    let n = p.len();
    if k == 0 {
        if s > 0 {
            lemma_no_gain_scan(p, (s - 1) as nat, ((s - 1) * n) as nat);
        }
    } else {
        lemma_no_gain_scan(p, s, (k - 1) as nat);
        lemma_buy_day_before(k, n, s);
        let b = (((k - 1) as int) / (n as int)) as nat;
        let i = ((k - 1) as int) % (n as int);
        if b > 0 {
            lemma_no_gain_scan(p, (b - 1) as nat, ((b - 1) * n) as nat);
        }
        let sell = p[i][s as int].price as nat;
        let buy = p[i][b as int].price as nat;
        assert(buy > 0);
        assert(sell <= buy);
        assert(ONE as nat * sell <= ONE as nat * buy) by (nonlinear_arith)
            requires
                sell <= buy,
        ;
        lemma_div_is_ordered((ONE as nat * sell) as int, (ONE as nat * buy) as int, buy as int);
        lemma_div_by_multiple(ONE as int, buy as int);
    }
}

/// Where no transaction gains (every later price of an instrument is at most
/// every earlier one), the planner reports the no-trade plan.
pub proof fn lemma_no_gain_no_trade(p: Seq<Seq<PricePoint>>)
    requires
        wf_prices(p),
        forall|i: int, b: int, d: int|
            0 <= i < p.len() && 0 <= b < d < p[0].len() ==> #[trigger] p[i][d].price
                <= #[trigger] p[i][b].price,
    ensures
        best_overall(p) == baseline(),
{
    let s = (p[0].len() - 1) as nat;
    lemma_no_gain_scan(p, s, s * p.len());
}

/// With a single trading day there is no sell day: the planner reports the
/// no-trade plan.
pub proof fn lemma_single_day_no_trade(p: Seq<Seq<PricePoint>>)
    requires
        wf_prices(p),
        p[0].len() == 1,
    ensures
        best_overall(p) == baseline(),
{
    assert(0 * p.len() == 0);
}


/// The planner depends on the prices alone: two runs on equal matrices report
/// the same final capital and the same transactions.
pub proof fn lemma_plan_deterministic(m1: &PriceMatrix, m2: &PriceMatrix)
    requires
        m1.wf(),
        m1.prices() == m2.prices(),
    ensures
        best_overall(m1.prices()) == best_overall(m2.prices()),
{
}


proof fn lemma_scan_grows(p: Seq<Seq<PricePoint>>, s: nat, k: nat)
    ensures
        scan(p, s + 1, 0).0 <= scan(p, s + 1, k).0,
    decreases k,
{
    if k > 0 {
        lemma_scan_grows(p, s, (k - 1) as nat);
    }
}

/// The value of the reference plan never decreases from one day to the next.
pub proof fn lemma_best_non_decreasing(p: Seq<Seq<PricePoint>>, s: nat)
    ensures
        best(p, s).0 <= best(p, s + 1).0,
{
    lemma_scan_grows(p, s, ((s + 1) * p.len()) as nat);
}


/// No plan is reported below the no-trade baseline.
pub proof fn lemma_never_below_baseline(p: Seq<Seq<PricePoint>>, s: nat)
    ensures
        ONE as nat <= best(p, s).0,
    decreases s,
{
    if s == 0 {
        assert(0 * p.len() == 0);
    } else {
        lemma_never_below_baseline(p, (s - 1) as nat);
        lemma_best_non_decreasing(p, (s - 1) as nat);
    }
}

} // verus!
