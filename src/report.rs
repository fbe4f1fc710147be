use vstd::prelude::*;
use vstd::string::StringExecFns;

use crate::actions::{decode, decoded, Side, TradeAction};
use crate::matrix::{CalendarDate, PriceMatrix};
use crate::planner::{best_overall, best_plan, lemma_actions_in_range};

verus! {

pub open spec fn digit(n: nat) -> char {
    if n == 0 {
        '0'
    } else if n == 1 {
        '1'
    } else if n == 2 {
        '2'
    } else if n == 3 {
        '3'
    } else if n == 4 {
        '4'
    } else if n == 5 {
        '5'
    } else if n == 6 {
        '6'
    } else if n == 7 {
        '7'
    } else if n == 8 {
        '8'
    } else {
        '9'
    }
}

/// Decimal digits of `n`, without leading zeros.
pub open spec fn decimal(n: nat) -> Seq<char>
    decreases n,
{
    if n < 10 {
        seq![digit(n)]
    } else {
        decimal(n / 10).push(digit(n % 10))
    }
}

pub open spec fn signed_decimal(n: int) -> Seq<char> {
    if n < 0 {
        seq!['-'] + decimal((-n) as nat)
    } else {
        decimal(n as nat)
    }
}

/// Decimal digits of `n`, padded with a zero to at least two.
pub open spec fn two_digits(n: nat) -> Seq<char> {
    if n < 10 {
        seq!['0', digit(n)]
    } else {
        decimal(n)
    }
}

/// `YYYY-MM-DD`.
pub open spec fn date_text(d: CalendarDate) -> Seq<char> {
    signed_decimal(d.year as int) + seq!['-'] + two_digits(d.month as nat) + seq!['-']
        + two_digits(d.day as nat)
}

fn digit_str(d: u32) -> (r: &'static str)
    requires
        d < 10,
    ensures
        r@ == seq![digit(d as nat)],
{
    proof {
        reveal_strlit("0");
        reveal_strlit("1");
        reveal_strlit("2");
        reveal_strlit("3");
        reveal_strlit("4");
        reveal_strlit("5");
        reveal_strlit("6");
        reveal_strlit("7");
        reveal_strlit("8");
        reveal_strlit("9");
    }
    match d {
        0 => "0",
        1 => "1",
        2 => "2",
        3 => "3",
        4 => "4",
        5 => "5",
        6 => "6",
        7 => "7",
        8 => "8",
        _ => "9",
    }
}

fn push_decimal(s: &mut String, n: u32)
    ensures
        final(s)@ == old(s)@ + decimal(n as nat),
    decreases n,
{
    if n >= 10 {
        push_decimal(s, n / 10);
    }
    s.append(digit_str(n % 10));
    proof {
        if n < 10 {
            assert(n % 10 == n);
        }
        assert(final(s)@ =~= old(s)@ + decimal(n as nat));
    }
}

fn push_two_digits(s: &mut String, n: u32)
    ensures
        final(s)@ == old(s)@ + two_digits(n as nat),
{
    if n < 10 {
        proof {
            reveal_strlit("0");
        }
        s.append("0");
    }
    push_decimal(s, n);
    proof {
        if n < 10 {
            assert(decimal(n as nat) == seq![digit(n as nat)]);
            assert(final(s)@ =~= old(s)@ + two_digits(n as nat));
        }
    }
}

fn date_string(d: CalendarDate) -> (r: String)
    ensures
        r@ == date_text(d),
{
    let mut s = String::new();
    if d.year < 0 {
        proof {
            reveal_strlit("-");
        }
        s.append("-");
        push_decimal(&mut s, (0 - (d.year as i64)) as u32);
    } else {
        push_decimal(&mut s, d.year as u32);
    }
    proof {
        reveal_strlit("-");
    }
    s.append("-");
    push_two_digits(&mut s, d.month);
    s.append("-");
    push_two_digits(&mut s, d.day);
    proof {
        assert(s@ =~= date_text(d));
    }
    s
}

/// In years of four digits, months and days of two, the date reads
/// `YYYY-MM-DD`: ten characters, the dashes at positions 4 and 7.
pub proof fn lemma_date_text_shape(d: CalendarDate)
    requires
        1000 <= d.year <= 9999,
        1 <= d.month <= 12,
        1 <= d.day <= 31,
    ensures
        date_text(d).len() == 10,
        date_text(d)[4] == '-',
        date_text(d)[7] == '-',
{
    let y = d.year as nat;
    assert(decimal(y).len() == 4) by {
        reveal_with_fuel(decimal, 4);
        assert(y / 10 >= 100 && y / 10 / 10 >= 10 && y / 10 / 10 / 10 < 10);
    }
    assert(two_digits(d.month as nat).len() == 2) by {
        reveal_with_fuel(decimal, 2);
    }
    assert(two_digits(d.day as nat).len() == 2) by {
        reveal_with_fuel(decimal, 2);
    }
}

pub open spec fn side_text(s: Side) -> Seq<char> {
    match s {
        Side::Buy => seq!['B', 'U', 'Y'],
        Side::Sell => seq!['S', 'E', 'L', 'L'],
    }
}

/// One dated action as handed to the caller.
#[derive(Clone, Debug, PartialEq, Eq)]
pub struct Transaction {
    pub date: String,
    pub action: String,
    pub ticker: String,
}

impl Transaction {
    pub fn new(date: CalendarDate, side: Side, ticker: &String) -> (r: Transaction)
        ensures
            r.date@ == date_text(date),
            r.action@ == side_text(side),
            r.ticker@ == ticker@,
    {
        let action = match side {
            Side::Buy => "BUY".to_string(),
            Side::Sell => "SELL".to_string(),
        };
        proof {
            reveal_strlit("BUY");
            reveal_strlit("SELL");
        }
        Transaction { date: date_string(date), action, ticker: ticker.clone() }
    }
}

#[derive(Clone, Copy, Debug, PartialEq, Eq, Structural)]
pub enum PlanError {
    /// No instrument, or no trading day.
    InsufficientData,
    /// Rows of different lengths, a zero price, or rows and instrument
    /// positions that do not pair up.
    Malformed,
    /// An instrument position outside the list of tickers.
    UnknownInstrument,
}

pub open spec fn tickers_cover(m: &PriceMatrix, tickers: Seq<String>) -> bool {
    forall|k: int| 0 <= k < m.instruments@.len() ==> #[trigger] m.instruments@[k] < tickers.len()
}

/// The record of action `a` of a plan over `m`.
pub open spec fn record_of(
    rec: Transaction,
    a: TradeAction,
    m: &PriceMatrix,
    tickers: Seq<String>,
) -> bool {
    &&& rec.date@ == date_text(m.prices()[a.instrument as int][a.day as int].date)
    &&& rec.action@ == side_text(a.side)
    &&& rec.ticker@ == tickers[m.instruments@[a.instrument as int] as int]@
}

impl PriceMatrix {
    pub open spec fn is_empty_spec(&self) -> bool {
        self.rows@.len() == 0 || self.rows@[0]@.len() == 0
    }

    /// Whether the matrix has its invariant.
    pub fn is_well_formed(&self) -> (r: bool)
        ensures
            r == self.wf(),
    {
        if self.rows.len() == 0 || self.rows[0].len() == 0 || self.instruments.len() != self.rows.len() {
            return false;
        }
        let ghost p = self.prices();
        let width = self.rows[0].len();
        let mut k: usize = 0;
        while k < self.rows.len()
            invariant
                p == self.prices(),
                0 < self.rows@.len(),
                width == p[0].len(),
                k <= p.len(),
                forall|j: int| 0 <= j < k ==> #[trigger] p[j].len() == width,
                forall|j: int, d: int| 0 <= j < k && 0 <= d < width ==> #[trigger] p[j][d].price > 0,
            decreases self.rows.len() - k,
        {
            if self.rows[k].len() != width {
                proof {
                    assert(p[k as int].len() != p[0].len());
                }
                return false;
            }
            let mut d: usize = 0;
            while d < width
                invariant
                    p == self.prices(),
                    k < p.len(),
                    p[k as int].len() == width,
                    d <= width,
                    forall|j: int, e: int| 0 <= j < k && 0 <= e < width ==> #[trigger] p[j][e].price > 0,
                    forall|e: int| 0 <= e < d ==> #[trigger] p[k as int][e].price > 0,
                decreases width - d,
            {
                if self.rows[k][d].price == 0 {
                    proof {
                        assert(p[k as int][d as int].price == 0);
                    }
                    return false;
                }
                d += 1;
            }
            k += 1;
        }
        true
    }
}



fn records_of(m: &PriceMatrix, tickers: &Vec<String>, actions: &Vec<TradeAction>) -> (r: Vec<Transaction>)
    requires
        m.wf(),
        tickers_cover(m, tickers@),
        forall|k: int|
            0 <= k < actions@.len() ==> (#[trigger] actions@[k]).instrument < m.prices().len()
                && actions@[k].day < m.prices()[0].len(),
    ensures
        r@.len() == actions@.len(),
        forall|k: int| 0 <= k < actions@.len() ==> record_of(#[trigger] r@[k], actions@[k], m, tickers@),
{
    let ghost p = m.prices();
    let mut records: Vec<Transaction> = Vec::new();
    let mut k: usize = 0;
    while k < actions.len()
        invariant
            m.wf(),
            p == m.prices(),
            tickers_cover(m, tickers@),
            forall|j: int|
                0 <= j < actions@.len() ==> (#[trigger] actions@[j]).instrument < p.len()
                    && actions@[j].day < p[0].len(),
            k <= actions@.len(),
            records@.len() == k,
            forall|j: int| 0 <= j < k ==> record_of(#[trigger] records@[j], actions@[j], m, tickers@),
        decreases actions.len() - k,
    {
        let a = actions[k];
        proof {
            assert(p[a.instrument as int].len() == p[0].len());
            assert(m.rows@[a.instrument as int]@ == p[a.instrument as int]);
            assert(m.instruments@[a.instrument as int] < tickers@.len());
        }
        let row = m.instruments[a.instrument];
        let rec = Transaction::new(m.rows[a.instrument][a.day].date, a.side, &tickers[row]);
        records.push(rec);
        k += 1;
    }
    records
}

/// Plans the best sequence of transactions over `m` and reports its final
/// capital (in units of `ONE`) and its actions as dated records, the
/// instrument of row `k` being `tickers[m.instruments[k]]`.
pub fn find_max_n_day(m: &PriceMatrix, tickers: &Vec<String>) -> (r: Result<(u128, Vec<Transaction>), PlanError>)
    ensures
        m.is_empty_spec() ==> r == Err::<(u128, Vec<Transaction>), PlanError>(PlanError::InsufficientData),
        !m.is_empty_spec() && !m.wf() ==> r == Err::<(u128, Vec<Transaction>), PlanError>(PlanError::Malformed),
        m.wf() && !tickers_cover(m, tickers@) ==> r == Err::<(u128, Vec<Transaction>), PlanError>(PlanError::UnknownInstrument),
        m.wf() && tickers_cover(m, tickers@) ==> (r matches Ok((v, recs)) && {
            let plan = best_overall(m.prices());
            let acts = decoded(plan.1);
            &&& v as nat == plan.0
            &&& recs@.len() == acts.len()
            &&& forall|k: int| 0 <= k < acts.len() ==> record_of(#[trigger] recs@[k], acts[k], m, tickers@)
        }),
{
    if m.rows.len() == 0 || m.rows[0].len() == 0 {
        return Err(PlanError::InsufficientData);
    }
    if !m.is_well_formed() {
        return Err(PlanError::Malformed);
    }
    let mut k: usize = 0;
    while k < m.instruments.len()
        invariant
            m.wf(),
            k <= m.instruments@.len(),
            forall|j: int| 0 <= j < k ==> #[trigger] m.instruments@[j] < tickers@.len(),
        decreases m.instruments.len() - k,
    {
        if m.instruments[k] >= tickers.len() {
            return Err(PlanError::UnknownInstrument);
        }
        k += 1;
    }
    let ghost p = m.prices();
    let (value, raw) = best_plan(m);
    proof {
        lemma_actions_in_range(p);
    }
    let actions = decode(&raw);
    let records = records_of(m, tickers, &actions);
    Ok((value, records))
}

} // verus!
