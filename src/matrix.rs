use chrono::Datelike;
use vstd::prelude::*;

verus! {

/// A calendar day (proleptic Gregorian), held as plain numbers.
#[derive(Clone, Copy, Debug, PartialEq, Eq, Structural)]
pub struct CalendarDate {
    pub year: i32,
    pub month: u32,
    pub day: u32,
}

/// One instrument's opening price on one day. Prices are fixed-point
/// integers in the caller's unit (for example micro-dollars).
#[derive(Clone, Copy, Debug, PartialEq, Eq, Structural)]
pub struct PricePoint {
    pub date: CalendarDate,
    pub price: u64,
}

/// Rows of aligned price points, one row per instrument that had data.
/// `instruments[k]` is the position, in the caller's instrument list, of the
/// instrument whose prices are `rows[k]`.
pub struct PriceMatrix {
    pub rows: Vec<Vec<PricePoint>>,
    pub instruments: Vec<usize>,
}

impl PriceMatrix {
    pub open spec fn prices(&self) -> Seq<Seq<PricePoint>> {
        self.rows@.map_values(|r: Vec<PricePoint>| r@)
    }

    pub open spec fn wf(&self) -> bool {
        &&& self.instruments@.len() == self.rows@.len()
        &&& wf_prices(self.prices())
    }
}

/// At least one row, every row of the same non-zero length, every price positive.
pub open spec fn wf_prices(p: Seq<Seq<PricePoint>>) -> bool {
    &&& 0 < p.len() <= usize::MAX
    &&& 0 < p[0].len() <= usize::MAX
    &&& forall|i: int| 0 <= i < p.len() ==> #[trigger] p[i].len() == p[0].len()
    &&& forall|i: int, d: int|
        0 <= i < p.len() && 0 <= d < p[0].len() ==> #[trigger] p[i][d].price > 0
}


/// Unix timestamps within this many seconds of the epoch (about 253,000 years)
/// always have a calendar date.
pub const TIMESTAMP_BOUND: i64 = 8_000_000_000_000;

/// The UTC calendar date (year, month, day) of a Unix timestamp in seconds.
pub uninterp spec fn utc_date(ts: int) -> (int, int, int);

/// Relies on chrono's `DateTime::from_timestamp` (UTC date and time of a Unix
/// timestamp, `None` only out of chrono's range of years -262143 to 262142,
/// which holds every timestamp within 8e12 seconds of the epoch) and on
/// `Datelike::{year, month, day}`.
#[verifier::external_body]
fn utc_date_of(ts: i64) -> (r: Option<(i32, u32, u32)>)
    ensures
        -TIMESTAMP_BOUND <= ts <= TIMESTAMP_BOUND ==> r is Some,
        r matches Some(t) ==> utc_date(ts as int) == (t.0 as int, t.1 as int, t.2 as int) && 1
            <= t.1 <= 12 && 1 <= t.2 <= 31,
{
    match chrono::DateTime::from_timestamp(ts, 0) {
        Some(d) => Some((d.year(), d.month(), d.day())),
        None => None,
    }
}

impl PricePoint {
    /// The price point of the UTC day of Unix timestamp `ts`, or `None` where
    /// the timestamp has no calendar date.
    pub fn from_timestamp(ts: i64, price: u64) -> (r: Option<PricePoint>)
        ensures
            -TIMESTAMP_BOUND <= ts <= TIMESTAMP_BOUND ==> r is Some,
            r matches Some(pp) ==> pp.price == price && utc_date(ts as int) == (
                pp.date.year as int,
                pp.date.month as int,
                pp.date.day as int,
            ) && 1 <= pp.date.month <= 12 && 1 <= pp.date.day <= 31,
    {
        match utc_date_of(ts) {
            Some((year, month, day)) => Some(
                PricePoint { date: CalendarDate { year, month, day }, price },
            ),
            None => None,
        }
    }
}

/// What to do with an instrument whose history could not be had.
#[derive(Clone, Copy, Debug, PartialEq, Eq, Structural)]
pub enum FetchPolicy {
    /// Leave the instrument out and go on with the others.
    DropMissing,
    /// Fail the whole computation.
    FailOnMissing,
}

#[derive(Clone, Copy, Debug, PartialEq, Eq, Structural)]
pub enum BuildError {
    /// The instrument at this position has no history, under `FailOnMissing`.
    MissingData { instrument: usize },
    /// No instrument has any history.
    InsufficientData,
    /// Two instruments have histories of different lengths.
    MismatchedLengths,
    /// A price is zero.
    ZeroPrice,
}

pub open spec fn has_data(o: Option<Vec<PricePoint>>) -> bool {
    o matches Some(v) && v@.len() > 0
}

/// Positions of the instruments that have a history, in order.
pub open spec fn present(raw: Seq<Option<Vec<PricePoint>>>) -> Seq<usize>
    decreases raw.len(),
{
    if raw.len() == 0 {
        Seq::empty()
    } else {
        let rest = present(raw.drop_last());
        if has_data(raw.last()) {
            rest.push((raw.len() - 1) as usize)
        } else {
            rest
        }
    }
}

pub open spec fn history(o: Option<Vec<PricePoint>>) -> Seq<PricePoint> {
    match o {
        Some(v) => v@,
        None => Seq::empty(),
    }
}

/// The rows kept from `raw`: the histories of the present instruments.
pub open spec fn kept_rows(raw: Seq<Option<Vec<PricePoint>>>) -> Seq<Seq<PricePoint>> {
    present(raw).map_values(|j: usize| history(raw[j as int]))
}

pub open spec fn first_missing(raw: Seq<Option<Vec<PricePoint>>>, i: int) -> bool {
    &&& 0 <= i < raw.len()
    &&& !has_data(raw[i])
    &&& forall|j: int| 0 <= j < i ==> has_data(#[trigger] raw[j])
}

pub open spec fn same_lengths(rows: Seq<Seq<PricePoint>>) -> bool {
    forall|k: int| 0 <= k < rows.len() ==> #[trigger] rows[k].len() == rows[0].len()
}

pub open spec fn positive_prices(rows: Seq<Seq<PricePoint>>) -> bool {
    forall|k: int, d: int|
        0 <= k < rows.len() && 0 <= d < rows[k].len() ==> #[trigger] rows[k][d].price > 0
}

proof fn lemma_present_step(raw: Seq<Option<Vec<PricePoint>>>, i: int)
    requires
        0 <= i < raw.len(),
    ensures
        present(raw.take(i + 1)) == if has_data(raw[i]) {
            present(raw.take(i)).push(i as usize)
        } else {
            present(raw.take(i))
        },
{
    assert(raw.take(i + 1).drop_last() =~= raw.take(i));
}

fn copy_row(v: &Vec<PricePoint>) -> (r: Vec<PricePoint>)
    ensures
        r@ == v@,
{
    let mut r: Vec<PricePoint> = Vec::new();
    let mut i: usize = 0;
    while i < v.len()
        invariant
            i <= v.len(),
            r@ == v@.take(i as int),
        decreases v.len() - i,
    {
        r.push(v[i]);
        i += 1;
        proof {
            assert(r@ =~= v@.take(i as int));
        }
    }
    proof {
        assert(v@.take(v@.len() as int) =~= v@);
    }
    r
}

/// Builds the price matrix from each instrument's history, in the order of
/// `raw`; `None` or an empty history marks an instrument whose history could
/// not be had, handled as `policy` says.
pub fn build_matrix(raw: &Vec<Option<Vec<PricePoint>>>, policy: FetchPolicy) -> (r: Result<
    PriceMatrix,
    BuildError,
>)
    ensures
        policy == FetchPolicy::FailOnMissing && (exists|i: int| 0 <= i < raw@.len() && !has_data(#[trigger] raw@[i]))
            ==> (r matches Err(BuildError::MissingData { instrument }) && first_missing(raw@, instrument as int)),
        policy == FetchPolicy::DropMissing || (forall|i: int| 0 <= i < raw@.len() ==> has_data(#[trigger] raw@[i]))
            ==> {
            let rows = kept_rows(raw@);
            &&& rows.len() == 0 ==> r == Err::<PriceMatrix, BuildError>(BuildError::InsufficientData)
            &&& rows.len() > 0 && !same_lengths(rows) ==> r == Err::<PriceMatrix, BuildError>(BuildError::MismatchedLengths)
            &&& rows.len() > 0 && same_lengths(rows) && !positive_prices(rows) ==> r == Err::<PriceMatrix, BuildError>(BuildError::ZeroPrice)
            &&& rows.len() > 0 && same_lengths(rows) && positive_prices(rows) ==> (r matches Ok(m) && m.wf()
                && m.prices() == rows && m.instruments@ == present(raw@))
        },
{
    let mut rows: Vec<Vec<PricePoint>> = Vec::new();
    let mut instruments: Vec<usize> = Vec::new();
    let mut i: usize = 0;
    while i < raw.len()
        invariant
            i <= raw@.len(),
            instruments@ == present(raw@.take(i as int)),
            rows@.len() == instruments@.len(),
            forall|k: int| 0 <= k < rows@.len() ==> (#[trigger] rows@[k])@ == history(raw@[instruments@[k] as int]),
            forall|k: int| 0 <= k < rows@.len() ==> (#[trigger] rows@[k])@.len() > 0,
            policy == FetchPolicy::FailOnMissing ==> forall|j: int| 0 <= j < i ==> has_data(#[trigger] raw@[j]),
        decreases raw.len() - i,
    {
        proof {
            lemma_present_step(raw@, i as int);
        }
        match &raw[i] {
            Some(v) if v.len() > 0 => {
                rows.push(copy_row(v));
                instruments.push(i);
            },
            _ => {
                if policy == FetchPolicy::FailOnMissing {
                    proof {
                        assert(first_missing(raw@, i as int));
                    }
                    return Err(BuildError::MissingData { instrument: i });
                }
            },
        }
        i += 1;
    }
    proof {
        assert(raw@.take(raw@.len() as int) =~= raw@);
        assert(rows@.map_values(|r: Vec<PricePoint>| r@) =~= kept_rows(raw@));
    }
    if rows.len() == 0 {
        return Err(BuildError::InsufficientData);
    }
    let ghost kr = kept_rows(raw@);
    proof {
        assert(kr[0] == rows@[0]@);
    }
    let width = rows[0].len();
    let mut k: usize = 0;
    while k < rows.len()
        invariant
            rows@.map_values(|r: Vec<PricePoint>| r@) == kr,
            kr == kept_rows(raw@),
            instruments@ == present(raw@),
            rows@.len() == instruments@.len(),
            policy == FetchPolicy::FailOnMissing ==> forall|j: int|
                0 <= j < raw@.len() ==> has_data(#[trigger] raw@[j]),
            0 < rows@.len(),
            0 < kr[0].len(),
            width == rows@[0]@.len(),
            k <= rows@.len(),
            forall|j: int| 0 <= j < k ==> (#[trigger] rows@[j])@.len() == width,
        decreases rows.len() - k,
    {
        if rows[k].len() != width {
            proof {
                assert(kr[k as int].len() != kr[0].len());
            }
            return Err(BuildError::MismatchedLengths);
        }
        k += 1;
    }
    proof {
        assert(same_lengths(kr));
    }
    let mut k: usize = 0;
    while k < rows.len()
        invariant
            rows@.map_values(|r: Vec<PricePoint>| r@) == kr,
            kr == kept_rows(raw@),
            instruments@ == present(raw@),
            rows@.len() == instruments@.len(),
            policy == FetchPolicy::FailOnMissing ==> forall|j: int|
                0 <= j < raw@.len() ==> has_data(#[trigger] raw@[j]),
            same_lengths(kr),
            0 < rows@.len(),
            0 < kr[0].len(),
            k <= rows@.len(),
            forall|j: int, d: int|
                0 <= j < k && 0 <= d < rows@[j]@.len() ==> #[trigger] rows@[j]@[d].price > 0,
        decreases rows.len() - k,
    {
        let mut d: usize = 0;
        while d < rows[k].len()
            invariant
                rows@.map_values(|r: Vec<PricePoint>| r@) == kr,
                same_lengths(kr),
                0 < kr[0].len(),
                kr == kept_rows(raw@),
                instruments@ == present(raw@),
                rows@.len() == instruments@.len(),
                policy == FetchPolicy::FailOnMissing ==> forall|j: int|
                    0 <= j < raw@.len() ==> has_data(#[trigger] raw@[j]),
                k < rows@.len(),
                d <= rows@[k as int]@.len(),
                forall|j: int, e: int|
                    0 <= j < k && 0 <= e < rows@[j]@.len() ==> #[trigger] rows@[j]@[e].price > 0,
                forall|e: int| 0 <= e < d ==> #[trigger] rows@[k as int]@[e].price > 0,
            decreases rows@[k as int]@.len() - d,
        {
            if rows[k][d].price == 0 {
                proof {
                    assert(kr[k as int][d as int].price == 0);
                }
                return Err(BuildError::ZeroPrice);
            }
            d += 1;
        }
        k += 1;
    }
    let m = PriceMatrix { rows, instruments };
    proof {
        let p = m.prices();
        assert(p == kr);
        assert(positive_prices(kr));
    }
    Ok(m)
}

} // verus!
