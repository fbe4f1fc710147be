use vstd::prelude::*;

use crate::planner::RawTransaction;

verus! {

/// Which side of a transaction an action is.
#[derive(Clone, Copy, Debug, PartialEq, Eq, Structural)]
pub enum Side {
    Buy,
    Sell,
}

/// One side of a transaction: a day (a column of the matrix) and an
/// instrument (a row of the matrix).
#[derive(Clone, Copy, Debug, PartialEq, Eq, Structural)]
pub struct TradeAction {
    pub day: usize,
    pub side: Side,
    pub instrument: usize,
}

pub open spec fn side_at(k: int) -> Side {
    if k % 2 == 0 {
        Side::Buy
    } else {
        Side::Sell
    }
}

/// The flat list read two entries at a time: the first of each pair a buy,
/// the second a sell. A trailing unpaired entry is left out.
pub open spec fn decoded(raw: Seq<RawTransaction>) -> Seq<TradeAction> {
    Seq::new(
        (2 * (raw.len() / 2)) as nat,
        |k: int| TradeAction { day: raw[k].day, side: side_at(k), instrument: raw[k].stock },
    )
}

/// The (day, instrument) entries of a list of actions, in order.
pub open spec fn encoded(a: Seq<TradeAction>) -> Seq<RawTransaction> {
    a.map_values(|x: TradeAction| RawTransaction { stock: x.instrument, day: x.day })
}

/// Actions alternate buy, sell, buy, sell; each buy comes strictly before its
/// sell, on the same instrument; each sell comes no later than the next buy.
pub open spec fn is_ordered(a: Seq<TradeAction>) -> bool {
    &&& a.len() % 2 == 0
    &&& forall|k: int| 0 <= k < a.len() ==> (#[trigger] a[k]).side == side_at(k)
    &&& forall|k: int|
        0 <= k < a.len() && k % 2 == 0 ==> (#[trigger] a[k]).day < a[k + 1].day && a[k].instrument
            == a[k + 1].instrument
    &&& forall|k: int|
        0 <= k && k + 1 < a.len() && k % 2 == 1 ==> (#[trigger] a[k]).day <= a[k + 1].day
}

pub fn decode(raw: &Vec<RawTransaction>) -> (r: Vec<TradeAction>)
    ensures
        r@ == decoded(raw@),
{
    let mut r: Vec<TradeAction> = Vec::new();
    let mut k: usize = 0;
    while k + 1 < raw.len()
        invariant
            k % 2 == 0,
            k <= 2 * (raw@.len() / 2),
            r@ == decoded(raw@).take(k as int),
        decreases raw.len() - k,
    {
        let buy = raw[k];
        let sell = raw[k + 1];
        r.push(TradeAction { day: buy.day, side: Side::Buy, instrument: buy.stock });
        r.push(TradeAction { day: sell.day, side: Side::Sell, instrument: sell.stock });
        k += 2;
        proof {
            assert(r@ =~= decoded(raw@).take(k as int));
        }
    }
    proof {
        assert(r@ =~= decoded(raw@));
    }
    r
}

pub fn encode(actions: &Vec<TradeAction>) -> (r: Vec<RawTransaction>)
    ensures
        r@ == encoded(actions@),
{
    let mut r: Vec<RawTransaction> = Vec::new();
    let mut k: usize = 0;
    while k < actions.len()
        invariant
            k <= actions@.len(),
            r@ == encoded(actions@).take(k as int),
        decreases actions.len() - k,
    {
        let a = actions[k];
        r.push(RawTransaction { stock: a.instrument, day: a.day });
        k += 1;
        proof {
            assert(r@ =~= encoded(actions@).take(k as int));
        }
    }
    proof {
        assert(r@ =~= encoded(actions@));
    }
    r
}

/// Decoding a flat list of even length into actions and encoding them again
/// gives back the same (day, instrument) entries in the same order.
pub proof fn lemma_decode_encode_round_trip(raw: Seq<RawTransaction>)
    requires
        raw.len() % 2 == 0,
    ensures
        encoded(decoded(raw)) == raw,
{
    assert(encoded(decoded(raw)) =~= raw);
}

} // verus!
