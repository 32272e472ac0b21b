//! Market listings for display: markets with the bet options offered on
//! each, assembled from the rows of a market table and a bet-option table.
use vstd::prelude::*;

verus! {

/// A bet option of a listed market, with the stake placed on it.
pub struct Bet {
    pub text: String,
    pub stake: u64,
}

/// A row of the market table.
pub struct MarketRow {
    pub id: i64,
    pub title: String,
    pub image_url: String,
    pub description: String,
}

/// A row of the bet-option table: the market it belongs to, and the option.
pub struct BetRow {
    pub market_id: i64,
    pub bet: Bet,
}

/// A market with its bet options.
pub struct Listing {
    pub id: i64,
    pub title: String,
    pub image_url: String,
    pub description: String,
    pub bets: Vec<Bet>,
}

/// The bet options of market `id`, in the order of the rows.
pub open spec fn bets_of(rows: Seq<BetRow>, id: i64) -> Seq<Bet>
    decreases rows.len(),
{
    if rows.len() == 0 {
        Seq::empty()
    } else if rows.last().market_id == id {
        bets_of(rows.drop_last(), id).push(rows.last().bet)
    } else {
        bets_of(rows.drop_last(), id)
    }
}

/// Every market appears once and has at least one bet option.
pub open spec fn listable(markets: Seq<MarketRow>, rows: Seq<BetRow>) -> bool {
    &&& forall|i: int, j: int|
        0 <= i < j < markets.len() ==> #[trigger] markets[i].id != #[trigger] markets[j].id
    &&& forall|i: int| 0 <= i < markets.len() ==> bets_of(rows, #[trigger] markets[i].id).len() > 0
}

/// `l` lists market row `m` with the bet options that `rows` give it.
pub open spec fn lists(l: Listing, m: MarketRow, rows: Seq<BetRow>) -> bool {
    &&& l.id == m.id
    &&& l.title == m.title
    &&& l.image_url == m.image_url
    &&& l.description == m.description
    &&& l.bets@ == bets_of(rows, m.id)
}

fn copy_bet(b: &Bet) -> (r: Bet)
    ensures
        r == *b,
{
    Bet { text: b.text.clone(), stake: b.stake }
}

/// The bet options of market `id`.
pub fn collect_bets(rows: &Vec<BetRow>, id: i64) -> (r: Vec<Bet>)
    ensures
        r@ == bets_of(rows@, id),
{
    let mut out: Vec<Bet> = Vec::new();
    let mut j: usize = 0;
    while j < rows.len()
        invariant
            j <= rows@.len(),
            out@ == bets_of(rows@.take(j as int), id),
        decreases rows@.len() - j,
    {
        assert(rows@.take(j + 1).drop_last() =~= rows@.take(j as int));
        if rows[j].market_id == id {
            out.push(copy_bet(&rows[j].bet));
        }
        j = j + 1;
    }
    assert(rows@.take(j as int) =~= rows@);
    out
}

/// Lists each market with its bet options, in the order of the market rows.
/// Fails when a market appears twice or has no bet option.
pub fn assemble_markets(markets: &Vec<MarketRow>, rows: &Vec<BetRow>) -> (r: Option<Vec<Listing>>)
    ensures
        r is Some <==> listable(markets@, rows@),
        r matches Some(v) ==> {
            &&& v@.len() == markets@.len()
            &&& forall|i: int| 0 <= i < v@.len() ==> lists(#[trigger] v@[i], markets@[i], rows@)
        },
{
    let mut out: Vec<Listing> = Vec::new();
    let mut i: usize = 0;
    while i < markets.len()
        invariant
            i <= markets@.len(),
            out@.len() == i,
            forall|k: int| 0 <= k < i ==> lists(#[trigger] out@[k], markets@[k], rows@),
            forall|a: int, b: int|
                0 <= a < b < i ==> #[trigger] markets@[a].id != #[trigger] markets@[b].id,
            forall|k: int| 0 <= k < i ==> bets_of(rows@, #[trigger] markets@[k].id).len() > 0,
        decreases markets@.len() - i,
    {
        let m = &markets[i];
        let mut k: usize = 0;
        while k < i
            invariant
                k <= i < markets@.len(),
                m == markets@[i as int],
                forall|a: int| 0 <= a < k ==> markets@[a].id != m.id,
            decreases i - k,
        {
            if markets[k].id == m.id {
                assert(markets@[k as int].id == markets@[i as int].id);
                return None;
            }
            k = k + 1;
        }
        let bets = collect_bets(rows, m.id);
        if bets.len() == 0 {
            return None;
        }
        let l = Listing {
            id: m.id,
            title: m.title.clone(),
            image_url: m.image_url.clone(),
            description: m.description.clone(),
            bets,
        };
        out.push(l);
        i = i + 1;
    }
    Some(out)
}

/// A stake may be placed on a bet option only for a nonnegative amount.
pub fn stake_accepted(amount: i64) -> (r: bool)
    ensures
        r == (amount >= 0),
{
    amount >= 0
}

} // verus!
