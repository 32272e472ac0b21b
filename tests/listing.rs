use prediction_market::listing::{assemble_markets, collect_bets, stake_accepted, Bet, BetRow, MarketRow};

fn market(id: i64, title: &str) -> MarketRow {
    MarketRow {
        id,
        title: title.to_string(),
        image_url: format!("https://img/{id}.png"),
        description: format!("about {title}"),
    }
}

fn row(market_id: i64, text: &str, stake: u64) -> BetRow {
    BetRow { market_id, bet: Bet { text: text.to_string(), stake } }
}

#[test]
fn listings_group_bets_by_market_in_row_order() {
    let markets = vec![market(2, "rain"), market(1, "snow")];
    let rows = vec![row(1, "heavy", 5), row(2, "yes", 7), row(1, "light", 0), row(2, "no", 3)];
    let listed = assemble_markets(&markets, &rows).unwrap();
    assert_eq!(listed.len(), 2);
    assert_eq!(listed[0].id, 2);
    assert_eq!(listed[0].title, "rain");
    assert_eq!(listed[0].image_url, "https://img/2.png");
    assert_eq!(listed[0].description, "about rain");
    let texts: Vec<(&str, u64)> = listed[0].bets.iter().map(|b| (b.text.as_str(), b.stake)).collect();
    assert_eq!(texts, vec![("yes", 7), ("no", 3)]);
    let texts: Vec<(&str, u64)> = listed[1].bets.iter().map(|b| (b.text.as_str(), b.stake)).collect();
    assert_eq!(texts, vec![("heavy", 5), ("light", 0)]);
}

#[test]
fn listing_fails_for_market_without_bets_or_repeated() {
    let rows = vec![row(1, "yes", 1)];
    assert!(assemble_markets(&vec![market(1, "a"), market(3, "b")], &rows).is_none());
    assert!(assemble_markets(&vec![market(1, "a"), market(1, "a")], &rows).is_none());
    assert!(assemble_markets(&vec![], &rows).unwrap().is_empty());
    assert!(collect_bets(&rows, 3).is_empty());
}

#[test]
fn stakes_must_be_nonnegative() {
    assert!(stake_accepted(0));
    assert!(stake_accepted(12));
    assert!(!stake_accepted(-1));
}
