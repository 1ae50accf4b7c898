use nanobook::parse::{parse_side, parse_symbol, parse_tif, side_str};
use nanobook::strategy::EqualWeight;
use nanobook::symbol::{Symbol, SYMBOL_CAPACITY};
use nanobook::types::{EngineError, Side, TimeInForce};

#[test]
fn parse_side_accepts_known_spellings() {
    for s in ["buy", "b", "BUY", "Buy", "B", "bUy"] {
        assert_eq!(parse_side(s), Ok(Side::Buy));
    }
    for s in ["sell", "s", "SELL", "Sell", "S"] {
        assert_eq!(parse_side(s), Ok(Side::Sell));
    }
}

#[test]
fn parse_side_rejects_everything_else() {
    for s in ["", "bu", "buys", "hold", " buy", "buy ", "se", "selll", "büy", "ｂ"] {
        assert_eq!(parse_side(s), Err(EngineError::InvalidInput));
    }
}

#[test]
fn parse_tif_accepts_known_spellings() {
    assert_eq!(parse_tif("gtc"), Ok(TimeInForce::GTC));
    assert_eq!(parse_tif("GTC"), Ok(TimeInForce::GTC));
    assert_eq!(parse_tif("ioc"), Ok(TimeInForce::IOC));
    assert_eq!(parse_tif("Ioc"), Ok(TimeInForce::IOC));
    assert_eq!(parse_tif("fok"), Ok(TimeInForce::FOK));
    assert_eq!(parse_tif("FoK"), Ok(TimeInForce::FOK));
}

#[test]
fn parse_tif_rejects_everything_else() {
    for s in ["", "gt", "gtcc", "day", "g", "i0c", "fok "] {
        assert_eq!(parse_tif(s), Err(EngineError::InvalidInput));
    }
}

#[test]
fn side_str_names_sides() {
    assert_eq!(side_str(Side::Buy), "buy");
    assert_eq!(side_str(Side::Sell), "sell");
    assert_eq!(parse_side(side_str(Side::Buy)), Ok(Side::Buy));
    assert_eq!(parse_side(side_str(Side::Sell)), Ok(Side::Sell));
}

#[test]
fn symbol_holds_up_to_eight_bytes() {
    assert_eq!(SYMBOL_CAPACITY, 8);
    let aapl = Symbol::try_new("AAPL").unwrap();
    assert_eq!(aapl.as_str(), "AAPL");
    assert_eq!(aapl.as_bytes(), b"AAPL");
    assert_eq!(aapl.len(), 4);
    assert!(!aapl.is_empty());
    let full = Symbol::try_new("ABCDEFGH").unwrap();
    assert_eq!(full.as_str(), "ABCDEFGH");
    assert_eq!(full.len(), 8);
    assert_eq!(Symbol::try_new("ABCDEFGHI"), None);
    let empty = Symbol::try_new("").unwrap();
    assert!(empty.is_empty());
    assert_eq!(empty.as_str(), "");
}

#[test]
fn symbol_length_is_counted_in_bytes() {
    let four_chars = Symbol::try_new("ÄÖÜß").unwrap();
    assert_eq!(four_chars.len(), 8);
    assert_eq!(four_chars.as_str(), "ÄÖÜß");
    assert_eq!(Symbol::try_new("ÄÖÜßx"), None);
}

#[test]
fn symbol_equality_compares_bytes() {
    assert_eq!(Symbol::new("MSFT"), Symbol::new("MSFT"));
    assert_ne!(Symbol::new("MSFT"), Symbol::new("MSF"));
    assert_ne!(Symbol::new("MSFT"), Symbol::new("msft"));
    assert_ne!(Symbol::new("A"), Symbol::new("B"));
    assert_ne!(Symbol::new(""), Symbol::new("A"));
}

#[test]
fn parse_symbol_rejects_long_text() {
    assert_eq!(parse_symbol("AAPL"), Ok(Symbol::new("AAPL")));
    assert_eq!(parse_symbol("TOOLONGSYM"), Err(EngineError::SymbolTooLong));
    assert_eq!(parse_symbol("12345678").unwrap().as_str(), "12345678");
    assert_eq!(parse_symbol("123456789"), Err(EngineError::SymbolTooLong));
}

#[test]
fn equal_weight_empty_bar() {
    let strat = EqualWeight;
    let weights = strat.equal_shares(&[]);
    assert!(weights.is_empty());
}

#[test]
fn equal_weight_splits_evenly() {
    let prices = [(Symbol::new("AAPL"), 15000), (Symbol::new("MSFT"), 30000)];
    let shares = EqualWeight.equal_shares(&prices);
    assert_eq!(shares, vec![(Symbol::new("AAPL"), 2), (Symbol::new("MSFT"), 2)]);
    let one = EqualWeight.equal_shares(&prices[..1]);
    assert_eq!(one, vec![(Symbol::new("AAPL"), 1)]);
    let weight = 1.0 / shares[0].1 as f64;
    assert_eq!(weight, 0.5);
}
