use crypto_ticker::wire::{decode_ticker, decode_tickers, field_of, FieldError, FieldName, WireField};
use crypto_ticker::TickerData;

fn text(name: &str, value: &str) -> WireField {
    WireField { name: name.to_string(), text: Some(value.to_string()) }
}

fn other(name: &str) -> WireField {
    WireField { name: name.to_string(), text: None }
}

fn bitcoin_members() -> Vec<WireField> {
    vec![
        text("symbol", "BTCUSDT"),
        text("priceChange", "-94.99999800"),
        text("priceChangePercent", "-95.960"),
        text("lastPrice", "4.00000200"),
        other("openTime"),
        text("highPrice", "100.00000000"),
        text("lowPrice", "0.10000000"),
        text("volume", "8913.30000000"),
        other("count"),
    ]
}

fn bitcoin() -> TickerData {
    TickerData {
        symbol: "BTCUSDT".to_string(),
        last_price: "4.00000200".to_string(),
        price_change_percent: "-95.960".to_string(),
        volume: "8913.30000000".to_string(),
        high_price: "100.00000000".to_string(),
        low_price: "0.10000000".to_string(),
    }
}

fn members_of(ticker: &TickerData) -> Vec<WireField> {
    vec![
        text("symbol", &ticker.symbol),
        text("lastPrice", &ticker.last_price),
        text("priceChangePercent", &ticker.price_change_percent),
        text("volume", &ticker.volume),
        text("highPrice", &ticker.high_price),
        text("lowPrice", &ticker.low_price),
    ]
}

fn without(members: Vec<WireField>, name: &str) -> Vec<WireField> {
    members.into_iter().filter(|m| m.name != name).collect()
}

#[test]
fn wire_names() {
    assert_eq!(FieldName::Symbol.wire_str(), "symbol");
    assert_eq!(FieldName::LastPrice.wire_str(), "lastPrice");
    assert_eq!(FieldName::PriceChangePercent.wire_str(), "priceChangePercent");
    assert_eq!(FieldName::Volume.wire_str(), "volume");
    assert_eq!(FieldName::HighPrice.wire_str(), "highPrice");
    assert_eq!(FieldName::LowPrice.wire_str(), "lowPrice");
}

#[test]
fn names_fill_their_fields() {
    assert_eq!(field_of(&"symbol".to_string()), Some(FieldName::Symbol));
    assert_eq!(field_of(&"lastPrice".to_string()), Some(FieldName::LastPrice));
    assert_eq!(field_of(&"priceChangePercent".to_string()), Some(FieldName::PriceChangePercent));
    assert_eq!(field_of(&"volume".to_string()), Some(FieldName::Volume));
    assert_eq!(field_of(&"highPrice".to_string()), Some(FieldName::HighPrice));
    assert_eq!(field_of(&"lowPrice".to_string()), Some(FieldName::LowPrice));
    // The names of the fields themselves are not wire names.
    assert_eq!(field_of(&"last_price".to_string()), None);
    assert_eq!(field_of(&"LastPrice".to_string()), None);
    assert_eq!(field_of(&"priceChange".to_string()), None);
    assert_eq!(field_of(&"".to_string()), None);
}

#[test]
fn object_of_the_provider_decodes() {
    assert_eq!(decode_ticker(&bitcoin_members()), Ok(bitcoin()));
}

#[test]
fn every_field_comes_back_under_its_own_name() {
    let ticker = TickerData {
        symbol: "s".to_string(),
        last_price: "l".to_string(),
        price_change_percent: "p".to_string(),
        volume: "v".to_string(),
        high_price: "h".to_string(),
        low_price: "w".to_string(),
    };
    assert_eq!(decode_ticker(&members_of(&ticker)), Ok(ticker.clone()));
    let mut reversed = members_of(&ticker);
    reversed.reverse();
    assert_eq!(decode_ticker(&reversed), Ok(ticker));
}

#[test]
fn text_is_kept_as_it_came() {
    let ticker = TickerData {
        symbol: "ÉTHUSDT \u{1F600}".to_string(),
        last_price: "".to_string(),
        price_change_percent: "not a number".to_string(),
        volume: "0.1000000000000000055511151231257827".to_string(),
        high_price: " 1 ".to_string(),
        low_price: "1e-400".to_string(),
    };
    assert_eq!(decode_ticker(&members_of(&ticker)), Ok(ticker));
}

#[test]
fn missing_field_is_reported() {
    let cases = [
        ("symbol", FieldName::Symbol),
        ("lastPrice", FieldName::LastPrice),
        ("priceChangePercent", FieldName::PriceChangePercent),
        ("volume", FieldName::Volume),
        ("highPrice", FieldName::HighPrice),
        ("lowPrice", FieldName::LowPrice),
    ];
    for (name, field) in cases {
        let members = without(bitcoin_members(), name);
        assert_eq!(decode_ticker(&members), Err(FieldError::Missing(field)));
    }
    assert_eq!(decode_ticker(&Vec::new()), Err(FieldError::Missing(FieldName::Symbol)));
}

#[test]
fn first_missing_field_in_the_order_of_declaration() {
    let members = without(without(bitcoin_members(), "volume"), "lastPrice");
    assert_eq!(decode_ticker(&members), Err(FieldError::Missing(FieldName::LastPrice)));
}

#[test]
fn duplicate_field_is_reported() {
    let mut members = bitcoin_members();
    members.push(text("volume", "1"));
    assert_eq!(decode_ticker(&members), Err(FieldError::Duplicate(FieldName::Volume)));
    let mut members = bitcoin_members();
    members.push(other("symbol"));
    assert_eq!(decode_ticker(&members), Err(FieldError::Duplicate(FieldName::Symbol)));
}

#[test]
fn field_that_is_no_string_is_reported() {
    let mut members = without(bitcoin_members(), "highPrice");
    members.insert(2, other("highPrice"));
    assert_eq!(decode_ticker(&members), Err(FieldError::NotText(FieldName::HighPrice)));
}

#[test]
fn first_member_that_cannot_be_taken_wins() {
    let members = vec![text("symbol", "A"), other("lowPrice"), text("symbol", "B")];
    assert_eq!(decode_ticker(&members), Err(FieldError::NotText(FieldName::LowPrice)));
    let members = vec![text("symbol", "A"), text("symbol", "B"), other("lowPrice")];
    assert_eq!(decode_ticker(&members), Err(FieldError::Duplicate(FieldName::Symbol)));
}

#[test]
fn unknown_members_are_passed_over() {
    let mut members = bitcoin_members();
    members.insert(0, other("symbol "));
    members.push(text("Symbol", "other"));
    members.push(other("weightedAvgPrice"));
    members.push(other("weightedAvgPrice"));
    assert_eq!(decode_ticker(&members), Ok(bitcoin()));
}

#[test]
fn array_decodes_in_order() {
    let second = TickerData { symbol: "ETHUSDC".to_string(), ..bitcoin() };
    let objects = vec![bitcoin_members(), members_of(&second), bitcoin_members()];
    assert_eq!(decode_tickers(&objects), Ok(vec![bitcoin(), second, bitcoin()]));
    assert_eq!(decode_tickers(&Vec::new()), Ok(Vec::new()));
}

#[test]
fn array_stops_at_the_first_object_that_fails() {
    let objects = vec![
        bitcoin_members(),
        without(bitcoin_members(), "lowPrice"),
        without(bitcoin_members(), "symbol"),
    ];
    assert_eq!(decode_tickers(&objects), Err(FieldError::Missing(FieldName::LowPrice)));
}
