use crypto_ticker::select::{rank_of_volume, select, FilterConfig};
use crypto_ticker::TickerData;

fn ticker(symbol: &str, volume: &str) -> TickerData {
    TickerData {
        symbol: symbol.to_string(),
        last_price: "1".to_string(),
        price_change_percent: "0".to_string(),
        volume: volume.to_string(),
        high_price: "2".to_string(),
        low_price: "0.5".to_string(),
    }
}

fn config(suffixes: &[&str], max_results: usize, ranked: bool) -> FilterConfig {
    FilterConfig::new(suffixes.iter().map(|s| s.to_string()).collect(), max_results, ranked)
}

fn symbols(tickers: &[TickerData]) -> Vec<&str> {
    tickers.iter().map(|t| t.symbol.as_str()).collect()
}

fn fixture() -> Vec<TickerData> {
    vec![ticker("BTCUSDT", "100"), ticker("ETHUSDC", "5000000"), ticker("XRPBUSD", "10")]
}

fn market() -> Vec<TickerData> {
    vec![
        ticker("AUSDT", "10"),
        ticker("BUSDC", "30"),
        ticker("CBTC", "99"),
        ticker("DUSDT", "30.0"),
        ticker("EUSDT", "bad"),
        ticker("FUSDC", "3e1"),
        ticker("GUSDT", "-5"),
        ticker("HUSDT", "0"),
        ticker("USDT", "1e400"),
        ticker("IUSD", "1000"),
        ticker("JUSDC", "29.999999"),
    ]
}

#[test]
fn end_to_end_fixture() {
    let shown = select(fixture(), &config(&["USDT", "USDC"], 10, true));
    assert_eq!(symbols(&shown), ["ETHUSDC", "BTCUSDT"]);
    assert_eq!(shown[0], ticker("ETHUSDC", "5000000"));
    assert_eq!(shown[1], ticker("BTCUSDT", "100"));
}

#[test]
fn one_suffix_alone() {
    let shown = select(fixture(), &config(&["USDT"], 12, true));
    assert_eq!(symbols(&shown), ["BTCUSDT"]);
}

#[test]
fn unranked_keeps_the_order_of_arrival() {
    let shown = select(fixture(), &config(&["USDC", "USDT"], 10, false));
    assert_eq!(symbols(&shown), ["BTCUSDT", "ETHUSDC"]);
}

#[test]
fn market_overview_configuration() {
    let overview = FilterConfig::market_overview();
    assert_eq!(overview.allowed_suffixes, ["USDC", "USDT"]);
    assert_eq!(overview.max_results, 200);
    assert!(overview.rank_by_volume_desc);
    let shown = select(fixture(), &overview);
    assert_eq!(symbols(&shown), ["ETHUSDC", "BTCUSDT"]);
}

#[test]
fn empty_input_gives_empty_output() {
    assert!(select(Vec::new(), &config(&["USDT"], 10, true)).is_empty());
    assert!(select(Vec::new(), &config(&[], 10, false)).is_empty());
}

#[test]
fn no_suffix_allows_nothing() {
    assert!(select(fixture(), &config(&[], 10, true)).is_empty());
}

#[test]
fn empty_suffix_allows_everything() {
    let shown = select(fixture(), &config(&[""], 10, false));
    assert_eq!(symbols(&shown), ["BTCUSDT", "ETHUSDC", "XRPBUSD"]);
}

#[test]
fn suffix_must_stand_at_the_end() {
    let records = vec![ticker("USDTBTC", "1"), ticker("USDT", "2"), ticker("SDT", "3"), ticker("usdt", "4")];
    let shown = select(records, &config(&["USDT"], 10, false));
    assert_eq!(symbols(&shown), ["USDT"]);
}

#[test]
fn cap_of_zero_gives_nothing() {
    assert!(select(fixture(), &config(&["USDT", "USDC"], 0, true)).is_empty());
}

#[test]
fn cap_is_the_count_or_all_that_were_kept() {
    for ranked in [false, true] {
        for cap in 0..12 {
            let shown = select(market(), &config(&["USDT", "USDC"], cap, ranked));
            assert_eq!(shown.len(), cap.min(9), "cap {cap}");
        }
    }
}

#[test]
fn cap_cuts_after_ranking() {
    let shown = select(market(), &config(&["USDT", "USDC"], 3, true));
    assert_eq!(symbols(&shown), ["USDT", "BUSDC", "DUSDT"]);
    let shown = select(market(), &config(&["USDT", "USDC"], 3, false));
    assert_eq!(symbols(&shown), ["AUSDT", "BUSDC", "DUSDT"]);
}

#[test]
fn ranking_is_by_volume_and_stable() {
    let shown = select(market(), &config(&["USDT", "USDC"], 200, true));
    // 30, 30.0 and 3e1 are one volume and stay in their order; text that is
    // no number ranks with zero, above the negative volume.
    assert_eq!(
        symbols(&shown),
        ["USDT", "BUSDC", "DUSDT", "FUSDC", "JUSDC", "AUSDT", "EUSDT", "HUSDT", "GUSDT"]
    );
    let volumes: Vec<f64> = shown.iter().map(|t| t.volume.parse().unwrap_or(0.0)).collect();
    assert!(volumes.windows(2).all(|pair| pair[0] >= pair[1]));
}

#[test]
fn ranking_agrees_with_a_stable_sort_on_floats() {
    let config = config(&["USDT", "USDC"], 200, true);
    let mut expected: Vec<TickerData> = market()
        .into_iter()
        .filter(|t| t.symbol.ends_with("USDT") || t.symbol.ends_with("USDC"))
        .collect();
    expected.sort_by(|a, b| {
        let a: f64 = a.volume.parse().unwrap_or(0.0);
        let b: f64 = b.volume.parse().unwrap_or(0.0);
        b.partial_cmp(&a).unwrap()
    });
    assert_eq!(select(market(), &config), expected);
}

#[test]
fn selecting_twice_is_selecting_once() {
    for ranked in [false, true] {
        for cap in [0, 1, 4, 9, 50] {
            let config = config(&["USDT", "USDC"], cap, ranked);
            let once = select(market(), &config);
            let twice = select(once.clone(), &config);
            assert_eq!(once, twice);
        }
    }
}

#[test]
fn selection_is_deterministic() {
    let config = config(&["USDC", "USDT"], 5, true);
    assert_eq!(select(market(), &config), select(market(), &config));
}

#[test]
fn duplicate_symbols_pass_through() {
    let records = vec![ticker("AUSDT", "1"), ticker("AUSDT", "1"), ticker("AUSDT", "2")];
    let shown = select(records, &config(&["USDT"], 10, true));
    assert_eq!(shown, [ticker("AUSDT", "2"), ticker("AUSDT", "1"), ticker("AUSDT", "1")]);
}

#[test]
fn rank_follows_the_order_of_numbers() {
    let rising = [
        "-inf", "-1e308", "-1000", "-1", "-1e-320", "0", "5e-324", "1e-320", "2.2250738585072014e-308",
        "0.5", "1", "1.0000000000000002", "999.9", "1000", "1e308", "1.7976931348623157e308", "inf",
    ];
    for pair in rising.windows(2) {
        assert!(rank_of_volume(pair[0]) < rank_of_volume(pair[1]), "{pair:?}");
    }
    assert_eq!(rank_of_volume("0"), 0);
    assert_eq!(rank_of_volume("-0"), 0);
    assert_eq!(rank_of_volume("bad"), 0);
    assert_eq!(rank_of_volume("nan"), 0);
    assert_eq!(rank_of_volume("1"), 0x3ff0_0000_0000_0000);
    assert_eq!(rank_of_volume("-2"), -0x4000_0000_0000_0000);
    assert_eq!(rank_of_volume("30"), rank_of_volume("3e1"));
}
