use crypto_ticker::fetch::{
    all_tickers_url, single_ticker_url, step, FetchAction, FetchError, FetchEvent, FetchState,
};
use crypto_ticker::wire::{FieldError, FieldName};

fn transport() -> FetchError {
    FetchError::Transport { message: "network unreachable".to_string() }
}

#[test]
fn address_of_all_tickers() {
    assert_eq!(all_tickers_url(), "https://api.binance.com/api/v3/ticker/24hr");
}

#[test]
fn address_of_one_ticker() {
    assert_eq!(
        single_ticker_url("BTCUSDT"),
        "https://api.binance.com/api/v3/ticker/24hr?symbol=BTCUSDT"
    );
}

#[test]
fn symbol_goes_into_the_address_as_it_is() {
    assert_eq!(single_ticker_url(""), "https://api.binance.com/api/v3/ticker/24hr?symbol=");
    assert_eq!(
        single_ticker_url("a b&c=d/é"),
        "https://api.binance.com/api/v3/ticker/24hr?symbol=a b&c=d/é"
    );
}

#[test]
fn messages() {
    assert_eq!(transport().message(), "network unreachable");
    let malformed = FetchError::Malformed { message: "expected value at line 1".to_string() };
    assert_eq!(malformed.message(), "expected value at line 1");
    assert_eq!(
        FetchError::Field(FieldError::Missing(FieldName::LastPrice)).message(),
        "missing field `lastPrice`"
    );
    assert_eq!(
        FetchError::Field(FieldError::Duplicate(FieldName::Symbol)).message(),
        "duplicate field `symbol`"
    );
    assert_eq!(
        FetchError::Field(FieldError::NotText(FieldName::PriceChangePercent)).message(),
        "field `priceChangePercent` is not a string"
    );
}

#[test]
fn kinds_of_failure() {
    assert!(!transport().is_decode());
    assert!(FetchError::Malformed { message: String::new() }.is_decode());
    assert!(FetchError::Field(FieldError::Missing(FieldName::Volume)).is_decode());
    assert_eq!(transport().clone(), transport());
}

#[test]
fn request_starts_a_fetch() {
    let idle: FetchState<u8> = FetchState::Idle;
    assert_eq!(step(idle, FetchEvent::Requested), (FetchState::Loading, FetchAction::StartFetch));
    assert_eq!(
        step(FetchState::Loaded(1u8), FetchEvent::Requested),
        (FetchState::Loading, FetchAction::StartFetch)
    );
    let failed: FetchState<u8> = FetchState::Failed(transport());
    assert_eq!(step(failed, FetchEvent::Requested), (FetchState::Loading, FetchAction::StartFetch));
    let loading: FetchState<u8> = FetchState::Loading;
    assert_eq!(step(loading, FetchEvent::Requested), (FetchState::Loading, FetchAction::StartFetch));
}

#[test]
fn outcome_is_what_the_view_shows() {
    assert_eq!(
        step(FetchState::Loading, FetchEvent::Succeeded(7u8)),
        (FetchState::Loaded(7u8), FetchAction::Nothing)
    );
    let loading: FetchState<u8> = FetchState::Loading;
    assert_eq!(
        step(loading, FetchEvent::Failed(transport())),
        (FetchState::Failed(transport()), FetchAction::Nothing)
    );
    assert_eq!(
        step(FetchState::Loaded(1u8), FetchEvent::Succeeded(7)),
        (FetchState::Loaded(7u8), FetchAction::Nothing)
    );
    assert_eq!(
        step(FetchState::Loaded(1u8), FetchEvent::Failed(transport())),
        (FetchState::Failed(transport()), FetchAction::Nothing)
    );
    let failed: FetchState<u8> = FetchState::Failed(transport());
    assert_eq!(step(failed, FetchEvent::Succeeded(7)), (FetchState::Loaded(7), FetchAction::Nothing));
}

#[test]
fn a_view_from_mount_to_data() {
    let state: FetchState<Vec<u8>> = FetchState::Idle;
    let (state, action) = step(state, FetchEvent::Requested);
    assert_eq!(action, FetchAction::StartFetch);
    assert_eq!(state.clone(), FetchState::Loading);
    let (state, action) = step(state, FetchEvent::Failed(transport()));
    assert_eq!(action, FetchAction::Nothing);
    assert_eq!(state, FetchState::Failed(transport()));
    let (state, action) = step(state, FetchEvent::Requested);
    assert_eq!(action, FetchAction::StartFetch);
    let (state, _) = step(state, FetchEvent::Succeeded(vec![1, 2]));
    assert_eq!(state.clone(), FetchState::Loaded(vec![1, 2]));
    assert_eq!(FetchEvent::Succeeded(3u8).clone(), FetchEvent::Succeeded(3u8));
}
