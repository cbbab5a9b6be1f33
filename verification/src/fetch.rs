//! The fetch of tickers as the library sees it: where to ask, what can go
//! wrong, and the state of a view that waits for an answer.
//!
//! The request itself is made outside the library. The library names the
//! address, decides when a request is due, and takes what comes back.

use crate::wire::FieldError;
use vstd::prelude::*;
use vstd::string::StringExecFns;

verus! {

/// Why a fetch gave no tickers.
#[derive(Debug, PartialEq)]
pub enum FetchError {
    /// The request failed before an answer could be read.
    Transport { message: String },
    /// The answer is no JSON text of the expected shape.
    Malformed { message: String },
    /// The members of an object in the answer make no ticker.
    Field(FieldError),
}

/// The address of the statistics of all symbols.
pub open spec fn endpoint() -> Seq<char> {
    "https://api.binance.com/api/v3/ticker/24hr"@
}

/// The address of the statistics of one symbol: the symbol is put behind
/// the query as it is.
pub open spec fn endpoint_of(symbol: Seq<char>) -> Seq<char> {
    endpoint() + "?symbol="@ + symbol
}

/// What is said of a field error.
pub open spec fn field_error_text(e: FieldError) -> Seq<char> {
    match e {
        FieldError::Missing(field) => "missing field `"@ + field.wire_name() + "`"@,
        FieldError::Duplicate(field) => "duplicate field `"@ + field.wire_name() + "`"@,
        FieldError::NotText(field) => "field `"@ + field.wire_name() + "` is not a string"@,
    }
}

impl FetchError {
    /// The message that the error carries.
    pub open spec fn text(self) -> Seq<char> {
        match self {
            FetchError::Transport { message } => message@,
            FetchError::Malformed { message } => message@,
            FetchError::Field(e) => field_error_text(e),
        }
    }

    /// The answer came, and could not be decoded.
    pub open spec fn is_decode_failure(self) -> bool {
        !(self is Transport)
    }

    /// The message that the error carries.
    pub fn message(&self) -> (r: String)
        ensures
            r@ == self.text(),
    {
        match self {
            FetchError::Transport { message } => message.clone(),
            FetchError::Malformed { message } => message.clone(),
            FetchError::Field(e) => {
                let (head, field, tail) = match e {
                    FieldError::Missing(field) => ("missing field `", *field, "`"),
                    FieldError::Duplicate(field) => ("duplicate field `", *field, "`"),
                    FieldError::NotText(field) => ("field `", *field, "` is not a string"),
                };
                let mut out = String::from_str(head);
                out.append(field.wire_str());
                out.append(tail);
                out
            },
        }
    }

    /// Whether the answer came and could not be decoded.
    pub fn is_decode(&self) -> (r: bool)
        ensures
            r == self.is_decode_failure(),
    {
        match self {
            FetchError::Transport { message } => false,
            _ => true,
        }
    }
}

impl Clone for FetchError {
    fn clone(&self) -> (r: Self)
        ensures
            r == *self,
    {
        match self {
            FetchError::Transport { message } => FetchError::Transport { message: message.clone() },
            FetchError::Malformed { message } => FetchError::Malformed { message: message.clone() },
            FetchError::Field(e) => FetchError::Field(*e),
        }
    }
}

/// The address of the statistics of all symbols.
pub fn all_tickers_url() -> (r: &'static str)
    ensures
        r@ == endpoint(),
{
    "https://api.binance.com/api/v3/ticker/24hr"
}

/// The address of the statistics of one symbol.
pub fn single_ticker_url(symbol: &str) -> (r: String)
    ensures
        r@ == endpoint_of(symbol@),
{
    let mut out = String::from_str(all_tickers_url());
    out.append("?symbol=");
    out.append(symbol);
    out
}

/// What a view knows of the data that it shows.
#[derive(Debug, PartialEq)]
pub enum FetchState<T> {
    /// Nothing was asked for yet.
    Idle,
    /// A request is under way.
    Loading,
    /// The last outcome was this data.
    Loaded(T),
    /// The last outcome was this failure.
    Failed(FetchError),
}

/// What happens to a view.
#[derive(Debug, PartialEq)]
pub enum FetchEvent<T> {
    /// The view asks for its data: it was mounted, or what it depends on
    /// has changed.
    Requested,
    /// A request brought data.
    Succeeded(T),
    /// A request failed.
    Failed(FetchError),
}

impl<T: Clone> Clone for FetchState<T> {
    fn clone(&self) -> (r: Self)
        ensures
            self is Idle ==> r is Idle,
            self is Loading ==> r is Loading,
            self is Loaded ==> r is Loaded && cloned(self->Loaded_0, r->Loaded_0),
            self is Failed ==> r == *self,
    {
        match self {
            FetchState::Idle => FetchState::Idle,
            FetchState::Loading => FetchState::Loading,
            FetchState::Loaded(data) => FetchState::Loaded(data.clone()),
            FetchState::Failed(error) => FetchState::Failed(error.clone()),
        }
    }
}

impl<T: Clone> Clone for FetchEvent<T> {
    fn clone(&self) -> (r: Self)
        ensures
            self is Requested ==> r is Requested,
            self is Succeeded ==> r is Succeeded && cloned(self->Succeeded_0, r->Succeeded_0),
            self is Failed ==> r == *self,
    {
        match self {
            FetchEvent::Requested => FetchEvent::Requested,
            FetchEvent::Succeeded(data) => FetchEvent::Succeeded(data.clone()),
            FetchEvent::Failed(error) => FetchEvent::Failed(error.clone()),
        }
    }
}

/// What is to be done after an event.
#[derive(Clone, Copy, Debug, PartialEq, Eq, Structural)]
pub enum FetchAction {
    /// Nothing.
    Nothing,
    /// Send the request.
    StartFetch,
}

/// The state after an event. A request puts the view into `Loading`,
/// whatever it showed before; the outcome of a request is what the view
/// shows from then on. Nothing is retried and nothing is kept of the state
/// before: an old outcome that arrives late replaces a newer one.
pub open spec fn next_state<T>(state: FetchState<T>, event: FetchEvent<T>) -> FetchState<T> {
    match event {
        FetchEvent::Requested => FetchState::Loading,
        FetchEvent::Succeeded(data) => FetchState::Loaded(data),
        FetchEvent::Failed(error) => FetchState::Failed(error),
    }
}

/// What is to be done after an event: every request is sent, and nothing
/// else is ever done.
pub open spec fn action_on<T>(state: FetchState<T>, event: FetchEvent<T>) -> FetchAction {
    if event is Requested {
        FetchAction::StartFetch
    } else {
        FetchAction::Nothing
    }
}

/// Takes an event: gives the next state and what is to be done.
pub fn step<T>(state: FetchState<T>, event: FetchEvent<T>) -> (r: (FetchState<T>, FetchAction))
    ensures
        r.0 == next_state(state, event),
        r.1 == action_on(state, event),
{
    // What the view showed before is given up.
    let _ = state;
    match event {
        FetchEvent::Requested => (FetchState::Loading, FetchAction::StartFetch),
        FetchEvent::Succeeded(data) => (FetchState::Loaded(data), FetchAction::Nothing),
        FetchEvent::Failed(error) => (FetchState::Failed(error), FetchAction::Nothing),
    }
}

/// A view is loading exactly after a request, and a request is sent exactly
/// when the view starts to load. No event leads back to `Idle`.
pub proof fn lemma_loading_follows_request<T>(state: FetchState<T>, event: FetchEvent<T>)
    ensures
        next_state(state, event) is Loading <==> event is Requested,
        action_on(state, event) == FetchAction::StartFetch <==> next_state(state, event) is Loading,
        !(next_state(state, event) is Idle),
{
}

} // verus!
