//! One symbol's statistics over the last twenty-four hours.

use vstd::prelude::*;

verus! {

/// The statistics of one traded symbol. Every field is kept as the text in
/// which it arrived; it is read as a number only where one is needed.
#[derive(Debug, PartialEq)]
pub struct TickerData {
    /// The identifier under which the symbol is traded.
    pub symbol: String,
    /// The price of the latest trade.
    pub last_price: String,
    /// The signed change of the price, in percent.
    pub price_change_percent: String,
    /// The traded volume.
    pub volume: String,
    /// The highest price of the period.
    pub high_price: String,
    /// The lowest price of the period.
    pub low_price: String,
}

/// A ticker as plain text fields.
pub struct TickerView {
    pub symbol: Seq<char>,
    pub last_price: Seq<char>,
    pub price_change_percent: Seq<char>,
    pub volume: Seq<char>,
    pub high_price: Seq<char>,
    pub low_price: Seq<char>,
}

impl View for TickerData {
    type V = TickerView;

    open spec fn view(&self) -> TickerView {
        TickerView {
            symbol: self.symbol@,
            last_price: self.last_price@,
            price_change_percent: self.price_change_percent@,
            volume: self.volume@,
            high_price: self.high_price@,
            low_price: self.low_price@,
        }
    }
}

impl DeepView for TickerData {
    type V = TickerView;

    open spec fn deep_view(&self) -> TickerView {
        self.view()
    }
}

impl Clone for TickerData {
    fn clone(&self) -> (r: Self)
        ensures
            r == *self,
    {
        TickerData {
            symbol: self.symbol.clone(),
            last_price: self.last_price.clone(),
            price_change_percent: self.price_change_percent.clone(),
            volume: self.volume.clone(),
            high_price: self.high_price.clone(),
            low_price: self.low_price.clone(),
        }
    }
}

} // verus!
