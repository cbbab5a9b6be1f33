//! The wire schema of a ticker: which member of the provider's JSON object
//! fills which field.
//!
//! The library does not read JSON text. It takes the members of an object
//! as they were read, in the order of the document, and builds the ticker
//! from them: each field from the one member that has its wire name.
//! Members of other names are passed over.

use crate::ticker::{TickerData, TickerView};
use vstd::prelude::*;
use vstd::string::StringExecFns;

verus! {

/// The fields of a ticker, in the order in which they are declared.
#[derive(Clone, Copy, Debug, PartialEq, Eq, Structural)]
pub enum FieldName {
    Symbol,
    LastPrice,
    PriceChangePercent,
    Volume,
    HighPrice,
    LowPrice,
}

/// Why the members of an object do not make a ticker.
#[derive(Clone, Copy, Debug, PartialEq, Eq, Structural)]
pub enum FieldError {
    /// No member has the wire name of the field.
    Missing(FieldName),
    /// A second member has the wire name of the field.
    Duplicate(FieldName),
    /// The member with the wire name of the field holds no text.
    NotText(FieldName),
}

/// One member of a JSON object: its name, and its value where that is a
/// string.
#[derive(Debug, PartialEq)]
pub struct WireField {
    pub name: String,
    pub text: Option<String>,
}

impl Clone for WireField {
    fn clone(&self) -> (r: Self)
        ensures
            r == *self,
    {
        WireField {
            name: self.name.clone(),
            text: match &self.text {
                Some(text) => Some(text.clone()),
                None => None,
            },
        }
    }
}

/// A member as plain values.
pub struct WireFieldView {
    pub name: Seq<char>,
    pub text: Option<Seq<char>>,
}

impl View for WireField {
    type V = WireFieldView;

    open spec fn view(&self) -> WireFieldView {
        WireFieldView {
            name: self.name@,
            text: match self.text {
                Some(text) => Some(text@),
                None => None,
            },
        }
    }
}

impl DeepView for WireField {
    type V = WireFieldView;

    open spec fn deep_view(&self) -> WireFieldView {
        self.view()
    }
}

impl FieldName {
    /// The name of the member that fills the field.
    pub open spec fn wire_name(self) -> Seq<char> {
        match self {
            FieldName::Symbol => "symbol"@,
            FieldName::LastPrice => "lastPrice"@,
            FieldName::PriceChangePercent => "priceChangePercent"@,
            FieldName::Volume => "volume"@,
            FieldName::HighPrice => "highPrice"@,
            FieldName::LowPrice => "lowPrice"@,
        }
    }

    /// The name of the member that fills the field.
    pub fn wire_str(self) -> (r: &'static str)
        ensures
            r@ == self.wire_name(),
    {
        match self {
            FieldName::Symbol => "symbol",
            FieldName::LastPrice => "lastPrice",
            FieldName::PriceChangePercent => "priceChangePercent",
            FieldName::Volume => "volume",
            FieldName::HighPrice => "highPrice",
            FieldName::LowPrice => "lowPrice",
        }
    }
}

/// The field that a member of the given name fills, if it fills one.
pub open spec fn field_named(name: Seq<char>) -> Option<FieldName> {
    if name == FieldName::Symbol.wire_name() {
        Some(FieldName::Symbol)
    } else if name == FieldName::LastPrice.wire_name() {
        Some(FieldName::LastPrice)
    } else if name == FieldName::PriceChangePercent.wire_name() {
        Some(FieldName::PriceChangePercent)
    } else if name == FieldName::Volume.wire_name() {
        Some(FieldName::Volume)
    } else if name == FieldName::HighPrice.wire_name() {
        Some(FieldName::HighPrice)
    } else if name == FieldName::LowPrice.wire_name() {
        Some(FieldName::LowPrice)
    } else {
        None
    }
}

/// The fields filled so far, with one more member read.
pub open spec fn fill(slots: Map<FieldName, Seq<char>>, member: WireFieldView) -> Result<
    Map<FieldName, Seq<char>>,
    FieldError,
> {
    match field_named(member.name) {
        None => Ok(slots),
        Some(field) => if slots.dom().contains(field) {
            Err(FieldError::Duplicate(field))
        } else {
            match member.text {
                None => Err(FieldError::NotText(field)),
                Some(text) => Ok(slots.insert(field, text)),
            }
        },
    }
}

/// The fields filled by the members, read in order up to the first that
/// cannot be taken.
pub open spec fn fill_all(members: Seq<WireFieldView>) -> Result<
    Map<FieldName, Seq<char>>,
    FieldError,
>
    decreases members.len(),
{
    if members.len() == 0 {
        Ok(Map::empty())
    } else {
        match fill_all(members.drop_last()) {
            Err(e) => Err(e),
            Ok(slots) => fill(slots, members.last()),
        }
    }
}

/// The first field, in the order of declaration, that is not filled.
pub open spec fn first_missing(slots: Map<FieldName, Seq<char>>) -> Option<FieldName> {
    if !slots.dom().contains(FieldName::Symbol) {
        Some(FieldName::Symbol)
    } else if !slots.dom().contains(FieldName::LastPrice) {
        Some(FieldName::LastPrice)
    } else if !slots.dom().contains(FieldName::PriceChangePercent) {
        Some(FieldName::PriceChangePercent)
    } else if !slots.dom().contains(FieldName::Volume) {
        Some(FieldName::Volume)
    } else if !slots.dom().contains(FieldName::HighPrice) {
        Some(FieldName::HighPrice)
    } else if !slots.dom().contains(FieldName::LowPrice) {
        Some(FieldName::LowPrice)
    } else {
        None
    }
}

/// The ticker that the members of one object make. A member that cannot
/// be taken is reported before a field that is missing.
pub open spec fn decode_spec(members: Seq<WireFieldView>) -> Result<TickerView, FieldError> {
    match fill_all(members) {
        Err(e) => Err(e),
        Ok(slots) => match first_missing(slots) {
            Some(field) => Err(FieldError::Missing(field)),
            None => Ok(
                TickerView {
                    symbol: slots[FieldName::Symbol],
                    last_price: slots[FieldName::LastPrice],
                    price_change_percent: slots[FieldName::PriceChangePercent],
                    volume: slots[FieldName::Volume],
                    high_price: slots[FieldName::HighPrice],
                    low_price: slots[FieldName::LowPrice],
                },
            ),
        },
    }
}

/// The tickers that the objects of an array make, up to the first object
/// that makes none.
pub open spec fn decode_all_spec(objects: Seq<Seq<WireFieldView>>) -> Result<
    Seq<TickerView>,
    FieldError,
>
    decreases objects.len(),
{
    if objects.len() == 0 {
        Ok(Seq::empty())
    } else {
        match decode_all_spec(objects.drop_last()) {
            Err(e) => Err(e),
            Ok(done) => match decode_spec(objects.last()) {
                Err(e) => Err(e),
                Ok(ticker) => Ok(done.push(ticker)),
            },
        }
    }
}

/// The members that a ticker is sent as: one for each field, under its wire
/// name, in the order of declaration.
pub open spec fn wire_members(ticker: TickerView) -> Seq<WireFieldView> {
    seq![
        WireFieldView { name: FieldName::Symbol.wire_name(), text: Some(ticker.symbol) },
        WireFieldView { name: FieldName::LastPrice.wire_name(), text: Some(ticker.last_price) },
        WireFieldView {
            name: FieldName::PriceChangePercent.wire_name(),
            text: Some(ticker.price_change_percent),
        },
        WireFieldView { name: FieldName::Volume.wire_name(), text: Some(ticker.volume) },
        WireFieldView { name: FieldName::HighPrice.wire_name(), text: Some(ticker.high_price) },
        WireFieldView { name: FieldName::LowPrice.wire_name(), text: Some(ticker.low_price) },
    ]
}

/// The wire names differ from one another, so a name fills one field.
pub proof fn lemma_wire_names(field: FieldName)
    ensures
        field_named(field.wire_name()) == Some(field),
{
    reveal_strlit("symbol");
    reveal_strlit("lastPrice");
    reveal_strlit("priceChangePercent");
    reveal_strlit("volume");
    reveal_strlit("highPrice");
    reveal_strlit("lowPrice");
    let symbol = "symbol"@;
    let last = "lastPrice"@;
    let change = "priceChangePercent"@;
    let volume = "volume"@;
    let high = "highPrice"@;
    let low = "lowPrice"@;
    assert(symbol.len() == 6 && symbol[0] == 's');
    assert(last.len() == 9 && last[1] == 'a');
    assert(change.len() == 18);
    assert(volume.len() == 6 && volume[0] == 'v');
    assert(high.len() == 9 && high[1] == 'i');
    assert(low.len() == 8);
}

impl TickerView {
    /// The text of a field.
    pub open spec fn field(self, name: FieldName) -> Seq<char> {
        match name {
            FieldName::Symbol => self.symbol,
            FieldName::LastPrice => self.last_price,
            FieldName::PriceChangePercent => self.price_change_percent,
            FieldName::Volume => self.volume,
            FieldName::HighPrice => self.high_price,
            FieldName::LowPrice => self.low_price,
        }
    }
}

/// The member at place `i` is the only one that fills `field`.
pub open spec fn sole_member(members: Seq<WireFieldView>, field: FieldName, i: int) -> bool {
    &&& 0 <= i < members.len()
    &&& field_named(members[i].name) == Some(field)
    &&& forall|j: int|
        0 <= j < members.len() && j != i ==> field_named(#[trigger] members[j].name) != Some(
            field,
        )
}

/// Exactly one member fills `field`, and it holds `text`.
pub open spec fn carries_field(members: Seq<WireFieldView>, field: FieldName, text: Seq<char>) -> bool {
    exists|i: int| #[trigger] sole_member(members, field, i) && members[i].text == Some(text)
}

/// The members match the wire schema and carry the fields of `ticker`:
/// each field is filled by exactly one member, which holds its text.
/// Members of other names may stand among them.
pub open spec fn carries(members: Seq<WireFieldView>, ticker: TickerView) -> bool {
    &&& carries_field(members, FieldName::Symbol, ticker.symbol)
    &&& carries_field(members, FieldName::LastPrice, ticker.last_price)
    &&& carries_field(members, FieldName::PriceChangePercent, ticker.price_change_percent)
    &&& carries_field(members, FieldName::Volume, ticker.volume)
    &&& carries_field(members, FieldName::HighPrice, ticker.high_price)
    &&& carries_field(members, FieldName::LowPrice, ticker.low_price)
}

/// The place of the one member that fills `field`.
pub open spec fn place_of(members: Seq<WireFieldView>, field: FieldName, text: Seq<char>) -> int {
    choose|i: int| #[trigger] sole_member(members, field, i) && members[i].text == Some(text)
}

/// The fields that the first `k` members fill, where the members carry
/// `ticker`.
pub open spec fn filled_by(members: Seq<WireFieldView>, ticker: TickerView, k: int) -> Map<
    FieldName,
    Seq<char>,
> {
    Map::new(
        |field: FieldName| place_of(members, field, ticker.field(field)) < k,
        |field: FieldName| ticker.field(field),
    )
}

proof fn lemma_fill_prefix(members: Seq<WireFieldView>, ticker: TickerView, k: int)
    requires
        carries(members, ticker),
        0 <= k <= members.len(),
    ensures
        fill_all(members.take(k)) == Ok::<Map<FieldName, Seq<char>>, FieldError>(
            filled_by(members, ticker, k),
        ),
    decreases k,
{
    assert forall|field: FieldName|
        {
            let at = #[trigger] place_of(members, field, ticker.field(field));
            sole_member(members, field, at) && members[at].text == Some(ticker.field(field))
        } by {
        assert(carries_field(members, field, ticker.field(field)));
    }
    if k == 0 {
        assert(members.take(0) =~= Seq::<WireFieldView>::empty());
        assert(filled_by(members, ticker, 0) =~= Map::<FieldName, Seq<char>>::empty());
    } else {
        lemma_fill_prefix(members, ticker, k - 1);
        assert(members.take(k).drop_last() =~= members.take(k - 1));
        let before = filled_by(members, ticker, k - 1);
        let member = members[k - 1];
        assert(members.take(k).last() == member);
        match field_named(member.name) {
            None => {
                assert forall|field: FieldName|
                    place_of(members, field, ticker.field(field)) != k - 1 by {
                    let at = place_of(members, field, ticker.field(field));
                }
                assert(filled_by(members, ticker, k) =~= before);
            },
            Some(field) => {
                let at = place_of(members, field, ticker.field(field));
                assert(at == k - 1);
                assert forall|other: FieldName| other != field implies place_of(
                    members,
                    other,
                    ticker.field(other),
                ) != k - 1 by {
                    let there = place_of(members, other, ticker.field(other));
                }
                assert(filled_by(members, ticker, k) =~= before.insert(field, ticker.field(field)));
            },
        }
    }
}

/// Members that match the wire schema decode to the ticker whose fields
/// they carry: every field holds the text of the member of its wire name,
/// unchanged.
pub proof fn lemma_decode_carried(members: Seq<WireFieldView>, ticker: TickerView)
    requires
        carries(members, ticker),
    ensures
        decode_spec(members) == Ok::<TickerView, FieldError>(ticker),
{
    lemma_fill_prefix(members, ticker, members.len() as int);
    assert(members.take(members.len() as int) =~= members);
    let slots = filled_by(members, ticker, members.len() as int);
    assert forall|field: FieldName| slots.dom().contains(field) && slots[field] == ticker.field(
        field,
    ) by {
        assert(carries_field(members, field, ticker.field(field)));
        let at = place_of(members, field, ticker.field(field));
        assert(sole_member(members, field, at));
    }
    assert(slots[FieldName::Symbol] == ticker.field(FieldName::Symbol));
    assert(slots[FieldName::LastPrice] == ticker.field(FieldName::LastPrice));
    assert(slots[FieldName::PriceChangePercent] == ticker.field(FieldName::PriceChangePercent));
    assert(slots[FieldName::Volume] == ticker.field(FieldName::Volume));
    assert(slots[FieldName::HighPrice] == ticker.field(FieldName::HighPrice));
    assert(slots[FieldName::LowPrice] == ticker.field(FieldName::LowPrice));
}

/// An array of objects that match the wire schema decodes to the tickers
/// that they carry, one for each object, in order.
pub proof fn lemma_decode_all_carried(objects: Seq<Seq<WireFieldView>>, tickers: Seq<TickerView>)
    requires
        objects.len() == tickers.len(),
        forall|i: int| 0 <= i < objects.len() ==> carries(#[trigger] objects[i], tickers[i]),
    ensures
        decode_all_spec(objects) == Ok::<Seq<TickerView>, FieldError>(tickers),
    decreases objects.len(),
{
    if objects.len() == 0 {
        assert(tickers =~= Seq::<TickerView>::empty());
    } else {
        assert forall|i: int| 0 <= i < objects.drop_last().len() implies carries(
            #[trigger] objects.drop_last()[i],
            tickers.drop_last()[i],
        ) by {
            assert(carries(objects[i], tickers[i]));
        }
        lemma_decode_all_carried(objects.drop_last(), tickers.drop_last());
        assert(carries(objects[objects.len() - 1], tickers[objects.len() - 1]));
        lemma_decode_carried(objects.last(), tickers.last());
        assert(tickers.drop_last().push(tickers.last()) =~= tickers);
    }
}

/// A ticker sent under the wire names and read back is the same ticker.
pub proof fn lemma_round_trip(ticker: TickerView)
    ensures
        decode_spec(wire_members(ticker)) == Ok::<TickerView, FieldError>(ticker),
{
    let members = wire_members(ticker);
    lemma_wire_names(FieldName::Symbol);
    lemma_wire_names(FieldName::LastPrice);
    lemma_wire_names(FieldName::PriceChangePercent);
    lemma_wire_names(FieldName::Volume);
    lemma_wire_names(FieldName::HighPrice);
    lemma_wire_names(FieldName::LowPrice);
    assert(sole_member(members, FieldName::Symbol, 0));
    assert(sole_member(members, FieldName::LastPrice, 1));
    assert(sole_member(members, FieldName::PriceChangePercent, 2));
    assert(sole_member(members, FieldName::Volume, 3));
    assert(sole_member(members, FieldName::HighPrice, 4));
    assert(sole_member(members, FieldName::LowPrice, 5));
    lemma_decode_carried(members, ticker);
}

/// Once a member cannot be taken, the rest is not read.
pub proof fn lemma_fill_stops(members: Seq<WireFieldView>, k: int)
    requires
        0 <= k <= members.len(),
        fill_all(members.take(k)) is Err,
    ensures
        fill_all(members) == fill_all(members.take(k)),
    decreases members.len() - k,
{
    if k < members.len() {
        assert(members.take(k + 1).drop_last() =~= members.take(k));
        lemma_fill_stops(members, k + 1);
    } else {
        assert(members.take(k) =~= members);
    }
}

/// Once an object makes no ticker, the rest of the array is not read.
pub proof fn lemma_decode_stops(objects: Seq<Seq<WireFieldView>>, k: int)
    requires
        0 <= k <= objects.len(),
        decode_all_spec(objects.take(k)) is Err,
    ensures
        decode_all_spec(objects) == decode_all_spec(objects.take(k)),
    decreases objects.len() - k,
{
    if k < objects.len() {
        assert(objects.take(k + 1).drop_last() =~= objects.take(k));
        lemma_decode_stops(objects, k + 1);
    } else {
        assert(objects.take(k) =~= objects);
    }
}

/// The field that a member of the given name fills, if it fills one.
pub fn field_of(name: &String) -> (r: Option<FieldName>)
    ensures
        r == field_named(name@),
{
    if *name == String::from_str(FieldName::Symbol.wire_str()) {
        Some(FieldName::Symbol)
    } else if *name == String::from_str(FieldName::LastPrice.wire_str()) {
        Some(FieldName::LastPrice)
    } else if *name == String::from_str(FieldName::PriceChangePercent.wire_str()) {
        Some(FieldName::PriceChangePercent)
    } else if *name == String::from_str(FieldName::Volume.wire_str()) {
        Some(FieldName::Volume)
    } else if *name == String::from_str(FieldName::HighPrice.wire_str()) {
        Some(FieldName::HighPrice)
    } else if *name == String::from_str(FieldName::LowPrice.wire_str()) {
        Some(FieldName::LowPrice)
    } else {
        None
    }
}

/// The fields of a ticker while they are filled.
struct Slots {
    symbol: Option<String>,
    last_price: Option<String>,
    price_change_percent: Option<String>,
    volume: Option<String>,
    high_price: Option<String>,
    low_price: Option<String>,
}

impl Slots {
    spec fn slot(&self, field: FieldName) -> Option<String> {
        match field {
            FieldName::Symbol => self.symbol,
            FieldName::LastPrice => self.last_price,
            FieldName::PriceChangePercent => self.price_change_percent,
            FieldName::Volume => self.volume,
            FieldName::HighPrice => self.high_price,
            FieldName::LowPrice => self.low_price,
        }
    }

    spec fn filled(&self) -> Map<FieldName, Seq<char>> {
        Map::new(
            |field: FieldName| self.slot(field) is Some,
            |field: FieldName| self.slot(field)->0@,
        )
    }

    fn holds(&self, field: FieldName) -> (r: bool)
        ensures
            r == self.filled().dom().contains(field),
    {
        match field {
            FieldName::Symbol => self.symbol.is_some(),
            FieldName::LastPrice => self.last_price.is_some(),
            FieldName::PriceChangePercent => self.price_change_percent.is_some(),
            FieldName::Volume => self.volume.is_some(),
            FieldName::HighPrice => self.high_price.is_some(),
            FieldName::LowPrice => self.low_price.is_some(),
        }
    }

    fn put(self, field: FieldName, text: String) -> (r: Slots)
        ensures
            r.filled() == self.filled().insert(field, text@),
    {
        let mut r = self;
        match field {
            FieldName::Symbol => {
                r.symbol = Some(text);
            },
            FieldName::LastPrice => {
                r.last_price = Some(text);
            },
            FieldName::PriceChangePercent => {
                r.price_change_percent = Some(text);
            },
            FieldName::Volume => {
                r.volume = Some(text);
            },
            FieldName::HighPrice => {
                r.high_price = Some(text);
            },
            FieldName::LowPrice => {
                r.low_price = Some(text);
            },
        }
        proof {
            assert forall|other: FieldName| other != field implies r.slot(other) == self.slot(
                other,
            ) by {}
            assert(r.filled() =~= self.filled().insert(field, text@));
        }
        r
    }
}

/// Builds the ticker that the members of one object make.
///
/// The members are read in order. A member whose name is the wire name of
/// a field fills that field; a second member for one field, or one that
/// holds no text, ends the reading with its error. Members of other names
/// are passed over. A field that no member filled is an error, the first
/// in the order of declaration.
pub fn decode_ticker(members: &Vec<WireField>) -> (r: Result<TickerData, FieldError>)
    ensures
        match decode_spec(members.deep_view()) {
            Ok(ticker) => r is Ok && r->Ok_0@ == ticker,
            Err(e) => r == Err::<TickerData, FieldError>(e),
        },
{
    let ghost all = members.deep_view();
    let mut slots = Slots {
        symbol: None,
        last_price: None,
        price_change_percent: None,
        volume: None,
        high_price: None,
        low_price: None,
    };
    let mut i: usize = 0;
    proof {
        assert(all.take(0) =~= Seq::<WireFieldView>::empty());
        assert(slots.filled() =~= Map::<FieldName, Seq<char>>::empty());
    }
    while i < members.len()
        invariant
            i <= members.len(),
            all == members.deep_view(),
            fill_all(all.take(i as int)) == Ok::<Map<FieldName, Seq<char>>, FieldError>(
                slots.filled(),
            ),
        decreases members.len() - i,
    {
        let member = &members[i];
        proof {
            assert(all.take(i + 1).drop_last() =~= all.take(i as int));
            assert(all.take(i + 1).last() == member@);
        }
        match field_of(&member.name) {
            None => {},
            Some(field) => {
                if slots.holds(field) {
                    proof {
                        lemma_fill_stops(all, i + 1);
                    }
                    return Err(FieldError::Duplicate(field));
                }
                match &member.text {
                    None => {
                        proof {
                            lemma_fill_stops(all, i + 1);
                        }
                        return Err(FieldError::NotText(field));
                    },
                    Some(text) => {
                        slots = slots.put(field, text.clone());
                    },
                }
            },
        }
        i += 1;
    }
    proof {
        assert(all.take(members.len() as int) =~= all);
    }
    let ghost filled = slots.filled();
    let Slots { symbol, last_price, price_change_percent, volume, high_price, low_price } = slots;
    let symbol = match symbol {
        Some(text) => text,
        None => {
            return Err(FieldError::Missing(FieldName::Symbol));
        },
    };
    let last_price = match last_price {
        Some(text) => text,
        None => {
            return Err(FieldError::Missing(FieldName::LastPrice));
        },
    };
    let price_change_percent = match price_change_percent {
        Some(text) => text,
        None => {
            return Err(FieldError::Missing(FieldName::PriceChangePercent));
        },
    };
    let volume = match volume {
        Some(text) => text,
        None => {
            return Err(FieldError::Missing(FieldName::Volume));
        },
    };
    let high_price = match high_price {
        Some(text) => text,
        None => {
            return Err(FieldError::Missing(FieldName::HighPrice));
        },
    };
    let low_price = match low_price {
        Some(text) => text,
        None => {
            return Err(FieldError::Missing(FieldName::LowPrice));
        },
    };
    Ok(TickerData { symbol, last_price, price_change_percent, volume, high_price, low_price })
}

/// Builds the tickers that the objects of an array make, and stops at the
/// first object that makes none.
pub fn decode_tickers(objects: &Vec<Vec<WireField>>) -> (r: Result<Vec<TickerData>, FieldError>)
    ensures
        match decode_all_spec(objects.deep_view()) {
            Ok(tickers) => r is Ok && r->Ok_0.deep_view() == tickers,
            Err(e) => r == Err::<Vec<TickerData>, FieldError>(e),
        },
{
    let ghost all = objects.deep_view();
    let mut out: Vec<TickerData> = Vec::new();
    let mut i: usize = 0;
    proof {
        assert(all.take(0) =~= Seq::<Seq<WireFieldView>>::empty());
        assert(out.deep_view() =~= Seq::<TickerView>::empty());
    }
    while i < objects.len()
        invariant
            i <= objects.len(),
            all == objects.deep_view(),
            decode_all_spec(all.take(i as int)) == Ok::<Seq<TickerView>, FieldError>(
                out.deep_view(),
            ),
        decreases objects.len() - i,
    {
        proof {
            assert(all.take(i + 1).drop_last() =~= all.take(i as int));
            assert(all.take(i + 1).last() == objects@[i as int].deep_view());
        }
        let ghost before = out.deep_view();
        match decode_ticker(&objects[i]) {
            Ok(ticker) => {
                out.push(ticker);
                assert(out.deep_view() =~= before.push(ticker@));
            },
            Err(e) => {
                proof {
                    lemma_decode_stops(all, i + 1);
                }
                return Err(e);
            },
        }
        i += 1;
    }
    proof {
        assert(all.take(objects.len() as int) =~= all);
    }
    Ok(out)
}

} // verus!
