//! The choice of the tickers that are shown: those whose symbol ends with
//! an allowed suffix, ranked by volume if asked for, and no more than a
//! given count of them.

use crate::binary64::Binary64;
use crate::decimal::parse_binary64;
use crate::text::chars_of;
use crate::ticker::{TickerData, TickerView};
use vstd::prelude::*;
use vstd::string::StringExecFns;

verus! {

/// What to keep, in which order, and how much of it.
#[derive(Debug)]
pub struct FilterConfig {
    /// A ticker is kept if its symbol ends with one of these. The order
    /// and repetitions among them mean nothing.
    pub allowed_suffixes: Vec<String>,
    /// No more tickers than this are returned.
    pub max_results: usize,
    /// Whether the tickers are ranked by volume, the greatest first.
    pub rank_by_volume_desc: bool,
}

/// A configuration as plain values.
pub struct FilterView {
    pub allowed_suffixes: Set<Seq<char>>,
    pub max_results: nat,
    pub rank_by_volume_desc: bool,
}

impl View for FilterConfig {
    type V = FilterView;

    open spec fn view(&self) -> FilterView {
        FilterView {
            allowed_suffixes: Set::new(
                |suffix: Seq<char>|
                    exists|i: int|
                        0 <= i < self.allowed_suffixes@.len()
                            && #[trigger] self.allowed_suffixes@[i]@ == suffix,
            ),
            max_results: self.max_results as nat,
            rank_by_volume_desc: self.rank_by_volume_desc,
        }
    }
}

/// `s` ends with `suffix`.
pub open spec fn ends_with(s: Seq<char>, suffix: Seq<char>) -> bool {
    suffix.len() <= s.len() && s.subrange(s.len() - suffix.len(), s.len() as int) == suffix
}

impl FilterView {
    /// The symbol ends with one of the allowed suffixes.
    pub open spec fn allows(self, symbol: Seq<char>) -> bool {
        exists|suffix: Seq<char>|
            self.allowed_suffixes.contains(suffix) && #[trigger] ends_with(symbol, suffix)
    }

    /// The test that a ticker passes if its symbol is allowed.
    pub open spec fn keeps(self) -> spec_fn(TickerView) -> bool {
        |t: TickerView| self.allows(t.symbol)
    }
}

/// The place of a volume in the ranking: that of the binary64 number
/// nearest to it, and that of zero for text that is no number or that says
/// `nan`.
pub open spec fn volume_rank(volume: Seq<char>) -> int {
    match parse_binary64(volume) {
        Some(number) => number.rank(),
        None => 0,
    }
}

/// `order` with the place `i` put in: behind every place of a rank at least
/// as high as its own, before the others.
pub open spec fn insert_place(order: Seq<int>, records: Seq<TickerView>, i: int) -> Seq<int>
    decreases order.len(),
{
    if order.len() > 0 && volume_rank(records[order.last()].volume) < volume_rank(
        records[i].volume,
    ) {
        insert_place(order.drop_last(), records, i).push(order.last())
    } else {
        order.push(i)
    }
}

/// The first `n` places of `records` in the order of their ranks, the
/// highest first; of two places with one rank, the earlier first.
pub open spec fn ranking(records: Seq<TickerView>, n: nat) -> Seq<int>
    decreases n,
{
    if n == 0 {
        Seq::<int>::empty()
    } else {
        insert_place(ranking(records, (n - 1) as nat), records, n - 1)
    }
}

/// The records ranked by volume, the greatest first; records of one rank
/// stay in the order in which they came.
pub open spec fn ranked(records: Seq<TickerView>) -> Seq<TickerView> {
    let order = ranking(records, records.len());
    Seq::new(records.len(), |k: int| records[order[k]])
}

/// The first `n` records, or all of them where there are fewer.
pub open spec fn capped(records: Seq<TickerView>, n: nat) -> Seq<TickerView> {
    if n < records.len() {
        records.take(n as int)
    } else {
        records
    }
}

/// The tickers that are shown.
pub open spec fn select_spec(records: Seq<TickerView>, config: FilterView) -> Seq<TickerView> {
    let kept = records.filter(config.keeps());
    let ordered = if config.rank_by_volume_desc {
        ranked(kept)
    } else {
        kept
    };
    capped(ordered, config.max_results)
}

/// The place at which `insert_place` puts the new place in.
pub open spec fn insert_position(order: Seq<int>, records: Seq<TickerView>, i: int) -> int
    decreases order.len(),
{
    if order.len() > 0 && volume_rank(records[order.last()].volume) < volume_rank(
        records[i].volume,
    ) {
        insert_position(order.drop_last(), records, i)
    } else {
        order.len() as int
    }
}

/// The place `i` comes before the place `j` in the ranking: its rank is
/// higher, or it is the same and `i` is the earlier place.
pub open spec fn precedes(records: Seq<TickerView>, i: int, j: int) -> bool {
    let a = volume_rank(records[i].volume);
    let b = volume_rank(records[j].volume);
    a > b || (a == b && i < j)
}

/// Putting a place in is an insertion at the point where the places of a
/// lower rank begin.
pub proof fn lemma_insert_place(order: Seq<int>, records: Seq<TickerView>, i: int, at: int)
    requires
        0 <= at <= order.len(),
        forall|k: int|
            at <= k < order.len() ==> volume_rank(records[order[k]].volume) < volume_rank(
                records[i].volume,
            ),
        at > 0 ==> volume_rank(records[order[at - 1]].volume) >= volume_rank(records[i].volume),
    ensures
        insert_place(order, records, i) == order.insert(at, i),
        insert_position(order, records, i) == at,
    decreases order.len() - at,
{
    if at < order.len() {
        lemma_insert_place(order.drop_last(), records, i, at);
        assert(order.drop_last().insert(at, i).push(order.last()) =~= order.insert(at, i));
    } else {
        assert(order.push(i) =~= order.insert(at, i));
    }
}

/// The point of insertion parts the places of a rank at least as high from
/// those of a lower rank, where the ranks along `order` do not rise.
pub proof fn lemma_insert_position(order: Seq<int>, records: Seq<TickerView>, i: int)
    ensures
        0 <= insert_position(order, records, i) <= order.len(),
        forall|k: int|
            insert_position(order, records, i) <= k < order.len() ==> volume_rank(
                records[#[trigger] order[k]].volume,
            ) < volume_rank(records[i].volume),
        insert_position(order, records, i) > 0 ==> volume_rank(
            records[order[insert_position(order, records, i) - 1]].volume,
        ) >= volume_rank(records[i].volume),
    decreases order.len(),
{
    if order.len() > 0 && volume_rank(records[order.last()].volume) < volume_rank(
        records[i].volume,
    ) {
        lemma_insert_position(order.drop_last(), records, i);
        let at = insert_position(order.drop_last(), records, i);
        assert forall|k: int| at <= k < order.len() implies volume_rank(
            records[#[trigger] order[k]].volume,
        ) < volume_rank(records[i].volume) by {
            if k < order.len() - 1 {
                assert(order.drop_last()[k] == order[k]);
            }
        }
        if at > 0 {
            assert(order.drop_last()[at - 1] == order[at - 1]);
        }
    }
}

/// The ranking of the first `n` places holds each of them once, in an order
/// in which every place precedes those behind it.
pub proof fn lemma_ranking(records: Seq<TickerView>, n: nat)
    ensures
        ranking(records, n).len() == n,
        forall|k: int| 0 <= k < n ==> 0 <= #[trigger] ranking(records, n)[k] < n,
        forall|a: int, b: int|
            0 <= a < b < n ==> precedes(
                records,
                #[trigger] ranking(records, n)[a],
                #[trigger] ranking(records, n)[b],
            ),
    decreases n,
{
    if n > 0 {
        let before = ranking(records, (n - 1) as nat);
        let i = n - 1;
        lemma_ranking(records, (n - 1) as nat);
        lemma_insert_position(before, records, i);
        let at = insert_position(before, records, i);
        lemma_insert_place(before, records, i, at);
        lemma_insert_keeps_order(before, records, i, at);
    }
}

/// A place put in at its point of insertion leaves the order one in which
/// every place precedes those behind it.
proof fn lemma_insert_keeps_order(before: Seq<int>, records: Seq<TickerView>, i: int, at: int)
    requires
        before.len() == i,
        0 <= at <= i,
        forall|k: int| 0 <= k < i ==> 0 <= #[trigger] before[k] < i,
        forall|a: int, b: int|
            0 <= a < b < i ==> precedes(records, #[trigger] before[a], #[trigger] before[b]),
        forall|k: int|
            at <= k < i ==> volume_rank(records[#[trigger] before[k]].volume) < volume_rank(
                records[i].volume,
            ),
        at > 0 ==> volume_rank(records[before[at - 1]].volume) >= volume_rank(records[i].volume),
    ensures
        before.insert(at, i).len() == i + 1,
        forall|k: int| 0 <= k <= i ==> 0 <= #[trigger] before.insert(at, i)[k] <= i,
        forall|a: int, b: int|
            0 <= a < b <= i ==> precedes(
                records,
                #[trigger] before.insert(at, i)[a],
                #[trigger] before.insert(at, i)[b],
            ),
{
    let after = before.insert(at, i);
    let rank_i = volume_rank(records[i].volume);
    assert(after.len() == i + 1);
    assert forall|k: int| 0 <= k <= i implies #[trigger] after[k] == (if k < at {
        before[k]
    } else if k == at {
        i
    } else {
        before[k - 1]
    }) by {}
    assert forall|k: int| 0 <= k < at implies volume_rank(records[#[trigger] before[k]].volume)
        >= rank_i by {
        if k < at - 1 {
            assert(precedes(records, before[k], before[at - 1]));
        }
    }
    assert forall|a: int, b: int| 0 <= a < b <= i implies precedes(
        records,
        #[trigger] after[a],
        #[trigger] after[b],
    ) by {
        if b < at {
            assert(precedes(records, before[a], before[b]));
        } else if b == at {
            assert(volume_rank(records[before[a]].volume) >= rank_i);
            assert(before[a] < i);
        } else if a < at {
            assert(precedes(records, before[a], before[b - 1]));
        } else if a == at {
            assert(volume_rank(records[before[b - 1]].volume) < rank_i);
        } else {
            assert(precedes(records, before[a - 1], before[b - 1]));
        }
    }
}

impl FilterConfig {
    /// A configuration of the given suffixes, cap and order.
    pub fn new(allowed_suffixes: Vec<String>, max_results: usize, rank_by_volume_desc: bool) -> (r:
        FilterConfig)
        ensures
            r.allowed_suffixes == allowed_suffixes,
            r.max_results == max_results,
            r.rank_by_volume_desc == rank_by_volume_desc,
    {
        FilterConfig { allowed_suffixes, max_results, rank_by_volume_desc }
    }

    /// The configuration of the market overview: symbols quoted in `USDC`
    /// or `USDT`, the two hundred of the greatest volume, ranked.
    pub fn market_overview() -> (r: FilterConfig)
        ensures
            r@.allowed_suffixes == set!["USDC"@, "USDT"@],
            r@.max_results == 200,
            r@.rank_by_volume_desc,
    {
        let mut allowed_suffixes: Vec<String> = Vec::new();
        allowed_suffixes.push(String::from_str("USDC"));
        allowed_suffixes.push(String::from_str("USDT"));
        let r = FilterConfig { allowed_suffixes, max_results: 200, rank_by_volume_desc: true };
        proof {
            assert(r.allowed_suffixes@[0]@ == "USDC"@);
            assert(r.allowed_suffixes@[1]@ == "USDT"@);
            assert(r@.allowed_suffixes =~= set!["USDC"@, "USDT"@]);
        }
        r
    }
}

/// Whether `s` ends with `suffix`.
fn ends_with_chars(s: &Vec<char>, suffix: &Vec<char>) -> (r: bool)
    ensures
        r == ends_with(s@, suffix@),
{
    if suffix.len() > s.len() {
        return false;
    }
    let offset: usize = s.len() - suffix.len();
    let mut i: usize = 0;
    while i < suffix.len()
        invariant
            i <= suffix.len(),
            offset + suffix.len() == s.len(),
            forall|k: int| 0 <= k < i ==> s@[offset + k] == suffix@[k],
        decreases suffix.len() - i,
    {
        if s[offset + i] != suffix[i] {
            assert(s@.subrange(offset as int, s@.len() as int)[i as int] != suffix@[i as int]);
            return false;
        }
        i += 1;
    }
    assert(s@.subrange(offset as int, s@.len() as int) =~= suffix@);
    true
}

/// The characters of each allowed suffix.
fn suffix_chars(config: &FilterConfig) -> (r: Vec<Vec<char>>)
    ensures
        r@.len() == config.allowed_suffixes@.len(),
        forall|i: int| 0 <= i < r@.len() ==> (#[trigger] r@[i])@ == config.allowed_suffixes@[i]@,
{
    let mut out: Vec<Vec<char>> = Vec::new();
    let mut i: usize = 0;
    while i < config.allowed_suffixes.len()
        invariant
            i <= config.allowed_suffixes.len(),
            out@.len() == i,
            forall|k: int| 0 <= k < i ==> (#[trigger] out@[k])@ == config.allowed_suffixes@[k]@,
        decreases config.allowed_suffixes.len() - i,
    {
        out.push(chars_of(config.allowed_suffixes[i].as_str()));
        i += 1;
    }
    out
}

/// Whether the symbol ends with one of the suffixes.
fn allowed(symbol: &str, suffixes: &Vec<Vec<char>>, Ghost(config): Ghost<FilterConfig>) -> (r: bool)
    requires
        suffixes@.len() == config.allowed_suffixes@.len(),
        forall|i: int|
            0 <= i < suffixes@.len() ==> (#[trigger] suffixes@[i])@ == config.allowed_suffixes@[i]@,
    ensures
        r == config@.allows(symbol@),
{
    let chars = chars_of(symbol);
    let mut i: usize = 0;
    while i < suffixes.len()
        invariant
            i <= suffixes.len(),
            chars@ == symbol@,
            suffixes@.len() == config.allowed_suffixes@.len(),
            forall|k: int|
                0 <= k < suffixes@.len() ==> (#[trigger] suffixes@[k])@
                    == config.allowed_suffixes@[k]@,
            forall|k: int| 0 <= k < i ==> !ends_with(symbol@, (#[trigger] suffixes@[k])@),
        decreases suffixes.len() - i,
    {
        if ends_with_chars(&chars, &suffixes[i]) {
            proof {
                let suffix = suffixes@[i as int]@;
                assert(config.allowed_suffixes@[i as int]@ == suffix);
                assert(config@.allowed_suffixes.contains(suffix));
                assert(ends_with(symbol@, suffix));
            }
            return true;
        }
        i += 1;
    }
    proof {
        if config@.allows(symbol@) {
            let suffix = choose|suffix: Seq<char>|
                config@.allowed_suffixes.contains(suffix) && #[trigger] ends_with(
                    symbol@,
                    suffix,
                );
            let k = choose|k: int|
                0 <= k < config.allowed_suffixes@.len()
                    && #[trigger] config.allowed_suffixes@[k]@ == suffix;
            assert(!ends_with(symbol@, suffixes@[k]@));
        }
    }
    false
}

/// The place of a volume in the ranking.
pub fn rank_of_volume(volume: &str) -> (r: i64)
    ensures
        r == volume_rank(volume@),
{
    match Binary64::parse(volume) {
        Some(number) => number.rank_value(),
        None => 0,
    }
}

/// The tickers whose symbol is allowed, in the order in which they came.
fn keep_allowed(records: &Vec<TickerData>, config: &FilterConfig) -> (kept: Vec<TickerData>)
    ensures
        kept.deep_view() == records.deep_view().filter(config@.keeps()),
{
    let suffixes = suffix_chars(config);
    let mut kept: Vec<TickerData> = Vec::new();
    let mut i: usize = 0;
    let ghost all = records.deep_view();
    let ghost test = config@.keeps();
    proof {
        reveal(Seq::filter);
        assert(all.take(0) =~= Seq::<TickerView>::empty());
        assert(kept.deep_view() =~= all.take(0).filter(test));
    }
    while i < records.len()
        invariant
            i <= records.len(),
            all == records.deep_view(),
            test == config@.keeps(),
            suffixes@.len() == config.allowed_suffixes@.len(),
            forall|k: int|
                0 <= k < suffixes@.len() ==> (#[trigger] suffixes@[k])@
                    == config.allowed_suffixes@[k]@,
            kept.deep_view() == all.take(i as int).filter(test),
        decreases records.len() - i,
    {
        let keep = allowed(records[i].symbol.as_str(), &suffixes, Ghost(*config));
        let ghost before = kept.deep_view();
        proof {
            assert(all.take(i + 1) =~= all.take(i as int).push(all[i as int]));
            all.take(i as int).lemma_filter_push(all[i as int], test);
            assert(all[i as int] == records@[i as int]@);
            assert(test(all[i as int]) == config@.allows(records@[i as int].symbol@));
        }
        if keep {
            kept.push(records[i].clone());
            assert(kept.deep_view() =~= before.push(all[i as int]));
        }
        i += 1;
    }
    proof {
        assert(all.take(records.len() as int) =~= all);
    }
    kept
}

/// The tickers ranked by volume.
fn rank_by_volume(records: &Vec<TickerData>) -> (r: Vec<TickerData>)
    ensures
        r.deep_view() == ranked(records.deep_view()),
{
    let n = records.len();
    let ghost all = records.deep_view();
    let mut ranks: Vec<i64> = Vec::new();
    let mut i: usize = 0;
    while i < n
        invariant
            i <= n,
            n == records.len(),
            all == records.deep_view(),
            ranks@.len() == i,
            forall|k: int| 0 <= k < i ==> #[trigger] ranks@[k] == volume_rank(all[k].volume),
        decreases n - i,
    {
        ranks.push(rank_of_volume(records[i].volume.as_str()));
        assert(all[i as int] == records@[i as int]@);
        i += 1;
    }
    let mut order: Vec<usize> = Vec::new();
    let mut j: usize = 0;
    while j < n
        invariant
            j <= n,
            n == records.len(),
            all == records.deep_view(),
            ranks@.len() == n,
            forall|k: int| 0 <= k < n ==> #[trigger] ranks@[k] == volume_rank(all[k].volume),
            order@.len() == j,
            forall|k: int| 0 <= k < j ==> #[trigger] order@[k] < j,
            forall|k: int| 0 <= k < j ==> #[trigger] order@[k] == ranking(all, j as nat)[k],
            ranking(all, j as nat).len() == j,
        decreases n - j,
    {
        let mut at: usize = order.len();
        let ghost model = ranking(all, j as nat);
        while at > 0 && ranks[order[at - 1]] < ranks[j]
            invariant
                at <= order@.len(),
                order@.len() == j,
                j < n,
                ranks@.len() == n,
                model.len() == j,
                forall|k: int| 0 <= k < n ==> #[trigger] ranks@[k] == volume_rank(all[k].volume),
                forall|k: int| 0 <= k < j ==> #[trigger] order@[k] < j,
                forall|k: int| 0 <= k < j ==> #[trigger] order@[k] == model[k],
                forall|k: int|
                    at <= k < j ==> volume_rank(all[#[trigger] model[k]].volume) < volume_rank(
                        all[j as int].volume,
                    ),
            decreases at,
        {
            at -= 1;
            assert(order@[at as int] == model[at as int]);
        }
        proof {
            if at > 0 {
                assert(order@[at - 1] == model[at - 1]);
            }
            lemma_insert_place(model, all, j as int, at as int);
        }
        order.insert(at, j);
        proof {
            let after = ranking(all, (j + 1) as nat);
            assert(after == model.insert(at as int, j as int));
            assert forall|k: int| 0 <= k < j + 1 implies #[trigger] order@[k] == after[k] && order@[k]
                < j + 1 by {
                if k < at {
                    assert(after[k] == model[k]);
                } else if k > at {
                    assert(after[k] == model[k - 1]);
                }
            }
        }
        j += 1;
    }
    let mut out: Vec<TickerData> = Vec::new();
    let mut k: usize = 0;
    while k < n
        invariant
            k <= n,
            n == records.len(),
            all == records.deep_view(),
            order@.len() == n,
            forall|q: int| 0 <= q < n ==> #[trigger] order@[q] < n,
            forall|q: int| 0 <= q < n ==> #[trigger] order@[q] == ranking(all, n as nat)[q],
            out@.len() == k,
            forall|q: int| 0 <= q < k ==> (#[trigger] out@[q])@ == all[ranking(all, n as nat)[q]],
        decreases n - k,
    {
        let from = order[k];
        out.push(records[from].clone());
        assert(all[from as int] == records@[from as int]@);
        k += 1;
    }
    assert(out.deep_view() =~= ranked(all));
    out
}

/// Chooses the tickers to show: those whose symbol ends with an allowed
/// suffix; ranked by volume, the greatest first and equals in the order in
/// which they came, if the configuration asks for it; and of these the
/// first `max_results`.
pub fn select(records: Vec<TickerData>, config: &FilterConfig) -> (result: Vec<TickerData>)
    ensures
        result.deep_view() == select_spec(records.deep_view(), config@),
{
    let kept = keep_allowed(&records, config);
    let mut ordered = if config.rank_by_volume_desc {
        rank_by_volume(&kept)
    } else {
        kept
    };
    let ghost before = ordered.deep_view();
    ordered.truncate(config.max_results);
    assert(ordered.deep_view() =~= capped(before, config.max_results as nat));
    ordered
}

/// The places in `records` of the tickers that are kept, in rising order.
pub open spec fn kept_places(records: Seq<TickerView>, config: FilterView) -> Seq<int>
    decreases records.len(),
{
    if records.len() == 0 {
        Seq::<int>::empty()
    } else if config.allows(records.last().symbol) {
        kept_places(records.drop_last(), config).push(records.len() - 1)
    } else {
        kept_places(records.drop_last(), config)
    }
}

/// The places in `records` of the tickers that are shown, in the order in
/// which they are shown.
pub open spec fn select_places(records: Seq<TickerView>, config: FilterView) -> Seq<int> {
    let kept = records.filter(config.keeps());
    let sources = kept_places(records, config);
    let order = ranking(kept, kept.len());
    Seq::new(
        select_spec(records, config).len(),
        |k: int|
            if config.rank_by_volume_desc {
                sources[order[k]]
            } else {
                sources[k]
            },
    )
}

/// The kept tickers stand at the kept places, which rise.
pub proof fn lemma_kept_places(records: Seq<TickerView>, config: FilterView)
    ensures
        kept_places(records, config).len() == records.filter(config.keeps()).len(),
        forall|k: int|
            0 <= k < kept_places(records, config).len() ==> 0 <= #[trigger] kept_places(
                records,
                config,
            )[k] < records.len() && records[kept_places(records, config)[k]] == records.filter(
                config.keeps(),
            )[k],
        forall|a: int, b: int|
            0 <= a < b < kept_places(records, config).len() ==> #[trigger] kept_places(
                records,
                config,
            )[a] < #[trigger] kept_places(records, config)[b],
    decreases records.len(),
{
    reveal(Seq::filter);
    if records.len() > 0 {
        lemma_kept_places(records.drop_last(), config);
        let before = kept_places(records.drop_last(), config);
        let places = kept_places(records, config);
        assert forall|k: int| 0 <= k < places.len() implies 0 <= #[trigger] places[k]
            < records.len() && records[places[k]] == records.filter(config.keeps())[k] by {
            if k < before.len() {
                assert(places[k] == before[k]);
                assert(records.drop_last()[before[k]] == records[before[k]]);
            }
        }
        assert forall|a: int, b: int| 0 <= a < b < places.len() implies #[trigger] places[a]
            < #[trigger] places[b] by {
            assert(places[a] == before[a]);
            if b < before.len() {
                assert(places[b] == before[b]);
            }
        }
    }
}

/// A sequence whose every member passes a test is kept whole by it.
pub proof fn lemma_filter_keeps_all(records: Seq<TickerView>, config: FilterView)
    requires
        forall|k: int| 0 <= k < records.len() ==> config.allows(#[trigger] records[k].symbol),
    ensures
        records.filter(config.keeps()) == records,
    decreases records.len(),
{
    reveal(Seq::filter);
    if records.len() > 0 {
        assert forall|k: int| 0 <= k < records.drop_last().len() implies config.allows(
            #[trigger] records.drop_last()[k].symbol,
        ) by {
            assert(records.drop_last()[k] == records[k]);
        }
        lemma_filter_keeps_all(records.drop_last(), config);
        assert(records.drop_last().push(records.last()) =~= records);
    }
}

/// Tickers that stand in the order of their ranks are ranked as they stand.
pub proof fn lemma_ranking_of_ranked(records: Seq<TickerView>, n: nat)
    requires
        n <= records.len(),
        forall|a: int, b: int|
            0 <= a < b < records.len() ==> volume_rank(#[trigger] records[a].volume)
                >= volume_rank(#[trigger] records[b].volume),
    ensures
        ranking(records, n) == Seq::new(n, |k: int| k),
    decreases n,
{
    if n > 0 {
        lemma_ranking_of_ranked(records, (n - 1) as nat);
        let before = Seq::new((n - 1) as nat, |k: int| k);
        if n > 1 {
            assert(before.last() == n - 2);
            assert(volume_rank(records[n - 2].volume) >= volume_rank(records[n - 1].volume));
        }
        assert(before.push(n - 1) =~= Seq::new(n, |k: int| k));
    } else {
        assert(ranking(records, 0) =~= Seq::new(0, |k: int| k));
    }
}

/// What is shown is no more than the cap allows, and is all that was kept
/// where that is no more than the cap.
pub proof fn lemma_select_len(records: Seq<TickerView>, config: FilterView)
    ensures
        select_spec(records, config).len() <= config.max_results,
        select_spec(records, config).len() == if config.max_results < records.filter(
            config.keeps(),
        ).len() {
            config.max_results
        } else {
            records.filter(config.keeps()).len()
        },
{
}

/// Every ticker that is shown came from the place that `select_places`
/// names and has an allowed symbol. Unranked, the tickers are shown in the
/// order in which they came. Ranked, the volumes do not rise along them,
/// and of two tickers with one rank the one that came first is shown first.
pub proof fn lemma_select_order(records: Seq<TickerView>, config: FilterView)
    ensures
        select_places(records, config).len() == select_spec(records, config).len(),
        forall|k: int|
            0 <= k < select_spec(records, config).len() ==> {
                &&& 0 <= #[trigger] select_places(records, config)[k] < records.len()
                &&& select_spec(records, config)[k] == records[select_places(records, config)[k]]
                &&& config.allows(select_spec(records, config)[k].symbol)
            },
        !config.rank_by_volume_desc ==> forall|a: int, b: int|
            0 <= a < b < select_spec(records, config).len() ==> #[trigger] select_places(
                records,
                config,
            )[a] < #[trigger] select_places(records, config)[b],
        config.rank_by_volume_desc ==> forall|a: int, b: int|
            0 <= a < b < select_spec(records, config).len() ==> {
                let first = volume_rank(select_spec(records, config)[a].volume);
                let second = volume_rank(select_spec(records, config)[b].volume);
                first > second || (first == second && #[trigger] select_places(records, config)[a]
                    < #[trigger] select_places(records, config)[b])
            },
{
    let kept = records.filter(config.keeps());
    let sources = kept_places(records, config);
    let order = ranking(kept, kept.len());
    let out = select_spec(records, config);
    let places = select_places(records, config);
    lemma_kept_places(records, config);
    lemma_ranking(kept, kept.len());
    assert forall|k: int| 0 <= k < out.len() implies {
        &&& 0 <= #[trigger] places[k] < records.len()
        &&& out[k] == records[places[k]]
        &&& config.allows(out[k].symbol)
    } by {
        if config.rank_by_volume_desc {
            assert(0 <= order[k] < kept.len());
            assert(out[k] == kept[order[k]]);
            kept.lemma_index_contains(order[k]);
            records.lemma_filter_pred(config.keeps(), order[k]);
        } else {
            assert(out[k] == kept[k]);
            records.lemma_filter_pred(config.keeps(), k);
        }
    }
    if config.rank_by_volume_desc {
        assert forall|a: int, b: int| 0 <= a < b < out.len() implies {
            let first = volume_rank(out[a].volume);
            let second = volume_rank(out[b].volume);
            first > second || (first == second && #[trigger] places[a] < #[trigger] places[b])
        } by {
            assert(precedes(kept, order[a], order[b]));
            assert(out[a] == kept[order[a]]);
            assert(out[b] == kept[order[b]]);
        }
    }
}

/// Choosing among what was chosen changes nothing.
pub proof fn lemma_select_idempotent(records: Seq<TickerView>, config: FilterView)
    ensures
        select_spec(select_spec(records, config), config) == select_spec(records, config),
{
    let out = select_spec(records, config);
    lemma_select_order(records, config);
    assert forall|k: int| 0 <= k < out.len() implies config.allows(#[trigger] out[k].symbol) by {
        let place = select_places(records, config)[k];
    }
    lemma_filter_keeps_all(out, config);
    if config.rank_by_volume_desc {
        assert forall|a: int, b: int| 0 <= a < b < out.len() implies volume_rank(
            #[trigger] out[a].volume,
        ) >= volume_rank(#[trigger] out[b].volume) by {
            let pa = select_places(records, config)[a];
            let pb = select_places(records, config)[b];
        }
        lemma_ranking_of_ranked(out, out.len());
        assert(ranked(out) =~= out);
    }
}

} // verus!
