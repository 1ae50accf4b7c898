//! Independent exchanges keyed by symbol.

use vstd::prelude::*;
use crate::exchange::Exchange;
use crate::model::ExchangeView;
use crate::ladder::{is_snapshot, LevelSnapshot};
use crate::results::{CancelResult, ModifyResult, StopSubmitResult, SubmitResult};
use crate::symbol::Symbol;
use crate::types::{OrderId, Price, Side, TimeInForce};

verus! {

/// The mathematical content of one entry of a multi-exchange.
pub struct MarketView {
    /// The bytes of the symbol.
    pub symbol: Seq<u8>,
    pub exchange: ExchangeView,
}

/// The index of the first market at or after `from` that trades `symbol`; the number of
/// markets if there is none.
pub open spec fn market_index(markets: Seq<MarketView>, symbol: Seq<u8>, from: int) -> int
    decreases markets.len() - from,
{
    if 0 <= from < markets.len() && markets[from].symbol != symbol {
        market_index(markets, symbol, from + 1)
    } else {
        from
    }
}

/// Whether a market for `symbol` exists.
pub open spec fn has_market(markets: Seq<MarketView>, symbol: Seq<u8>) -> bool {
    market_index(markets, symbol, 0) < markets.len()
}

/// Every exchange is well formed and no symbol occurs twice.
pub open spec fn markets_wf(markets: Seq<MarketView>) -> bool {
    &&& forall|i: int| 0 <= i < markets.len() ==> (#[trigger] markets[i]).exchange.wf()
    &&& forall|i: int, j: int|
        0 <= i < j < markets.len() ==> (#[trigger] markets[i]).symbol != (
        #[trigger] markets[j]).symbol
}

/// The markets with one for `symbol` among them: unchanged if it exists, otherwise with
/// a new, empty exchange added behind the others.
pub open spec fn with_market(markets: Seq<MarketView>, symbol: Seq<u8>) -> Seq<MarketView> {
    if has_market(markets, symbol) {
        markets
    } else {
        markets.push(MarketView { symbol, exchange: ExchangeView::initial() })
    }
}

/// The state of the exchange for `symbol`; that of a new exchange if none exists yet.
pub open spec fn exchange_of(markets: Seq<MarketView>, symbol: Seq<u8>) -> ExchangeView {
    if has_market(markets, symbol) {
        markets[market_index(markets, symbol, 0)].exchange
    } else {
        ExchangeView::initial()
    }
}

/// The markets after the exchange for `symbol`, created if need be, has moved to the
/// state `exchange`. No other market changes.
pub open spec fn with_exchange(
    markets: Seq<MarketView>,
    symbol: Seq<u8>,
    exchange: ExchangeView,
) -> Seq<MarketView> {
    with_market(markets, symbol).update(
        market_index(markets, symbol, 0),
        MarketView { symbol, exchange },
    )
}

/// Where [`market_index`] lands: on the first market with the symbol.
pub proof fn lemma_market_index(markets: Seq<MarketView>, symbol: Seq<u8>, from: int)
    requires
        0 <= from <= markets.len(),
    ensures
        from <= market_index(markets, symbol, from) <= markets.len(),
        market_index(markets, symbol, from) < markets.len() ==> markets[market_index(
            markets,
            symbol,
            from,
        )].symbol == symbol,
        forall|k: int|
            from <= k < market_index(markets, symbol, from) ==> (#[trigger] markets[k]).symbol
                != symbol,
    decreases markets.len() - from,
{
    if from < markets.len() && markets[from].symbol != symbol {
        lemma_market_index(markets, symbol, from + 1);
    }
}

/// Moving the exchange of one symbol to a well-formed state keeps the markets well
/// formed, keeps every other market as it is, and makes the new state the one found
/// under the symbol.
pub proof fn lemma_with_exchange(
    markets: Seq<MarketView>,
    symbol: Seq<u8>,
    exchange: ExchangeView,
)
    requires
        markets_wf(markets),
        exchange.wf(),
    ensures
        markets_wf(with_exchange(markets, symbol, exchange)),
        exchange_of(with_exchange(markets, symbol, exchange), symbol) == exchange,
        forall|other: Seq<u8>|
            other != symbol ==> #[trigger] exchange_of(
                with_exchange(markets, symbol, exchange),
                other,
            ) == exchange_of(markets, other),
        with_exchange(markets, symbol, exchange).len() == with_market(markets, symbol).len(),
{
    let i = market_index(markets, symbol, 0);
    let next = with_exchange(markets, symbol, exchange);
    lemma_market_index(markets, symbol, 0);
    lemma_market_index(next, symbol, 0);
    assert forall|a: int, b: int| 0 <= a < b < next.len() implies (#[trigger] next[a]).symbol != (
    #[trigger] next[b]).symbol by {
        if b < markets.len() {
            assert(markets[a].symbol != markets[b].symbol);
        }
    }
    assert forall|a: int| 0 <= a < next.len() implies (#[trigger] next[a]).exchange.wf() by {
        if a != i {
            assert(markets[a].exchange.wf());
        }
    }
    assert(next[i].symbol == symbol);
    assert(market_index(next, symbol, 0) == i) by {
        if market_index(next, symbol, 0) < i {
            assert(next[market_index(next, symbol, 0)].symbol == symbol);
        }
    }
    assert forall|other: Seq<u8>| other != symbol implies #[trigger] exchange_of(
        next,
        other,
    ) == exchange_of(markets, other) by {
        lemma_market_index(markets, other, 0);
        lemma_market_index(next, other, 0);
        let j = market_index(markets, other, 0);
        let k = market_index(next, other, 0);
        if j < markets.len() {
            assert(next[j].symbol == other);
            if k < j {
                assert(next[k].symbol == other);
                assert(markets[k].symbol != other);
            }
        } else {
            if k < next.len() {
                assert(next[k].symbol == other);
                if k < markets.len() {
                    assert(markets[k].symbol != other);
                }
            }
        }
    }
}

/// One exchange per symbol, each created the first time its symbol is named. The
/// exchanges are independent: an operation on one symbol leaves every other as it is.
#[derive(Clone, Debug)]
pub struct MultiExchange {
    symbols: Vec<Symbol>,
    exchanges: Vec<Exchange>,
}

impl View for MultiExchange {
    type V = Seq<MarketView>;

    closed spec fn view(&self) -> Seq<MarketView> {
        Seq::new(
            self.symbols@.len(),
            |i: int| MarketView { symbol: self.symbols@[i]@, exchange: self.exchanges@[i]@ },
        )
    }
}

impl MultiExchange {
    /// Symbols and exchanges pair up, each exchange is well formed, and no symbol occurs
    /// twice.
    pub closed spec fn wf(&self) -> bool {
        &&& self.symbols@.len() == self.exchanges@.len()
        &&& forall|i: int| 0 <= i < self.exchanges@.len() ==> (#[trigger] self.exchanges@[i]).wf()
        &&& markets_wf(self@)
    }

    /// A well-formed structure has well-formed markets.
    pub proof fn lemma_wf(&self)
        requires
            self.wf(),
        ensures
            markets_wf(self@),
    {
    }

    /// A multi-exchange that knows no symbol yet.
    pub fn new() -> (multi: MultiExchange)
        ensures
            multi.wf(),
            multi@ == Seq::<MarketView>::empty(),
    {
        let multi = MultiExchange { symbols: Vec::new(), exchanges: Vec::new() };
        assert(multi@ =~= Seq::<MarketView>::empty());
        multi
    }

    /// The number of known symbols.
    pub fn len(&self) -> (n: usize)
        ensures
            n == self@.len(),
    {
        self.symbols.len()
    }

    /// Whether no symbol is known yet.
    pub fn is_empty(&self) -> (b: bool)
        ensures
            b == (self@.len() == 0),
    {
        self.symbols.len() == 0
    }

    /// The position of the market for `symbol`.
    fn position(&self, symbol: &Symbol) -> (found: Option<usize>)
        requires
            self.wf(),
        ensures
            match found {
                Some(i) => i < self@.len() && i == market_index(self@, symbol@, 0),
                None => !has_market(self@, symbol@),
            },
    {
        let n = self.symbols.len();
        let mut i: usize = 0;
        while i < n
            invariant
                i <= n,
                n == self@.len(),
                market_index(self@, symbol@, 0) == market_index(self@, symbol@, i as int),
            decreases n - i,
        {
            if self.symbols[i] == *symbol {
                return Some(i);
            }
            i += 1;
        }
        None
    }

    /// The exchange for `symbol`, if one exists.
    pub fn get(&self, symbol: &Symbol) -> (exchange: Option<&Exchange>)
        requires
            self.wf(),
        ensures
            match exchange {
                Some(ex) => has_market(self@, symbol@) && ex@ == exchange_of(self@, symbol@)
                    && ex.wf(),
                None => !has_market(self@, symbol@),
            },
    {
        match self.position(symbol) {
            Some(i) => Some(&self.exchanges[i]),
            None => None,
        }
    }

    /// The exchange for `symbol`, created empty if none exists yet. What the caller does
    /// to it is what happens to the market of that symbol, and to no other.
    pub fn get_or_create(&mut self, symbol: &Symbol) -> (exchange: &mut Exchange)
        requires
            old(self).wf(),
        ensures
            exchange.wf(),
            exchange@ == exchange_of(old(self)@, symbol@),
            final(self)@ == with_exchange(old(self)@, symbol@, final(exchange)@),
            final(exchange).wf() ==> final(self).wf(),
    {
        let i = match self.position(symbol) {
            Some(i) => i,
            None => {
                self.symbols.push(*symbol);
                self.exchanges.push(Exchange::new());
                self.symbols.len() - 1
            },
        };
        proof {
            lemma_market_index(old(self)@, symbol@, 0);
            assert(self@ =~= with_market(old(self)@, symbol@));
            assert(i == market_index(old(self)@, symbol@, 0));
        }
        proof {
            assert forall|e: Exchange| #[trigger] e.wf() implies e@.wf() by {
                e.lemma_wf();
            }
            assert forall|e: ExchangeView| e.wf() implies markets_wf(
                #[trigger] with_exchange(old(self)@, symbol@, e),
            ) by {
                lemma_with_exchange(old(self)@, symbol@, e);
            }
        }
        proof {
            let now = *self;
            assert forall|m: MultiExchange, e: Exchange|
                #![trigger m.exchanges@, now.exchanges@.update(i as int, e)]
                m.symbols == now.symbols && m.exchanges@ == now.exchanges@.update(
                    i as int,
                    e,
                ) implies m@ == with_exchange(old(self)@, symbol@, e@) && (e.wf() ==> m.wf()) by {
                assert(m@ =~= with_exchange(old(self)@, symbol@, e@));
            }
        }
        &mut self.exchanges[i]
    }

    /// Whether the exchange for `symbol` can take another submission. An exchange that
    /// does not exist yet always can.
    pub fn has_capacity(&self, symbol: &Symbol) -> (b: bool)
        requires
            self.wf(),
        ensures
            b == exchange_of(self@, symbol@).has_capacity(),
    {
        match self.get(symbol) {
            Some(exchange) => exchange.has_capacity(),
            None => true,
        }
    }

    /// The known symbols, in the order in which they were first named.
    pub fn symbols(&self) -> (symbols: Vec<Symbol>)
        ensures
            symbols@.len() == self@.len(),
            forall|i: int| 0 <= i < symbols@.len() ==> (#[trigger] symbols@[i])@ == self@[i].symbol,
    {
        let n = self.symbols.len();
        let mut symbols: Vec<Symbol> = Vec::new();
        let mut i: usize = 0;
        while i < n
            invariant
                i <= n,
                n == self.symbols@.len(),
                symbols@.len() == i,
                forall|k: int| 0 <= k < i ==> (#[trigger] symbols@[k]) == self.symbols@[k],
            decreases n - i,
        {
            symbols.push(self.symbols[i]);
            i += 1;
        }
        symbols
    }

    /// For every known symbol, in the order of [`Self::symbols`], its current best bid
    /// and best ask; each is absent while that side of its book is empty.
    pub fn best_prices(&self) -> (prices: Vec<(Symbol, Option<Price>, Option<Price>)>)
        requires
            self.wf(),
        ensures
            prices@.len() == self@.len(),
            forall|i: int|
                0 <= i < prices@.len() ==> {
                    let entry = #[trigger] prices@[i];
                    &&& entry.0@ == self@[i].symbol
                    &&& (entry.1, entry.2) == self@[i].exchange.book.best_bid_ask()
                },
    {
        let n = self.symbols.len();
        let mut prices: Vec<(Symbol, Option<Price>, Option<Price>)> = Vec::new();
        let mut i: usize = 0;
        while i < n
            invariant
                i <= n,
                n == self.symbols@.len(),
                n == self.exchanges@.len(),
                prices@.len() == i,
                forall|k: int|
                    0 <= k < i ==> {
                        let entry = #[trigger] prices@[k];
                        &&& entry.0 == self.symbols@[k]
                        &&& (entry.1, entry.2) == self.exchanges@[k]@.book.best_bid_ask()
                    },
            decreases n - i,
        {
            let best = self.exchanges[i].best_bid_ask();
            prices.push((self.symbols[i], best.0, best.1));
            i += 1;
        }
        prices
    }

    /// Submits a limit order to the exchange for `symbol`, created if need be. No other
    /// exchange changes.
    pub fn submit_limit(
        &mut self,
        symbol: &Symbol,
        side: Side,
        price: Price,
        quantity: u64,
        tif: TimeInForce,
    ) -> (result: SubmitResult)
        requires
            old(self).wf(),
            exchange_of(old(self)@, symbol@).has_capacity(),
            quantity > 0,
        ensures
            final(self).wf(),
            final(self)@ == with_exchange(
                old(self)@,
                symbol@,
                exchange_of(old(self)@, symbol@).submit_limit(side, price, quantity, tif).0,
            ),
            result@ == exchange_of(old(self)@, symbol@).submit_limit(
                side,
                price,
                quantity,
                tif,
            ).1,
    {
        let exchange = self.get_or_create(symbol);
        exchange.submit_limit(side, price, quantity, tif)
    }

    /// Submits a market order to the exchange for `symbol`, created if need be. No other
    /// exchange changes.
    pub fn submit_market(&mut self, symbol: &Symbol, side: Side, quantity: u64) -> (result:
        SubmitResult)
        requires
            old(self).wf(),
            exchange_of(old(self)@, symbol@).has_capacity(),
            quantity > 0,
        ensures
            final(self).wf(),
            final(self)@ == with_exchange(
                old(self)@,
                symbol@,
                exchange_of(old(self)@, symbol@).submit_market(side, quantity).0,
            ),
            result@ == exchange_of(old(self)@, symbol@).submit_market(side, quantity).1,
    {
        let exchange = self.get_or_create(symbol);
        exchange.submit_market(side, quantity)
    }

    /// Submits a stop order to the exchange for `symbol`, created if need be. No other
    /// exchange changes.
    pub fn submit_stop(
        &mut self,
        symbol: &Symbol,
        side: Side,
        trigger_price: Price,
        limit_price: Option<Price>,
        quantity: u64,
        tif: TimeInForce,
    ) -> (result: StopSubmitResult)
        requires
            old(self).wf(),
            exchange_of(old(self)@, symbol@).has_capacity(),
            quantity > 0,
        ensures
            final(self).wf(),
            final(self)@ == with_exchange(
                old(self)@,
                symbol@,
                exchange_of(old(self)@, symbol@).submit_stop(
                    side,
                    trigger_price,
                    limit_price,
                    quantity,
                    tif,
                ).0,
            ),
            result@ == exchange_of(old(self)@, symbol@).submit_stop(
                side,
                trigger_price,
                limit_price,
                quantity,
                tif,
            ).1,
    {
        let exchange = self.get_or_create(symbol);
        exchange.submit_stop(side, trigger_price, limit_price, quantity, tif)
    }

    /// The best bid and best ask of `symbol`; both absent for a symbol without an
    /// exchange. Nothing changes.
    pub fn best_bid_ask(&self, symbol: &Symbol) -> (best: (Option<Price>, Option<Price>))
        requires
            self.wf(),
        ensures
            best == exchange_of(self@, symbol@).book.best_bid_ask(),
    {
        match self.get(symbol) {
            Some(exchange) => exchange.best_bid_ask(),
            None => (None, None),
        }
    }

    /// The levels of one side of the book of `symbol` from the best price outward: all
    /// of them, or at most `depth` if a depth is given; none for a symbol without an
    /// exchange. Nothing changes.
    pub fn snapshot(&self, symbol: &Symbol, side: Side, depth: Option<usize>) -> (snapshots: Vec<
        LevelSnapshot,
    >)
        requires
            self.wf(),
        ensures
            is_snapshot(snapshots@, exchange_of(self@, symbol@).book.side(side), depth),
    {
        match self.get(symbol) {
            Some(exchange) => exchange.snapshot(side, depth),
            None => Vec::new(),
        }
    }

    /// Cancels an order on the exchange for `symbol`, created if need be. No other
    /// exchange changes.
    pub fn cancel(&mut self, symbol: &Symbol, id: OrderId) -> (result: CancelResult)
        requires
            old(self).wf(),
        ensures
            final(self).wf(),
            final(self)@ == with_exchange(
                old(self)@,
                symbol@,
                exchange_of(old(self)@, symbol@).cancel(id).0,
            ),
            result == exchange_of(old(self)@, symbol@).cancel(id).1,
    {
        let exchange = self.get_or_create(symbol);
        exchange.cancel(id)
    }

    /// Replaces an order on the exchange for `symbol`, created if need be. No other
    /// exchange changes.
    pub fn modify(
        &mut self,
        symbol: &Symbol,
        id: OrderId,
        new_price: Price,
        new_quantity: u64,
    ) -> (result: ModifyResult)
        requires
            old(self).wf(),
            exchange_of(old(self)@, symbol@).has_capacity(),
            new_quantity > 0,
        ensures
            final(self).wf(),
            final(self)@ == with_exchange(
                old(self)@,
                symbol@,
                exchange_of(old(self)@, symbol@).modify(id, new_price, new_quantity).0,
            ),
            result@ == exchange_of(old(self)@, symbol@).modify(id, new_price, new_quantity).1,
    {
        let exchange = self.get_or_create(symbol);
        exchange.modify(id, new_price, new_quantity)
    }
}

} // verus!
