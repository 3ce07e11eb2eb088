//! The engine: the order books of all markets and the users' balances.
use crate::clock::now_seconds;
use crate::decimal::Dec;
use crate::ids::random_order_id;
use crate::messages::IncomingMessageFromAPI;
use crate::book_laws::{
    book_wf, exact_setting, exact_setting_at, law_placement, matched_exactly, resting_count,
};
use crate::orderbook::{empty_book, spec_add_order, BookView, Fill, Order, OrderStatus, Orderbook, Side};
use std::collections::HashMap;
use vstd::prelude::*;

verus! {

broadcast use vstd::std_specs::hash::group_hash_axioms;

#[derive(Clone, Copy, Debug)]
pub struct UserBalance {
    pub available: Dec,
    pub locked: Dec,
}

#[derive(Clone, Copy, Debug, PartialEq, Eq, Hash, Structural)]
pub enum Currency {
    SOL,
    USDC,
}

/// A user's balance in each currency, as a list of (currency, balance)
/// entries in place of a `HashMap<Currency, UserBalance>`: vstd's
/// specification of a hash map's lookups holds for key types whose hashing
/// it models, such as integers, and not for an enum with derived `Hash` and
/// `Eq` like `Currency`, so nothing could be proved of such a map; the list
/// has an exact model, `entries_map`.
#[derive(Debug)]
pub struct Balances {
    entries: Vec<(Currency, UserBalance)>,
}

/// The map that a list of entries stands for; a later entry for a currency
/// wins over an earlier one.
pub open spec fn entries_map(s: Seq<(Currency, UserBalance)>) -> Map<Currency, UserBalance>
    decreases s.len(),
{
    if s.len() == 0 {
        Map::empty()
    } else {
        entries_map(s.drop_last()).insert(s.last().0, s.last().1)
    }
}

/// The entries of `s` for currencies other than `c`.
pub open spec fn entries_without(s: Seq<(Currency, UserBalance)>, c: Currency) -> Seq<
    (Currency, UserBalance),
>
    decreases s.len(),
{
    if s.len() == 0 {
        s
    } else if s.last().0 == c {
        entries_without(s.drop_last(), c)
    } else {
        entries_without(s.drop_last(), c).push(s.last())
    }
}

proof fn lemma_entries_without(s: Seq<(Currency, UserBalance)>, c: Currency)
    ensures
        entries_map(entries_without(s, c)) == entries_map(s).remove(c),
    decreases s.len(),
{
    if s.len() > 0 {
        lemma_entries_without(s.drop_last(), c);
        let w = entries_without(s.drop_last(), c);
        if s.last().0 == c {
            assert(entries_map(s).remove(c) =~= entries_map(s.drop_last()).remove(c));
        } else {
            assert(w.push(s.last()).drop_last() =~= w);
            assert(entries_map(s).remove(c) =~= entries_map(s.drop_last()).remove(c).insert(
                s.last().0,
                s.last().1,
            ));
        }
    } else {
        assert(entries_map(s).remove(c) =~= Map::empty());
    }
}

impl View for Balances {
    type V = Map<Currency, UserBalance>;

    closed spec fn view(&self) -> Map<Currency, UserBalance> {
        entries_map(self.entries@)
    }
}

impl Balances {
    /// No balance in any currency.
    pub fn new() -> (r: Balances)
        ensures
            r@ == Map::<Currency, UserBalance>::empty(),
    {
        Balances { entries: Vec::new() }
    }

    /// Sets the balance in currency `c`.
    pub fn insert(&mut self, c: Currency, b: UserBalance)
        ensures
            final(self)@ == old(self)@.insert(c, b),
    {
        let ghost s = self.entries@;
        let mut kept: Vec<(Currency, UserBalance)> = Vec::new();
        let n = self.entries.len();
        let mut i: usize = 0;
        assert(s.take(0) =~= Seq::<(Currency, UserBalance)>::empty());
        while i < n
            invariant
                n == s.len(),
                s == self.entries@,
                i <= n,
                kept@ == entries_without(s.take(i as int), c),
            decreases n - i,
        {
            let e = self.entries[i];
            assert(s.take(i + 1).drop_last() =~= s.take(i as int));
            if e.0 != c {
                kept.push(e);
            }
            i = i + 1;
        }
        assert(s.take(n as int) =~= s);
        proof {
            lemma_entries_without(s, c);
        }
        let ghost w = kept@;
        kept.push((c, b));
        assert(kept@.drop_last() =~= w);
        self.entries = kept;
        assert(entries_map(self.entries@) =~= entries_map(s).insert(c, b));
    }

    /// The balance in currency `c`, if any.
    pub fn get(&self, c: Currency) -> (r: Option<UserBalance>)
        ensures
            r == (if self@.contains_key(c) {
                Some(self@[c])
            } else {
                None
            }),
    {
        let ghost s = self.entries@;
        let mut i: usize = self.entries.len();
        assert(s.take(i as int) =~= s);
        while i > 0
            invariant
                s == self.entries@,
                i <= s.len(),
                entries_map(s).contains_key(c) == entries_map(s.take(i as int)).contains_key(c),
                entries_map(s).contains_key(c) ==> entries_map(s)[c] == entries_map(
                    s.take(i as int),
                )[c],
            decreases i,
        {
            let e = self.entries[i - 1];
            assert(s.take(i as int).drop_last() =~= s.take(i - 1));
            if e.0 == c {
                return Some(e.1);
            }
            i = i - 1;
        }
        None
    }
}

/// The balances a new user starts with: 10,000,000 USDC available, none locked.
pub open spec fn starting_balances() -> Map<Currency, UserBalance> {
    Map::empty().insert(
        Currency::USDC,
        UserBalance { available: Dec::spec_from_int(10_000_000), locked: Dec::spec_zero() },
    )
}

#[derive(Debug)]
pub struct Engine {
    pub orderbooks: Vec<Orderbook>,
    pub users: HashMap<u64, Balances>,
}

/// The engine as a mathematical value.
pub struct EngineView {
    pub books: Seq<BookView>,
    pub users: Map<u64, Map<Currency, UserBalance>>,
}

impl View for Engine {
    type V = EngineView;

    open spec fn view(&self) -> EngineView {
        EngineView {
            books: self.orderbooks@.map_values(|b: Orderbook| b@),
            users: self.users@.map_values(|b: Balances| b@),
        }
    }
}

/// The index of the first book that trades `market` (the number of books if none does).
pub open spec fn market_index(books: Seq<BookView>, market: Seq<char>) -> int
    decreases books.len(),
{
    if books.len() == 0 {
        0
    } else if books[0].market == market {
        0
    } else {
        1 + market_index(books.drop_first(), market)
    }
}

/// A new order as the engine builds it, before it is placed.
pub open spec fn new_order(order_id: u64, user_id: u64, price: Dec, quantity: Dec, side: Side) -> Order {
    Order {
        order_id,
        user_id,
        price,
        quantity,
        filled_quantity: Dec::spec_zero(),
        side,
        status: OrderStatus::Pending,
        timestamp: 0,
    }
}

/// Every book of the engine in good order.
pub open spec fn engine_wf(e: EngineView) -> bool {
    forall|i: int| #![trigger e.books[i]] 0 <= i < e.books.len() ==> book_wf(e.books[i])
}

/// Law: a new engine is in good order.
pub proof fn law_new_engine_wf()
    ensures
        engine_wf(EngineView {
            books: seq![empty_book("SOL/USDC"@)],
            users: Map::<u64, Map<Currency, UserBalance>>::empty(),
        }),
{
    let e = EngineView {
        books: seq![empty_book("SOL/USDC"@)],
        users: Map::<u64, Map<Currency, UserBalance>>::empty(),
    };
    assert(e.books[0] == empty_book("SOL/USDC"@));
}

/// Law: placing an order in one book of an engine in good order, where it
/// succeeds, leaves the engine in good order.
pub proof fn law_create_order_keeps_engine_wf(e: EngineView, i: int, o: Order, ts: i64)
    requires
        engine_wf(e),
        0 <= i < e.books.len(),
        spec_add_order(e.books[i], o, ts) is Some,
    ensures
        engine_wf(EngineView { books: e.books.update(i, spec_add_order(e.books[i], o, ts)->Some_0.0), ..e }),
{
    law_placement(e.books[i], o, ts);
    let b2 = spec_add_order(e.books[i], o, ts)->Some_0.0;
    let books = e.books.update(i, b2);
    assert forall|j: int| #![trigger books[j]] 0 <= j < books.len() implies book_wf(books[j]) by {
        if j != i {
            assert(books[j] == e.books[j]);
        }
    }
}

/// Law: a registered user cannot be registered again — after `add_user(id)`
/// succeeds the user exists with the starting balances, so a second
/// `add_user(id)` is refused.
pub proof fn law_register_once(e: EngineView, user_id: u64)
    requires
        !e.users.contains_key(user_id),
    ensures
        ({
            let e2 = EngineView { users: e.users.insert(user_id, starting_balances()), ..e };
            &&& e2.users.contains_key(user_id)
            &&& e2.users[user_id] == starting_balances()
            &&& e2.users[user_id][Currency::USDC].available == Dec::spec_from_int(10_000_000)
            &&& !e2.users[user_id].contains_key(Currency::SOL)
        }),
{
}

impl Engine {
    /// An engine with one empty book, for the market SOL/USDC, and no users.
    pub fn new() -> (r: Engine)
        ensures
            r@.books == seq![empty_book("SOL/USDC"@)],
            r@.users == Map::<u64, Map<Currency, UserBalance>>::empty(),
    {
        let book = Orderbook::new(String::from_str("SOL/USDC"));
        let mut orderbooks: Vec<Orderbook> = Vec::new();
        orderbooks.push(book);
        let r = Engine { orderbooks, users: HashMap::new() };
        assert(r@.books =~= seq![empty_book("SOL/USDC"@)]);
        assert(r@.users =~= Map::<u64, Map<Currency, UserBalance>>::empty());
        r
    }

    /// Registers user `user_id` with the starting balances; `Err` (and no
    /// change) if the user exists.
    pub fn add_user(&mut self, user_id: u64) -> (r: Result<(), String>)
        ensures
            old(self)@.users.contains_key(user_id) ==> (r matches Err(e) && e@ == "User exists"@
                && final(self)@ == old(self)@),
            !old(self)@.users.contains_key(user_id) ==> r is Ok && final(self)@ == (EngineView {
                users: old(self)@.users.insert(user_id, starting_balances()),
                ..old(self)@
            }),
    {
        if self.users.contains_key(&user_id) {
            Err(String::from_str("User exists"))
        } else {
            let mut balances = Balances::new();
            balances.insert(
                Currency::USDC,
                UserBalance { available: Dec::from_i64(10_000_000), locked: Dec::zero() },
            );
            self.users.insert(user_id, balances);
            assert(self@.users =~= old(self)@.users.insert(user_id, starting_balances()));
            Ok(())
        }
    }

    /// The index of the first book that trades `market`.
    fn find_market(&self, market: &str) -> (r: usize)
        requires
            market_index(self@.books, market@) < self@.books.len(),
        ensures
            r == market_index(self@.books, market@),
    {
        let m = String::from_str(market);
        let ghost books = self@.books;
        let n = self.orderbooks.len();
        let mut i: usize = 0;
        assert(books.skip(0) =~= books);
        while i < n
            invariant
                n == books.len(),
                books == self@.books,
                m@ == market@,
                i <= n,
                market_index(books, market@) == i + market_index(books.skip(i as int), market@),
                market_index(books, market@) < n,
            decreases n - i,
        {
            assert(books.skip(i as int)[0] == self.orderbooks@[i as int]@);
            if self.orderbooks[i].has_market(&m) {
                return i;
            }
            assert(books.skip(i as int).drop_first() =~= books.skip(i + 1));
            i = i + 1;
        }
        assert(books.skip(n as int) =~= Seq::<BookView>::empty());
        0
    }

    /// Places a new order of user `user_id` in the first book that trades
    /// `market`, under a fresh random id: a drawn version-4 id, replaced by
    /// an unused one in the rare case that the book already holds it, so no
    /// two orders of a book share an id.  Returns the id, the fills and the
    /// executed quantity.  `Err` (and no change) where the book reports an
    /// overflow.
    pub fn create_order(
        &mut self,
        market: &str,
        price: Dec,
        quantity: Dec,
        side: Side,
        user_id: u64,
    ) -> (r: Result<(u64, Vec<Fill>, Dec), String>)
        requires
            market_index(old(self)@.books, market@) < old(self)@.books.len(),
        ensures
            r matches Ok(t) ==> (t.0 >> 12u64) & 0xfu64 == 4,
            ({
                let b = old(self)@.books[market_index(old(self)@.books, market@)];
                r matches Ok(t) ==> (b.orders.len() < 0x1_0000_0000_0000 ==> !b.orders.dom().contains(
                    t.0,
                ))
            }),
            ({
                let i = market_index(old(self)@.books, market@);
                match r {
                    Ok(t) => (exists|ts: i64|
                        spec_add_order(
                            old(self)@.books[i],
                            new_order(t.0, user_id, price, quantity, side),
                            ts,
                        ) == Some((final(self)@.books[i], t.1@, t.2))) && final(self)@ == (EngineView {
                        books: old(self)@.books.update(i, final(self)@.books[i]),
                        ..old(self)@
                    }),
                    Err(_) => final(self)@ == old(self)@ && exists|id: u64, ts: i64|
                        #[trigger] spec_add_order(
                            old(self)@.books[i],
                            new_order(id, user_id, price, quantity, side),
                            ts,
                        ) is None,
                }
            }),
            ({
                let i = market_index(old(self)@.books, market@);
                let b = old(self)@.books[i];
                let taker = new_order(0, user_id, price, quantity, side);
                let other = if side == Side::Ask {
                    b.bids
                } else {
                    b.asks
                };
                let other_after = if side == Side::Ask {
                    final(self)@.books[i].bids
                } else {
                    final(self)@.books[i].asks
                };
                &&& exact_setting(side, taker, other) && b.last_trade_id + resting_count(other)
                    <= u64::MAX ==> r is Ok
                &&& exact_setting(side, taker, other) ==> (r matches Ok(t) ==> matched_exactly(
                    side,
                    taker,
                    t.1@,
                    t.2,
                    other,
                    other_after,
                ))
            }),
    {
        let i = self.find_market(market);
        let order_id = self.orderbooks[i].unused_order_id(random_order_id());
        let order = Order {
            order_id,
            user_id,
            price,
            quantity,
            filled_quantity: Dec::zero(),
            side,
            status: OrderStatus::Pending,
            timestamp: now_seconds(),
        };
        let ghost old_books = self@.books;
        let ghost old_book = self.orderbooks@[i as int]@;
        proof {
            let taker = new_order(0, user_id, price, quantity, side);
            let other = if side == Side::Ask {
                old_book.bids
            } else {
                old_book.asks
            };
            if exact_setting(side, taker, other) {
                let s = choose|s: u32| exact_setting_at(side, taker, other, s);
                assert(exact_setting_at(side, order, other, s));
            }
        }
        let res = self.orderbooks[i].add_order(order);
        match res {
            Ok(t) => {
                let (fills, executed) = t;
                proof {
                    let ts = choose|ts: i64|
                        spec_add_order(old_book, order, ts) == Some(
                            (self.orderbooks@[i as int]@, fills@, executed),
                        );
                    assert(Order { timestamp: ts, ..order } == Order {
                        timestamp: ts,
                        ..new_order(order_id, user_id, price, quantity, side)
                    });
                    assert(spec_add_order(
                        old_book,
                        new_order(order_id, user_id, price, quantity, side),
                        ts,
                    ) == Some((self.orderbooks@[i as int]@, fills@, executed)));
                    assert(self@.books =~= old_books.update(i as int, self@.books[i as int]));
                    assert(old_book == old(self)@.books[i as int]);
                    assert(self@.books[i as int] == self.orderbooks@[i as int]@);
                    assert(self@.users == old(self)@.users);
                }
                Ok((order_id, fills, executed))
            },
            Err(e) => {
                proof {
                    let ts = choose|ts: i64|
                        spec_add_order(old_book, order, ts) is None && self.orderbooks@[i as int]@
                            == old_book;
                    assert(Order { timestamp: ts, ..order } == Order {
                        timestamp: ts,
                        ..new_order(order_id, user_id, price, quantity, side)
                    });
                    assert(spec_add_order(
                        old_book,
                        new_order(order_id, user_id, price, quantity, side),
                        ts,
                    ) is None);
                    assert(old_book == old(self)@.books[i as int]);
                }
                assert(self@.books =~= old_books);
                Err(e)
            },
        }
    }

    /// Handles a request from the API on behalf of user `user_id`: a new
    /// order is placed (its outcome is not reported); other requests change
    /// nothing.
    pub fn process(&mut self, message: IncomingMessageFromAPI, client_id: String, user_id: u64)
        requires
            message matches IncomingMessageFromAPI::CreateOrder { market, .. } ==> market_index(
                old(self)@.books,
                market@,
            ) < old(self)@.books.len(),
        ensures
            match message {
                IncomingMessageFromAPI::CreateOrder { market, price, quantity, side } => {
                    let i = market_index(old(self)@.books, market@);
                    ||| final(self)@ == old(self)@ && exists|id: u64, ts: i64|
                        #[trigger] spec_add_order(
                            old(self)@.books[i],
                            new_order(id, user_id, price, quantity, side),
                            ts,
                        ) is None
                    ||| exists|id: u64, ts: i64|
                        (#[trigger] spec_add_order(
                            old(self)@.books[i],
                            new_order(id, user_id, price, quantity, side),
                            ts,
                        ) matches Some(x) && final(self)@ == (EngineView {
                            books: old(self)@.books.update(i, x.0),
                            ..old(self)@
                        }))
                },
                _ => final(self)@ == old(self)@,
            },
    {
        match message {
            IncomingMessageFromAPI::CreateOrder { market, price, quantity, side } => {
                let response = self.create_order(market.as_str(), price, quantity, side, user_id);
                match response {
                    Err(_) => {},
                    Ok(t) => {
                        proof {
                            let i = market_index(old(self)@.books, market@);
                            let ts = choose|ts: i64|
                                spec_add_order(
                                    old(self)@.books[i],
                                    new_order(t.0, user_id, price, quantity, side),
                                    ts,
                                ) == Some((self@.books[i], t.1@, t.2));
                            assert(self@ == (EngineView {
                                books: old(self)@.books.update(i, self@.books[i]),
                                ..old(self)@
                            }));
                        }
                    },
                }
            },
            IncomingMessageFromAPI::CancelOrder { .. } => {},
            IncomingMessageFromAPI::GetDepth { .. } => {},
        }
    }
}

} // verus!
