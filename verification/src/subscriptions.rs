use vstd::prelude::*;

use crate::types::{AccountId, MarketId};

verus! {

/// The channels a websocket client asks for once connected.
#[derive(Debug)]
pub struct SubscriptionSet {
    pub order_books: Vec<MarketId>,
    pub accounts: Vec<AccountId>,
}

impl SubscriptionSet {
    /// A set with no subscription.
    pub fn new() -> (s: SubscriptionSet)
        ensures
            s.order_books@ == Seq::<MarketId>::empty(),
            s.accounts@ == Seq::<AccountId>::empty(),
    {
        SubscriptionSet { order_books: Vec::new(), accounts: Vec::new() }
    }

    pub fn add_order_book(&mut self, market: MarketId)
        ensures
            final(self).order_books@ == old(self).order_books@.push(market),
            final(self).accounts@ == old(self).accounts@,
    {
        self.order_books.push(market);
    }

    pub fn add_account(&mut self, account: AccountId)
        ensures
            final(self).order_books@ == old(self).order_books@,
            final(self).accounts@ == old(self).accounts@.push(account),
    {
        self.accounts.push(account);
    }

    /// Appends the markets in order.
    pub fn extend_order_books(&mut self, markets: Vec<MarketId>)
        ensures
            final(self).order_books@ == old(self).order_books@ + markets@,
            final(self).accounts@ == old(self).accounts@,
    {
        let mut markets = markets;
        self.order_books.append(&mut markets);
    }

    pub fn is_empty(&self) -> (b: bool)
        ensures
            b == (self.order_books@.len() == 0 && self.accounts@.len() == 0),
    {
        self.order_books.len() == 0 && self.accounts.len() == 0
    }
}

impl Clone for SubscriptionSet {
    fn clone(&self) -> (s: Self)
        ensures
            s.order_books@ == self.order_books@,
            s.accounts@ == self.accounts@,
    {
        let order_books = self.order_books.clone();
        let accounts = self.accounts.clone();
        proof {
            assert(order_books@ =~= self.order_books@);
            assert(accounts@ =~= self.accounts@);
        }
        SubscriptionSet { order_books, accounts }
    }
}

impl Default for SubscriptionSet {
    fn default() -> (s: Self)
        ensures
            s.order_books@ == Seq::<MarketId>::empty(),
            s.accounts@ == Seq::<AccountId>::empty(),
    {
        SubscriptionSet::new()
    }
}

} // verus!
