use vstd::prelude::*;

use crate::address::{
    parse_url, set_url_path, url_parse_result, url_with_path, websocket_address,
    websocket_address_of,
};
use crate::connection::WsConnection;
use crate::order_book::BookView;
use crate::error::{ErrorView, WsClientError, WsResult};
use crate::subscriptions::SubscriptionSet;
use crate::types::{AccountId, MarketId};

verus! {

/// Where the websocket endpoint lives: a host (or REST base address) and a path.
#[derive(Debug)]
pub struct WsConfig {
    pub host: String,
    pub path: String,
}

impl Clone for WsConfig {
    fn clone(&self) -> (r: Self)
        ensures
            r == *self,
    {
        WsConfig { host: self.host.clone(), path: self.path.clone() }
    }
}

impl Default for WsConfig {
    /// No host (the REST base address is used) and the path `/stream`.
    fn default() -> (r: Self)
        ensures
            r.host@ == Seq::<char>::empty(),
            r.path@ == seq!['/', 's', 't', 'r', 'e', 'a', 'm'],
    {
        proof {
            reveal_strlit("/stream");
        }
        WsConfig { host: String::new(), path: String::from_str("/stream") }
    }
}

/// The host a client connects to: its own, or the REST base address when it has none.
pub open spec fn effective_host(host: Seq<char>, rest_base_path: Seq<char>) -> Seq<char> {
    if host.len() == 0 {
        rest_base_path
    } else {
        host
    }
}

/// Address lengths that keep the `url` crate within its size limit.
pub open spec fn config_fits(host: Seq<char>, path: Seq<char>) -> bool {
    host.len() + path.len() + 6 <= 0x0FFF_FFFF
}

/// The outcome of building the address of a configuration with a given host and path:
/// the parse of its websocket address, then that URL with the path set.
pub open spec fn built_url(host: Seq<char>, path: Seq<char>) -> Result<Seq<char>, url::ParseError> {
    match url_parse_result(websocket_address(host)) {
        Ok(_) => Ok(url_with_path(websocket_address(host), path)),
        Err(e) => Err(e),
    }
}

proof fn lemma_websocket_address_len(host: Seq<char>)
    ensures
        websocket_address(host).len() <= host.len() + 6,
{
}

/// The URL of a configuration: its websocket address, parsed, with the configured path.
pub fn build_url(config: &WsConfig) -> (r: WsResult<String>)
    requires
        config_fits(config.host@, config.path@),
    ensures
        match built_url(config.host@, config.path@) {
            Ok(u) => r matches Ok(s) && s@ == u,
            Err(e) => r matches Err(x) && x@ == ErrorView::Url(e),
        },
{
    let candidate = websocket_address_of(config.host.as_str());
    proof {
        lemma_websocket_address_len(config.host@);
    }
    match parse_url(candidate.as_str()) {
        Err(e) => Err(WsClientError::Url(e)),
        Ok(_) => Ok(set_url_path(candidate.as_str(), config.path.as_str())),
    }
}

/// A builder's settings, as plain values.
pub struct BuilderView {
    pub rest_base_path: Seq<char>,
    pub host: Seq<char>,
    pub path: Seq<char>,
    pub order_books: Seq<MarketId>,
    pub accounts: Seq<AccountId>,
}

/// Collects the subscriptions and the endpoint of a websocket client.
pub struct WsBuilder {
    rest_base_path: String,
    subscriptions: SubscriptionSet,
    config: WsConfig,
}

impl View for WsBuilder {
    type V = BuilderView;

    closed spec fn view(&self) -> BuilderView {
        BuilderView {
            rest_base_path: self.rest_base_path@,
            host: self.config.host@,
            path: self.config.path@,
            order_books: self.subscriptions.order_books@,
            accounts: self.subscriptions.accounts@,
        }
    }
}

impl WsBuilder {
    /// A builder for the client's websocket configuration; with no host of
    /// its own it connects to the REST base address.
    pub fn new(websocket_config: WsConfig, rest_base_path: &str) -> (b: WsBuilder)
        ensures
            b@.rest_base_path == rest_base_path@,
            b@.host == effective_host(websocket_config.host@, rest_base_path@),
            b@.path == websocket_config.path@,
            b@.order_books == Seq::<MarketId>::empty(),
            b@.accounts == Seq::<AccountId>::empty(),
    {
        let mut config = websocket_config;
        if config.host.as_str().unicode_len() == 0 {
            config.host = String::from_str(rest_base_path);
        }
        WsBuilder {
            rest_base_path: String::from_str(rest_base_path),
            subscriptions: SubscriptionSet::new(),
            config,
        }
    }

    pub fn subscribe_order_book(self, market: MarketId) -> (b: WsBuilder)
        ensures
            b@ == (BuilderView { order_books: self@.order_books.push(market), ..self@ }),
    {
        let mut b = self;
        b.subscriptions.add_order_book(market);
        b
    }

    pub fn subscribe_order_books(self, markets: Vec<MarketId>) -> (b: WsBuilder)
        ensures
            b@ == (BuilderView { order_books: self@.order_books + markets@, ..self@ }),
    {
        let mut b = self;
        b.subscriptions.extend_order_books(markets);
        b
    }

    pub fn subscribe_account(self, account: AccountId) -> (b: WsBuilder)
        ensures
            b@ == (BuilderView { accounts: self@.accounts.push(account), ..self@ }),
    {
        let mut b = self;
        b.subscriptions.add_account(account);
        b
    }

    /// The client for these settings; fails without subscriptions or when
    /// the address does not parse.
    pub fn build(self) -> (r: WsResult<WsClient>)
        requires
            self@.order_books.len() + self@.accounts.len() > 0 ==> config_fits(
                effective_host(self@.host, self@.rest_base_path),
                self@.path,
            ),
        ensures
            client_built(
                r,
                self@.rest_base_path,
                self@.host,
                self@.path,
                self@.order_books,
                self@.accounts,
            ),
    {
        WsClient::new(self.rest_base_path.as_str(), self.config, self.subscriptions)
    }
}

/// A client's settings, as plain values.
pub struct ClientView {
    pub host: Seq<char>,
    pub path: Seq<char>,
    pub order_books: Seq<MarketId>,
    pub accounts: Seq<AccountId>,
    pub url: Seq<char>,
}

/// A websocket client ready to connect: its endpoint URL and its subscriptions.
pub struct WsClient {
    config: WsConfig,
    subscriptions: SubscriptionSet,
    url: String,
}

impl View for WsClient {
    type V = ClientView;

    closed spec fn view(&self) -> ClientView {
        ClientView {
            host: self.config.host@,
            path: self.config.path@,
            order_books: self.subscriptions.order_books@,
            accounts: self.subscriptions.accounts@,
            url: self.url@,
        }
    }
}

/// What building a client gives: no subscription is an error, so is an
/// address that does not parse; otherwise a client with the effective host,
/// the path, the subscriptions and the built URL.
pub open spec fn client_built(
    r: WsResult<WsClient>,
    rest_base_path: Seq<char>,
    host: Seq<char>,
    path: Seq<char>,
    order_books: Seq<MarketId>,
    accounts: Seq<AccountId>,
) -> bool {
    if order_books.len() == 0 && accounts.len() == 0 {
        r matches Err(WsClientError::EmptySubscriptions)
    } else {
        match built_url(effective_host(host, rest_base_path), path) {
            Ok(u) => r matches Ok(c) && c@ == ClientView {
                host: effective_host(host, rest_base_path),
                path,
                order_books,
                accounts,
                url: u,
            },
            Err(e) => r matches Err(x) && x@ == ErrorView::Url(e),
        }
    }
}

impl WsClient {
    fn new(rest_base_path: &str, config: WsConfig, subscriptions: SubscriptionSet) -> (r: WsResult<
        WsClient,
    >)
        requires
            subscriptions.order_books@.len() + subscriptions.accounts@.len() > 0 ==> config_fits(
                effective_host(config.host@, rest_base_path@),
                config.path@,
            ),
        ensures
            client_built(
                r,
                rest_base_path@,
                config.host@,
                config.path@,
                subscriptions.order_books@,
                subscriptions.accounts@,
            ),
    {
        if subscriptions.is_empty() {
            return Err(WsClientError::EmptySubscriptions);
        }
        let mut config = config;
        if config.host.as_str().unicode_len() == 0 {
            config.host = String::from_str(rest_base_path);
        }
        let url = build_url(&config)?;
        Ok(WsClient { config, subscriptions, url })
    }

    /// The websocket URL this client connects to.
    pub fn url(&self) -> (u: &str)
        ensures
            u@ == self@.url,
    {
        self.url.as_str()
    }

    pub fn subscriptions(&self) -> (s: &SubscriptionSet)
        ensures
            s.order_books@ == self@.order_books,
            s.accounts@ == self@.accounts,
    {
        &self.subscriptions
    }

    /// The connection state of this client once its socket is open: its URL
    /// and subscriptions, and nothing received yet.
    pub fn connected(self) -> (c: WsConnection)
        ensures
            c@.url == self@.url,
            c@.order_books == self@.order_books,
            c@.accounts == self@.accounts,
            c@.books == Map::<i32, BookView>::empty(),
            c@.account_events == Map::<i64, Seq<char>>::empty(),
            c@.reconnect_attempts == 0,
    {
        WsConnection::new(self.url, self.subscriptions)
    }
}

/// Building a client fails for want of subscriptions exactly when it has
/// neither an order book nor an account; one subscription of either kind
/// and an address that parses give a client with those subscriptions.
pub proof fn lemma_client_needs_one_subscription(
    r: WsResult<WsClient>,
    rest_base_path: Seq<char>,
    host: Seq<char>,
    path: Seq<char>,
    order_books: Seq<MarketId>,
    accounts: Seq<AccountId>,
)
    requires
        client_built(r, rest_base_path, host, path, order_books, accounts),
    ensures
        (r matches Err(WsClientError::EmptySubscriptions)) <==> (order_books.len() == 0
            && accounts.len() == 0),
        order_books.len() + accounts.len() > 0 && url_parse_result(
            websocket_address(effective_host(host, rest_base_path)),
        ) is Ok ==> (r matches Ok(c) && c@.order_books == order_books && c@.accounts
            == accounts),
{
}

/// A configured host is used as it is; only an empty one is replaced by the
/// REST base address.
pub proof fn lemma_configured_host_is_kept(host: Seq<char>, rest_base_path: Seq<char>)
    ensures
        host.len() > 0 ==> effective_host(host, rest_base_path) == host,
        host.len() == 0 ==> effective_host(host, rest_base_path) == rest_base_path,
{
}

/// A client built with a non-empty host connects to that host: its URL is the
/// websocket address of the configured host with the configured path.
pub proof fn lemma_client_uses_configured_host(
    r: WsResult<WsClient>,
    rest_base_path: Seq<char>,
    host: Seq<char>,
    path: Seq<char>,
    order_books: Seq<MarketId>,
    accounts: Seq<AccountId>,
)
    requires
        client_built(r, rest_base_path, host, path, order_books, accounts),
        host.len() > 0,
    ensures
        r matches Ok(c) ==> (c@.host == host && c@.url == url_with_path(
            websocket_address(host),
            path,
        )),
{
}

} // verus!
