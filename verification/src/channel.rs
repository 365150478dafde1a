use vstd::prelude::*;

use crate::decimal::{
    int_decimal, is_digit, lemma_decimal_chars, lemma_decimal_roundtrip, parse_decimal_in_range,
    parse_in_range, push_decimal,
};
use crate::error::{WsClientError, WsResult};
use crate::types::{AccountId, MarketId};

verus! {

/// Characters that separate the parts of a channel name.
pub open spec fn is_channel_separator(c: char) -> bool {
    c == '/' || c == ':'
}

/// The part of a channel name after its last `/` or `:`; the whole name when it has neither.
pub open spec fn last_segment(s: Seq<char>) -> Seq<char>
    decreases s.len(),
{
    if s.len() == 0 {
        s
    } else if is_channel_separator(s.last()) {
        Seq::empty()
    } else {
        last_segment(s.drop_last()).push(s.last())
    }
}

/// The market that a channel name designates, if its last part is an `i32` numeral.
pub open spec fn channel_market(channel: Seq<char>) -> Option<i32> {
    match parse_in_range(last_segment(channel), i32::MIN as int, i32::MAX as int) {
        Some(v) => Some(v as i32),
        None => None,
    }
}

/// The account that a channel name designates, if its last part is an `i64` numeral.
pub open spec fn channel_account(channel: Seq<char>) -> Option<i64> {
    match parse_in_range(last_segment(channel), i64::MIN as int, i64::MAX as int) {
        Some(v) => Some(v as i64),
        None => None,
    }
}

/// `order_book/` followed by the market number.
pub open spec fn order_book_channel_name(market: i32) -> Seq<char> {
    seq!['o', 'r', 'd', 'e', 'r', '_', 'b', 'o', 'o', 'k', '/'] + int_decimal(market as int)
}

/// `account_all/` followed by the account index.
pub open spec fn account_channel_name(account: i64) -> Seq<char> {
    seq!['a', 'c', 'c', 'o', 'u', 'n', 't', '_', 'a', 'l', 'l', '/'] + int_decimal(account as int)
}

/// The error returned for a channel name that designates nothing.
pub open spec fn is_invalid_channel_error(e: WsClientError, channel: Seq<char>) -> bool {
    e matches WsClientError::InvalidChannel(c) && c@ == channel
}

proof fn lemma_last_segment_append(a: Seq<char>, b: Seq<char>)
    requires
        forall|i: int| 0 <= i < b.len() ==> !is_channel_separator(#[trigger] b[i]),
    ensures
        last_segment(a + b) == last_segment(a) + b,
    decreases b.len(),
{
    if b.len() == 0 {
        assert(a + b =~= a);
        assert(last_segment(a) + b =~= last_segment(a));
    } else {
        let b0 = b.drop_last();
        lemma_last_segment_append(a, b0);
        assert((a + b).drop_last() =~= a + b0);
        assert((a + b).last() == b.last());
        assert(last_segment(a) + b =~= (last_segment(a) + b0).push(b.last()));
    }
}

proof fn lemma_segment_after_prefix(prefix: Seq<char>, n: int)
    requires
        prefix.len() > 0,
        is_channel_separator(prefix.last()),
    ensures
        last_segment(prefix + int_decimal(n)) == int_decimal(n),
{
    lemma_decimal_chars(n);
    let b = int_decimal(n);
    assert forall|i: int| 0 <= i < b.len() implies !is_channel_separator(#[trigger] b[i]) by {
        assert(is_digit(b[i]) || b[i] == '-');
    }
    lemma_last_segment_append(prefix, b);
    assert(last_segment(prefix) =~= Seq::<char>::empty());
    assert(Seq::<char>::empty() + b =~= b);
}

/// A market's order-book channel names that market again.
pub proof fn lemma_order_book_channel_roundtrip(market: i32)
    ensures
        channel_market(order_book_channel_name(market)) == Some(market),
{
    lemma_segment_after_prefix(seq!['o', 'r', 'd', 'e', 'r', '_', 'b', 'o', 'o', 'k', '/'], market as int);
    lemma_decimal_roundtrip(market as int);
}

/// An account's channel names that account again.
pub proof fn lemma_account_channel_roundtrip(account: i64)
    ensures
        channel_account(account_channel_name(account)) == Some(account),
{
    lemma_segment_after_prefix(
        seq!['a', 'c', 'c', 'o', 'u', 'n', 't', '_', 'a', 'l', 'l', '/'],
        account as int,
    );
    lemma_decimal_roundtrip(account as int);
}

fn is_separator(c: char) -> (b: bool)
    ensures
        b == is_channel_separator(c),
{
    c == '/' || c == ':'
}

/// The part of `channel` after its last `/` or `:`.
pub fn last_channel_segment(channel: &str) -> (segment: &str)
    ensures
        segment@ == last_segment(channel@),
{
    let len = channel.unicode_len();
    let mut i: usize = len;
    proof {
        assert(channel@.subrange(0, len as int) =~= channel@);
        assert(channel@ + channel@.subrange(len as int, len as int) =~= channel@);
    }
    while i > 0 && !is_separator(channel.get_char(i - 1))
        invariant
            len == channel@.len(),
            i <= len,
            last_segment(channel@) == last_segment(channel@.subrange(0, i as int))
                + channel@.subrange(i as int, len as int),
        decreases i,
    {
        proof {
            let whole = channel@.subrange(0, i as int);
            assert(whole.drop_last() =~= channel@.subrange(0, i - 1));
            assert(whole.last() == channel@[i - 1]);
            assert(channel@.subrange(i - 1, len as int) =~= seq![channel@[i - 1]]
                + channel@.subrange(i as int, len as int));
            assert(last_segment(channel@.subrange(0, i - 1)).push(channel@[i - 1])
                + channel@.subrange(i as int, len as int) =~= last_segment(
                channel@.subrange(0, i - 1),
            ) + channel@.subrange(i - 1, len as int));
        }
        i = i - 1;
    }
    proof {
        let head = channel@.subrange(0, i as int);
        if i > 0 {
            assert(head.last() == channel@[i - 1]);
            assert(last_segment(head) =~= Seq::<char>::empty());
        } else {
            assert(head =~= Seq::<char>::empty());
        }
        assert(last_segment(head) + channel@.subrange(i as int, len as int)
            =~= channel@.subrange(i as int, len as int));
    }
    channel.substring_char(i, len)
}

fn invalid_channel(channel: &str) -> (e: WsClientError)
    ensures
        is_invalid_channel_error(e, channel@),
{
    WsClientError::InvalidChannel(String::from_str(channel))
}

/// The market of an order-book channel such as `order_book/1` or `order_book:1`.
pub fn parse_market_id(channel: &str) -> (r: WsResult<i32>)
    ensures
        match channel_market(channel@) {
            Some(m) => r == Ok::<i32, WsClientError>(m),
            None => r matches Err(e) && is_invalid_channel_error(e, channel@),
        },
{
    let segment = last_channel_segment(channel);
    match parse_decimal_in_range(segment, i32::MIN as i64, i32::MAX as i64) {
        Some(v) => Ok(v as i32),
        None => Err(invalid_channel(channel)),
    }
}

/// The account of an account channel such as `account_all/7` or `account_all:7`.
pub fn parse_account_index(channel: &str) -> (r: WsResult<i64>)
    ensures
        match channel_account(channel@) {
            Some(a) => r == Ok::<i64, WsClientError>(a),
            None => r matches Err(e) && is_invalid_channel_error(e, channel@),
        },
{
    let segment = last_channel_segment(channel);
    match parse_decimal_in_range(segment, i64::MIN, i64::MAX) {
        Some(v) => Ok(v),
        None => Err(invalid_channel(channel)),
    }
}

/// The channel that carries the order book of `market`.
pub fn order_book_channel(market: MarketId) -> (channel: String)
    ensures
        channel@ == order_book_channel_name(market.0),
{
    proof { reveal_strlit("order_book/"); }
    let mut channel = String::from_str("order_book/");
    push_decimal(&mut channel, market.0 as i64);
    channel
}

/// The channel that carries the events of `account`.
pub fn account_channel(account: AccountId) -> (channel: String)
    ensures
        channel@ == account_channel_name(account.0),
{
    proof { reveal_strlit("account_all/"); }
    let mut channel = String::from_str("account_all/");
    push_decimal(&mut channel, account.0);
    channel
}

} // verus!
