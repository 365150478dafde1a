use vstd::prelude::*;

verus! {

pub open spec fn https_scheme() -> Seq<char> {
    seq!['h', 't', 't', 'p', 's', ':', '/', '/']
}

pub open spec fn http_scheme() -> Seq<char> {
    seq!['h', 't', 't', 'p', ':', '/', '/']
}

pub open spec fn wss_scheme() -> Seq<char> {
    seq!['w', 's', 's', ':', '/', '/']
}

pub open spec fn ws_scheme() -> Seq<char> {
    seq!['w', 's', ':', '/', '/']
}

/// `s` begins with `p`.
pub open spec fn has_prefix(s: Seq<char>, p: Seq<char>) -> bool {
    p.len() <= s.len() && s.subrange(0, p.len() as int) == p
}

/// The websocket address for a host: `https://` becomes `wss://`, `http://`
/// becomes `ws://`, a `ws://` or `wss://` address is kept, and anything else
/// is taken as a host name reached over `wss://`.
pub open spec fn websocket_address(host: Seq<char>) -> Seq<char> {
    if has_prefix(host, https_scheme()) {
        wss_scheme() + host.skip(8)
    } else if has_prefix(host, http_scheme()) {
        ws_scheme() + host.skip(7)
    } else if has_prefix(host, ws_scheme()) || has_prefix(host, wss_scheme()) {
        host
    } else {
        wss_scheme() + host
    }
}

/// Text lengths up to which building an address cannot outgrow the 4 GiB
/// that the `url` crate can hold: a character takes at most four bytes and a
/// percent-encoded byte three characters, so sixteen times the input stays
/// below `u32::MAX`.
pub open spec fn address_fits(address: Seq<char>, path: Seq<char>) -> bool {
    address.len() + path.len() <= 0x0FFF_FFFF
}

/// What `url::Url::parse` makes of a text: the serialization of the parsed
/// URL, or the error it reports when the text is not an absolute URL.
pub uninterp spec fn url_parse_result(input: Seq<char>) -> Result<Seq<char>, url::ParseError>;

/// The serialization of the URL parsed from `input` after `url::Url::set_path(path)`.
pub uninterp spec fn url_with_path(input: Seq<char>, path: Seq<char>) -> Seq<char>;

/// Calls `url::Url::parse` and hands back the serialization of the parsed URL,
/// or the parse error. The contract names both.
#[verifier::external_body]
pub(crate) fn parse_url(input: &str) -> (r: Result<String, url::ParseError>)
    ensures
        r matches Ok(s) ==> url_parse_result(input@) matches Ok(v) && v == s@,
        r matches Err(e) ==> url_parse_result(input@) matches Err(f) && f == e,
{
    match url::Url::parse(input) {
        Ok(url) => Ok(String::from(url)),
        Err(e) => Err(e),
    }
}

/// Calls `url::Url::set_path` on the URL parsed from `input` (the text is
/// turned into a `Url` by `url::Url::parse`, which the precondition says
/// succeeds) and hands back the serialization. The contract names the result;
/// the size bound keeps `set_path` clear of its 4 GiB panic.
#[verifier::external_body]
pub(crate) fn set_url_path(input: &str, path: &str) -> (r: String)
    requires
        url_parse_result(input@) is Ok,
        address_fits(input@, path@),
    ensures
        r@ == url_with_path(input@, path@),
{
    let mut url = url::Url::parse(input).unwrap();
    url.set_path(path);
    String::from(url)
}

/// `s` begins with `p`.
pub fn starts_with(s: &str, p: &str) -> (b: bool)
    ensures
        b == has_prefix(s@, p@),
{
    let n = s.unicode_len();
    let m = p.unicode_len();
    if m > n {
        return false;
    }
    let mut i: usize = 0;
    while i < m
        invariant
            m == p@.len(),
            n == s@.len(),
            m <= n,
            i <= m,
            forall|j: int| 0 <= j < i ==> s@[j] == p@[j],
        decreases m - i,
    {
        if s.get_char(i) != p.get_char(i) {
            proof {
                assert(s@.subrange(0, m as int)[i as int] != p@[i as int]);
            }
            return false;
        }
        i = i + 1;
    }
    proof {
        assert(s@.subrange(0, m as int) =~= p@);
    }
    true
}

fn scheme_and_rest(scheme: &str, host: &str, from: usize) -> (r: String)
    requires
        from <= host@.len(),
    ensures
        r@ == scheme@ + host@.skip(from as int),
{
    let mut r = String::from_str(scheme);
    let len = host.unicode_len();
    r.append(host.substring_char(from, len));
    proof {
        assert(host@.subrange(from as int, len as int) =~= host@.skip(from as int));
    }
    r
}

/// Rewrites a REST base address or a bare host name into a websocket address.
pub fn websocket_address_of(host: &str) -> (r: String)
    ensures
        r@ == websocket_address(host@),
        has_prefix(r@, ws_scheme()) || has_prefix(r@, wss_scheme()),
{
    proof {
        reveal_strlit("https://");
        reveal_strlit("http://");
        reveal_strlit("wss://");
        reveal_strlit("ws://");
        assert("https://"@ =~= https_scheme());
        assert("http://"@ =~= http_scheme());
        assert("wss://"@ =~= wss_scheme());
        assert("ws://"@ =~= ws_scheme());
    }
    let r = if starts_with(host, "https://") {
        scheme_and_rest("wss://", host, 8)
    } else if starts_with(host, "http://") {
        scheme_and_rest("ws://", host, 7)
    } else if starts_with(host, "ws://") || starts_with(host, "wss://") {
        String::from_str(host)
    } else {
        scheme_and_rest("wss://", host, 0)
    };
    proof {
        assert(host@.skip(0) =~= host@);
        if has_prefix(host@, https_scheme()) || !(has_prefix(host@, http_scheme())
            || has_prefix(host@, ws_scheme()) || has_prefix(host@, wss_scheme())) {
            assert(r@.subrange(0, 6) =~= wss_scheme());
        } else if has_prefix(host@, http_scheme()) {
            assert(r@.subrange(0, 5) =~= ws_scheme());
        }
    }
    r
}


/// The two texts are the same.
pub fn text_equals(a: &str, b: &str) -> (r: bool)
    ensures
        r == (a@ == b@),
{
    let n = a.unicode_len();
    if n != b.unicode_len() {
        return false;
    }
    let r = starts_with(a, b);
    proof {
        assert(a@.subrange(0, n as int) =~= a@);
    }
    r
}

/// A bare host name, without a scheme, is reached over `wss://`; an `https://`
/// or `http://` address keeps its host and path under `wss://` or `ws://`.
pub proof fn lemma_websocket_address_schemes(host: Seq<char>)
    ensures
        !has_prefix(host, https_scheme()) && !has_prefix(host, http_scheme()) && !has_prefix(
            host,
            ws_scheme(),
        ) && !has_prefix(host, wss_scheme()) ==> websocket_address(host) == wss_scheme() + host,
        has_prefix(host, https_scheme()) ==> websocket_address(host) == wss_scheme() + host.skip(
            8,
        ),
        has_prefix(host, http_scheme()) ==> websocket_address(host) == ws_scheme() + host.skip(7),
        has_prefix(host, ws_scheme()) || has_prefix(host, wss_scheme()) ==> websocket_address(host)
            == host,
{
    if has_prefix(host, https_scheme()) {
        assert(host[4] == 's');
        assert(!has_prefix(host, http_scheme())) by {
            if has_prefix(host, http_scheme()) {
                assert(host.subrange(0, 7)[4] == ':');
                assert(host.subrange(0, 8)[4] == 's');
            }
        }
        assert(!has_prefix(host, ws_scheme())) by {
            if has_prefix(host, ws_scheme()) {
                assert(host.subrange(0, 5)[0] == 'w');
                assert(host.subrange(0, 8)[0] == 'h');
            }
        }
        assert(!has_prefix(host, wss_scheme())) by {
            if has_prefix(host, wss_scheme()) {
                assert(host.subrange(0, 6)[0] == 'w');
                assert(host.subrange(0, 8)[0] == 'h');
            }
        }
    }
    if has_prefix(host, http_scheme()) {
        assert(!has_prefix(host, ws_scheme())) by {
            if has_prefix(host, ws_scheme()) {
                assert(host.subrange(0, 5)[0] == 'w');
                assert(host.subrange(0, 7)[0] == 'h');
            }
        }
        assert(!has_prefix(host, wss_scheme())) by {
            if has_prefix(host, wss_scheme()) {
                assert(host.subrange(0, 6)[0] == 'w');
                assert(host.subrange(0, 7)[0] == 'h');
            }
        }
    }
}

} // verus!
