use crate::decimal::{dec_digits, push_char, push_dec};
use crate::uint256::Uint256;
use vstd::prelude::*;

verus! {

/// A parsed URL as its scheme and its serialization.
pub type UrlView = (Seq<char>, Seq<char>);

/// A provider as its network, REST URL and optional WebSocket URL.
pub type ProviderView = (Seq<char>, UrlView, Option<UrlView>);

/// A URL that parsed, as the scheme that the provider rules read and the
/// serialization that is handed on.
#[derive(Clone, Debug)]
pub struct EndpointUrl {
    pub scheme: String,
    pub href: String,
}

/// An Ethereum JSON-RPC provider for one network.
#[derive(Clone, Debug)]
pub struct Provider {
    pub network: String,
    pub rest_url: EndpointUrl,
    pub websocket_url: Option<EndpointUrl>,
}

/// The providers of every network, in the order given.
#[derive(Clone, Debug)]
pub struct EthereumProviders(pub Vec<Provider>);

impl View for EndpointUrl {
    type V = UrlView;

    open spec fn view(&self) -> UrlView {
        (self.scheme@, self.href@)
    }
}

impl View for Provider {
    type V = ProviderView;

    open spec fn view(&self) -> ProviderView {
        (
            self.network@,
            self.rest_url@,
            match self.websocket_url {
                Some(u) => Some(u@),
                None => None,
            },
        )
    }
}

/// What `url::Url::parse` gives for a string: the scheme and serialization
/// of the URL, or the text of the parse error.
pub uninterp spec fn url_parse(s: Seq<char>) -> Result<UrlView, Seq<char>>;

/// Relies on `url::Url::parse`, `Url::scheme` and the `Display` of `Url` and
/// of `url::ParseError`.
#[verifier::external_body]
fn parse_url(s: &str) -> (r: Result<EndpointUrl, String>)
    ensures
        match r {
            Ok(u) => url_parse(s@) == Ok::<UrlView, Seq<char>>(u@),
            Err(e) => url_parse(s@) == Err::<UrlView, Seq<char>>(e@),
        },
{
    match url::Url::parse(s) {
        Ok(u) => Ok(EndpointUrl { scheme: u.scheme().to_string(), href: u.to_string() }),
        Err(e) => Err(e.to_string()),
    }
}

/// The pieces of `s` between occurrences of `c`; one piece when `c` does
/// not occur.
pub open spec fn split_on(s: Seq<char>, c: char) -> Seq<Seq<char>>
    decreases s.len(),
{
    if s.len() == 0 {
        seq![Seq::empty()]
    } else {
        let parts = split_on(s.drop_last(), c);
        if s.last() == c {
            parts.push(Seq::empty())
        } else {
            parts.update(parts.len() - 1, parts.last().push(s.last()))
        }
    }
}

/// Index of the first `c` in `s`, or its length.
pub open spec fn first_index(s: Seq<char>, c: char) -> nat
    decreases s.len(),
{
    if s.len() == 0 {
        0
    } else if s[0] == c {
        0
    } else {
        1 + first_index(s.drop_first(), c)
    }
}

pub open spec fn usage() -> Seq<char> {
    "networks syntax: <network>=<rest-url>(,<ws-url>)?;..."@
}

/// Parses each piece as a URL; the first failure is the error.
pub open spec fn parse_all(pieces: Seq<Seq<char>>) -> Result<Seq<UrlView>, Seq<char>>
    decreases pieces.len(),
{
    if pieces.len() == 0 {
        Ok(Seq::empty())
    } else {
        match parse_all(pieces.drop_last()) {
            Err(e) => Err(e),
            Ok(urls) => match url_parse(pieces.last()) {
                Ok(u) => Ok(urls.push(u)),
                Err(e) => Err(e),
            },
        }
    }
}

pub open spec fn is_rest_scheme(s: Seq<char>) -> bool {
    s == "http"@ || s == "https"@
}

pub open spec fn is_ws_scheme(s: Seq<char>) -> bool {
    s == "ws"@ || s == "wss"@
}

/// Sorts URLs into the REST and the WebSocket one; a second of a kind, or
/// another scheme, is an error.
pub open spec fn sort_urls(urls: Seq<UrlView>, provider: Seq<char>) -> Result<
    (Option<UrlView>, Option<UrlView>),
    Seq<char>,
>
    decreases urls.len(),
{
    if urls.len() == 0 {
        Ok((None, None))
    } else {
        match sort_urls(urls.drop_last(), provider) {
            Err(e) => Err(e),
            Ok((rest, ws)) => {
                let u = urls.last();
                if is_rest_scheme(u.0) {
                    if rest is Some {
                        Err("Multiple REST API URLs found for "@ + provider + ", expected 1"@)
                    } else {
                        Ok((Some(u), ws))
                    }
                } else if is_ws_scheme(u.0) {
                    if ws is Some {
                        Err("Multiple WebSocket API URLs found for "@ + provider + ", expected 1"@)
                    } else {
                        Ok((rest, Some(u)))
                    }
                } else {
                    Err("URL scheme not supported: "@ + u.0)
                }
            },
        }
    }
}

/// One provider, written `<network>=<urls>` with one or two URLs split by
/// commas. Text after a second '=' is ignored.
pub open spec fn provider_spec(p: Seq<char>) -> Result<ProviderView, Seq<char>> {
    let k = first_index(p, '=');
    if k >= p.len() {
        Err("Expected URLs, found none"@)
    } else {
        let rest = p.skip((k + 1) as int);
        let list = rest.take(first_index(rest, '=') as int);
        match parse_all(split_on(list, ',')) {
            Err(e) => Err(e),
            Ok(urls) => if urls.len() > 2 {
                Err("Expected 1-2 URLS per provider, found "@ + dec_digits(urls.len()))
            } else {
                match sort_urls(urls, p) {
                    Err(e) => Err(e),
                    Ok((rest_url, ws)) => match rest_url {
                        None => Err("REST API URL not found"@),
                        Some(r) => Ok((p.take(k as int), r, ws)),
                    },
                }
            },
        }
    }
}

/// Every provider of a list split by ';', or the first error.
pub open spec fn providers_of(pieces: Seq<Seq<char>>) -> Result<Seq<ProviderView>, Seq<char>>
    decreases pieces.len(),
{
    if pieces.len() == 0 {
        Ok(Seq::empty())
    } else {
        match providers_of(pieces.drop_last()) {
            Err(e) => Err(e),
            Ok(ps) => match provider_spec(pieces.last()) {
                Ok(p) => Ok(ps.push(p)),
                Err(e) => Err(e),
            },
        }
    }
}

/// What parsing a provider list gives: the providers, or the usage line, a
/// newline and the first error.
pub open spec fn providers_spec(s: Seq<char>) -> Result<Seq<ProviderView>, Seq<char>> {
    match providers_of(split_on(s, ';')) {
        Ok(ps) => Ok(ps),
        Err(e) => Err(usage() + seq!['\n'] + e),
    }
}

pub open spec fn views_of_strings(v: Seq<String>) -> Seq<Seq<char>> {
    v.map_values(|x: String| x@)
}

fn split_string(s: &str, c: char) -> (r: Vec<String>)
    ensures
        views_of_strings(r@) == split_on(s@, c),
{
    let n = s.unicode_len();
    let mut parts: Vec<String> = Vec::new();
    let mut cur = String::new();
    let mut i: usize = 0;
    assert(s@.take(0) == Seq::<char>::empty());
    while i < n
        invariant
            n == s@.len(),
            i <= n,
            views_of_strings(parts@).push(cur@) == split_on(s@.take(i as int), c),
        decreases n - i,
    {
        let ch = s.get_char(i);
        let ghost t = s@.take(i + 1);
        assert(t.drop_last() == s@.take(i as int));
        assert(t.last() == ch);
        let ghost before = split_on(s@.take(i as int), c);
        if ch == c {
            let done = cur;
            parts.push(done);
            cur = String::new();
            assert(views_of_strings(parts@) == before);
        } else {
            let ghost pv = views_of_strings(parts@);
            push_char(&mut cur, ch);
            assert(views_of_strings(parts@).push(cur@) == before.update(
                before.len() - 1,
                before.last().push(ch),
            ));
        }
        i = i + 1;
    }
    assert(s@.take(n as int) == s@);
    parts.push(cur);
    parts
}

pub open spec fn url_views(v: Seq<EndpointUrl>) -> Seq<UrlView> {
    v.map_values(|u: EndpointUrl| u@)
}

pub open spec fn opt_view(u: Option<EndpointUrl>) -> Option<UrlView> {
    match u {
        Some(x) => Some(x@),
        None => None,
    }
}

pub open spec fn provider_views(v: Seq<Provider>) -> Seq<ProviderView> {
    v.map_values(|p: Provider| p@)
}

proof fn lemma_first_index(s: Seq<char>, c: char, i: int)
    requires
        0 <= i <= s.len(),
        forall|j: int| 0 <= j < i ==> s[j] != c,
        i == s.len() || s[i] == c,
    ensures
        first_index(s, c) == i,
    decreases s.len(),
{
    if s.len() > 0 && s[0] != c {
        let t = s.drop_first();
        assert forall|j: int| 0 <= j < i - 1 implies t[j] != c by {
            assert(t[j] == s[j + 1]);
        }
        if i < s.len() {
            assert(t[i - 1] == s[i]);
        }
        lemma_first_index(t, c, i - 1);
    }
}

fn find_char(s: &str, c: char) -> (r: usize)
    ensures
        r == first_index(s@, c),
        r <= s@.len(),
{
    let n = s.unicode_len();
    let mut i: usize = 0;
    while i < n && s.get_char(i) != c
        invariant
            n == s@.len(),
            i <= n,
            forall|j: int| 0 <= j < i ==> s@[j] != c,
        decreases n - i,
    {
        i = i + 1;
    }
    proof {
        lemma_first_index(s@, c, i as int);
    }
    i
}

fn copy_url(u: &EndpointUrl) -> (r: EndpointUrl)
    ensures
        r@ == u@,
{
    EndpointUrl { scheme: u.scheme.clone(), href: u.href.clone() }
}

fn parse_urls(pieces: &Vec<String>) -> (r: Result<Vec<EndpointUrl>, String>)
    ensures
        match r {
            Ok(v) => parse_all(views_of_strings(pieces@)) == Ok::<Seq<UrlView>, Seq<char>>(
                url_views(v@),
            ),
            Err(e) => parse_all(views_of_strings(pieces@)) == Err::<Seq<UrlView>, Seq<char>>(
                e@,
            ),
        },
{
    let mut out: Vec<EndpointUrl> = Vec::new();
    let mut i: usize = 0;
    assert(views_of_strings(pieces@.take(0)) == Seq::<Seq<char>>::empty());
    assert(url_views(out@) == Seq::<UrlView>::empty());
    while i < pieces.len()
        invariant
            i <= pieces@.len(),
            parse_all(views_of_strings(pieces@.take(i as int))) == Ok::<Seq<UrlView>, Seq<char>>(
                url_views(out@),
            ),
        decreases pieces@.len() - i,
    {
        let ghost t = views_of_strings(pieces@.take(i + 1));
        assert(t.drop_last() == views_of_strings(pieces@.take(i as int)));
        assert(t.last() == pieces@[i as int]@);
        match parse_url(pieces[i].as_str()) {
            Ok(u) => {
                let ghost before = out@;
                assert(url_parse(t.last()) == Ok::<UrlView, Seq<char>>(u@));
                out.push(u);
                assert(out@.drop_last() == before);
                assert(url_views(out@) == url_views(before).push(u@));
                assert(parse_all(t) == Ok::<Seq<UrlView>, Seq<char>>(url_views(before).push(u@)));
            },
            Err(e) => {
                proof {
                    assert(views_of_strings(pieces@).take(i + 1) == t);
                    lemma_parse_all_error(views_of_strings(pieces@), i + 1);
                }
                return Err(e);
            },
        }
        i = i + 1;
    }
    assert(pieces@.take(i as int) == pieces@);
    Ok(out)
}

proof fn lemma_parse_all_error(pieces: Seq<Seq<char>>, i: int)
    requires
        0 <= i <= pieces.len(),
        parse_all(pieces.take(i)) is Err,
    ensures
        parse_all(pieces) == parse_all(pieces.take(i)),
    decreases pieces.len(),
{
    if i < pieces.len() {
        assert(pieces.drop_last().take(i) == pieces.take(i));
        lemma_parse_all_error(pieces.drop_last(), i);
    } else {
        assert(pieces.take(i) == pieces);
    }
}

fn scheme_is(u: &EndpointUrl, a: &str, b: &str) -> (r: bool)
    ensures
        r == (u.scheme@ == a@ || u.scheme@ == b@),
{
    let x = String::from_str(a);
    let y = String::from_str(b);
    u.scheme == x || u.scheme == y
}

fn sort_urls_exec(urls: &Vec<EndpointUrl>, provider: &str) -> (r: Result<
    (Option<EndpointUrl>, Option<EndpointUrl>),
    String,
>)
    ensures
        match r {
            Ok((a, b)) => sort_urls(url_views(urls@), provider@) == Ok::<
                (Option<UrlView>, Option<UrlView>),
                Seq<char>,
            >((opt_view(a), opt_view(b))),
            Err(e) => sort_urls(url_views(urls@), provider@) == Err::<
                (Option<UrlView>, Option<UrlView>),
                Seq<char>,
            >(e@),
        },
{
    let mut rest: Option<EndpointUrl> = None;
    let mut ws: Option<EndpointUrl> = None;
    let mut i: usize = 0;
    assert(url_views(urls@.take(0)) == Seq::<UrlView>::empty());
    while i < urls.len()
        invariant
            i <= urls@.len(),
            sort_urls(url_views(urls@.take(i as int)), provider@) == Ok::<
                (Option<UrlView>, Option<UrlView>),
                Seq<char>,
            >((opt_view(rest), opt_view(ws))),
        decreases urls@.len() - i,
    {
        let ghost t = url_views(urls@.take(i + 1));
        assert(t.drop_last() == url_views(urls@.take(i as int)));
        assert(t.last() == urls@[i as int]@);
        let u = &urls[i];
        assert(url_views(urls@).take(i + 1) == t);
        if scheme_is(u, "http", "https") {
            proof {
                reveal_strlit("http");
                reveal_strlit("https");
            }
            if rest.is_some() {
                let mut e = String::from_str("Multiple REST API URLs found for ");
                e.append(provider);
                e.append(", expected 1");
                proof {
                    lemma_sort_urls_error(url_views(urls@), provider@, i + 1);
                }
                return Err(e);
            }
            rest = Some(copy_url(u));
        } else if scheme_is(u, "ws", "wss") {
            proof {
                reveal_strlit("ws");
                reveal_strlit("wss");
            }
            if ws.is_some() {
                let mut e = String::from_str("Multiple WebSocket API URLs found for ");
                e.append(provider);
                e.append(", expected 1");
                proof {
                    lemma_sort_urls_error(url_views(urls@), provider@, i + 1);
                }
                return Err(e);
            }
            ws = Some(copy_url(u));
        } else {
            proof {
                reveal_strlit("http");
                reveal_strlit("https");
                reveal_strlit("ws");
                reveal_strlit("wss");
            }
            let mut e = String::from_str("URL scheme not supported: ");
            e.append(u.scheme.as_str());
            proof {
                lemma_sort_urls_error(url_views(urls@), provider@, i + 1);
            }
            return Err(e);
        }
        i = i + 1;
    }
    assert(urls@.take(i as int) == urls@);
    Ok((rest, ws))
}

proof fn lemma_sort_urls_error(urls: Seq<UrlView>, provider: Seq<char>, i: int)
    requires
        0 <= i <= urls.len(),
        sort_urls(urls.take(i), provider) is Err,
    ensures
        sort_urls(urls, provider) == sort_urls(urls.take(i), provider),
    decreases urls.len(),
{
    if i < urls.len() {
        assert(urls.drop_last().take(i) == urls.take(i));
        lemma_sort_urls_error(urls.drop_last(), provider, i);
    } else {
        assert(urls.take(i) == urls);
    }
}

fn parse_provider(p: &str) -> (r: Result<Provider, String>)
    ensures
        match r {
            Ok(v) => provider_spec(p@) == Ok::<ProviderView, Seq<char>>(v@),
            Err(e) => provider_spec(p@) == Err::<ProviderView, Seq<char>>(e@),
        },
{
    let n = p.unicode_len();
    let k = find_char(p, '=');
    if k >= n {
        return Err(String::from_str("Expected URLs, found none"));
    }
    let rest = p.substring_char(k + 1, n);
    assert(rest@ == p@.skip((k + 1) as int));
    let m = find_char(rest, '=');
    let list = rest.substring_char(0, m);
    assert(list@ == rest@.take(m as int));
    let pieces = split_string(list, ',');
    let urls = match parse_urls(&pieces) {
        Ok(u) => u,
        Err(e) => return Err(e),
    };
    assert(url_views(urls@).len() == urls@.len());
    if urls.len() > 2 {
        let mut e = String::from_str("Expected 1-2 URLS per provider, found ");
        push_dec(&mut e, Uint256::from_u128(urls.len() as u128));
        return Err(e);
    }
    let (rest_url, ws) = match sort_urls_exec(&urls, p) {
        Ok(x) => x,
        Err(e) => return Err(e),
    };
    match rest_url {
        None => Err(String::from_str("REST API URL not found")),
        Some(r) => Ok(
            Provider {
                network: String::from_str(p.substring_char(0, k)),
                rest_url: r,
                websocket_url: ws,
            },
        ),
    }
}

proof fn lemma_providers_error(pieces: Seq<Seq<char>>, i: int)
    requires
        0 <= i <= pieces.len(),
        providers_of(pieces.take(i)) is Err,
    ensures
        providers_of(pieces) == providers_of(pieces.take(i)),
    decreases pieces.len(),
{
    if i < pieces.len() {
        assert(pieces.drop_last().take(i) == pieces.take(i));
        lemma_providers_error(pieces.drop_last(), i);
    } else {
        assert(pieces.take(i) == pieces);
    }
}

impl EthereumProviders {
    /// Parses `<network>=<rest-url>(,<ws-url>)?;...`: each provider has a
    /// REST URL and at most one WebSocket URL, with the schemes that say
    /// which is which.
    pub fn from_str(s: &str) -> (r: Result<EthereumProviders, String>)
        ensures
            match r {
                Ok(v) => providers_spec(s@) == Ok::<Seq<ProviderView>, Seq<char>>(
                    provider_views(v.0@),
                ),
                Err(e) => providers_spec(s@) == Err::<Seq<ProviderView>, Seq<char>>(e@),
            },
    {
        let pieces = split_string(s, ';');
        let ghost views = split_on(s@, ';');
        let mut out: Vec<Provider> = Vec::new();
        let mut i: usize = 0;
        assert(views.take(0) == Seq::<Seq<char>>::empty());
        assert(provider_views(out@) == Seq::<ProviderView>::empty());
        while i < pieces.len()
            invariant
                i <= pieces@.len(),
                views == split_on(s@, ';'),
                views_of_strings(pieces@) == views,
                providers_of(views.take(i as int)) == Ok::<Seq<ProviderView>, Seq<char>>(
                    provider_views(out@),
                ),
            decreases pieces@.len() - i,
        {
            let ghost t = views.take(i + 1);
            assert(t.drop_last() == views.take(i as int));
            assert(t.last() == pieces@[i as int]@);
            match parse_provider(pieces[i].as_str()) {
                Ok(p) => {
                    let ghost before = out@;
                    out.push(p);
                    assert(out@.drop_last() == before);
                    assert(provider_views(out@) == provider_views(before).push(p@));
                },
                Err(e) => {
                    let mut msg = String::from_str(
                        "networks syntax: <network>=<rest-url>(,<ws-url>)?;...",
                    );
                    push_char(&mut msg, '\n');
                    msg.append(e.as_str());
                    proof {
                        assert(provider_spec(t.last()) == Err::<ProviderView, Seq<char>>(e@));
                        assert(providers_of(t) == Err::<Seq<ProviderView>, Seq<char>>(e@));
                        lemma_providers_error(views, i + 1);
                        assert(msg@ == usage() + seq!['\n'] + e@);
                    }
                    return Err(msg);
                },
            }
            i = i + 1;
        }
        assert(views.take(i as int) == views);
        Ok(EthereumProviders(out))
    }
}

} // verus!
