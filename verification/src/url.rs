//! URLs of upstreams.
use crate::text::byte_len;
use crate::text::chars_of;
use crate::text::same;
use vstd::prelude::*;

verus! {

/// The parts of a URL that the library reads.
pub struct UrlParts {
    pub scheme: String,
    pub host: Option<String>,
    pub port: Option<u16>,
    pub username: String,
    pub password: Option<String>,
    pub query: Option<String>,
    pub fragment: Option<String>,
}

/// What the parts of a URL hold.
pub struct UrlView {
    pub scheme: Seq<char>,
    pub host: Option<Seq<char>>,
    pub port: Option<u16>,
    pub username: Seq<char>,
    pub password: Option<Seq<char>>,
    pub query: Option<Seq<char>>,
    pub fragment: Option<Seq<char>>,
}

impl View for UrlParts {
    type V = UrlView;

    open spec fn view(&self) -> UrlView {
        UrlView {
            scheme: self.scheme@,
            host: crate::text::option_view(self.host),
            port: self.port,
            username: self.username@,
            password: crate::text::option_view(self.password),
            query: crate::text::option_view(self.query),
            fragment: crate::text::option_view(self.fragment),
        }
    }
}

/// The parts of a URL that may be missing.
pub open spec fn parts_view(parts: Option<UrlParts>) -> Option<UrlView> {
    match parts {
        Some(inner) => Some(inner@),
        None => None,
    }
}

/// How many bytes a text has at most that is read as a URL. What is written for a URL keeps its
/// positions in 32 bits, and can be several times as long as the text.
pub const LONGEST_URL: usize = 0x1000_0000;

/// A text that is not too long to be read as a URL.
pub open spec fn fits(text: Seq<char>) -> bool {
    crate::text::utf8(text).len() <= LONGEST_URL
}

/// What `reqwest::Url` reads from a text as the parts of a URL; `None` where it is none.
pub uninterp spec fn parsed_url(text: Seq<char>) -> Option<UrlView>;

/// The parts of the URL that a text is; `None` where it is none, or too long.
pub open spec fn url_parts(text: Seq<char>) -> Option<UrlView> {
    if fits(text) {
        parsed_url(text)
    } else {
        None
    }
}

/// Reads a URL.
///
/// Calls `reqwest::Url::parse` and asks the URL for its parts, the port by
/// `port_or_known_default`. The result is named: it depends on the text alone. The bound keeps the
/// characters that are counted before the host within an `i32`.
#[verifier::external_body]
fn parse(text: &str) -> (parts: Option<UrlParts>)
    requires
        fits(text@),
    ensures
        parts_view(parts) == parsed_url(text@),
{
    let url = reqwest::Url::parse(text).ok()?;
    Some(
        UrlParts {
            scheme: url.scheme().to_owned(),
            host: url.host_str().map(str::to_owned),
            port: url.port_or_known_default(),
            username: url.username().to_owned(),
            password: url.password().map(str::to_owned),
            query: url.query().map(str::to_owned),
            fragment: url.fragment().map(str::to_owned),
        },
    )
}

fn is_fit(text: &str) -> (yes: bool)
    ensures
        yes == fits(text@),
{
    byte_len(text) <= LONGEST_URL
}

/// Reads a URL that is not too long.
pub fn read_url(text: &str) -> (parts: Option<UrlParts>)
    ensures
        parts_view(parts) == url_parts(text@),
{
    if is_fit(text) {
        parse(text)
    } else {
        None
    }
}

/// A text without the brackets at its two ends.
pub open spec fn without_brackets(host: Seq<char>) -> Seq<char>
    decreases host.len(),
{
    if host.len() > 0 && (host[0] == '[' || host[0] == ']') {
        without_brackets(host.drop_first())
    } else if host.len() > 0 && (host.last() == '[' || host.last() == ']') {
        without_brackets(host.drop_last())
    } else {
        host
    }
}

/// A number from 0 to 255 in decimal, without leading zeros.
pub open spec fn is_octet(text: Seq<char>) -> bool {
    &&& 1 <= text.len() <= 3
    &&& crate::text::all_digits(text)
    &&& text.len() > 1 ==> text[0] != '0'
    &&& crate::text::digits_value(text) <= 255
}

/// How many characters stand before the first point.
pub open spec fn head_length(text: Seq<char>) -> nat
    decreases text.len(),
{
    if text.len() == 0 || text[0] == '.' {
        0
    } else {
        1 + head_length(text.drop_first())
    }
}

/// So many octets, with points between them.
pub open spec fn dotted(text: Seq<char>, count: nat) -> bool
    decreases count,
{
    let length = head_length(text) as int;
    if count == 0 {
        false
    } else if count == 1 {
        is_octet(text)
    } else {
        &&& length < text.len()
        &&& is_octet(text.take(length))
        &&& dotted(text.skip(length + 1), (count - 1) as nat)
    }
}

/// A numeric loopback address: `::1`, or four octets of which the first is 127. An address in
/// brackets counts.
pub open spec fn is_loopback(host: Seq<char>) -> bool {
    let inner = without_brackets(host);
    ||| inner == "::1"@
    ||| "127."@.is_prefix_of(inner) && dotted(inner.skip(4), 3)
}

proof fn lemma_head_length(text: Seq<char>, n: int)
    requires
        0 <= n <= text.len(),
        forall|i: int| 0 <= i < n ==> #[trigger] text[i] != '.',
        n < text.len() ==> text[n] == '.',
    ensures
        head_length(text) == n,
    decreases n,
{
    if n > 0 {
        let rest = text.drop_first();
        assert forall|i: int| 0 <= i < n - 1 implies #[trigger] rest[i] != '.' by {
            assert(rest[i] == text[i + 1]);
        }
        lemma_head_length(rest, n - 1);
    }
}

fn octet(chars: &Vec<char>, from: usize, to: usize) -> (yes: bool)
    requires
        from <= to <= chars@.len(),
    ensures
        yes == is_octet(chars@.subrange(from as int, to as int)),
{
    let ghost text = chars@.subrange(from as int, to as int);
    if to - from < 1 || to - from > 3 {
        return false;
    }
    if to - from > 1 && chars[from] == '0' {
        assert(text[0] == '0');
        return false;
    }
    let mut value: u64 = 0;
    let mut i: usize = from;
    assert(text.take(0) =~= Seq::<char>::empty());
    while i < to
        invariant
            from <= i <= to <= chars@.len(),
            to - from <= 3,
            text == chars@.subrange(from as int, to as int),
            forall|k: int| 0 <= k < i - from ==> crate::text::is_digit(#[trigger] text[k]),
            value == crate::text::digits_value(text.take(i - from)),
            i == from ==> value == 0,
            i == from + 1 ==> value <= 9,
            i == from + 2 ==> value <= 99,
            i == from + 3 ==> value <= 999,
        decreases to - i,
    {
        let letter = chars[i];
        assert(text[i - from] == letter);
        if letter < '0' || letter > '9' {
            assert(!crate::text::is_digit(text[i - from]));
            return false;
        }
        assert(text.take(i + 1 - from).drop_last() =~= text.take(i - from));
        value = value * 10 + (letter as u64 - '0' as u64);
        i = i + 1;
    }
    assert(text.take(to - from) =~= text);
    assert(to - from > 1 ==> text[0] == chars@[from as int]);
    value <= 255
}

fn is_dotted(chars: &Vec<char>, from: usize, count: u64) -> (yes: bool)
    requires
        from <= chars@.len(),
        count > 0,
    ensures
        yes == dotted(chars@.skip(from as int), count as nat),
    decreases count,
{
    let ghost text = chars@.skip(from as int);
    if count == 1 {
        assert(text =~= chars@.subrange(from as int, chars@.len() as int));
        return octet(chars, from, chars.len());
    }
    let mut end: usize = from;
    while end < chars.len() && chars[end] != '.'
        invariant
            from <= end <= chars@.len(),
            forall|i: int| from <= i < end ==> #[trigger] chars@[i] != '.',
        decreases chars@.len() - end,
    {
        end = end + 1;
    }
    proof {
        assert forall|i: int| 0 <= i < end - from implies #[trigger] text[i] != '.' by {
            assert(text[i] == chars@[from + i]);
        }
        assert(end < chars@.len() ==> text[end - from] == chars@[end as int]);
        lemma_head_length(text, end - from);
    }
    if end == chars.len() {
        return false;
    }
    assert(text.take(end - from) =~= chars@.subrange(from as int, end as int));
    assert(text.skip(end - from + 1) =~= chars@.skip(end + 1));
    octet(chars, from, end) && is_dotted(chars, end + 1, count - 1)
}

/// Whether a host is a numeric loopback address.
pub fn loopback(host: &str) -> (yes: bool)
    ensures
        yes == is_loopback(host@),
{
    let all = chars_of(host);
    let mut from: usize = 0;
    let mut to: usize = all.len();
    assert(all@.subrange(0, to as int) =~= all@);
    while from < to && (all[from] == '[' || all[from] == ']')
        invariant
            from <= to <= all@.len(),
            to == all@.len(),
            without_brackets(all@) == without_brackets(all@.subrange(from as int, to as int)),
        decreases to - from,
    {
        assert(all@.subrange(from as int, to as int).drop_first() =~= all@.subrange(
            from + 1,
            to as int,
        ));
        from = from + 1;
    }
    while from < to && (all[to - 1] == '[' || all[to - 1] == ']')
        invariant
            from <= to <= all@.len(),
            from < to ==> all@[from as int] != '[' && all@[from as int] != ']',
            without_brackets(all@) == without_brackets(all@.subrange(from as int, to as int)),
        decreases to - from,
    {
        assert(all@.subrange(from as int, to as int).drop_last() =~= all@.subrange(
            from as int,
            to - 1,
        ));
        to = to - 1;
    }
    let inner = crate::text::piece(&all, from, to);
    if same(inner.as_str(), "::1") {
        return true;
    }
    let chars = chars_of(inner.as_str());
    let head = chars_of("127.");
    assert(head@.len() == 4) by {
        reveal_strlit("127.");
    }
    if !crate::text::matches_at(&chars, &head, 0) {
        return false;
    }
    is_dotted(&chars, 4, 3)
}

/// Two URLs have the same scheme, host and port.
pub open spec fn same_origin(a: UrlView, b: UrlView) -> bool {
    a.scheme == b.scheme && a.host == b.host && a.port == b.port
}

/// Whether two URLs have the same scheme, host and port.
pub fn is_same_origin(a: &UrlParts, b: &UrlParts) -> (yes: bool)
    ensures
        yes == same_origin(a@, b@),
{
    let port = match (a.port, b.port) {
        (Some(left), Some(right)) => left == right,
        (None, None) => true,
        _ => false,
    };
    same(a.scheme.as_str(), b.scheme.as_str()) && crate::text::options_same(&a.host, &b.host)
        && port
}

/// What is wrong with the URL of an upstream.
#[derive(Clone, Copy, Debug, PartialEq, Eq, Structural)]
pub enum UrlError {
    /// The text is no URL.
    Invalid,
    /// The scheme is not HTTPS, nor HTTP to a loopback address.
    Insecure,
    /// The URL holds credentials, a query or a fragment.
    Extra,
}

/// What is wrong with the URL of an upstream, given its parts.
pub open spec fn url_error(parts: Option<UrlView>) -> Option<UrlError> {
    match parts {
        None => Some(UrlError::Invalid),
        Some(url) => {
            let local = match url.host {
                Some(host) => is_loopback(host),
                None => false,
            };
            if url.scheme != "https"@ && !(url.scheme == "http"@ && local) {
                Some(UrlError::Insecure)
            } else if url.username.len() > 0 || url.password is Some || url.query is Some
                || url.fragment is Some {
                Some(UrlError::Extra)
            } else {
                None
            }
        },
    }
}

/// What is wrong with the URL of an upstream, given its parts.
pub fn check(parts: &Option<UrlParts>) -> (error: Option<UrlError>)
    ensures
        error == url_error(parts_view(*parts)),
{
    match parts {
        None => Some(UrlError::Invalid),
        Some(url) => {
            let local = match &url.host {
                Some(host) => loopback(host.as_str()),
                None => false,
            };
            let plain = same(url.scheme.as_str(), "http");
            if !same(url.scheme.as_str(), "https") && !(plain && local) {
                Some(UrlError::Insecure)
            } else if chars_of(url.username.as_str()).len() > 0 || url.password.is_some()
                || url.query.is_some() || url.fragment.is_some() {
                Some(UrlError::Extra)
            } else {
                None
            }
        },
    }
}

/// What names and values hold.
pub open spec fn pair_views(pairs: Seq<(String, String)>) -> Seq<(Seq<char>, Seq<char>)> {
    pairs.map_values(|pair: (String, String)| (pair.0@, pair.1@))
}

/// What `reqwest::Url` reads as the names and values in the query of the URL that a text is; `None`
/// where it is none.
pub uninterp spec fn url_pairs(text: Seq<char>) -> Option<Seq<(Seq<char>, Seq<char>)>>;

/// The names and values in the query of the URL that a text is; `None` where it is none, or too
/// long.
pub open spec fn query_of(text: Seq<char>) -> Option<Seq<(Seq<char>, Seq<char>)>> {
    if fits(text) {
        url_pairs(text)
    } else {
        None
    }
}

/// The names and values in the query of a URL.
///
/// Calls `reqwest::Url::parse` and `query_pairs`. The result is named: it depends on the text
/// alone.
#[verifier::external_body]
fn query_pairs(text: &str) -> (pairs: Option<Vec<(String, String)>>)
    requires
        fits(text@),
    ensures
        pairs is Some <==> url_pairs(text@) is Some,
        pairs matches Some(found) ==> url_pairs(text@) == Some(pair_views(found@)),
{
    let url = reqwest::Url::parse(text).ok()?;
    Some(url.query_pairs().map(|(name, value)| (name.into_owned(), value.into_owned())).collect())
}

/// Reads the names and values in the query of a URL that is not too long.
pub fn read_query(text: &str) -> (pairs: Option<Vec<(String, String)>>)
    ensures
        pairs is Some <==> query_of(text@) is Some,
        pairs matches Some(found) ==> query_of(text@) == Some(pair_views(found@)),
{
    if is_fit(text) {
        query_pairs(text)
    } else {
        None
    }
}

/// How many bytes names and values have, with the two that separate each pair.
pub open spec fn pairs_size(pairs: Seq<(Seq<char>, Seq<char>)>) -> nat
    decreases pairs.len(),
{
    if pairs.len() == 0 {
        0
    } else {
        pairs_size(pairs.drop_last()) + crate::text::utf8(pairs.last().0).len()
            + crate::text::utf8(pairs.last().1).len() + 2
    }
}

/// What `reqwest::Url` writes for the URL that a text is, with names and values put into its query;
/// `None` where the text is no URL.
pub uninterp spec fn extended_url(text: Seq<char>, pairs: Seq<(Seq<char>, Seq<char>)>) -> Option<
    Seq<char>,
>;

/// The URL that a text is, with names and values put into its query; `None` where the text is no
/// URL, or it or they are too long.
pub open spec fn extended(text: Seq<char>, pairs: Seq<(Seq<char>, Seq<char>)>) -> Option<Seq<char>> {
    if fits(text) && pairs_size(pairs) <= LONGEST_URL {
        extended_url(text, pairs)
    } else {
        None
    }
}

/// The query of a URL reads as these names and values, where the web address that they were put
/// into had no query, and the URL is not too long to be read.
pub open spec fn carries(
    text: Seq<char>,
    base: Seq<char>,
    pairs: Seq<(Seq<char>, Seq<char>)>,
) -> bool {
    (parsed_url(base) matches Some(url) && fits(text) && url.query is None && (url.scheme == "http"@
        || url.scheme == "https"@)) ==> url_pairs(text) == Some(pairs)
}

/// A URL with names and values put into its query.
///
/// Calls `reqwest::Url::parse` and `query_pairs_mut`. The result is named: it depends on the two
/// texts alone. What is claimed besides: it fails only on what is no URL, and the query of the
/// result reads as the names and values, where the URL is a web address without a query. The
/// bounds keep the positions in what is written within a `u32`: escaping makes names, values and
/// paths at most three times as long, and the base would have to grow to thirteen times its length.
#[verifier::external_body]
fn with_query(base: &str, pairs: &Vec<(String, String)>) -> (url: Option<String>)
    requires
        fits(base@),
        pairs_size(pair_views(pairs@)) <= LONGEST_URL,
    ensures
        crate::text::option_view(url) == extended_url(base@, pair_views(pairs@)),
        url is Some <==> parsed_url(base@) is Some,
        url matches Some(text) ==> carries(text@, base@, pair_views(pairs@)),
{
    let mut url = reqwest::Url::parse(base).ok()?;
    url.query_pairs_mut().extend_pairs(pairs.iter().map(|pair| (pair.0.as_str(), pair.1.as_str())));
    Some(url.to_string())
}

proof fn lemma_size_grows(pairs: Seq<(Seq<char>, Seq<char>)>, n: int)
    requires
        0 <= n <= pairs.len(),
    ensures
        pairs_size(pairs.take(n)) <= pairs_size(pairs),
    decreases pairs.len() - n,
{
    if n < pairs.len() {
        lemma_size_grows(pairs, n + 1);
        assert(pairs.take(n + 1).drop_last() =~= pairs.take(n));
    } else {
        assert(pairs.take(n) =~= pairs);
    }
}

fn are_fit(pairs: &Vec<(String, String)>) -> (yes: bool)
    ensures
        yes == (pairs_size(pair_views(pairs@)) <= LONGEST_URL),
{
    let ghost all = pair_views(pairs@);
    let mut total: usize = 0;
    let mut i: usize = 0;
    assert(all.take(0) =~= Seq::empty());
    while i < pairs.len()
        invariant
            i <= pairs@.len(),
            all == pair_views(pairs@),
            total <= LONGEST_URL,
            total == pairs_size(all.take(i as int)),
        decreases pairs@.len() - i,
    {
        let name: usize = byte_len(pairs[i].0.as_str());
        let value: usize = byte_len(pairs[i].1.as_str());
        proof {
            assert(all.take(i + 1).drop_last() =~= all.take(i as int));
            assert(all.take(i + 1).last() == (pairs@[i as int].0@, pairs@[i as int].1@));
            lemma_size_grows(all, i + 1);
        }
        if name > LONGEST_URL || value > LONGEST_URL || total + name + value + 2 > LONGEST_URL {
            return false;
        }
        total = total + name + value + 2;
        i = i + 1;
    }
    assert(all.take(pairs@.len() as int) =~= all);
    true
}

/// Puts names and values into the query of a URL, where neither is too long.
pub fn extend(base: &str, pairs: &Vec<(String, String)>) -> (url: Option<String>)
    ensures
        crate::text::option_view(url) == extended(base@, pair_views(pairs@)),
        url is Some <==> url_parts(base@) is Some && pairs_size(pair_views(pairs@)) <= LONGEST_URL,
        url matches Some(text) ==> carries(text@, base@, pair_views(pairs@)),
{
    if is_fit(base) && are_fit(pairs) {
        with_query(base, pairs)
    } else {
        None
    }
}

/// What `reqwest::Url` writes for the URL that a text is, with this query or none; `None` where the
/// text is no URL.
pub uninterp spec fn queried_url(text: Seq<char>, query: Option<Seq<char>>) -> Option<Seq<char>>;

/// A query that is not too long.
pub open spec fn query_fits(query: Option<Seq<char>>) -> bool {
    query matches Some(text) ==> fits(text)
}

/// The URL that a text is, with this query or none; `None` where the text is no URL, or it or the
/// query is too long.
pub open spec fn queried(text: Seq<char>, query: Option<Seq<char>>) -> Option<Seq<char>> {
    if fits(text) && query_fits(query) {
        queried_url(text, query)
    } else {
        None
    }
}

/// A URL with another query.
///
/// Calls `reqwest::Url::parse` and `set_query`. The result is named: it depends on the two texts
/// alone. What is claimed besides: it fails only on what is no URL. The bounds keep the positions
/// in what is written within a `u32`, as for `with_query`.
#[verifier::external_body]
fn set_query(text: &str, query: Option<&str>) -> (url: Option<String>)
    requires
        fits(text@),
        query_fits(crate::json::read(query)),
    ensures
        crate::text::option_view(url) == queried_url(text@, crate::json::read(query)),
        url is Some <==> parsed_url(text@) is Some,
{
    let mut url = reqwest::Url::parse(text).ok()?;
    url.set_query(query);
    Some(url.to_string())
}

/// Gives a URL another query, where neither is too long.
pub fn replace_query(text: &str, query: Option<&str>) -> (url: Option<String>)
    ensures
        crate::text::option_view(url) == queried(text@, crate::json::read(query)),
        url is Some <==> url_parts(text@) is Some && query_fits(crate::json::read(query)),
{
    let short = match query {
        Some(inner) => is_fit(inner),
        None => true,
    };
    if is_fit(text) && short {
        set_query(text, query)
    } else {
        None
    }
}

/// A URL can be asked exactly where it is one, over HTTPS or over HTTP on this machine, and holds no
/// credentials, no query and no fragment.
pub proof fn urls_are_plain_and_safe(parts: Option<UrlView>)
    ensures
        ({
            let error = url_error(parts);
            let safe = parts is Some && (parts->Some_0.scheme == "https"@ || parts->Some_0.scheme
                == "http"@ && parts->Some_0.host is Some && is_loopback(
                parts->Some_0.host->Some_0,
            ));
            let plain = parts is Some && parts->Some_0.username.len() == 0
                && parts->Some_0.password is None && parts->Some_0.query is None
                && parts->Some_0.fragment is None;
            &&& error is None <==> safe && plain
            &&& error == Some(UrlError::Invalid) <==> parts is None
            &&& error == Some(UrlError::Insecure) <==> parts is Some && !safe
            &&& error == Some(UrlError::Extra) <==> safe && !plain
        }),
{
}

/// Two URLs have one origin where scheme, host and port are the same.
pub proof fn origins_are_scheme_host_and_port(a: UrlView, b: UrlView)
    ensures
        same_origin(a, b) <==> a.scheme == b.scheme && a.host == b.host && a.port == b.port,
        LONGEST_URL == 256 * 1024 * 1024,
{
}

proof fn lemma_octet(number: nat)
    requires
        number <= 255,
    ensures
        is_octet(crate::text::decimal_text(number)),
        !crate::text::decimal_text(number).contains('.'),
{
    crate::text::numbers_are_read_back(number, Seq::empty());
    let text = crate::text::decimal_text(number);
    assert forall|i: int| 0 <= i < text.len() implies text[i] != '.' by {
        assert(crate::text::is_digit(text[i]));
    }
    if number >= 10 {
        let tens = number / 10;
        assert(text == crate::text::decimal_text(tens).push(
            crate::text::digit_char(number % 10),
        ));
        if tens >= 10 {
            assert(crate::text::decimal_text(tens) == crate::text::decimal_text(tens / 10).push(
                crate::text::digit_char(tens % 10),
            ));
            assert(crate::text::decimal_text(tens / 10) == seq![
                crate::text::digit_char(tens / 10),
            ]);
            assert(text[0] == crate::text::digit_char(tens / 10));
        } else {
            assert(crate::text::decimal_text(tens) == seq![crate::text::digit_char(tens)]);
            assert(text[0] == crate::text::digit_char(tens));
        }
    }
}

proof fn lemma_head(head: Seq<char>, more: Seq<char>)
    requires
        !head.contains('.'),
    ensures
        head_length(head + "."@ + more) == head.len(),
    decreases head.len(),
{
    reveal_strlit(".");
    let text = head + "."@ + more;
    if head.len() == 0 {
        assert(text[0] == '.');
    } else {
        assert(text[0] == head[0]);
        assert(head.contains(head[0]));
        let rest = head.drop_first();
        assert forall|i: int| 0 <= i < rest.len() implies rest[i] != '.' by {
            assert(head.contains(head[i + 1]));
        }
        assert(text.drop_first() =~= rest + "."@ + more);
        lemma_head(rest, more);
    }
}

/// This machine is the address `::1`, with or without brackets, and every address from 127.0.0.0 to
/// 127.255.255.255.
pub proof fn this_machine_is_known(b: nat, c: nat, d: nat)
    requires
        b <= 255,
        c <= 255,
        d <= 255,
    ensures
        is_loopback("::1"@),
        is_loopback("[::1]"@),
        is_loopback(
            "127."@ + (crate::text::decimal_text(b) + "."@ + (crate::text::decimal_text(c) + "."@
                + crate::text::decimal_text(d))),
        ),
{
    reveal_strlit("::1");
    reveal_strlit("[::1]");
    reveal_strlit("127.");
    reveal_strlit(".");
    let x = crate::text::decimal_text(b);
    let y = crate::text::decimal_text(c);
    let z = crate::text::decimal_text(d);
    lemma_octet(b);
    lemma_octet(c);
    lemma_octet(d);
    let tail = y + "."@ + z;
    let all = x + "."@ + tail;
    let host = "127."@ + all;
    lemma_head(x, tail);
    lemma_head(y, z);
    assert(all.take(x.len() as int) =~= x);
    assert(all.skip(x.len() as int + 1) =~= tail);
    assert(tail.take(y.len() as int) =~= y);
    assert(tail.skip(y.len() as int + 1) =~= z);
    assert(dotted(z, 1));
    assert(dotted(tail, 2));
    assert(dotted(all, 3));
    assert(host[0] == '1');
    crate::text::numbers_are_read_back(d, Seq::empty());
    assert(host.last() == z.last());
    assert(crate::text::is_digit(z[z.len() - 1]));
    assert(without_brackets(host) == host);
    assert(host.subrange(0, 4) =~= "127."@);
    assert(host.skip(4) =~= all);
    assert("::1"@[0] == ':' && "::1"@.last() == '1');
    assert(without_brackets("::1"@) == "::1"@);
    let boxed = "[::1]"@;
    let open = boxed.drop_first();
    assert(open.drop_last() =~= "::1"@);
    assert(without_brackets(boxed) == without_brackets(open));
    assert(without_brackets(open) == without_brackets(open.drop_last()));
}

} // verus!
