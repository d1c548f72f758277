//! Quota windows: how much of a limit is used, and when it resets.
//!
//! Windows are read from response headers, from the usage endpoint and from stream events.
use crate::double::ratio;
use crate::double::Double;
use crate::headers::level_of;
use crate::headers::text_of;
use crate::headers::Header;
use crate::headers::HeaderView;
use crate::json::Json;
use crate::json::JsonView;
use crate::level::Level;
use crate::table::Table;
use crate::text::chars_of;
use crate::text::concat;
use crate::text::concat3;
use crate::text::ends_with;
use crate::text::find_after;
use crate::text::first_word_from;
use crate::text::parse_decimal;
use crate::text::same;
use crate::text::starts_with;
use crate::text::strip_suffix;
use crate::text::trim_end_matches;
use vstd::prelude::*;

pub use crate::duration::duration_seconds;

verus! {

/// The longest hold that a rejection can ask for: seven days.
pub const LONGEST_HOLD: u64 = 604_800;

/// The hold where a rejection names none.
pub const DEFAULT_HOLD: u64 = 30;

/// A window of a limit.
#[derive(Clone, Copy, Debug)]
pub struct Window {
    pub used_percent: Level,
    pub reset_at: Option<u64>,
    pub window_minutes: Option<u64>,
}

/// The window has reset by this time.
pub open spec fn has_reset(window: Window, timestamp: u64) -> bool {
    window.reset_at matches Some(at) && timestamp >= at
}

/// How much of a window is used at a given time: nothing once it has reset.
pub open spec fn used(window: Window, timestamp: u64) -> Level {
    if has_reset(window, timestamp) {
        Level { bits: 0 }
    } else {
        window.used_percent
    }
}

impl Window {
    /// How much of the window is used at a given time.
    pub fn used(&self, timestamp: u64) -> (level: Level)
        ensures
            level == used(*self, timestamp),
    {
        match self.reset_at {
            Some(at) if timestamp >= at => Level::zero(),
            _ => self.used_percent,
        }
    }
}

/// Windows under the names of their limits.
pub type Quotas = Table<Window>;

/// Windows under the names of their limits.
pub type Windows = Map<Seq<char>, Window>;

/// The character of a limit's name in lower case, with a hyphen for an underscore.
pub open spec fn plain(letter: char) -> char {
    if letter == '_' {
        '-'
    } else {
        crate::text::lower(letter)
    }
}

/// A limit's name in lower case, with hyphens for underscores.
pub open spec fn normalized(id: Seq<char>) -> Seq<char> {
    id.map_values(|letter: char| plain(letter))
}

fn lower_letter(letter: char) -> (lower: char)
    ensures
        lower == crate::text::lower(letter),
{
    match letter {
        'A' => 'a',
        'B' => 'b',
        'C' => 'c',
        'D' => 'd',
        'E' => 'e',
        'F' => 'f',
        'G' => 'g',
        'H' => 'h',
        'I' => 'i',
        'J' => 'j',
        'K' => 'k',
        'L' => 'l',
        'M' => 'm',
        'N' => 'n',
        'O' => 'o',
        'P' => 'p',
        'Q' => 'q',
        'R' => 'r',
        'S' => 's',
        'T' => 't',
        'U' => 'u',
        'V' => 'v',
        'W' => 'w',
        'X' => 'x',
        'Y' => 'y',
        'Z' => 'z',
        other => other,
    }
}

/// A limit's name in lower case, with hyphens for underscores.
pub fn normalize(id: &str) -> (name: String)
    ensures
        name@ == normalized(id@),
{
    let chars = chars_of(id);
    let mut name = String::new();
    let mut i: usize = 0;
    while i < chars.len()
        invariant
            i <= chars@.len(),
            chars@ == id@,
            name@ == normalized(id@.take(i as int)),
        decreases chars@.len() - i,
    {
        let letter = chars[i];
        name.push(
            if letter == '_' {
                '-'
            } else {
                lower_letter(letter)
            },
        );
        assert(normalized(id@.take(i + 1)) =~= normalized(id@.take(i as int)).push(plain(letter)));
        i = i + 1;
    }
    assert(id@.take(id@.len() as int) =~= id@);
    name
}

/// A name is in lower case with hyphens once and for all.
pub proof fn normalizing_twice_changes_nothing(id: Seq<char>)
    ensures
        normalized(normalized(id)) == normalized(id),
{
    assert(normalized(normalized(id)) =~= normalized(id));
}

/// The prefix of the headers of a window.
pub open spec fn is_window_prefix(prefix: Seq<char>) -> bool {
    &&& "x-"@.is_prefix_of(prefix)
    &&& "-primary"@.is_suffix_of(prefix) || "-secondary"@.is_suffix_of(prefix)
}

/// A prefix without any number of `x-` at its start.
pub open spec fn bare(prefix: Seq<char>) -> Seq<char>
    decreases prefix.len(),
{
    if prefix.len() >= 2 && prefix[0] == 'x' && prefix[1] == '-' {
        bare(prefix.skip(2))
    } else {
        prefix
    }
}

/// The number that a header holds in decimal.
pub open spec fn header_number(headers: Seq<HeaderView>, name: Seq<char>) -> Option<u64> {
    match crate::headers::header_text(headers, name) {
        Some(text) => crate::text::decimal_value(text),
        None => None,
    }
}

/// The window that the headers with a prefix hold, where they hold a finite share that is not
/// negative.
pub open spec fn header_window(headers: Seq<HeaderView>, prefix: Seq<char>) -> Option<Window> {
    match crate::headers::header_level(headers, prefix + "-used-percent"@) {
        Some(share) if share.usable() => Some(
            Window {
                used_percent: share,
                reset_at: header_number(headers, prefix + "-reset-at"@),
                window_minutes: header_number(headers, prefix + "-window-minutes"@),
            },
        ),
        _ => None,
    }
}

/// The headers with this prefix hold the window of this limit.
pub open spec fn supplies(headers: Seq<HeaderView>, prefix: Seq<char>, id: Seq<char>) -> bool {
    &&& is_window_prefix(prefix)
    &&& crate::headers::has_header(headers, prefix + "-used-percent"@)
    &&& header_window(headers, prefix) is Some
    &&& bare(prefix) == id
}

fn trim_start_x(prefix: &str) -> (rest: String)
    ensures
        rest@ == bare(prefix@),
{
    let chars = chars_of(prefix);
    let mut from: usize = 0;
    assert(chars@.skip(0) =~= chars@);
    while chars.len() - from >= 2 && chars[from] == 'x' && chars[from + 1] == '-'
        invariant
            from <= chars@.len(),
            chars@ == prefix@,
            bare(chars@) == bare(chars@.skip(from as int)),
        decreases chars@.len() - from,
    {
        assert(chars@.skip(from as int).skip(2) =~= chars@.skip(from + 2));
        from = from + 2;
    }
    assert(chars@.skip(from as int) =~= chars@.subrange(from as int, chars@.len() as int));
    crate::text::piece(&chars, from, chars.len())
}

fn number_in(headers: &Vec<Header>, prefix: &str, part: &str) -> (number: Option<u64>)
    ensures
        number == header_number(crate::headers::header_views(headers@), prefix@ + part@),
{
    let name = concat(prefix, part);
    match text_of(headers, name.as_str()) {
        Some(text) => parse_decimal(text),
        None => None,
    }
}

fn window_in(headers: &Vec<Header>, prefix: &str) -> (window: Option<Window>)
    ensures
        window == header_window(crate::headers::header_views(headers@), prefix@),
{
    let name = concat(prefix, "-used-percent");
    match level_of(headers, name.as_str()) {
        Some(share) => if share.is_usable() {
            Some(
                Window {
                    used_percent: share,
                    reset_at: number_in(headers, prefix, "-reset-at"),
                    window_minutes: number_in(headers, prefix, "-window-minutes"),
                },
            )
        } else {
            None
        },
        None => None,
    }
}

/// The prefixes of windows among the first headers.
spec fn listed(headers: Seq<HeaderView>, count: int, prefix: Seq<char>) -> bool {
    &&& is_window_prefix(prefix)
    &&& exists|i: int|
        0 <= i < count && (#[trigger] headers[i]).name == prefix + "-used-percent"@
}

fn window_prefixes(headers: &Vec<Header>) -> (prefixes: Table<bool>)
    ensures
        prefixes.wf(),
        forall|prefix: Seq<char>| #[trigger]
            prefixes@.contains_key(prefix) <==> is_window_prefix(prefix)
                && crate::headers::has_header(
                crate::headers::header_views(headers@),
                prefix + "-used-percent"@,
            ),
{
    let ghost all = crate::headers::header_views(headers@);
    let mut prefixes: Table<bool> = Table::new();
    let mut i: usize = 0;
    while i < headers.len()
        invariant
            i <= headers@.len(),
            all == crate::headers::header_views(headers@),
            prefixes.wf(),
            forall|prefix: Seq<char>| #[trigger]
                prefixes@.contains_key(prefix) <==> listed(all, i as int, prefix),
        decreases headers@.len() - i,
    {
        let name = headers[i].name.as_str();
        assert(all[i as int].name == name@);
        let ghost before = prefixes@;
        let suffix = "-used-percent";
        let ghost mut added: Option<Seq<char>> = None;
        match strip_suffix(name, suffix) {
            Some(prefix) => {
                if starts_with(prefix.as_str(), "x-") && (ends_with(prefix.as_str(), "-primary")
                    || ends_with(prefix.as_str(), "-secondary")) {
                    proof {
                        added = Some(prefix@);
                    }
                    prefixes.insert(prefix, true);
                }
            },
            None => {},
        }
        assert forall|prefix: Seq<char>| #[trigger]
            prefixes@.contains_key(prefix) <==> listed(all, i + 1, prefix) by {
            if listed(all, i + 1, prefix) && !listed(all, i as int, prefix) {
                let k = choose|k: int|
                    0 <= k < i + 1 && (#[trigger] all[k]).name == prefix + suffix@;
                assert(k == i);
                assert(name@ == prefix + suffix@);
                assert(suffix@.is_suffix_of(name@)) by {
                    assert(name@.subrange(
                        name@.len() - suffix@.len(),
                        name@.len() as int,
                    ) =~= suffix@);
                }
                if let Some(found) = added {
                    assert(found + suffix@ == prefix + suffix@);
                    assert(found =~= (found + suffix@).take(found.len() as int));
                    assert(found.len() == prefix.len());
                    assert(prefix =~= (prefix + suffix@).take(prefix.len() as int));
                } else {
                    assert forall|other: Seq<char>| name@ == other + suffix@ implies other
                        == prefix by {
                        assert(other =~= (other + suffix@).take(other.len() as int));
                        assert(prefix =~= (prefix + suffix@).take(prefix.len() as int));
                        assert(other.len() == prefix.len());
                    }
                }
            }
            if listed(all, i as int, prefix) {
                let k = choose|k: int| 0 <= k < i && (#[trigger] all[k]).name == prefix + suffix@;
                assert(0 <= k < i + 1);
            }
            if prefixes@.contains_key(prefix) && !before.contains_key(prefix) {
                assert(all[i as int].name == prefix + suffix@);
            }
        }
        i = i + 1;
    }
    assert forall|prefix: Seq<char>| #[trigger]
        prefixes@.contains_key(prefix) <==> is_window_prefix(prefix) && crate::headers::has_header(
            all,
            prefix + "-used-percent"@,
        ) by {
        if crate::headers::has_header(all, prefix + "-used-percent"@) {
            let k = choose|k: int|
                0 <= k < all.len() && (#[trigger] all[k]).name == prefix + "-used-percent"@;
            assert(0 <= k < headers@.len());
        }
    }
    prefixes
}

/// These are the windows that headers hold. Where two prefixes stand for one limit, the later in
/// the order of texts counts.
pub open spec fn header_windows(headers: Seq<HeaderView>, windows: Windows) -> bool {
    &&& forall|id: Seq<char>| #[trigger]
        windows.contains_key(id) <==> exists|prefix: Seq<char>| #[trigger]
            supplies(headers, prefix, id)
    &&& forall|id: Seq<char>| #[trigger]
        windows.contains_key(id) ==> exists|prefix: Seq<char>|
            {
                &&& #[trigger] supplies(headers, prefix, id)
                &&& header_window(headers, prefix) == Some(windows[id])
                &&& forall|other: Seq<char>| #[trigger]
                    supplies(headers, other, id) ==> !crate::text::before(prefix, other)
            }
}

/// The windows that headers hold.
pub fn headers(source: &Vec<Header>) -> (quotas: Quotas)
    ensures
        quotas.wf(),
        header_windows(crate::headers::header_views(source@), quotas@),
{
    let ghost all = crate::headers::header_views(source@);
    let prefixes = window_prefixes(source);
    let mut quotas: Quotas = Table::new();
    let mut i: usize = 0;
    let count: usize = prefixes.len();
    while i < count
        invariant
            i <= count,
            count == prefixes.entries().len(),
            prefixes.wf(),
            all == crate::headers::header_views(source@),
            forall|prefix: Seq<char>| #[trigger]
                prefixes@.contains_key(prefix) <==> is_window_prefix(prefix)
                    && crate::headers::has_header(all, prefix + "-used-percent"@),
            quotas.wf(),
            forall|k: int, id: Seq<char>|
                #![trigger prefixes.entries()[k], supplies(all, prefixes.entries()[k].0, id)]
                0 <= k < i && supplies(all, prefixes.entries()[k].0, id) ==> quotas@.contains_key(
                    id,
                ),
            forall|id: Seq<char>| #[trigger]
                quotas@.contains_key(id) ==> exists|k: int|
                    0 <= k < i && latest(all, #[trigger] prefixes.entries()[k].0, id, quotas@[id])
                        && forall|l: int|
                        k < l < i ==> !supplies(all, (#[trigger] prefixes.entries()[l]).0, id),
        decreases count - i,
    {
        let prefix = prefixes.key(i);
        let ghost before = quotas@;
        proof {
            prefixes.rows_are_the_map();
            assert(prefixes.entries()[i as int].0 == prefix@);
            assert(prefixes@.contains_key(prefixes.entries()[i as int].0));
        }
        let ghost here = bare(prefix@);
        match window_in(source, prefix) {
            Some(window) => {
                let name = trim_start_x(prefix);
                quotas.insert(name, window);
                assert(supplies(all, prefix@, here));
                assert(latest(all, prefix@, here, window));
            },
            None => {},
        }
        assert forall|id: Seq<char>| #[trigger] quotas@.contains_key(id) implies exists|k: int|
            0 <= k < i + 1 && latest(all, #[trigger] prefixes.entries()[k].0, id, quotas@[id])
                && forall|l: int|
                k < l < i + 1 ==> !supplies(all, (#[trigger] prefixes.entries()[l]).0, id) by {
            if supplies(all, prefix@, id) {
                assert(latest(all, prefixes.entries()[i as int].0, id, quotas@[id]));
            } else {
                assert(before.contains_key(id));
                assert(before[id] == quotas@[id]);
                let k = choose|k: int|
                    0 <= k < i && latest(all, #[trigger] prefixes.entries()[k].0, id, before[id])
                        && forall|l: int|
                        k < l < i ==> !supplies(all, (#[trigger] prefixes.entries()[l]).0, id);
                assert(latest(all, prefixes.entries()[k].0, id, quotas@[id]));
            }
        }
        i = i + 1;
    }
    proof {
        prefixes.rows_are_the_map();
        assert forall|id: Seq<char>| #[trigger] quotas@.contains_key(id) implies exists|
            prefix: Seq<char>,
        |
            {
                &&& #[trigger] supplies(all, prefix, id)
                &&& header_window(all, prefix) == Some(quotas@[id])
                &&& forall|other: Seq<char>| #[trigger]
                    supplies(all, other, id) ==> !crate::text::before(prefix, other)
            } by {
            let k = choose|k: int|
                0 <= k < i && latest(all, #[trigger] prefixes.entries()[k].0, id, quotas@[id])
                    && forall|l: int|
                    k < l < i ==> !supplies(all, (#[trigger] prefixes.entries()[l]).0, id);
            let prefix = prefixes.entries()[k].0;
            assert(supplies(all, prefix, id));
            assert forall|other: Seq<char>| #[trigger]
                supplies(all, other, id) implies !crate::text::before(prefix, other) by {
                assert(prefixes@.contains_key(other));
                let l = choose|l: int|
                    0 <= l < prefixes.entries().len() && (#[trigger] prefixes.entries()[l]).0
                        == other;
                crate::text::before_is_total(prefix, other);
                assert(l < k ==> crate::text::before(
                    prefixes.entries()[l].0,
                    prefixes.entries()[k].0,
                ));
            }
        }
        assert forall|id: Seq<char>|
            (exists|prefix: Seq<char>| #[trigger] supplies(all, prefix, id)) implies #[trigger]
            quotas@.contains_key(id) by {
            let prefix = choose|prefix: Seq<char>| #[trigger] supplies(all, prefix, id);
            assert(prefixes@.contains_key(prefix));
            let k = choose|k: int|
                0 <= k < prefixes.entries().len() && (#[trigger] prefixes.entries()[k]).0 == prefix;
            assert(supplies(all, prefixes.entries()[k].0, id));
        }
    }
    quotas
}

/// A window that a prefix gives to a limit.
spec fn latest(all: Seq<HeaderView>, prefix: Seq<char>, id: Seq<char>, window: Window) -> bool {
    supplies(all, prefix, id) && header_window(all, prefix) == Some(window)
}

/// The name of a header of the API.
pub open spec fn api_header(part: Seq<char>, resource: Seq<char>) -> Seq<char> {
    "x-ratelimit-"@ + part + "-"@ + resource
}

/// The finite number that is not negative in a header of the API.
pub open spec fn api_level(
    headers: Seq<HeaderView>,
    part: Seq<char>,
    resource: Seq<char>,
) -> Option<Level> {
    match crate::headers::header_level(headers, api_header(part, resource)) {
        Some(level) if level.usable() => Some(level),
        _ => None,
    }
}

/// The share of a limit that is used, in percent, where this much remains. It is worked out in
/// doubles.
pub open spec fn used_share(limit: Level, remaining: Level) -> Level {
    let rest = if remaining.rank() < limit.rank() {
        remaining
    } else {
        limit
    };
    let left = crate::double::nearest_double(
        crate::double::level_units(rest),
        crate::double::level_units(limit),
    );
    let used = crate::double::nearest_double(
        (crate::double::one() - left) as nat,
        crate::double::one(),
    );
    crate::double::level_of(crate::double::product(used, 100 * crate::double::one()))
}

/// What the headers of the API tell of a resource, where they tell both its limit, above zero, and
/// what remains of it.
pub open spec fn api_window(
    headers: Seq<HeaderView>,
    resource: Seq<char>,
    timestamp: u64,
) -> Option<Window> {
    match (
        api_level(headers, "limit"@, resource),
        api_level(headers, "remaining"@, resource),
    ) {
        (Some(limit), Some(remaining)) if limit.rank() > 0 => Some(
            Window {
                used_percent: used_share(limit, remaining),
                reset_at: match crate::headers::header_text(
                    headers,
                    api_header("reset"@, resource),
                ) {
                    Some(text) => match crate::duration::seconds(text) {
                        Some(seconds) => Some(crate::affinity::later(timestamp, seconds)),
                        None => None,
                    },
                    None => None,
                },
                window_minutes: None,
            },
        ),
        _ => None,
    }
}

/// Windows with that of a resource of the API, where headers tell of it.
pub open spec fn with_api_window(
    windows: Windows,
    headers: Seq<HeaderView>,
    model: Seq<char>,
    resource: Seq<char>,
    timestamp: u64,
) -> Windows {
    match api_window(headers, resource, timestamp) {
        Some(window) => windows.insert("api:"@ + model + ":"@ + resource, window),
        None => windows,
    }
}

/// The windows of the three resources of the API.
pub open spec fn api_windows(headers: Seq<HeaderView>, model: Seq<char>, timestamp: u64) -> Windows {
    let requests = with_api_window(Map::empty(), headers, model, "requests"@, timestamp);
    let tokens = with_api_window(requests, headers, model, "tokens"@, timestamp);
    with_api_window(tokens, headers, model, "project-tokens"@, timestamp)
}

fn api_name(part: &str, resource: &str) -> (name: String)
    ensures
        name@ == api_header(part@, resource@),
{
    let start = concat3("x-ratelimit-", part, "-");
    concat(start.as_str(), resource)
}

fn api_number(headers: &Vec<Header>, part: &str, resource: &str) -> (level: Option<Level>)
    ensures
        level == api_level(crate::headers::header_views(headers@), part@, resource@),
{
    let name = api_name(part, resource);
    match level_of(headers, name.as_str()) {
        Some(level) => if level.is_usable() {
            Some(level)
        } else {
            None
        },
        None => None,
    }
}

fn share_used(limit: Level, remaining: Level) -> (used: Level)
    requires
        limit.usable(),
        limit.rank() > 0,
        remaining.usable(),
    ensures
        used == used_share(limit, remaining),
{
    let rest = if remaining.at_least(limit) {
        limit
    } else {
        remaining
    };
    let ghost one = crate::double::one();
    let ghost whole = crate::double::level_units(limit);
    let ghost part = crate::double::level_units(rest);
    proof {
        vstd::arithmetic::power2::lemma2_to64();
        vstd::arithmetic::power2::lemma2_to64_rest();
        vstd::arithmetic::power2::lemma_pow2_pos(1074);
        crate::double::units_follow_the_order(Level { bits: 0 }, limit);
        if rest.magnitude() < limit.magnitude() {
            crate::double::units_follow_the_order(rest, limit);
        } else {
            assert(rest.magnitude() == limit.magnitude());
            assert(part == whole);
        }
        crate::double::rounding_stays_below_powers(part, whole, 0);
    }
    let left = ratio(rest, limit);
    proof {
        crate::double::rounding_stays_below_powers((one - left.units()) as nat, one, 0);
    }
    let used = left.from_one();
    proof {
        let units = used.units();
        crate::double::whole_numbers_are_exact(100);
        assert(units * (100 * one) <= (one * one) * 128) by (nonlinear_arith)
            requires
                units <= one,
        ;
        assert(one * one > 0) by (nonlinear_arith)
            requires
                one > 0,
        ;
        crate::double::rounding_stays_below_powers(units * (100 * one), one * one, 7);
        vstd::arithmetic::power2::lemma_pow2_adds(7, 1074);
        vstd::arithmetic::power2::lemma_pow2_strictly_increases(1081, 2098);
    }
    used.times(Double::whole(100)).level()
}

fn add_window(
    quotas: &mut Quotas,
    headers: &Vec<Header>,
    model: &str,
    resource: &str,
    timestamp: u64,
)
    requires
        old(quotas).wf(),
    ensures
        final(quotas).wf(),
        final(quotas)@ == with_api_window(
            old(quotas)@,
            crate::headers::header_views(headers@),
            model@,
            resource@,
            timestamp,
        ),
{
    match (api_number(headers, "limit", resource), api_number(headers, "remaining", resource)) {
        (Some(limit), Some(remaining)) => {
            if limit.is_positive() {
                let name = api_name("reset", resource);
                let reset_at: Option<u64> = match text_of(headers, name.as_str()) {
                    Some(text) => match duration_seconds(text) {
                        Some(seconds) => Some(timestamp.saturating_add(seconds)),
                        None => None,
                    },
                    None => None,
                };
                let start = concat3("api:", model, ":");
                let window = Window {
                    used_percent: share_used(limit, remaining),
                    reset_at,
                    window_minutes: None,
                };
                quotas.insert(concat(start.as_str(), resource), window);
            }
        },
        _ => {},
    }
}

/// What the headers of the API tell of the requested model. The API does not name the buckets that
/// models share, so none are inferred.
pub fn api_headers(source: &Vec<Header>, model: &str, timestamp: u64) -> (quotas: Quotas)
    ensures
        quotas.wf(),
        quotas@ == api_windows(crate::headers::header_views(source@), model@, timestamp),
{
    let mut quotas: Quotas = Table::new();
    add_window(&mut quotas, source, model, "requests", timestamp);
    add_window(&mut quotas, source, model, "tokens", timestamp);
    add_window(&mut quotas, source, model, "project-tokens", timestamp);
    quotas
}

/// The window that a JSON value holds.
pub open spec fn window_of(value: JsonView, timestamp: u64) -> Option<Window> {
    match value.member("used_percent"@) {
        Some(share) => match share.level() {
            Some(level) if level.usable() => Some(
                Window {
                    used_percent: level,
                    reset_at: match value.member_unsigned("reset_at"@) {
                        Some(at) => Some(at),
                        None => match value.member_unsigned("reset_after_seconds"@) {
                            Some(seconds) => Some(crate::affinity::later(timestamp, seconds)),
                            None => None,
                        },
                    },
                    window_minutes: match value.member_unsigned("window_minutes"@) {
                        Some(minutes) => Some(minutes),
                        None => match value.member_unsigned("limit_window_seconds"@) {
                            Some(seconds) => Some((seconds / 60) as u64),
                            None => None,
                        },
                    },
                },
            ),
            _ => None,
        },
        None => None,
    }
}

fn parse_window(value: &Json, timestamp: u64) -> (window: Option<Window>)
    ensures
        window == window_of(value@, timestamp),
{
    let level = match value.get("used_percent") {
        Some(share) => match share.as_level() {
            Some(level) => level,
            None => return None,
        },
        None => return None,
    };
    if !level.is_usable() {
        return None;
    }
    let reset_at: Option<u64> = match value.u64_at("reset_at") {
        Some(at) => Some(at),
        None => match value.u64_at("reset_after_seconds") {
            Some(seconds) => Some(timestamp.saturating_add(seconds)),
            None => None,
        },
    };
    let window_minutes: Option<u64> = match value.u64_at("window_minutes") {
        Some(minutes) => Some(minutes),
        None => match value.u64_at("limit_window_seconds") {
            Some(seconds) => Some(seconds / 60),
            None => None,
        },
    };
    Some(Window { used_percent: level, reset_at, window_minutes })
}

/// The window of one part of a limit: under its name, or under its name with `_window` behind it.
pub open spec fn part_window(value: JsonView, part: Seq<char>, timestamp: u64) -> Option<Window> {
    match value.member(part) {
        Some(inner) => window_of(inner, timestamp),
        None => match value.member(part + "_window"@) {
            Some(inner) => window_of(inner, timestamp),
            None => None,
        },
    }
}

/// Windows with one part of a limit taken in.
pub open spec fn with_part(
    windows: Windows,
    id: Seq<char>,
    value: JsonView,
    part: Seq<char>,
    timestamp: u64,
) -> Windows {
    match part_window(value, part, timestamp) {
        Some(window) => windows.insert(normalized(id) + "-"@ + part, window),
        None => windows,
    }
}

/// Windows with both parts of a limit taken in.
pub open spec fn with_bucket(
    windows: Windows,
    id: Seq<char>,
    value: JsonView,
    timestamp: u64,
) -> Windows {
    with_part(
        with_part(windows, id, value, "primary"@, timestamp),
        id,
        value,
        "secondary"@,
        timestamp,
    )
}

fn add_part(output: &mut Quotas, id: &str, value: &Json, part: &str, timestamp: u64)
    requires
        old(output).wf(),
    ensures
        final(output).wf(),
        final(output)@ == with_part(old(output)@, id@, value@, part@, timestamp),
{
    let window = match value.get(part) {
        Some(inner) => parse_window(inner, timestamp),
        None => {
            let name = concat(part, "_window");
            match value.get(name.as_str()) {
                Some(inner) => parse_window(inner, timestamp),
                None => None,
            }
        },
    };
    match window {
        Some(window) => {
            let name = normalize(id);
            output.insert(concat3(name.as_str(), "-", part), window);
        },
        None => {},
    }
}

fn bucket(output: &mut Quotas, id: &str, value: &Json, timestamp: u64)
    requires
        old(output).wf(),
    ensures
        final(output).wf(),
        final(output)@ == with_bucket(old(output)@, id@, value@, timestamp),
{
    add_part(output, id, value, "primary", timestamp);
    add_part(output, id, value, "secondary", timestamp);
}

/// The name of a metered limit.
pub open spec fn limit_name(value: JsonView) -> Option<Seq<char>> {
    match value.member("metered_limit_name"@) {
        Some(name) => name.text(),
        None => value.member_text("limit_name"@),
    }
}

fn name_of(value: &Json) -> (name: Option<&str>)
    ensures
        crate::json::read(name) == limit_name(value@),
{
    match value.get("metered_limit_name") {
        Some(name) => name.as_str(),
        None => value.text_at("limit_name"),
    }
}

/// Windows with one additional limit taken in.
pub open spec fn with_additional(windows: Windows, item: JsonView, timestamp: u64) -> Windows {
    match limit_name(item) {
        Some(id) => with_bucket(
            windows,
            id,
            match item.member("rate_limit"@) {
                Some(rate) => rate,
                None => item,
            },
            timestamp,
        ),
        None => windows,
    }
}

/// Windows with additional limits taken in, one after the other.
pub open spec fn with_all_additional(
    windows: Windows,
    items: Seq<JsonView>,
    timestamp: u64,
) -> Windows
    decreases items.len(),
{
    if items.len() == 0 {
        windows
    } else {
        with_additional(
            with_all_additional(windows, items.drop_last(), timestamp),
            items.last(),
            timestamp,
        )
    }
}

/// The windows that a usage payload or a rate-limit event holds.
pub open spec fn usage_windows(value: JsonView, timestamp: u64) -> Windows {
    let first = match value.member("rate_limit"@) {
        Some(rate) => with_bucket(Map::empty(), "codex"@, rate, timestamp),
        None => Map::empty(),
    };
    let second = match value.member("additional_rate_limits"@) {
        Some(additional) => match additional.items() {
            Some(items) => with_all_additional(first, items, timestamp),
            None => first,
        },
        None => first,
    };
    if value.member_text("type"@) == Some("codex.rate_limits"@) {
        match value.member("rate_limits"@) {
            Some(rate) => with_bucket(
                second,
                match limit_name(value) {
                    Some(id) => id,
                    None => "codex"@,
                },
                rate,
                timestamp,
            ),
            None => second,
        }
    } else {
        second
    }
}

/// The windows that a usage payload or a rate-limit event holds.
pub fn usage(value: &Json, timestamp: u64) -> (output: Quotas)
    ensures
        output.wf(),
        output@ == usage_windows(value@, timestamp),
{
    let mut output: Quotas = Table::new();
    if let Some(rate) = value.get("rate_limit") {
        bucket(&mut output, "codex", rate, timestamp);
    }
    let ghost first = output@;
    if let Some(additional) = value.get("additional_rate_limits") {
        if let Some(items) = additional.as_array() {
            let ghost all = items@.map_values(|item: Json| item@);
            let mut i: usize = 0;
            while i < items.len()
                invariant
                    i <= items@.len(),
                    all == items@.map_values(|item: Json| item@),
                    output.wf(),
                    output@ == with_all_additional(first, all.take(i as int), timestamp),
                decreases items@.len() - i,
            {
                let item = &items[i];
                assert(all.take(i + 1).drop_last() =~= all.take(i as int));
                assert(all.take(i + 1).last() == item@);
                if let Some(id) = name_of(item) {
                    let rate = match item.get("rate_limit") {
                        Some(rate) => rate,
                        None => item,
                    };
                    bucket(&mut output, id, rate, timestamp);
                }
                i = i + 1;
            }
            assert(all.take(items@.len() as int) =~= all);
        }
    }
    let event = match value.text_at("type") {
        Some(name) => same(name, "codex.rate_limits"),
        None => false,
    };
    if event {
        let id = match name_of(value) {
            Some(id) => id,
            None => "codex",
        };
        if let Some(rate) = value.get("rate_limits") {
            bucket(&mut output, id, rate, timestamp);
        }
    }
    output
}

/// The number of reset credits that a payload reports.
pub open spec fn credits_of(value: JsonView) -> Option<i64> {
    let source = match value.member("rate_limit_reset_credits"@) {
        Some(inner) => inner,
        None => value,
    };
    match source.member_signed("available_count"@) {
        Some(count) => Some(
            if count < 0 {
                0i64
            } else {
                count
            },
        ),
        None => None,
    }
}

/// The number of usage-limit reset credits that an account can redeem, where a usage or credit
/// payload reports it.
pub fn reset_credits(value: &Json) -> (count: Option<i64>)
    ensures
        count == credits_of(value@),
{
    let source = match value.get("rate_limit_reset_credits") {
        Some(inner) => inner,
        None => value,
    };
    match source.i64_at("available_count") {
        Some(count) => Some(
            if count < 0 {
                0
            } else {
                count
            },
        ),
        None => None,
    }
}

/// The seconds since 1970 of an HTTP date; `None` where the text is none.
pub uninterp spec fn http_date(text: Seq<char>) -> Option<u64>;

/// Reads an HTTP date.
///
/// Calls `httpdate::parse_http_date` and takes the whole seconds since 1970. The result is named:
/// it depends on the text alone.
#[verifier::external_body]
fn http_date_seconds(text: &str) -> (seconds: Option<u64>)
    ensures
        seconds == http_date(text@),
{
    let date = httpdate::parse_http_date(text).ok()?;
    date.duration_since(std::time::UNIX_EPOCH).ok().map(|since| since.as_secs())
}

/// A hold in seconds: at least one, and at most the longest.
pub open spec fn hold_seconds(seconds: u64) -> u64 {
    if seconds < 1 {
        1
    } else if seconds > LONGEST_HOLD {
        LONGEST_HOLD
    } else {
        seconds
    }
}

fn clamp(seconds: u64) -> (clamped: u64)
    ensures
        clamped == hold_seconds(seconds),
{
    if seconds < 1 {
        1
    } else if seconds > LONGEST_HOLD {
        LONGEST_HOLD
    } else {
        seconds
    }
}

/// The delay that a `retry-after` header asks for: a number of seconds, or the time up to a date.
pub open spec fn retry_delay(raw: Option<Seq<char>>, date: Option<u64>, timestamp: u64) -> u64 {
    match raw {
        Some(text) => match crate::text::decimal_value(text) {
            Some(seconds) => seconds,
            None => match date {
                Some(at) => if at > timestamp {
                    (at - timestamp) as u64
                } else {
                    0
                },
                None => DEFAULT_HOLD,
            },
        },
        None => DEFAULT_HOLD,
    }
}

/// When a rejected request may be sent again, given the text of its `retry-after` header and the
/// date that the text reads as.
pub fn retry_from(raw: Option<&str>, date: Option<u64>, timestamp: u64) -> (until: u64)
    ensures
        until == crate::affinity::later(
            timestamp,
            hold_seconds(retry_delay(crate::json::read(raw), date, timestamp)),
        ),
{
    let seconds: u64 = match raw {
        Some(text) => match parse_decimal(text) {
            Some(seconds) => seconds,
            None => match date {
                Some(at) => at.saturating_sub(timestamp),
                None => DEFAULT_HOLD,
            },
        },
        None => DEFAULT_HOLD,
    };
    timestamp.saturating_add(clamp(seconds))
}

/// When a rejected request may be sent again.
pub open spec fn retry_time(headers: Seq<HeaderView>, timestamp: u64) -> u64 {
    let raw = crate::headers::header_text(headers, "retry-after"@);
    let date = match raw {
        Some(text) => http_date(text),
        None => None,
    };
    crate::affinity::later(timestamp, hold_seconds(retry_delay(raw, date, timestamp)))
}

/// When a rejected request may be sent again.
pub fn retry_at(source: &Vec<Header>, timestamp: u64) -> (until: u64)
    ensures
        until == retry_time(crate::headers::header_views(source@), timestamp),
{
    let raw = text_of(source, "retry-after");
    let date: Option<u64> = match raw {
        Some(text) => http_date_seconds(text),
        None => None,
    };
    retry_from(raw, date, timestamp)
}

/// The part of an event or a body that tells of an error.
pub open spec fn error_part(event: JsonView) -> JsonView {
    match event.inner("response"@, "error"@) {
        Some(error) => error,
        None => match event.member("error"@) {
            Some(error) => error,
            None => event,
        },
    }
}

/// The part of an event or a body that tells of an error.
pub fn error_in(event: &Json) -> (error: &Json)
    ensures
        error@ == error_part(event@),
{
    match event.pointer("response", "error") {
        Some(error) => error,
        None => match event.get("error") {
            Some(error) => error,
            None => event,
        },
    }
}

/// The delay that a message names.
pub open spec fn named_delay(message: Seq<char>) -> Option<u64> {
    match crate::text::after_first(message, "Please try again in "@) {
        Some(tail) => match crate::text::first_word(tail) {
            Some(word) => crate::duration::seconds(crate::text::without_trailing(word, '.')),
            None => None,
        },
        None => None,
    }
}

fn delay_in(message: &str) -> (seconds: Option<u64>)
    ensures
        seconds == named_delay(message@),
{
    let chars = chars_of(message);
    let phrase = chars_of("Please try again in ");
    match find_after(&chars, &phrase) {
        Some(start) => match first_word_from(&chars, start) {
            Some(word) => {
                let duration = trim_end_matches(word.as_str(), '.');
                duration_seconds(duration.as_str())
            },
            None => None,
        },
        None => None,
    }
}

/// The error is a rate limit.
pub open spec fn is_rate_limit(error: JsonView) -> bool {
    let code = error.member_text("code"@);
    code == Some("rate_limit_exceeded"@) || code == Some("usage_limit_reached"@)
}

/// The time of reset that an error names.
pub open spec fn named_reset(error: JsonView) -> Option<u64> {
    match error.member("resets_at"@) {
        Some(at) => at.unsigned(),
        None => error.member_unsigned("reset_at"@),
    }
}

/// Until when an event puts an account on hold; `None` where it does not.
pub open spec fn stream_hold_time(event: JsonView, timestamp: u64) -> Option<u64> {
    let error = error_part(event);
    if !is_rate_limit(error) {
        None
    } else {
        match named_reset(error) {
            Some(at) => {
                let least = crate::affinity::later(timestamp, 1);
                Some(
                    if at < least {
                        least
                    } else {
                        at
                    },
                )
            },
            None => {
                let delay = match error.member_text("message"@) {
                    Some(message) => named_delay(message),
                    None => None,
                };
                let seconds = match delay {
                    Some(seconds) => seconds,
                    None => DEFAULT_HOLD,
                };
                Some(
                    crate::affinity::later(
                        crate::affinity::later(timestamp, hold_seconds(seconds)),
                        1,
                    ),
                )
            },
        }
    }
}

/// Until when an event puts an account on hold; `None` where it does not.
///
/// The clock counts whole seconds. One second more keeps the delay that was asked for when the
/// rejection comes near the end of a second.
pub fn stream_hold(event: &Json, timestamp: u64) -> (until: Option<u64>)
    ensures
        until == stream_hold_time(event@, timestamp),
{
    let error = error_in(event);
    let limited = match error.text_at("code") {
        Some(code) => same(code, "rate_limit_exceeded") || same(code, "usage_limit_reached"),
        None => false,
    };
    if !limited {
        return None;
    }
    let reset: Option<u64> = match error.get("resets_at") {
        Some(at) => at.as_u64(),
        None => error.u64_at("reset_at"),
    };
    if let Some(at) = reset {
        let least: u64 = timestamp.saturating_add(1);
        return Some(
            if at < least {
                least
            } else {
                at
            },
        );
    }
    let delay: Option<u64> = match error.text_at("message") {
        Some(message) => delay_in(message),
        None => None,
    };
    let seconds: u64 = match delay {
        Some(seconds) => seconds,
        None => DEFAULT_HOLD,
    };
    Some(timestamp.saturating_add(clamp(seconds)).saturating_add(1))
}

/// A window counts as unused from its reset on, whatever was reported of it.
pub proof fn window_opens_at_reset(window: Window, at: u64)
    requires
        window.reset_at matches Some(reset) && at >= reset,
    ensures
        used(window, at).rank() == 0,
{
}

/// A rejected request waits at least a second and at most seven days, unless the clock ends first.
pub proof fn retry_is_bounded(headers: Seq<HeaderView>, timestamp: u64)
    requires
        timestamp <= u64::MAX - LONGEST_HOLD,
    ensures
        timestamp < retry_time(headers, timestamp) <= timestamp + LONGEST_HOLD,
{
}

/// A rate limit in a stream holds the account past the present second, and no other event does.
pub proof fn stream_hold_is_later(event: JsonView, timestamp: u64)
    requires
        timestamp < u64::MAX,
    ensures
        stream_hold_time(event, timestamp) is Some <==> is_rate_limit(error_part(event)),
        stream_hold_time(event, timestamp) matches Some(until) ==> until > timestamp,
{
}

/// The share of a window counts until its reset; from then on the window counts as unused.
pub proof fn window_counts_until_its_reset(window: Window, at: u64)
    ensures
        window.reset_at is None ==> used(window, at) == window.used_percent,
        window.reset_at matches Some(reset) ==> if at < reset {
            used(window, at) == window.used_percent
        } else {
            used(window, at).bits == 0
        },
{
}

/// The name of a limit keeps its length: capital letters become small ones, underscores become
/// hyphens, and every other character stays.
pub proof fn names_are_made_plain(id: Seq<char>, k: int)
    requires
        0 <= k < id.len(),
    ensures
        normalized(id).len() == id.len(),
        id[k] == '_' ==> normalized(id)[k] == '-',
        'A' <= id[k] <= 'Z' ==> normalized(id)[k] as int == id[k] as int + 32,
        id[k] != '_' && !('A' <= id[k] <= 'Z') ==> normalized(id)[k] == id[k],
{
}

/// A part of a limit holds a window where it gives a share that is a number, finite and not
/// negative. The window has that share. It resets at `reset_at`, or where that is no number so many
/// seconds from now as `reset_after_seconds` says; it is as long as `window_minutes` says, or as
/// `limit_window_seconds` does.
pub proof fn window_has_what_its_part_says(part: JsonView, at: u64)
    ensures
        window_of(part, at) is Some <==> (part.member("used_percent"@) matches Some(
            JsonView::Number(number),
        ) && (number.level matches Some(level) && (level.bits < 0x7ff0_0000_0000_0000 || level.bits
            == 0x8000_0000_0000_0000))),
        window_of(part, at) matches Some(window) ==> {
            &&& part.member("used_percent"@) matches Some(JsonView::Number(number)) && number.level
                == Some(window.used_percent)
            &&& part.member_unsigned("reset_at"@) matches Some(time) ==> window.reset_at == Some(
                time,
            )
            &&& part.member_unsigned("reset_at"@) is None ==> match part.member_unsigned(
                "reset_after_seconds"@,
            ) {
                Some(seconds) if at + seconds <= u64::MAX => window.reset_at == Some(
                    (at + seconds) as u64,
                ),
                Some(seconds) => window.reset_at == Some(u64::MAX),
                None => window.reset_at is None,
            }
            &&& part.member_unsigned("window_minutes"@) matches Some(minutes)
                ==> window.window_minutes == Some(minutes)
            &&& part.member_unsigned("window_minutes"@) is None ==> match part.member_unsigned(
                "limit_window_seconds"@,
            ) {
                Some(seconds) => window.window_minutes == Some((seconds / 60) as u64),
                None => window.window_minutes is None,
            }
        },
{
}

/// What stands for a part of a limit: the member of its name, or where there is none that of its
/// name with `_window`.
spec fn part_of(rate: JsonView, part: Seq<char>) -> Option<JsonView> {
    if rate.member(part) is Some {
        rate.member(part)
    } else {
        rate.member(part + "_window"@)
    }
}

/// A limit with a primary or a secondary part gives a window of its name and that part.
proof fn lemma_bucket(windows: Windows, id: Seq<char>, rate: JsonView, at: u64)
    ensures
        ({
            let after = with_bucket(windows, id, rate, at);
            let primary = normalized(id) + "-primary"@;
            let secondary = normalized(id) + "-secondary"@;
            &&& primary != secondary
            &&& forall|key: Seq<char>|
                key != primary && key != secondary ==> (#[trigger] after.contains_key(key)
                    <==> windows.contains_key(key))
            &&& forall|key: Seq<char>|
                key != primary && key != secondary && #[trigger] windows.contains_key(key)
                    ==> after[key] == windows[key]
            &&& part_of(rate, "primary"@) matches Some(part) ==> (window_of(part, at) matches Some(
                window,
            ) ==> after.contains_key(primary) && after[primary] == window)
            &&& part_of(rate, "secondary"@) matches Some(part) ==> (window_of(
                part,
                at,
            ) matches Some(window) ==> after.contains_key(secondary) && after[secondary] == window)
            &&& !(part_of(rate, "primary"@) matches Some(part) && window_of(part, at) is Some) ==> (
            after.contains_key(primary) <==> windows.contains_key(primary)) && (
            windows.contains_key(primary) ==> after[primary] == windows[primary])
            &&& !(part_of(rate, "secondary"@) matches Some(part) && window_of(part, at) is Some)
                ==> (after.contains_key(secondary) <==> windows.contains_key(secondary)) && (
            windows.contains_key(secondary) ==> after[secondary] == windows[secondary])
        }),
{
    reveal_strlit("-");
    reveal_strlit("primary");
    reveal_strlit("secondary");
    reveal_strlit("-primary");
    reveal_strlit("-secondary");
    let primary = normalized(id) + "-primary"@;
    let secondary = normalized(id) + "-secondary"@;
    assert("-primary"@.len() == 8 && "-secondary"@.len() == 10);
    assert(primary.len() != secondary.len());
    assert("-"@ + "primary"@ =~= "-primary"@);
    assert("-"@ + "secondary"@ =~= "-secondary"@);
    assert(normalized(id) + "-"@ + "primary"@ =~= primary);
    assert(normalized(id) + "-"@ + "secondary"@ =~= secondary);
}

/// An event `codex.rate_limits` tells the windows of the limit that it names by
/// `metered_limit_name`, or where that is missing by `limit_name`, or of Codex where it names none:
/// for each of `primary` and `secondary` under `rate_limits` the window of that part.
pub proof fn rate_limit_event_tells_its_windows(
    event: JsonView,
    rate: JsonView,
    id: Seq<char>,
    at: u64,
)
    requires
        event.member("type"@) == Some(JsonView::Text("codex.rate_limits"@)),
        event.member("rate_limits"@) == Some(rate),
        match (event.member("metered_limit_name"@), event.member("limit_name"@)) {
            (Some(JsonView::Text(name)), _) => id == name,
            (Some(_), _) => id == "codex"@,
            (None, Some(JsonView::Text(name))) => id == name,
            (None, _) => id == "codex"@,
        },
    ensures
        ({
            let windows = usage_windows(event, at);
            let primary = normalized(id) + "-primary"@;
            let secondary = normalized(id) + "-secondary"@;
            &&& rate.member("primary"@) matches Some(part) ==> (window_of(part, at) matches Some(
                window,
            ) ==> windows.contains_key(primary) && windows[primary] == window)
            &&& rate.member("secondary"@) matches Some(part) ==> (window_of(part, at) matches Some(
                window,
            ) ==> windows.contains_key(secondary) && windows[secondary] == window)
            &&& rate.member("primary"@) is None ==> (rate.member(
                "primary_window"@,
            ) matches Some(part) ==> (window_of(part, at) matches Some(window)
                ==> windows.contains_key(primary) && windows[primary] == window))
            &&& rate.member("secondary"@) is None ==> (rate.member(
                "secondary_window"@,
            ) matches Some(part) ==> (window_of(part, at) matches Some(window)
                ==> windows.contains_key(secondary) && windows[secondary] == window))
        }),
{
    let first = match event.member("rate_limit"@) {
        Some(rate) => with_bucket(Map::empty(), "codex"@, rate, at),
        None => Map::empty(),
    };
    let second = match event.member("additional_rate_limits"@) {
        Some(additional) => match additional.items() {
            Some(items) => with_all_additional(first, items, at),
            None => first,
        },
        None => first,
    };
    lemma_bucket(second, id, rate, at);
    lemma_part_names();
    assert(usage_windows(event, at) == with_bucket(second, id, rate, at));
}

proof fn lemma_part_names()
    ensures
        "primary"@ + "_window"@ == "primary_window"@,
        "secondary"@ + "_window"@ == "secondary_window"@,
{
    reveal_strlit("primary");
    reveal_strlit("secondary");
    reveal_strlit("_window");
    reveal_strlit("primary_window");
    reveal_strlit("secondary_window");
    assert("primary"@ + "_window"@ =~= "primary_window"@);
    assert("secondary"@ + "_window"@ =~= "secondary_window"@);
}

/// Usage tells the windows of Codex under `rate_limit`: where it tells no other limits, these and
/// none besides.
pub proof fn usage_tells_the_windows_of_codex(value: JsonView, rate: JsonView, at: u64)
    requires
        value.member("rate_limit"@) == Some(rate),
        value.member("additional_rate_limits"@) is None,
        value.member("type"@) != Some(JsonView::Text("codex.rate_limits"@)),
    ensures
        ({
            let windows = usage_windows(value, at);
            let primary = if rate.member("primary"@) is Some {
                rate.member("primary"@)
            } else {
                rate.member("primary_window"@)
            };
            let secondary = if rate.member("secondary"@) is Some {
                rate.member("secondary"@)
            } else {
                rate.member("secondary_window"@)
            };
            &&& windows.contains_key("codex-primary"@) <==> (primary matches Some(part)
                && window_of(part, at) is Some)
            &&& windows.contains_key("codex-primary"@) ==> window_of(primary->Some_0, at) == Some(
                windows["codex-primary"@],
            )
            &&& windows.contains_key("codex-secondary"@) <==> (secondary matches Some(part)
                && window_of(part, at) is Some)
            &&& windows.contains_key("codex-secondary"@) ==> window_of(secondary->Some_0, at)
                == Some(windows["codex-secondary"@])
            &&& forall|key: Seq<char>| #[trigger]
                windows.contains_key(key) ==> key == "codex-primary"@ || key == "codex-secondary"@
        }),
{
    lemma_bucket(Map::empty(), "codex"@, rate, at);
    lemma_part_names();
    lemma_codex_names();
    assert(usage_windows(value, at) == with_bucket(Map::empty(), "codex"@, rate, at));
}

proof fn lemma_codex_names()
    ensures
        normalized("codex"@) + "-primary"@ == "codex-primary"@,
        normalized("codex"@) + "-secondary"@ == "codex-secondary"@,
{
    reveal_strlit("codex");
    reveal_strlit("-primary");
    reveal_strlit("-secondary");
    reveal_strlit("codex-primary");
    reveal_strlit("codex-secondary");
    assert(normalized("codex"@) =~= "codex"@);
    assert("codex"@ + "-primary"@ =~= "codex-primary"@);
    assert("codex"@ + "-secondary"@ =~= "codex-secondary"@);
}

/// Usage that tells neither a limit, nor more limits, nor is an event of limits, tells no window.
pub proof fn other_values_tell_no_window(value: JsonView, at: u64)
    requires
        value.member("rate_limit"@) is None,
        value.member("additional_rate_limits"@) is None,
        value.member("type"@) != Some(JsonView::Text("codex.rate_limits"@)),
    ensures
        usage_windows(value, at) == Map::<Seq<char>, Window>::empty(),
{
}

proof fn lemma_additional(windows: Windows, items: Seq<JsonView>, k: int, id: Seq<char>, at: u64)
    requires
        0 <= k < items.len(),
        limit_name(items[k]) == Some(id),
        forall|j: int|
            k < j < items.len() ==> !(limit_name(#[trigger] items[j]) matches Some(other)
                && normalized(other) == normalized(id)),
    ensures
        ({
            let rate = match items[k].member("rate_limit"@) {
                Some(rate) => rate,
                None => items[k],
            };
            let after = with_all_additional(windows, items, at);
            let primary = normalized(id) + "-primary"@;
            let secondary = normalized(id) + "-secondary"@;
            &&& part_of(rate, "primary"@) matches Some(part) ==> (window_of(part, at) matches Some(
                window,
            ) ==> after.contains_key(primary) && after[primary] == window)
            &&& part_of(rate, "secondary"@) matches Some(part) ==> (window_of(
                part,
                at,
            ) matches Some(window) ==> after.contains_key(secondary) && after[secondary] == window)
        }),
    decreases items.len(),
{
    let rest = items.drop_last();
    let before = with_all_additional(windows, rest, at);
    let item = items.last();
    if k == items.len() - 1 {
        let rate = match item.member("rate_limit"@) {
            Some(rate) => rate,
            None => item,
        };
        lemma_bucket(before, id, rate, at);
    } else {
        assert(rest[k] == items[k]);
        assert forall|j: int| k < j < rest.len() implies !(limit_name(
            #[trigger] rest[j],
        ) matches Some(other) && normalized(other) == normalized(id)) by {
            assert(rest[j] == items[j]);
        }
        lemma_additional(windows, rest, k, id, at);
        assert(items[items.len() - 1] == item);
        if let Some(other) = limit_name(item) {
            let rate = match item.member("rate_limit"@) {
                Some(rate) => rate,
                None => item,
            };
            lemma_bucket(before, other, rate, at);
            lemma_keys_differ(normalized(id), normalized(other));
        }
    }
}

proof fn lemma_keys_differ(a: Seq<char>, b: Seq<char>)
    requires
        a != b,
    ensures
        a + "-primary"@ != b + "-primary"@,
        a + "-secondary"@ != b + "-secondary"@,
        a + "-primary"@ != b + "-secondary"@,
        a + "-secondary"@ != b + "-primary"@,
{
    reveal_strlit("-primary");
    reveal_strlit("-secondary");
    let p = "-primary"@;
    let s = "-secondary"@;
    assert((a + p).take(a.len() as int) =~= a && (b + p).take(b.len() as int) =~= b);
    assert((a + s).take(a.len() as int) =~= a && (b + s).take(b.len() as int) =~= b);
    assert((a + p).len() == a.len() + 8 && (b + p).len() == b.len() + 8);
    assert((a + s).len() == a.len() + 10 && (b + s).len() == b.len() + 10);
    if a + p == b + s {
        assert((a + p)[a.len() as int] == '-');
        assert((b + s)[b.len() as int + 2] == 'e');
    }
    if a + s == b + p {
        assert((b + p)[b.len() as int] == '-');
        assert((a + s)[a.len() as int + 2] == 'e');
    }
}

/// Usage tells a window for each part of each limit in the list `additional_rate_limits`: under
/// `rate_limit` of the limit or in the limit itself. A limit without a name is passed over; of
/// limits with one name the last counts.
pub proof fn usage_tells_the_windows_of_other_limits(
    value: JsonView,
    items: Seq<JsonView>,
    k: int,
    id: Seq<char>,
    rate: JsonView,
    at: u64,
)
    requires
        value.member("additional_rate_limits"@) == Some(JsonView::List(items)),
        value.member("type"@) != Some(JsonView::Text("codex.rate_limits"@)),
        0 <= k < items.len(),
        items[k].member("metered_limit_name"@) == Some(JsonView::Text(id)) || (items[k].member(
            "metered_limit_name"@,
        ) is None && items[k].member("limit_name"@) == Some(JsonView::Text(id))),
        rate == match items[k].member("rate_limit"@) {
            Some(inner) => inner,
            None => items[k],
        },
        forall|j: int|
            k < j < items.len() ==> !(limit_name(#[trigger] items[j]) matches Some(other)
                && normalized(other) == normalized(id)),
    ensures
        ({
            let windows = usage_windows(value, at);
            let primary = normalized(id) + "-primary"@;
            let secondary = normalized(id) + "-secondary"@;
            &&& rate.member("primary"@) matches Some(part) ==> (window_of(part, at) matches Some(
                window,
            ) ==> windows.contains_key(primary) && windows[primary] == window)
            &&& rate.member("secondary"@) matches Some(part) ==> (window_of(part, at) matches Some(
                window,
            ) ==> windows.contains_key(secondary) && windows[secondary] == window)
            &&& rate.member("primary"@) is None ==> (rate.member(
                "primary_window"@,
            ) matches Some(part) ==> (window_of(part, at) matches Some(window)
                ==> windows.contains_key(primary) && windows[primary] == window))
            &&& rate.member("secondary"@) is None ==> (rate.member(
                "secondary_window"@,
            ) matches Some(part) ==> (window_of(part, at) matches Some(window)
                ==> windows.contains_key(secondary) && windows[secondary] == window))
        }),
{
    let first = match value.member("rate_limit"@) {
        Some(rate) => with_bucket(Map::empty(), "codex"@, rate, at),
        None => Map::empty(),
    };
    lemma_additional(first, items, k, id, at);
    lemma_part_names();
    assert(usage_windows(value, at) == with_all_additional(first, items, at));
}

/// The reset credits of an account are the number under `available_count`, in
/// `rate_limit_reset_credits` where there is such a member, and never less than none.
pub proof fn credits_are_counted(value: JsonView)
    ensures
        ({
            let source = if value.member("rate_limit_reset_credits"@) is Some {
                value.member("rate_limit_reset_credits"@)->Some_0
            } else {
                value
            };
            &&& source.member_signed("available_count"@) is None ==> credits_of(value) is None
            &&& source.member_signed("available_count"@) matches Some(count) ==> {
                &&& count >= 0 ==> credits_of(value) == Some(count)
                &&& count < 0 ==> credits_of(value) == Some(0i64)
            }
        }),
{
}

/// A limited account is asked again after the seconds that `retry-after` names, or at the date that
/// it names, or after half a minute where it names neither; but not before a second and not after
/// a week.
pub proof fn retry_follows_the_header(headers: Seq<HeaderView>, at: u64)
    requires
        at <= u64::MAX - 604_800,
    ensures
        match crate::headers::header_text(headers, "retry-after"@) {
            None => retry_time(headers, at) == at + 30,
            Some(text) => match (crate::text::decimal_value(text), http_date(text)) {
                (Some(seconds), _) => {
                    &&& 1 <= seconds <= 604_800 ==> retry_time(headers, at) == at + seconds
                    &&& seconds == 0 ==> retry_time(headers, at) == at + 1
                    &&& seconds > 604_800 ==> retry_time(headers, at) == at + 604_800
                },
                (None, Some(date)) => {
                    &&& at < date <= at + 604_800 ==> retry_time(headers, at) == date
                    &&& date <= at ==> retry_time(headers, at) == at + 1
                    &&& date > at + 604_800 ==> retry_time(headers, at) == at + 604_800
                },
                (None, None) => retry_time(headers, at) == at + 30,
            },
        },
{
}

/// A stream holds an account only for the errors `rate_limit_exceeded` and `usage_limit_reached`,
/// which stand under `response.error`, `error` or in the event itself: until the reset that the
/// error names, or a second longer than the delay that its message names, or than half a minute.
pub proof fn stream_holds_until_the_error_says(event: JsonView, error: JsonView, at: u64)
    requires
        at <= u64::MAX - 604_801,
        match event.member("response"@) {
            Some(response) if response.member("error"@) is Some => Some(error) == response.member(
                "error"@,
            ),
            _ => match event.member("error"@) {
                Some(inner) => error == inner,
                None => error == event,
            },
        },
    ensures
        !(error.member("code"@) == Some(JsonView::Text("rate_limit_exceeded"@)) || error.member(
            "code"@,
        ) == Some(JsonView::Text("usage_limit_reached"@))) ==> stream_hold_time(event, at) is None,
        error.member("code"@) == Some(JsonView::Text("rate_limit_exceeded"@)) || error.member(
            "code"@,
        ) == Some(JsonView::Text("usage_limit_reached"@)) ==> {
            let reset = if error.member("resets_at"@) is Some {
                error.member_unsigned("resets_at"@)
            } else {
                error.member_unsigned("reset_at"@)
            };
            &&& reset matches Some(time) ==> {
                &&& time > at ==> stream_hold_time(event, at) == Some(time)
                &&& time <= at ==> stream_hold_time(event, at) == Some((at + 1) as u64)
            }
            &&& reset is None ==> match error.member("message"@) {
                Some(JsonView::Text(message)) if named_delay(message) is Some => {
                    let seconds = named_delay(message)->Some_0;
                    &&& 1 <= seconds <= 604_800 ==> stream_hold_time(event, at) == Some(
                        (at + seconds + 1) as u64,
                    )
                    &&& seconds == 0 ==> stream_hold_time(event, at) == Some((at + 2) as u64)
                    &&& seconds > 604_800 ==> stream_hold_time(event, at) == Some(
                        (at + 604_801) as u64,
                    )
                },
                _ => stream_hold_time(event, at) == Some((at + 31) as u64),
            }
        },
{
}

/// A message names a delay by the word that follows `Please try again in `, without the points at
/// its end.
pub proof fn messages_name_a_delay(before: Seq<char>, word: Seq<char>, after: Seq<char>)
    requires
        crate::text::first_at(
            before + "Please try again in "@ + after,
            "Please try again in "@,
            before.len() as int,
        ),
        crate::text::first_word(after) == Some(word),
    ensures
        named_delay(before + "Please try again in "@ + after) == crate::duration::seconds(
            crate::text::without_trailing(word, '.'),
        ),
{
    let part = "Please try again in "@;
    let whole = before + part + after;
    crate::text::text_after_its_first_place(whole, part, before.len() as int);
    assert(whole.skip(before.len() as int + part.len()) =~= after);
}

/// The windows of the headers: `x-<name>-primary` and `x-<name>-secondary` with `-used-percent` give
/// a window of that name, which resets at the time under `-reset-at` and is as long as
/// `-window-minutes` says. Without a usable share there is no window.
pub proof fn headers_tell_their_windows(
    headers: Seq<HeaderView>,
    windows: Windows,
    id: Seq<char>,
    part: Seq<char>,
)
    requires
        header_windows(headers, windows),
        part == "primary"@ || part == "secondary"@,
        !("x-"@.is_prefix_of(id + "-"@ + part)),
        forall|i: int|
            0 <= i < headers.len() ==> !("x-x-"@.is_prefix_of((#[trigger] headers[i]).name)),
    ensures
        ({
            let name = id + "-"@ + part;
            let share = crate::headers::header_level(headers, "x-"@ + name + "-used-percent"@);
            let reset = crate::headers::header_text(headers, "x-"@ + name + "-reset-at"@);
            let length = crate::headers::header_text(headers, "x-"@ + name + "-window-minutes"@);
            &&& windows.contains_key(name) <==> share is Some && share->Some_0.usable()
            &&& windows.contains_key(name) ==> {
                &&& windows[name].used_percent == share->Some_0
                &&& windows[name].reset_at == match reset {
                    Some(text) => crate::text::decimal_value(text),
                    None => None,
                }
                &&& windows[name].window_minutes == match length {
                    Some(text) => crate::text::decimal_value(text),
                    None => None,
                }
            }
        }),
{
    let name = id + "-"@ + part;
    let prefix = "x-"@ + name;
    reveal_strlit("x-");
    reveal_strlit("x-x-");
    reveal_strlit("-");
    reveal_strlit("primary");
    reveal_strlit("secondary");
    reveal_strlit("-primary");
    reveal_strlit("-secondary");
    assert(prefix.subrange(0, 2) =~= "x-"@);
    assert("-"@ + "primary"@ =~= "-primary"@);
    assert("-"@ + "secondary"@ =~= "-secondary"@);
    assert(is_window_prefix(prefix)) by {
        let tail = "-"@ + part;
        assert(prefix.subrange(prefix.len() - tail.len(), prefix.len() as int) =~= tail);
    }
    assert(bare(prefix) == name) by {
        assert(prefix.skip(2) =~= name);
        assert(bare(name) == name) by {
            if name.len() >= 2 && name[0] == 'x' && name[1] == '-' {
                assert(name.subrange(0, 2) =~= "x-"@);
            }
        }
    }
    crate::headers::first_header_is_read(headers, prefix + "-used-percent"@);
    crate::headers::header_is_found(headers, prefix + "-used-percent"@);
    assert forall|other: Seq<char>| #[trigger] supplies(headers, other, name) implies other
        == prefix by {
        assert(other.subrange(0, 2) =~= "x-"@);
        let rest = other.skip(2);
        assert(other =~= "x-"@ + rest);
        assert(bare(other) == bare(rest)) by {
            assert(other[0] == other.subrange(0, 2)[0] && other[1] == other.subrange(0, 2)[1]);
        }
        let i = choose|i: int|
            0 <= i < headers.len() && (#[trigger] headers[i]).name == other + "-used-percent"@;
        if rest.len() >= 2 && rest[0] == 'x' && rest[1] == '-' {
            assert(headers[i].name.subrange(0, 4) =~= "x-x-"@);
        }
        assert(bare(rest) == rest);
    }
    if header_window(headers, prefix) is Some {
        assert(supplies(headers, prefix, name));
    }
}

proof fn lemma_api_headers(resource: Seq<char>)
    ensures
        api_header("limit"@, resource) == "x-ratelimit-limit-"@ + resource,
        api_header("remaining"@, resource) == "x-ratelimit-remaining-"@ + resource,
        api_header("reset"@, resource) == "x-ratelimit-reset-"@ + resource,
{
    reveal_strlit("x-ratelimit-");
    reveal_strlit("limit");
    reveal_strlit("remaining");
    reveal_strlit("reset");
    reveal_strlit("-");
    reveal_strlit("x-ratelimit-limit-");
    reveal_strlit("x-ratelimit-remaining-");
    reveal_strlit("x-ratelimit-reset-");
    assert("x-ratelimit-"@ + "limit"@ + "-"@ =~= "x-ratelimit-limit-"@);
    assert("x-ratelimit-"@ + "remaining"@ + "-"@ =~= "x-ratelimit-remaining-"@);
    assert("x-ratelimit-"@ + "reset"@ + "-"@ =~= "x-ratelimit-reset-"@);
}

proof fn lemma_api_windows(
    headers: Seq<HeaderView>,
    model: Seq<char>,
    resource: Seq<char>,
    timestamp: u64,
)
    requires
        resource == "requests"@ || resource == "tokens"@ || resource == "project-tokens"@,
    ensures
        ({
            let windows = api_windows(headers, model, timestamp);
            let name = "api:"@ + model + ":"@ + resource;
            let window = api_window(headers, resource, timestamp);
            &&& windows.contains_key(name) <==> window is Some
            &&& windows.contains_key(name) ==> windows[name] == window->Some_0
        }),
{
    reveal_strlit("requests");
    reveal_strlit("tokens");
    reveal_strlit("project-tokens");
    let head = "api:"@ + model + ":"@;
    assert((head + "requests"@).len() == head.len() + 8);
    assert((head + "tokens"@).len() == head.len() + 6);
    assert((head + "project-tokens"@).len() == head.len() + 14);
}

/// The windows of an API account: `requests`, `tokens` and `project-tokens` give each a window where
/// the headers tell a limit above zero and what remains of it; it resets after the time that the
/// headers tell, and its length is not told.
pub proof fn api_headers_tell_their_windows(
    headers: Seq<HeaderView>,
    model: Seq<char>,
    resource: Seq<char>,
    timestamp: u64,
)
    requires
        resource == "requests"@ || resource == "tokens"@ || resource == "project-tokens"@,
    ensures
        ({
            let windows = api_windows(headers, model, timestamp);
            let name = "api:"@ + model + ":"@ + resource;
            let limit = crate::headers::header_level(headers, "x-ratelimit-limit-"@ + resource);
            let rest = crate::headers::header_level(headers, "x-ratelimit-remaining-"@ + resource);
            let reset = crate::headers::header_text(headers, "x-ratelimit-reset-"@ + resource);
            &&& windows.contains_key(name) <==> limit is Some && limit->Some_0.usable()
                && limit->Some_0.rank() > 0 && rest is Some && rest->Some_0.usable()
            &&& windows.contains_key(name) ==> {
                &&& windows[name].used_percent == used_share(limit->Some_0, rest->Some_0)
                &&& windows[name].window_minutes is None
                &&& windows[name].reset_at is Some <==> reset is Some && crate::duration::seconds(
                    reset->Some_0,
                ) is Some
                &&& windows[name].reset_at is Some && timestamp + crate::duration::seconds(
                    reset->Some_0,
                )->Some_0 <= u64::MAX ==> windows[name].reset_at->Some_0 == timestamp
                    + crate::duration::seconds(reset->Some_0)->Some_0
            }
        }),
{
    lemma_api_headers(resource);
    lemma_api_windows(headers, model, resource, timestamp);
}

/// The used share of a limit is a hundred times the part that does not remain, wherever the part
/// that remains is a fraction with a denominator of up to 46 bits that is a power of two; more than
/// the limit never remains.
pub proof fn used_share_is_what_does_not_remain(
    limit: Level,
    remaining: Level,
    part: nat,
    bits: nat,
    share: Level,
)
    requires
        limit.usable(),
        remaining.usable(),
        limit.rank() > 0,
        bits <= 46,
        part <= vstd::arithmetic::power2::pow2(bits),
        remaining.rank() >= limit.rank() ==> part == vstd::arithmetic::power2::pow2(bits),
        remaining.rank() < limit.rank() ==> crate::double::level_units(remaining)
            * vstd::arithmetic::power2::pow2(bits) == part * crate::double::level_units(limit),
        crate::double::is_plain(share),
        crate::double::level_units(share) == 100 * (vstd::arithmetic::power2::pow2(bits) - part)
            * vstd::arithmetic::power2::pow2((1074 - bits) as nat),
    ensures
        used_share(limit, remaining) == share,
{
    let one = crate::double::one();
    let whole = vstd::arithmetic::power2::pow2(bits);
    let fine = vstd::arithmetic::power2::pow2((1074 - bits) as nat);
    let rest = if remaining.rank() < limit.rank() {
        crate::double::level_units(remaining)
    } else {
        crate::double::level_units(limit)
    };
    let all = crate::double::level_units(limit);
    vstd::arithmetic::power2::lemma_pow2_adds(bits, (1074 - bits) as nat);
    vstd::arithmetic::power2::lemma_pow2_pos(bits);
    vstd::arithmetic::power2::lemma_pow2_pos((1074 - bits) as nat);
    vstd::arithmetic::power2::lemma_pow2_pos(1074);
    crate::double::units_follow_the_order(Level { bits: 0 }, limit);
    assert(all > 0);
    assert(rest * whole == part * all) by (nonlinear_arith)
        requires
            rest * whole == part * all || (rest == all && part == whole),
    ;
    crate::double::lemma_same_quotient(rest, all, part, whole);
    crate::double::lemma_scaled_quotient(part, whole, fine);
    vstd::arithmetic::power2::lemma2_to64();
    vstd::arithmetic::power2::lemma2_to64_rest();
    crate::percent::lemma_grows(bits, 46);
    assert(whole <= 0x4000_0000_0000);
    crate::double::doubles_are_exact(part, (1074 - bits) as nat);
    let left = part * fine;
    let gone = (whole - part) as nat;
    assert(one - left == gone * fine) by (nonlinear_arith)
        requires
            one == whole * fine,
            left == part * fine,
            gone == whole - part,
    ;
    crate::double::doubles_are_exact(gone, (1074 - bits) as nat);
    let used = gone * fine;
    crate::double::doubles_are_exact(100 * gone, (1074 - bits) as nat);
    assert((100 * gone) * fine == 100 * used) by (nonlinear_arith)
        requires
            used == gone * fine,
    ;
    crate::double::lemma_scaled_quotient(100 * used, one, one);
    assert(used * (100 * one) == (100 * used) * one) by (nonlinear_arith);
    assert(100 * (whole - part) * fine == 100 * used) by (nonlinear_arith)
        requires
            used == gone * fine,
            gone == whole - part,
    ;
    crate::double::level_of_its_units(share);
}

/// A limit of which nothing remains is used by 100 percent, and one of which all remains by none.
pub proof fn share_reaches_from_nothing_to_all(limit: Level, remaining: Level)
    requires
        limit.usable(),
        remaining.usable(),
        limit.rank() > 0,
    ensures
        remaining.rank() == 0 ==> used_share(limit, remaining).bits == 0x4059_0000_0000_0000,
        remaining.rank() >= limit.rank() ==> used_share(limit, remaining).bits == 0,
{
    let all = Level { bits: 0x4059_0000_0000_0000 };
    let none = Level { bits: 0 };
    vstd::arithmetic::power2::lemma2_to64();
    vstd::arithmetic::power2::lemma_pow2_adds(46, 1028);
    vstd::arithmetic::power2::lemma2_to64_rest();
    if remaining.rank() >= limit.rank() {
        assert(crate::double::level_units(none) == 0) by {
            assert(crate::percent::mantissa(none) == 0);
            assert(0 * vstd::arithmetic::power2::pow2(
                (crate::percent::scale(none) + 1074) as nat,
            ) == 0);
        }
        let fine = vstd::arithmetic::power2::pow2(1074);
        let gone = vstd::arithmetic::power2::pow2(0) - 1;
        assert(100 * gone * fine == 0) by (nonlinear_arith)
            requires
                gone == 0,
        ;
        used_share_is_what_does_not_remain(limit, remaining, 1, 0, none);
    }
    if remaining.rank() == 0 {
        let m = crate::percent::mantissa(all);
        assert(m == 0x19_0000_0000_0000);
        assert(crate::percent::scale(all) == -46);
        let p = vstd::arithmetic::power2::pow2(1028);
        assert(vstd::arithmetic::power2::pow2(46) == 0x4000_0000_0000);
        assert(m * p == 100 * (0x4000_0000_0000 * p)) by (nonlinear_arith)
            requires
                m == 0x19_0000_0000_0000,
        ;
        assert(crate::double::level_units(remaining) == 0) by {
            assert(crate::percent::mantissa(remaining) == 0);
            assert(0 * vstd::arithmetic::power2::pow2(
                (crate::percent::scale(remaining) + 1074) as nat,
            ) == 0);
        }
        assert(0 * vstd::arithmetic::power2::pow2(0) == 0 * crate::double::level_units(limit));
        used_share_is_what_does_not_remain(limit, remaining, 0, 0, all);
    }
}

} // verus!
