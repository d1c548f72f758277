//! HTTP headers as the library reads them.
use crate::level::Level;
use crate::number::parse_number;
use crate::text::same;
use vstd::prelude::*;

verus! {

/// A header: its lower-case name, and its value where that is visible text.
pub struct Header {
    pub name: String,
    pub text: Option<String>,
}

/// What a header holds.
pub struct HeaderView {
    pub name: Seq<char>,
    pub text: Option<Seq<char>>,
}

impl View for Header {
    type V = HeaderView;

    open spec fn view(&self) -> HeaderView {
        HeaderView { name: self.name@, text: crate::text::option_view(self.text) }
    }
}

/// What a list of headers holds.
pub open spec fn header_views(headers: Seq<Header>) -> Seq<HeaderView> {
    headers.map_values(|header: Header| header@)
}

/// The first header with a name.
pub open spec fn first_header(headers: Seq<HeaderView>, name: Seq<char>) -> Option<HeaderView>
    decreases headers.len(),
{
    if headers.len() == 0 {
        None
    } else if headers[0].name == name {
        Some(headers[0])
    } else {
        first_header(headers.drop_first(), name)
    }
}

/// The text of the first header with a name.
pub open spec fn header_text(headers: Seq<HeaderView>, name: Seq<char>) -> Option<Seq<char>> {
    match first_header(headers, name) {
        Some(header) => header.text,
        None => None,
    }
}

/// The finite number that the first header with a name spells.
pub open spec fn header_level(headers: Seq<HeaderView>, name: Seq<char>) -> Option<Level> {
    match header_text(headers, name) {
        Some(text) => crate::number::number(text),
        None => None,
    }
}

/// Some header has this name.
pub open spec fn has_header(headers: Seq<HeaderView>, name: Seq<char>) -> bool {
    exists|i: int| 0 <= i < headers.len() && (#[trigger] headers[i]).name == name
}

/// A header with a name is found where there is one.
pub proof fn header_is_found(headers: Seq<HeaderView>, name: Seq<char>)
    ensures
        first_header(headers, name) is Some <==> has_header(headers, name),
    decreases headers.len(),
{
    if headers.len() > 0 {
        let rest = headers.drop_first();
        header_is_found(rest, name);
        if has_header(headers, name) && headers[0].name != name {
            let i = choose|i: int| 0 <= i < headers.len() && (#[trigger] headers[i]).name == name;
            assert(rest[i - 1].name == name);
        }
        if has_header(rest, name) {
            let i = choose|i: int| 0 <= i < rest.len() && (#[trigger] rest[i]).name == name;
            assert(headers[i + 1].name == name);
        }
    }
}

/// A header of another name changes nothing of what is found, wherever it stands.
pub proof fn other_header_is_passed_over(
    headers: Seq<HeaderView>,
    i: int,
    other: HeaderView,
    name: Seq<char>,
)
    requires
        0 <= i <= headers.len(),
        other.name != name,
    ensures
        first_header(headers.insert(i, other), name) == first_header(headers, name),
    decreases headers.len(),
{
    let longer = headers.insert(i, other);
    if i == 0 {
        assert(longer.drop_first() =~= headers);
    } else {
        assert(longer[0] == headers[0]);
        assert(longer.drop_first() =~= headers.drop_first().insert(i - 1, other));
        other_header_is_passed_over(headers.drop_first(), i - 1, other, name);
    }
}

/// The first header with a name.
pub fn find_header<'a>(headers: &'a Vec<Header>, name: &str) -> (header: Option<&'a Header>)
    ensures
        match header {
            Some(found) => first_header(header_views(headers@), name@) == Some(found@),
            None => first_header(header_views(headers@), name@) is None,
        },
{
    let ghost all = header_views(headers@);
    let mut i: usize = 0;
    assert(all.skip(0) =~= all);
    while i < headers.len()
        invariant
            i <= headers@.len(),
            all == header_views(headers@),
            first_header(all, name@) == first_header(all.skip(i as int), name@),
        decreases headers@.len() - i,
    {
        assert(all.skip(i as int)[0] == headers@[i as int]@);
        if same(headers[i].name.as_str(), name) {
            return Some(&headers[i]);
        }
        assert(all.skip(i as int).drop_first() =~= all.skip(i + 1));
        i = i + 1;
    }
    None
}

/// The text of the first header with a name.
pub fn text_of<'a>(headers: &'a Vec<Header>, name: &str) -> (text: Option<&'a str>)
    ensures
        crate::json::read(text) == header_text(header_views(headers@), name@),
{
    match find_header(headers, name) {
        Some(header) => match &header.text {
            Some(text) => Some(text.as_str()),
            None => None,
        },
        None => None,
    }
}

/// The finite number that the first header with a name spells.
pub fn level_of(headers: &Vec<Header>, name: &str) -> (level: Option<Level>)
    ensures
        level == header_level(header_views(headers@), name@),
{
    match text_of(headers, name) {
        Some(text) => parse_number(text),
        None => None,
    }
}

/// Whether there is a header with a name.
pub fn has(headers: &Vec<Header>, name: &str) -> (yes: bool)
    ensures
        yes == has_header(header_views(headers@), name@),
{
    proof {
        header_is_found(header_views(headers@), name@);
    }
    find_header(headers, name).is_some()
}

/// A text that can stand in a header: no control characters but the tab.
pub open spec fn header_value(text: Seq<char>) -> bool {
    forall|i: int|
        0 <= i < crate::text::utf8(text).len() ==> {
            let byte = #[trigger] crate::text::utf8(text)[i];
            byte == 9 || (byte >= 32 && byte != 127)
        }
}

/// Whether a text can stand in a header.
///
/// Calls `axum::http::HeaderValue::from_str`, which accepts a text where each byte is a tab or at
/// least 32 and not 127.
#[verifier::external_body]
pub(crate) fn is_header_value(text: &str) -> (yes: bool)
    ensures
        yes == header_value(text@),
{
    axum::http::HeaderValue::from_str(text).is_ok()
}

/// Whether a position holds the first header with a name.
pub open spec fn stands_first(headers: Seq<HeaderView>, i: int, name: Seq<char>) -> bool {
    &&& 0 <= i < headers.len()
    &&& headers[i].name == name
    &&& forall|j: int| 0 <= j < i ==> (#[trigger] headers[j]).name != name
}

/// Of several headers with one name the first is read, and a name that no header has gives no text.
pub proof fn first_header_is_read(headers: Seq<HeaderView>, name: Seq<char>)
    ensures
        forall|i: int| #[trigger]
            stands_first(headers, i, name) ==> first_header(headers, name) == Some(headers[i])
                && header_text(headers, name) == headers[i].text,
        has_header(headers, name) ==> exists|i: int| #[trigger] stands_first(headers, i, name),
        (forall|i: int| 0 <= i < headers.len() ==> (#[trigger] headers[i]).name != name)
            ==> header_text(headers, name) is None,
    decreases headers.len(),
{
    if headers.len() > 0 {
        let rest = headers.drop_first();
        first_header_is_read(rest, name);
        if headers[0].name == name {
            assert(stands_first(headers, 0, name));
            assert forall|i: int| #[trigger] stands_first(headers, i, name) implies i == 0 by {
                if i > 0 {
                    assert(headers[0].name != name);
                }
            }
        } else {
            assert forall|i: int| #[trigger] stands_first(headers, i, name) implies first_header(
                headers,
                name,
            ) == Some(headers[i]) by {
                assert(i > 0);
                assert(rest[i - 1] == headers[i]);
                assert forall|j: int| 0 <= j < i - 1 implies (#[trigger] rest[j]).name != name by {
                    assert(rest[j] == headers[j + 1]);
                }
                assert(stands_first(rest, i - 1, name));
            }
            if has_header(headers, name) {
                let i = choose|i: int| 0 <= i < headers.len() && (#[trigger] headers[i]).name == name;
                assert(rest[i - 1] == headers[i]);
                assert(has_header(rest, name));
                let k = choose|k: int| #[trigger] stands_first(rest, k, name);
                assert(headers[k + 1] == rest[k]);
                assert forall|j: int| 0 <= j < k + 1 implies (#[trigger] headers[j]).name != name by {
                    if j > 0 {
                        assert(rest[j - 1] == headers[j]);
                    }
                }
                assert(stands_first(headers, k + 1, name));
            }
            if forall|i: int| 0 <= i < headers.len() ==> (#[trigger] headers[i]).name != name {
                assert forall|i: int| 0 <= i < rest.len() implies (#[trigger] rest[i]).name
                    != name by {
                    assert(rest[i] == headers[i + 1]);
                }
            }
        }
    }
}

/// A text can stand in a header exactly where each of its bytes is a tab, or is a space or above and
/// is not the delete character.
pub proof fn header_values_are_printable(text: Seq<char>, i: int)
    requires
        0 <= i < crate::text::utf8(text).len(),
    ensures
        header_value(text) ==> crate::text::utf8(text)[i] == 9 || (crate::text::utf8(text)[i] >= 32
            && crate::text::utf8(text)[i] != 127),
        crate::text::utf8(text)[i] < 32 && crate::text::utf8(text)[i] != 9 ==> !header_value(text),
        crate::text::utf8(text)[i] == 127 ==> !header_value(text),
        (forall|k: int|
            0 <= k < crate::text::utf8(text).len() ==> {
                let byte = #[trigger] crate::text::utf8(text)[k];
                byte == 9 || 32 <= byte <= 126 || byte >= 128
            }) ==> header_value(text),
        header_value(Seq::empty()),
{
    assert(crate::text::utf8(Seq::empty()).len() == 0);
}

} // verus!
