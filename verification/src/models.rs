//! Rejections that tell that an account has no access to a model.
use crate::json::Json;
use crate::json::JsonView;
use crate::quota::error_in;
use crate::text::concat3;
use crate::text::same;
use crate::text::trim;
use vstd::prelude::*;
use vstd::string::*;

verus! {

/// The code of an explicit rejection.
pub open spec fn is_rejection_code(code: Option<Seq<char>>) -> bool {
    code == Some("model_not_found"@) || code == Some("model_access_denied"@)
}

/// The message of an error: its message, else its detail, else the error itself where it is text.
pub open spec fn message_of(error: JsonView) -> Option<Seq<char>> {
    let inner = match error.member("message"@) {
        Some(message) => message.text(),
        None => error.member_text("detail"@),
    };
    match inner {
        Some(text) => Some(text),
        None => error.text(),
    }
}

/// The message with which the ChatGPT backend rejects a model, with the model in these quotes.
pub open spec fn rejection_message(model: Seq<char>, quote: Seq<char>) -> Seq<char> {
    "The "@ + quote + model + quote
        + " model is not supported when using Codex with a ChatGPT account."@
}

/// The value rejects this model.
pub open spec fn rejects(value: JsonView, model: Seq<char>) -> bool {
    let error = crate::quota::error_part(value);
    &&& model.len() > 0
    &&& {
        ||| is_rejection_code(error.member_text("code"@))
        ||| match message_of(error) {
            Some(message) => {
                let text = crate::text::trimmed(message);
                text == rejection_message(model, "'"@) || text == rejection_message(model, "\""@)
                    || text == rejection_message(model, "`"@)
            },
            None => false,
        }
    }
}

fn message_in(error: &Json) -> (message: Option<&str>)
    ensures
        crate::json::read(message) == message_of(error@),
{
    let inner = match error.get("message") {
        Some(message) => message.as_str(),
        None => error.text_at("detail"),
    };
    match inner {
        Some(text) => Some(text),
        None => error.as_str(),
    }
}

fn rejection(model: &str, quote: &str) -> (message: String)
    ensures
        message@ == rejection_message(model@, quote@),
{
    let start = concat3("The ", quote, model);
    concat3(
        start.as_str(),
        quote,
        " model is not supported when using Codex with a ChatGPT account.",
    )
}

/// Whether a value is an explicit rejection of a model. Generic errors of permission, endpoint,
/// parameter and safety are none.
pub fn unavailable(value: &Json, model: &str) -> (yes: bool)
    ensures
        yes == rejects(value@, model@),
{
    if model.unicode_len() == 0 {
        return false;
    }
    let error = error_in(value);
    let coded = match error.text_at("code") {
        Some(code) => same(code, "model_not_found") || same(code, "model_access_denied"),
        None => false,
    };
    if coded {
        return true;
    }
    match message_in(error) {
        Some(message) => {
            let text = trim(message);
            same(text.as_str(), rejection(model, "'").as_str()) || same(
                text.as_str(),
                rejection(model, "\"").as_str(),
            ) || same(text.as_str(), rejection(model, "`").as_str())
        },
        None => false,
    }
}

/// Without a model nothing is rejected.
pub proof fn no_model_is_not_rejected(value: JsonView)
    ensures
        !rejects(value, Seq::empty()),
{
}

/// Whether a message says, with one of the three quotes, that Codex has no such model.
pub open spec fn tells_of_no_model(message: Seq<char>, model: Seq<char>, quote: Seq<char>) -> bool {
    &&& quote == "'"@ || quote == "\""@ || quote == "`"@
    &&& crate::text::trimmed(message) == "The "@ + quote + model + quote
        + " model is not supported when using Codex with a ChatGPT account."@
}

/// A named model is rejected by the codes `model_not_found` and `model_access_denied`, and by the
/// message of Codex about just this model, which stands under `message` or, where there is none,
/// under `detail`, or is the whole error; nothing else rejects it.
pub proof fn rejections_name_the_model(value: JsonView, error: JsonView, model: Seq<char>)
    requires
        error == crate::quota::error_part(value),
        model.len() > 0,
    ensures
        error.member_text("code"@) == Some("model_not_found"@) ==> rejects(value, model),
        error.member_text("code"@) == Some("model_access_denied"@) ==> rejects(value, model),
        forall|message: Seq<char>, quote: Seq<char>|
            error.member_text("message"@) == Some(message) && #[trigger] tells_of_no_model(
                message,
                model,
                quote,
            ) ==> rejects(value, model),
        forall|message: Seq<char>, quote: Seq<char>|
            error.member("message"@) is None && error.member_text("detail"@) == Some(message)
                && #[trigger] tells_of_no_model(message, model, quote) ==> rejects(value, model),
        forall|message: Seq<char>, quote: Seq<char>|
            error == JsonView::Text(message) && #[trigger] tells_of_no_model(message, model, quote)
                ==> rejects(value, model),
        rejects(value, model) ==> {
            ||| error.member_text("code"@) == Some("model_not_found"@)
            ||| error.member_text("code"@) == Some("model_access_denied"@)
            ||| exists|message: Seq<char>, quote: Seq<char>|
                (error.member_text("message"@) == Some(message) || error.member_text("detail"@)
                    == Some(message) || error == JsonView::Text(message))
                    && #[trigger] tells_of_no_model(message, model, quote)
        },
{
    crate::json::members_are_read_as_what_they_are(error, "message"@);
    crate::json::members_are_read_as_what_they_are(error, "detail"@);
    crate::json::values_are_read_as_what_they_are(error);
    if message_of(error) is Some {
        let message = message_of(error)->Some_0;
        if crate::text::trimmed(message) == rejection_message(model, "'"@) {
            assert(tells_of_no_model(message, model, "'"@));
        } else if crate::text::trimmed(message) == rejection_message(model, "\""@) {
            assert(tells_of_no_model(message, model, "\""@));
        } else if crate::text::trimmed(message) == rejection_message(model, "`"@) {
            assert(tells_of_no_model(message, model, "`"@));
        }
    }
}

/// An error is told by the `error` in a `response`, or else by the `error` of the value itself, or
/// else by the value.
pub proof fn errors_stand_where_they_are_looked_for(
    value: JsonView,
    response: JsonView,
    error: JsonView,
)
    ensures
        value.member("response"@) == Some(response) && response.member("error"@) == Some(error)
            ==> crate::quota::error_part(value) == error,
        value.member("response"@) is None && value.member("error"@) == Some(error)
            ==> crate::quota::error_part(value) == error,
        value.member("response"@) is None && value.member("error"@) is None
            ==> crate::quota::error_part(value) == value,
{
}

} // verus!
