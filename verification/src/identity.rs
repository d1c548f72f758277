//! What binds a session to an account: digests of the identity of the account and of the session.
//!
//! An account is known by its name, kind, base URL, identities and credential source, so bindings
//! survive a change of order, and a change of any of these ends them.
use crate::affinity::hash;
use crate::config::Account;
use crate::config::AccountView;
use crate::config::Credential;
use crate::config::CredentialView;
use crate::config::Kind;
use crate::json::quoted;
use crate::text::concat3;
use crate::text::decimal;
use crate::text::join;
use crate::text::owned;
use vstd::prelude::*;
use vstd::string::*;

verus! {

/// The digest of a text.
pub open spec fn text_digest(text: Seq<char>) -> Seq<char> {
    crate::codec::encoded(crate::codec::sha256(crate::text::utf8(text)))
}

/// The digest of a text.
pub fn hash_text(text: &str) -> (digest: String)
    ensures
        digest@ == text_digest(text@),
        crate::affinity::valid_binding(digest@),
{
    hash(text.as_bytes())
}

/// A JSON string, or `null`.
pub open spec fn optional_text(text: Option<Seq<char>>) -> Seq<char> {
    match text {
        Some(inner) => crate::json::json_string(inner),
        None => "null"@,
    }
}

/// The JSON text of a list of JSON texts.
pub open spec fn list_text(items: Seq<Seq<char>>) -> Seq<char> {
    "["@ + crate::text::joined(items, ","@) + "]"@
}

/// JSON strings of texts.
pub open spec fn quoted_all(texts: Seq<Seq<char>>) -> Seq<Seq<char>> {
    texts.map_values(|text: Seq<char>| crate::json::json_string(text))
}

/// The JSON text of a credential source.
pub open spec fn credential_text(credential: CredentialView) -> Seq<char> {
    match credential {
        CredentialView::Managed { path } => "{\"type\":\"managed\",\"path\":"@
            + crate::json::json_string(path) + "}"@,
        CredentialView::Env { name } => "{\"type\":\"env\",\"name\":"@ + crate::json::json_string(
            name,
        ) + "}"@,
        CredentialView::Command { argv, cache_seconds } => "{\"type\":\"command\",\"argv\":"@
            + list_text(quoted_all(argv)) + (",\"cache_seconds\":"@ + crate::text::decimal_text(
            cache_seconds as nat,
        ) + "}"@),
    }
}

/// The JSON text of a kind of account.
pub open spec fn kind_text(kind: Kind) -> Seq<char> {
    match kind {
        Kind::Chatgpt => "\"chatgpt\""@,
        Kind::Api => "\"api\""@,
    }
}

/// The JSON text of what an account is known by.
pub open spec fn identity_text(account: AccountView) -> Seq<char> {
    list_text(
        seq![
            crate::json::json_string(account.name),
            kind_text(account.kind),
            crate::json::json_string(account.base()),
            optional_text(account.account_id),
            optional_text(account.user_id),
            credential_text(account.credential),
        ],
    )
}

/// The binding of an account.
pub open spec fn binding_of(account: AccountView) -> Seq<char> {
    text_digest(identity_text(account))
}

/// The JSON text of what a session is known by: affinity is separate for each model and group.
pub open spec fn session_text(
    model: Seq<char>,
    group: Option<Seq<char>>,
    session: Seq<char>,
) -> Seq<char> {
    list_text(
        seq![
            crate::json::json_string(model),
            optional_text(group),
            crate::json::json_string(session),
        ],
    )
}

/// The key of a session.
pub open spec fn session_key(
    model: Seq<char>,
    group: Option<Seq<char>>,
    session: Seq<char>,
) -> Seq<char> {
    text_digest(session_text(model, group, session))
}

fn optional(text: Option<&str>) -> (json: String)
    ensures
        json@ == optional_text(crate::json::read(text)),
{
    match text {
        Some(inner) => quoted(inner),
        None => owned("null"),
    }
}

fn list(items: &Vec<String>) -> (json: String)
    ensures
        json@ == list_text(crate::text::views(items@)),
{
    let inner = join(items, ",");
    concat3("[", inner.as_str(), "]")
}

fn credential_json(credential: &Credential) -> (json: String)
    ensures
        json@ == credential_text(credential@),
{
    match credential {
        Credential::Managed { path } => concat3(
            "{\"type\":\"managed\",\"path\":",
            quoted(path.as_str()).as_str(),
            "}",
        ),
        Credential::Env { name } => concat3(
            "{\"type\":\"env\",\"name\":",
            quoted(name.as_str()).as_str(),
            "}",
        ),
        Credential::Command { argv, cache_seconds } => {
            let mut items: Vec<String> = Vec::new();
            let ghost all = quoted_all(crate::text::views(argv@));
            let mut i: usize = 0;
            while i < argv.len()
                invariant
                    i <= argv@.len(),
                    all == quoted_all(crate::text::views(argv@)),
                    crate::text::views(items@) == all.take(i as int),
                decreases argv@.len() - i,
            {
                let ghost before = crate::text::views(items@);
                items.push(quoted(argv[i].as_str()));
                assert(crate::text::views(items@) =~= before.push(all[i as int]));
                assert(all.take(i + 1) =~= all.take(i as int).push(all[i as int]));
                i = i + 1;
            }
            assert(all.take(argv@.len() as int) =~= all);
            let tail = concat3(
                ",\"cache_seconds\":",
                decimal(*cache_seconds).as_str(),
                "}",
            );
            concat3("{\"type\":\"command\",\"argv\":", list(&items).as_str(), tail.as_str())
        },
    }
}

fn copy_of(text: &Option<String>) -> (inner: Option<&str>)
    ensures
        crate::json::read(inner) == crate::text::option_view(*text),
{
    match text {
        Some(inner) => Some(inner.as_str()),
        None => None,
    }
}

/// The binding of an account.
pub fn account_binding(account: &Account) -> (binding: String)
    ensures
        binding@ == binding_of(account@),
        crate::affinity::valid_binding(binding@),
{
    let mut items: Vec<String> = Vec::new();
    items.push(quoted(account.name.as_str()));
    items.push(
        owned(
            match account.kind {
                Kind::Chatgpt => "\"chatgpt\"",
                Kind::Api => "\"api\"",
            },
        ),
    );
    items.push(quoted(account.base().as_str()));
    items.push(optional(copy_of(&account.account_id)));
    items.push(optional(copy_of(&account.user_id)));
    items.push(credential_json(&account.credential));
    assert(crate::text::views(items@) =~= seq![
        crate::json::json_string(account@.name),
        kind_text(account@.kind),
        crate::json::json_string(account@.base()),
        optional_text(account@.account_id),
        optional_text(account@.user_id),
        credential_text(account@.credential),
    ]);
    hash_text(list(&items).as_str())
}

/// The key of a session.
pub fn session_binding(model: &str, group: Option<&str>, session: &str) -> (key: String)
    ensures
        key@ == session_key(model@, crate::json::read(group), session@),
        crate::affinity::valid_binding(key@),
{
    let mut items: Vec<String> = Vec::new();
    items.push(quoted(model));
    items.push(optional(group));
    items.push(quoted(session));
    assert(crate::text::views(items@) =~= seq![
        crate::json::json_string(model@),
        optional_text(crate::json::read(group)),
        crate::json::json_string(session@),
    ]);
    hash_text(list(&items).as_str())
}

proof fn lemma_optional(
    a: Option<Seq<char>>,
    b: Option<Seq<char>>,
    x: Seq<char>,
    y: Seq<char>,
)
    requires
        optional_text(a) + x == optional_text(b) + y,
    ensures
        a == b,
        x == y,
{
    reveal_strlit("null");
    let s = optional_text(a) + x;
    let t = optional_text(b) + y;
    assert(s[0] == optional_text(a)[0]);
    assert(t[0] == optional_text(b)[0]);
    match (a, b) {
        (Some(first), Some(second)) => {
            crate::json::strings_are_told_apart(first, second, x, y);
        },
        (None, None) => {
            assert(s.skip(4) =~= x);
            assert(t.skip(4) =~= y);
        },
        _ => {},
    }
}

proof fn lemma_after_comma(x: Seq<char>, y: Seq<char>)
    requires
        ","@ + x == ","@ + y,
    ensures
        x == y,
{
    reveal_strlit(",");
    assert((","@ + x).drop_first() =~= x);
    assert((","@ + y).drop_first() =~= y);
}

/// Sessions that differ in their name, model or group are known by different texts, so that they
/// share a key only where two texts have one digest.
pub proof fn sessions_are_told_apart(
    model: Seq<char>,
    group: Option<Seq<char>>,
    session: Seq<char>,
    other_model: Seq<char>,
    other_group: Option<Seq<char>>,
    other: Seq<char>,
)
    requires
        session_text(model, group, session) == session_text(other_model, other_group, other),
    ensures
        model == other_model,
        group == other_group,
        session == other,
{
    reveal_strlit("[");
    let tail = |name: Seq<char>| crate::json::json_string(name) + "]"@;
    let middle = |group: Option<Seq<char>>, name: Seq<char>|
        optional_text(group) + (","@ + tail(name));
    lemma_three(
        crate::json::json_string(model),
        optional_text(group),
        crate::json::json_string(session),
    );
    lemma_three(
        crate::json::json_string(other_model),
        optional_text(other_group),
        crate::json::json_string(other),
    );
    let s = session_text(model, group, session);
    let t = session_text(other_model, other_group, other);
    assert(s.drop_first() =~= crate::json::json_string(model) + (","@ + middle(group, session)));
    assert(t.drop_first() =~= crate::json::json_string(other_model) + (","@ + middle(
        other_group,
        other,
    )));
    crate::json::strings_are_told_apart(
        model,
        other_model,
        ","@ + middle(group, session),
        ","@ + middle(other_group, other),
    );
    lemma_after_comma(middle(group, session), middle(other_group, other));
    lemma_optional(group, other_group, ","@ + tail(session), ","@ + tail(other));
    lemma_after_comma(tail(session), tail(other));
    crate::json::strings_are_told_apart(session, other, "]"@, "]"@);
}

proof fn lemma_three(a: Seq<char>, b: Seq<char>, c: Seq<char>)
    ensures
        list_text(seq![a, b, c]) == "["@ + (a + (","@ + (b + (","@ + (c + "]"@))))),
{
    let all = seq![a, b, c];
    assert(all.drop_last() =~= seq![a, b]);
    assert(seq![a, b].drop_last() =~= seq![a]);
    reveal_with_fuel(crate::text::joined, 3);
    assert(list_text(all) =~= "["@ + (a + (","@ + (b + (","@ + (c + "]"@))))));
}

proof fn lemma_six(
    a: Seq<char>,
    b: Seq<char>,
    c: Seq<char>,
    d: Seq<char>,
    e: Seq<char>,
    f: Seq<char>,
)
    ensures
        list_text(seq![a, b, c, d, e, f]) == "["@ + (a + (","@ + (b + (","@ + (c + (","@ + (d + (
        ","@ + (e + (","@ + (f + "]"@))))))))))),
{
    let all = seq![a, b, c, d, e, f];
    assert(all.drop_last() =~= seq![a, b, c, d, e]);
    assert(seq![a, b, c, d, e].drop_last() =~= seq![a, b, c, d]);
    assert(seq![a, b, c, d].drop_last() =~= seq![a, b, c]);
    assert(seq![a, b, c].drop_last() =~= seq![a, b]);
    assert(seq![a, b].drop_last() =~= seq![a]);
    reveal_with_fuel(crate::text::joined, 6);
    assert(list_text(all) =~= "["@ + (a + (","@ + (b + (","@ + (c + (","@ + (d + (","@ + (e + (","@
        + (f + "]"@))))))))))));
}

proof fn lemma_joined_front(parts: Seq<Seq<char>>)
    requires
        parts.len() > 1,
    ensures
        crate::text::joined(parts, ","@) == parts[0] + (","@ + crate::text::joined(
            parts.drop_first(),
            ","@,
        )),
    decreases parts.len(),
{
    let rest = parts.drop_first();
    if parts.len() == 2 {
        assert(parts.drop_last() =~= seq![parts[0]]);
        assert(crate::text::joined(parts.drop_last(), ","@) == parts[0]);
        assert(parts.last() == rest[0]);
        assert(crate::text::joined(parts, ","@) =~= parts[0] + (","@ + rest[0]));
    } else {
        lemma_joined_front(parts.drop_last());
        assert(parts.drop_last().drop_first() =~= rest.drop_last());
        assert(rest.last() == parts.last());
        assert(crate::text::joined(parts, ","@) =~= parts[0] + (","@ + crate::text::joined(
            rest,
            ","@,
        )));
    }
}

/// The JSON text of a list of strings, from its first item on, with what follows it.
spec fn items_text(items: Seq<Seq<char>>, more: Seq<char>) -> Seq<char> {
    crate::text::joined(quoted_all(items), ","@) + ("]"@ + more)
}

proof fn lemma_items_front(items: Seq<Seq<char>>, more: Seq<char>)
    requires
        items.len() > 0,
    ensures
        items_text(items, more) == crate::json::json_string(items[0]) + if items.len() == 1 {
            "]"@ + more
        } else {
            ","@ + items_text(items.drop_first(), more)
        },
{
    let all = quoted_all(items);
    if items.len() > 1 {
        lemma_joined_front(all);
        assert(all.drop_first() =~= quoted_all(items.drop_first()));
        assert(items_text(items, more) =~= all[0] + (","@ + items_text(items.drop_first(), more)));
    }
}

proof fn lemma_items(a: Seq<Seq<char>>, b: Seq<Seq<char>>, x: Seq<char>, y: Seq<char>)
    requires
        items_text(a, x) == items_text(b, y),
    ensures
        a == b,
        x == y,
    decreases a.len(),
{
    reveal_strlit(",");
    reveal_strlit("]");
    let s = items_text(a, x);
    let t = items_text(b, y);
    if a.len() > 0 {
        lemma_items_front(a, x);
        assert(s[0] == '"');
    } else {
        assert(s =~= "]"@ + x);
        assert(s[0] == ']');
    }
    if b.len() > 0 {
        lemma_items_front(b, y);
        assert(t[0] == '"');
    } else {
        assert(t =~= "]"@ + y);
        assert(t[0] == ']');
    }
    if a.len() == 0 {
        assert(a =~= b);
        assert(s.drop_first() =~= x);
        assert(t.drop_first() =~= y);
    } else {
        let after = if a.len() == 1 {
            "]"@ + x
        } else {
            ","@ + items_text(a.drop_first(), x)
        };
        let rest = if b.len() == 1 {
            "]"@ + y
        } else {
            ","@ + items_text(b.drop_first(), y)
        };
        crate::json::strings_are_told_apart(a[0], b[0], after, rest);
        assert(after[0] == if a.len() == 1 {
            ']'
        } else {
            ','
        });
        assert(rest[0] == if b.len() == 1 {
            ']'
        } else {
            ','
        });
        if a.len() == 1 {
            assert(after.drop_first() =~= x);
            assert(rest.drop_first() =~= y);
            assert(a =~= b);
        } else {
            lemma_after_comma(items_text(a.drop_first(), x), items_text(b.drop_first(), y));
            lemma_items(a.drop_first(), b.drop_first(), x, y);
            assert(a =~= seq![a[0]] + a.drop_first());
            assert(b =~= seq![b[0]] + b.drop_first());
        }
    }
}

proof fn lemma_decimal(a: nat, b: nat)
    requires
        crate::text::decimal_text(a) == crate::text::decimal_text(b),
    ensures
        a == b,
    decreases a,
{
    let s = crate::text::decimal_text(a);
    let t = crate::text::decimal_text(b);
    assert(s.last() == crate::text::digit_char(a % 10));
    assert(t.last() == crate::text::digit_char(b % 10));
    if a >= 10 {
        assert(s.drop_last() =~= crate::text::decimal_text(a / 10));
        lemma_decimal_length(a / 10);
    }
    if b >= 10 {
        assert(t.drop_last() =~= crate::text::decimal_text(b / 10));
        lemma_decimal_length(b / 10);
    }
    if a >= 10 && b >= 10 {
        lemma_decimal(a / 10, b / 10);
    }
}

proof fn lemma_decimal_length(number: nat)
    ensures
        crate::text::decimal_text(number).len() > 0,
{
}

proof fn lemma_prefix(first: Seq<char>, x: Seq<char>, y: Seq<char>)
    requires
        first + x == first + y,
    ensures
        x == y,
{
    assert((first + x).skip(first.len() as int) =~= x);
    assert((first + y).skip(first.len() as int) =~= y);
}

proof fn lemma_suffix(x: Seq<char>, y: Seq<char>, last: Seq<char>)
    requires
        x + last == y + last,
    ensures
        x == y,
{
    assert((x + last).len() == x.len() + last.len());
    assert((y + last).len() == y.len() + last.len());
    assert((x + last).take(x.len() as int) =~= x);
    assert((y + last).take(y.len() as int) =~= y);
}

proof fn lemma_command(argv: Seq<Seq<char>>, seconds: u64)
    ensures
        credential_text(CredentialView::Command { argv, cache_seconds: seconds })
            == "{\"type\":\"command\",\"argv\":"@ + ("["@ + items_text(
            argv,
            ",\"cache_seconds\":"@ + (crate::text::decimal_text(seconds as nat) + "}"@),
        )),
{
    let whole = credential_text(CredentialView::Command { argv, cache_seconds: seconds });
    assert(whole =~= "{\"type\":\"command\",\"argv\":"@ + ("["@ + items_text(
        argv,
        ",\"cache_seconds\":"@ + (crate::text::decimal_text(seconds as nat) + "}"@),
    )));
}

proof fn lemma_credential(a: CredentialView, b: CredentialView)
    requires
        credential_text(a) == credential_text(b),
    ensures
        a == b,
{
    reveal_strlit("{\"type\":\"managed\",\"path\":");
    reveal_strlit("{\"type\":\"env\",\"name\":");
    reveal_strlit("{\"type\":\"command\",\"argv\":");
    let s = credential_text(a);
    let t = credential_text(b);
    assert(s[9] == if a is Managed {
        'm'
    } else if a is Env {
        'e'
    } else {
        'c'
    });
    assert(t[9] == if b is Managed {
        'm'
    } else if b is Env {
        'e'
    } else {
        'c'
    });
    match (a, b) {
        (CredentialView::Managed { path: first }, CredentialView::Managed { path: second }) => {
            let start = "{\"type\":\"managed\",\"path\":"@;
            assert(s =~= start + (crate::json::json_string(first) + "}"@));
            assert(t =~= start + (crate::json::json_string(second) + "}"@));
            lemma_prefix(
                start,
                crate::json::json_string(first) + "}"@,
                crate::json::json_string(second) + "}"@,
            );
            crate::json::strings_are_told_apart(first, second, "}"@, "}"@);
        },
        (CredentialView::Env { name: first }, CredentialView::Env { name: second }) => {
            let start = "{\"type\":\"env\",\"name\":"@;
            assert(s =~= start + (crate::json::json_string(first) + "}"@));
            assert(t =~= start + (crate::json::json_string(second) + "}"@));
            lemma_prefix(
                start,
                crate::json::json_string(first) + "}"@,
                crate::json::json_string(second) + "}"@,
            );
            crate::json::strings_are_told_apart(first, second, "}"@, "}"@);
        },
        (
            CredentialView::Command { argv: first, cache_seconds: m },
            CredentialView::Command { argv: second, cache_seconds: n },
        ) => {
            let start = "{\"type\":\"command\",\"argv\":"@;
            let name = ",\"cache_seconds\":"@;
            let x = crate::text::decimal_text(m as nat);
            let y = crate::text::decimal_text(n as nat);
            lemma_command(first, m);
            lemma_command(second, n);
            let u = items_text(first, name + (x + "}"@));
            let v = items_text(second, name + (y + "}"@));
            lemma_prefix(start, "["@ + u, "["@ + v);
            lemma_prefix("["@, u, v);
            lemma_items(first, second, name + (x + "}"@), name + (y + "}"@));
            lemma_prefix(name, x + "}"@, y + "}"@);
            lemma_suffix(x, y, "}"@);
            lemma_decimal(m as nat, n as nat);
        },
        _ => {},
    }
}

proof fn lemma_kind(a: Kind, b: Kind, x: Seq<char>, y: Seq<char>)
    requires
        kind_text(a) + x == kind_text(b) + y,
    ensures
        a == b,
        x == y,
{
    reveal_strlit("\"chatgpt\"");
    reveal_strlit("\"api\"");
    let s = kind_text(a) + x;
    let t = kind_text(b) + y;
    assert(s[1] == kind_text(a)[1]);
    assert(t[1] == kind_text(b)[1]);
    lemma_prefix(kind_text(a), x, y);
}

/// Accounts that differ in their name, kind, base URL, identities or credential source are known by
/// different texts, so that they share a binding only where two texts have one digest.
pub proof fn accounts_are_told_apart(a: AccountView, b: AccountView)
    requires
        identity_text(a) == identity_text(b),
    ensures
        a.name == b.name,
        a.kind == b.kind,
        a.base() == b.base(),
        a.account_id == b.account_id,
        a.user_id == b.user_id,
        a.credential == b.credential,
{
    let comma = ","@;
    let last = |account: AccountView| credential_text(account.credential) + "]"@;
    let fifth = |account: AccountView| optional_text(account.user_id) + (comma + last(account));
    let fourth = |account: AccountView| optional_text(account.account_id) + (comma + fifth(account));
    let third = |account: AccountView|
        crate::json::json_string(account.base()) + (comma + fourth(account));
    let second = |account: AccountView| kind_text(account.kind) + (comma + third(account));
    let first = |account: AccountView|
        crate::json::json_string(account.name) + (comma + second(account));
    lemma_six(
        crate::json::json_string(a.name),
        kind_text(a.kind),
        crate::json::json_string(a.base()),
        optional_text(a.account_id),
        optional_text(a.user_id),
        credential_text(a.credential),
    );
    lemma_six(
        crate::json::json_string(b.name),
        kind_text(b.kind),
        crate::json::json_string(b.base()),
        optional_text(b.account_id),
        optional_text(b.user_id),
        credential_text(b.credential),
    );
    assert(identity_text(a) == "["@ + first(a));
    assert(identity_text(b) == "["@ + first(b));
    lemma_prefix("["@, first(a), first(b));
    crate::json::strings_are_told_apart(a.name, b.name, comma + second(a), comma + second(b));
    lemma_after_comma(second(a), second(b));
    lemma_kind(a.kind, b.kind, comma + third(a), comma + third(b));
    lemma_after_comma(third(a), third(b));
    crate::json::strings_are_told_apart(a.base(), b.base(), comma + fourth(a), comma + fourth(b));
    lemma_after_comma(fourth(a), fourth(b));
    lemma_optional(a.account_id, b.account_id, comma + fifth(a), comma + fifth(b));
    lemma_after_comma(fifth(a), fifth(b));
    lemma_optional(a.user_id, b.user_id, comma + last(a), comma + last(b));
    lemma_after_comma(last(a), last(b));
    lemma_suffix(credential_text(a.credential), credential_text(b.credential), "]"@);
    lemma_credential(a.credential, b.credential);
}

/// A digest is the encoded SHA-256 of the bytes of its text, and can be decoded again.
pub proof fn digests_hold_the_hash(text: Seq<char>)
    ensures
        crate::codec::decoded(text_digest(text)) == Some(
            crate::codec::sha256(crate::text::utf8(text)),
        ),
{
    crate::codec::encoded_is_read_back(crate::codec::sha256(crate::text::utf8(text)));
}

/// Accounts with one identity are bound as one, and a session is bound by its model, its group and
/// itself.
pub proof fn bindings_follow_the_identity(
    account: AccountView,
    model: Seq<char>,
    group: Option<Seq<char>>,
    session: Seq<char>,
)
    ensures
        crate::codec::decoded(binding_of(account)) == Some(
            crate::codec::sha256(crate::text::utf8(identity_text(account))),
        ),
        crate::codec::decoded(session_key(model, group, session)) == Some(
            crate::codec::sha256(crate::text::utf8(session_text(model, group, session))),
        ),
{
    digests_hold_the_hash(identity_text(account));
    digests_hold_the_hash(session_text(model, group, session));
}

} // verus!
