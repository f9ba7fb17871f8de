//! The consent page, and what a decision on it turns into.
//!
//! The client asks for a set of scopes, the principal holds a set of scopes,
//! and the human is offered the intersection. What the human ticks is what the
//! authorization code carries.
//!
//! - **The offered set is read from the login row, not recomputed.** The set
//!   [`approve`] validates against is the set the page showed.
//! - **Every value that reaches the page is escaped.** [`page`] escapes in one
//!   pass and never substitutes into a value it has already inserted.
use vstd::prelude::*;

use crate::crypto::{digest, digest_eq, digest_of, is_token, new_token};
use crate::order::TextSet;
use crate::store::{
    copy_opt, login_live, CodeGrant, Grant, GrantData, LoginData, LoginRecord, Store, StoreError,
    StoreModel,
};
use crate::text::{chars_of, holds_text, opt_text, push_char, same, texts};

verus! {

/// How long an authorization code stays redeemable, in microseconds: one
/// minute.
pub const CODE_TTL_US: i64 = 60_000_000;

/// The page frame. `{{scopes}}` is the one placeholder that takes markup: the
/// rows are built from [`SCOPE_ROW`], whose own value is escaped first.
pub const PAGE: &'static str =
    "<!doctype html><html lang=\"en\"><head><meta charset=\"utf-8\"><title>Authorize access</title></head><body><main><h1>Authorize access</h1><p><strong>{{client_name}}</strong> asks to use this memory as <strong>{{principal_label}}</strong>.</p><p>The grant goes to <code>{{redirect_uri}}</code>.</p><form method=\"post\" action=\"/oauth/consent\"><input type=\"hidden\" name=\"state\" value=\"{{state}}\"><input type=\"hidden\" name=\"csrf\" value=\"{{csrf}}\"><fieldset><legend>Allow</legend>{{scopes}}</fieldset><button>Approve</button><button name=\"deny\" value=\"1\">Deny</button></form></main></body></html>";

/// One checkbox. Unticked: the human grants, rather than un-grants.
pub const SCOPE_ROW: &'static str =
    "<label><input type=\"checkbox\" name=\"scope\" value=\"{{scope}}\">{{scope}}</label>";

/// An approved request: the code to hand over, and where to hand it.
#[derive(PartialEq, Eq)]
pub struct Approval {
    /// The authorization code. The store holds its digest alone.
    pub code: String,
    /// The client's registered redirect URI, taken from the login row.
    pub redirect_uri: String,
    /// The state the client sent, returned unchanged.
    pub client_state: Option<String>,
}

/// A refused request: where to say so. It carries no code, because none was
/// minted.
#[derive(Debug, PartialEq, Eq)]
pub struct Denial {
    pub redirect_uri: String,
    pub client_state: Option<String>,
}

/// Why a decision was not accepted.
#[derive(Debug)]
pub enum ConsentError {
    /// No login in flight carries this state. A second decision on one login
    /// lands here, because the first consumed the row.
    UnknownLogin,
    /// The consent form carried the wrong token.
    BadCsrf,
    /// The login exists but no provider has vouched for a human on it yet.
    NotAuthenticated,
    /// An approved scope was not on the offered set.
    NotOffered,
    /// Nothing was approved. An empty grant is not a grant.
    NothingApproved,
    Store(StoreError),
}

// ---------------------------------------------------------------------------
// What is offered
// ---------------------------------------------------------------------------

/// The requested scopes that are held, each once, in the order in which they
/// were requested.
pub open spec fn offer(requested: Seq<Seq<char>>, held: Set<Seq<char>>) -> Seq<Seq<char>>
    decreases requested.len(),
{
    if requested.len() == 0 {
        requested
    } else {
        let head = offer(requested.drop_last(), held);
        if held.contains(requested.last()) && !head.contains(requested.last()) {
            head.push(requested.last())
        } else {
            head
        }
    }
}

/// The scopes a human may be offered: those the client asked for that the
/// principal also holds. The order is the client's, and a repeat in the
/// request produces one checkbox.
pub fn offered(requested: &Vec<String>, held: &TextSet) -> (r: Vec<String>)
    ensures
        texts(r@) == offer(texts(requested@), held@),
{
    let ghost all = texts(requested@);
    let mut out: Vec<String> = Vec::new();
    let mut i: usize = 0;
    assert(texts(out@) =~= offer(all.take(0), held@));
    while i < requested.len()
        invariant
            i <= requested@.len(),
            all == texts(requested@),
            texts(out@) == offer(all.take(i as int), held@),
        decreases requested@.len() - i,
    {
        let ghost done = texts(out@);
        assert(all.take(i + 1).drop_last() =~= all.take(i as int));
        assert(all.take(i + 1).last() == requested@[i as int]@);
        if held.contains(&requested[i]) && !holds_text(&out, &requested[i]) {
            out.push(requested[i].clone());
            assert(texts(out@) =~= done.push(requested@[i as int]@));
        }
        i += 1;
    }
    assert(all.take(requested@.len() as int) =~= all);
    out
}

/// The offer is exactly what is both requested and held, and offers nothing
/// twice.
pub proof fn law_offer_is_the_intersection(requested: Seq<Seq<char>>, held: Set<Seq<char>>)
    ensures
        forall|s: Seq<char>| #[trigger]
            offer(requested, held).contains(s) <==> requested.contains(s) && held.contains(s),
        offer(requested, held).no_duplicates(),
    decreases requested.len(),
{
    if requested.len() > 0 {
        let rest = requested.drop_last();
        law_offer_is_the_intersection(rest, held);
        let (o, p) = (offer(requested, held), offer(rest, held));
        let last = requested.last();
        assert(requested[requested.len() - 1] == last);
        assert forall|s: Seq<char>| #[trigger] o.contains(s) <==> requested.contains(s) && held.contains(s) by {
            if rest.contains(s) {
                assert(requested[rest.index_of(s)] == s);
            }
            if requested.contains(s) && s != last {
                assert(rest[requested.index_of(s)] == s);
            }
            if p.contains(s) {
                assert(o[p.index_of(s)] == s);
            }
            if held.contains(last) && !p.contains(last) {
                assert(o[p.len() as int] == last);
                if o.contains(s) && s != last {
                    assert(p[o.index_of(s)] == s);
                }
            }
        }
    }
}

// ---------------------------------------------------------------------------
// Naming the client
// ---------------------------------------------------------------------------

/// The Unicode `Alphabetic` and numeric categories, as `char::is_alphanumeric`
/// knows them.
pub uninterp spec fn alphanumeric(c: char) -> bool;

/// `char::is_alphanumeric`: whether the scalar value is a letter or a number
/// of any script.
#[verifier::external_body]
pub(crate) fn is_alphanumeric(c: char) -> (r: bool)
    ensures
        r == alphanumeric(c),
{
    c.is_alphanumeric()
}

/// The letters that a conforming renderer draws no glyph for: the four Hangul
/// fillers.
pub open spec fn ignorable_letter(c: char) -> bool {
    c == '\u{115f}' || c == '\u{1160}' || c == '\u{3164}' || c == '\u{ffa0}'
}

/// Whether a browser draws this scalar value as a mark a human can see: it is
/// in a category that carries glyphs, and it is not a letter that draws none.
pub open spec fn visible(c: char) -> bool {
    (alphanumeric(c) || '!' <= c <= '~') && !ignorable_letter(c)
}

/// Whether a browser draws this scalar value as a mark a human can see.
pub fn renders(c: char) -> (r: bool)
    ensures
        r == visible(c),
{
    (is_alphanumeric(c) || ('!' <= c && c <= '~')) && !(c == '\u{115f}' || c == '\u{1160}' || c
        == '\u{3164}' || c == '\u{ffa0}')
}

/// The text the page uses to name a client: its registered name when that
/// name shows anything, and its identifier when it does not.
pub fn client_label<'a>(client_name: &'a str, client_id: &'a str) -> (r: &'a str)
    ensures
        r@ == if exists|i: int| 0 <= i < client_name@.len() && visible(#[trigger] client_name@[i]) {
            client_name@
        } else {
            client_id@
        },
{
    let v: Vec<char> = chars_of(client_name);
    let mut i: usize = 0;
    while i < v.len()
        invariant
            i <= v@.len(),
            v@ == client_name@,
            forall|j: int| 0 <= j < i ==> !visible(#[trigger] v@[j]),
        decreases v@.len() - i,
    {
        if renders(v[i]) {
            assert(visible(client_name@[i as int]));
            return client_name;
        }
        i += 1;
    }
    client_id
}

// ---------------------------------------------------------------------------
// The page
// ---------------------------------------------------------------------------

/// The Unicode `Bidi_Control` property: the controls that reorder the text
/// drawn around them.
pub open spec fn bidi_control(c: char) -> bool {
    ||| c == '\u{61c}'
    ||| c == '\u{200e}'
    ||| c == '\u{200f}'
    ||| '\u{202a}' <= c <= '\u{202e}'
    ||| '\u{2066}' <= c <= '\u{2069}'
}

/// What one scalar value becomes on the page.
pub open spec fn escape_char(c: char) -> Seq<char> {
    if c == '&' {
        "&amp;"@
    } else if c == '<' {
        "&lt;"@
    } else if c == '>' {
        "&gt;"@
    } else if c == '"' {
        "&quot;"@
    } else if c == '\'' {
        "&#39;"@
    } else if bidi_control(c) {
        Seq::empty()
    } else {
        seq![c]
    }
}

/// The page-safe form of a text.
pub open spec fn escaped(s: Seq<char>) -> Seq<char>
    decreases s.len(),
{
    if s.len() == 0 {
        s
    } else {
        escaped(s.drop_last()) + escape_char(s.last())
    }
}

/// The page-safe form of a value chosen by a client: the five characters that
/// could become markup are escaped, and every bidirectional control is
/// dropped.
pub fn escape_html(text: &str) -> (r: String)
    ensures
        r@ == escaped(text@),
{
    let v: Vec<char> = chars_of(text);
    let mut out: String = String::new();
    let mut i: usize = 0;
    assert(v@.take(0) =~= Seq::<char>::empty());
    while i < v.len()
        invariant
            i <= v@.len(),
            v@ == text@,
            out@ == escaped(v@.take(i as int)),
        decreases v@.len() - i,
    {
        let c: char = v[i];
        let ghost done = out@;
        assert(v@.take(i + 1).drop_last() =~= v@.take(i as int));
        if c == '&' {
            out.append("&amp;");
        } else if c == '<' {
            out.append("&lt;");
        } else if c == '>' {
            out.append("&gt;");
        } else if c == '"' {
            out.append("&quot;");
        } else if c == '\'' {
            out.append("&#39;");
        } else if !(c == '\u{61c}' || c == '\u{200e}' || c == '\u{200f}' || ('\u{202a}' <= c && c
            <= '\u{202e}') || ('\u{2066}' <= c && c <= '\u{2069}')) {
            push_char(&mut out, c);
            assert(out@ =~= done + seq![c]);
        } else {
            assert(out@ =~= done + Seq::<char>::empty());
        }
        i += 1;
    }
    assert(v@.take(v@.len() as int) =~= v@);
    out
}

/// An escaped text can neither open nor close an element or an attribute
/// value, and reorders nothing.
pub proof fn law_escaped_text_is_inert(s: Seq<char>)
    ensures
        forall|i: int|
            0 <= i < escaped(s).len() ==> {
                let c = #[trigger] escaped(s)[i];
                c != '<' && c != '>' && c != '"' && c != '\'' && !bidi_control(c)
            },
    decreases s.len(),
{
    if s.len() > 0 {
        law_escaped_text_is_inert(s.drop_last());
        reveal_strlit("&amp;");
        reveal_strlit("&lt;");
        reveal_strlit("&gt;");
        reveal_strlit("&quot;");
        reveal_strlit("&#39;");
        let (a, b) = (escaped(s.drop_last()), escape_char(s.last()));
        assert forall|i: int| 0 <= i < escaped(s).len() implies ({
            let c = #[trigger] escaped(s)[i];
            c != '<' && c != '>' && c != '"' && c != '\'' && !bidi_control(c)
        }) by {
            if i < a.len() {
                assert(escaped(s)[i] == a[i]);
            } else {
                assert(escaped(s)[i] == b[i - a.len()]);
            }
        }
    }
}

/// Where the first `}}` of a text stands.
pub open spec fn closes_at(s: Seq<char>, i: int) -> bool {
    &&& 0 <= i < s.len() - 1
    &&& s[i] == '}' && s[i + 1] == '}'
    &&& forall|j: int| 0 <= j < i ==> !(#[trigger] s[j] == '}' && s[j + 1] == '}')
}

/// The value under a key: that of the first pair with the key.
pub open spec fn value_of(values: Seq<(Seq<char>, Seq<char>)>, key: Seq<char>) -> Option<Seq<char>>
    decreases values.len(),
{
    if values.len() == 0 {
        None
    } else if values[0].0 == key {
        Some(values[0].1)
    } else {
        value_of(values.skip(1), key)
    }
}

/// What a placeholder becomes: its value, or itself where no value is given.
pub open spec fn filled(values: Seq<(Seq<char>, Seq<char>)>, key: Seq<char>) -> Seq<char> {
    match value_of(values, key) {
        Some(v) => v,
        None => seq!['{', '{'] + key + seq!['}', '}'],
    }
}

/// A template with its placeholders filled, from left to right. A value is
/// never looked at again.
pub open spec fn rendered(t: Seq<char>, values: Seq<(Seq<char>, Seq<char>)>) -> Seq<char>
    decreases t.len(),
{
    if t.len() == 0 {
        t
    } else if t.len() >= 2 && t[0] == '{' && t[1] == '{' {
        let rest = t.skip(2);
        if exists|i: int| closes_at(rest, i) {
            let i = choose|i: int| closes_at(rest, i);
            filled(values, rest.take(i)) + rendered(rest.skip(i + 2), values)
        } else {
            seq!['{', '{'] + rendered(rest, values)
        }
    } else {
        seq![t[0]] + rendered(t.skip(1), values)
    }
}

/// The texts of a list of pairs.
pub open spec fn pairs(v: Seq<(String, String)>) -> Seq<(Seq<char>, Seq<char>)> {
    v.map_values(|p: (String, String)| (p.0@, p.1@))
}

fn append_value(out: &mut String, values: &Vec<(String, String)>, key: &str)
    ensures
        final(out)@ == old(out)@ + filled(pairs(values@), key@),
{
    let ghost vs = pairs(values@);
    let mut i: usize = 0;
    assert(vs.skip(0) =~= vs);
    while i < values.len()
        invariant
            i <= values@.len(),
            vs == pairs(values@),
            out@ == old(out)@,
            value_of(vs, key@) == value_of(vs.skip(i as int), key@),
        decreases values@.len() - i,
    {
        assert(vs.skip(i as int)[0] == (values@[i as int].0@, values@[i as int].1@));
        assert(vs.skip(i as int).skip(1) =~= vs.skip(i + 1));
        if same(&values[i].0, key) {
            out.append(&values[i].1);
            return;
        }
        i += 1;
    }
    let ghost start = out@;
    push_char(out, '{');
    push_char(out, '{');
    out.append(key);
    push_char(out, '}');
    push_char(out, '}');
    assert(out@ =~= start + (seq!['{', '{'] + key@ + seq!['}', '}']));
}

/// Substitutes `{{key}}` in `template` from `values`, in one pass. A
/// placeholder no value is given for stays in the output as text, and so does
/// an unterminated one.
pub fn render(template: &str, values: &Vec<(String, String)>) -> (r: String)
    ensures
        r@ == rendered(template@, pairs(values@)),
{
    let t: Vec<char> = chars_of(template);
    let ghost vs = pairs(values@);
    let mut out: String = String::new();
    let mut i: usize = 0;
    assert(t@.skip(0) =~= template@);
    assert(out@ + rendered(t@.skip(0), vs) =~= rendered(template@, vs));
    while i < t.len()
        invariant
            i <= t@.len(),
            t@ == template@,
            vs == pairs(values@),
            out@ + rendered(t@.skip(i as int), vs) == rendered(template@, vs),
        decreases t@.len() - i,
    {
        let ghost here = t@.skip(i as int);
        let ghost done = out@;
        if t.len() - i >= 2 && t[i] == '{' && t[i + 1] == '{' {
            let ghost rest = t@.skip(i + 2);
            assert(here.skip(2) =~= rest);
            let mut k: usize = i + 2;
            while k < t.len() && !(t.len() - k >= 2 && t[k] == '}' && t[k + 1] == '}')
                invariant
                    i + 2 <= k <= t@.len(),
                    rest == t@.skip(i + 2),
                    forall|j: int|
                        0 <= j < k - (i + 2) && j < rest.len() - 1 ==> !(#[trigger] rest[j] == '}' && rest[j
                            + 1] == '}'),
                decreases t@.len() - k,
            {
                assert(rest[k - (i + 2)] == t@[k as int]);
                if k + 1 < t.len() {
                    assert(rest[k + 1 - (i + 2)] == t@[k + 1]);
                }
                k += 1;
            }
            if k < t.len() {
                let ghost n = k - (i + 2);
                proof {
                    assert(rest[n] == t@[k as int] && rest[n + 1] == t@[k + 1]);
                    assert(closes_at(rest, n));
                    let x = choose|x: int| closes_at(rest, x);
                    assert(x == n) by {
                        if x < n {
                            assert(!(rest[x] == '}' && rest[x + 1] == '}'));
                        } else if n < x {
                            assert(!(rest[n] == '}' && rest[n + 1] == '}'));
                        }
                    }
                }
                let key: String = crate::text::text_of(
                    vstd::slice::slice_subrange(t.as_slice(), i + 2, k),
                );
                assert(key@ =~= rest.take(n));
                append_value(&mut out, values, &key);
                assert(rest.skip(n + 2) =~= t@.skip(k + 2));
                assert(out@ + rendered(t@.skip(k + 2), vs) =~= done + (filled(vs, rest.take(n)) + rendered(
                    rest.skip(n + 2),
                    vs,
                )));
                i = k + 2;
            } else {
                proof {
                    assert forall|x: int| !closes_at(rest, x) by {
                        if 0 <= x < rest.len() - 1 {
                            assert(!(rest[x] == '}' && rest[x + 1] == '}'));
                        }
                    }
                }
                push_char(&mut out, '{');
                push_char(&mut out, '{');
                assert(out@ + rendered(rest, vs) =~= done + (seq!['{', '{'] + rendered(rest, vs)));
                i += 2;
            }
        } else {
            push_char(&mut out, t[i]);
            assert(here.skip(1) =~= t@.skip(i + 1));
            assert(out@ + rendered(t@.skip(i + 1), vs) =~= done + (seq![here[0]] + rendered(
                here.skip(1),
                vs,
            )));
            i += 1;
        }
    }
    assert(t@.skip(i as int) =~= Seq::<char>::empty());
    assert(out@ + rendered(t@.skip(i as int), vs) =~= out@);
    out
}

/// One row for each offered scope, escaped.
pub open spec fn scope_rows(offered: Seq<Seq<char>>) -> Seq<char>
    decreases offered.len(),
{
    if offered.len() == 0 {
        Seq::empty()
    } else {
        scope_rows(offered.drop_last()) + rendered(
            SCOPE_ROW@,
            seq![("scope"@, escaped(offered.last()))],
        )
    }
}

/// The consent page for one login.
pub open spec fn page_text(
    client_name: Seq<char>,
    principal_label: Seq<char>,
    redirect_uri: Seq<char>,
    offered: Seq<Seq<char>>,
    csrf: Seq<char>,
    state: Seq<char>,
) -> Seq<char> {
    rendered(
        PAGE@,
        seq![
            ("client_name"@, escaped(client_name)),
            ("principal_label"@, escaped(principal_label)),
            ("redirect_uri"@, escaped(redirect_uri)),
            ("csrf"@, escaped(csrf)),
            ("state"@, escaped(state)),
            ("scopes"@, scope_rows(offered)),
        ],
    )
}

/// The consent page for one login. It names the client, the human, and the place
/// that the grant goes to. Every argument is escaped here, and no
/// substituted value is scanned again, so a client name spelling `{{csrf}}`
/// stays those eight characters.
pub fn page(
    client_name: &str,
    principal_label: &str,
    redirect_uri: &str,
    offered: &Vec<String>,
    csrf: &str,
    state: &str,
) -> (r: String)
    ensures
        r@ == page_text(
            client_name@,
            principal_label@,
            redirect_uri@,
            texts(offered@),
            csrf@,
            state@,
        ),
{
    let ghost all = texts(offered@);
    let mut rows: String = String::new();
    let mut i: usize = 0;
    assert(all.take(0) =~= Seq::<Seq<char>>::empty());
    while i < offered.len()
        invariant
            i <= offered@.len(),
            all == texts(offered@),
            rows@ == scope_rows(all.take(i as int)),
        decreases offered@.len() - i,
    {
        assert(all.take(i + 1).drop_last() =~= all.take(i as int));
        assert(all.take(i + 1).last() == offered@[i as int]@);
        let mut values: Vec<(String, String)> = Vec::new();
        values.push(("scope".to_owned(), escape_html(&offered[i])));
        assert(pairs(values@) =~= seq![("scope"@, escaped(offered@[i as int]@))]);
        rows.append(&render(SCOPE_ROW, &values));
        i += 1;
    }
    assert(all.take(offered@.len() as int) =~= all);
    let mut values: Vec<(String, String)> = Vec::new();
    values.push(("client_name".to_owned(), escape_html(client_name)));
    values.push(("principal_label".to_owned(), escape_html(principal_label)));
    values.push(("redirect_uri".to_owned(), escape_html(redirect_uri)));
    values.push(("csrf".to_owned(), escape_html(csrf)));
    values.push(("state".to_owned(), escape_html(state)));
    values.push(("scopes".to_owned(), rows));
    assert(pairs(values@) =~= seq![
        ("client_name"@, escaped(client_name@)),
        ("principal_label"@, escaped(principal_label@)),
        ("redirect_uri"@, escaped(redirect_uri@)),
        ("csrf"@, escaped(csrf@)),
        ("state"@, escaped(state@)),
        ("scopes"@, scope_rows(texts(offered@))),
    ]);
    render(PAGE, &values)
}

// ---------------------------------------------------------------------------
// The decision
// ---------------------------------------------------------------------------

/// Whether the form's token is the login's: their digests are compared, so
/// that the comparison runs over texts of one length.
pub fn csrf_matches(presented: &str, expected: &str) -> (r: bool)
    ensures
        r == (digest_of(presented@) == digest_of(expected@)),
{
    digest_eq(&digest(presented), &digest(expected))
}

/// What a form that names this state and carries this token meets: the login
/// with a human on it, or the refusal.
pub open spec fn verified(m: StoreModel, state: Seq<char>, csrf: Seq<char>, now: int) -> std::result::Result<
    LoginData,
    Refusal,
> {
    if !login_live(m.logins, state, now) {
        Err(Refusal::UnknownLogin)
    } else {
        match m.logins[state].login(state) {
            None => Err(Refusal::Unreadable),
            Some(l) => if digest_of(csrf) != digest_of(l.csrf) {
                Err(Refusal::BadCsrf)
            } else if l.principal is None {
                Err(Refusal::NotAuthenticated)
            } else {
                Ok(l)
            },
        }
    }
}

/// The refusals of a decision.
pub enum Refusal {
    UnknownLogin,
    Unreadable,
    BadCsrf,
    NotAuthenticated,
    NotOffered,
    NothingApproved,
}

impl Refusal {
    /// The error says so.
    pub open spec fn is(self, e: ConsentError) -> bool {
        match self {
            Refusal::UnknownLogin => e is UnknownLogin,
            Refusal::Unreadable => e matches ConsentError::Store(StoreError::Json(_)),
            Refusal::BadCsrf => e is BadCsrf,
            Refusal::NotAuthenticated => e is NotAuthenticated,
            Refusal::NotOffered => e is NotOffered,
            Refusal::NothingApproved => e is NothingApproved,
        }
    }
}

/// The login can still be decided on exactly as before; nothing else changed.
pub open spec fn restored(m: StoreModel, after: StoreModel, state: Seq<char>) -> bool {
    &&& after == (StoreModel { logins: after.logins, ..m })
    &&& after.logins == m.logins.insert(state, after.logins[state])
    &&& after.logins[state].login(state) == m.logins[state].login(state)
}

/// What a refusal leaves: an unreadable login is gone, an unknown one was
/// never there, and any other can still be decided on.
pub open spec fn refused(m: StoreModel, after: StoreModel, state: Seq<char>, why: Refusal) -> bool {
    match why {
        Refusal::UnknownLogin => after == m,
        Refusal::Unreadable => after == (StoreModel { logins: m.logins.remove(state), ..m }),
        _ => restored(m, after, state),
    }
}

/// Puts a taken login back.
fn restore(store: &mut Store, login: &LoginRecord, Ghost(m): Ghost<StoreModel>)
    requires
        m.logins.contains_key(login.state@),
        m.logins[login.state@].login(login.state@) == Some(login@),
        old(store)@ == (StoreModel { logins: m.logins.remove(login.state@), ..m }),
    ensures
        restored(m, final(store)@, login.state@),
{
    let _ = store.put_login(login);
    assert(store@.logins =~= m.logins.insert(login.state@, store@.logins[login.state@]));
}

/// Consumes the login and checks the form's token against it, returning the
/// row and the human it names. A refusal after the take puts the row back.
///
/// The token is checked before the principal, so the answer does not tell a
/// caller holding a state whether the human has come back from the provider.
fn take_verified(store: &mut Store, state: &str, csrf: &str, now_us: i64) -> (r: std::result::Result<
    (LoginRecord, String),
    ConsentError,
>)
    ensures
        match r {
            Ok((l, principal)) => {
                &&& verified(old(store)@, state@, csrf@, now_us as int) == Ok::<LoginData, Refusal>(l@)
                &&& l@.principal == Some(principal@)
                &&& final(store)@ == (StoreModel {
                    logins: old(store)@.logins.remove(state@),
                    ..old(store)@
                })
            },
            Err(e) => {
                &&& verified(old(store)@, state@, csrf@, now_us as int) matches Err(why) && why.is(e)
                    && refused(old(store)@, final(store)@, state@, why)
            },
        },
{
    let ghost m = store@;
    let login: LoginRecord = match store.take_login(state, now_us) {
        Ok(Some(l)) => l,
        Ok(None) => {
            return Err(ConsentError::UnknownLogin);
        },
        Err(e) => {
            return Err(ConsentError::Store(e));
        },
    };
    if !csrf_matches(csrf, &login.csrf) {
        restore(store, &login, Ghost(m));
        return Err(ConsentError::BadCsrf);
    }
    match copy_opt(&login.principal) {
        Some(principal) => Ok((login, principal)),
        None => {
            restore(store, &login, Ghost(m));
            Err(ConsentError::NotAuthenticated)
        },
    }
}

/// The offered scopes that were approved, in the offered order.
pub open spec fn granted_scopes(offered: Seq<Seq<char>>, approved: Seq<Seq<char>>) -> Seq<Seq<char>>
    decreases offered.len(),
{
    if offered.len() == 0 {
        offered
    } else if approved.contains(offered.last()) {
        granted_scopes(offered.drop_last(), approved).push(offered.last())
    } else {
        granted_scopes(offered.drop_last(), approved)
    }
}

/// What an approval meets: the login it grants on, or the refusal.
pub open spec fn approvable(
    m: StoreModel,
    state: Seq<char>,
    csrf: Seq<char>,
    approved: Seq<Seq<char>>,
    now: int,
) -> std::result::Result<LoginData, Refusal> {
    match verified(m, state, csrf, now) {
        Err(why) => Err(why),
        Ok(l) => if exists|i: int| 0 <= i < approved.len() && !l.scopes.contains(#[trigger] approved[i]) {
            Err(Refusal::NotOffered)
        } else if granted_scopes(l.scopes, approved).len() == 0 {
            Err(Refusal::NothingApproved)
        } else {
            Ok(l)
        },
    }
}

/// The grant that an approval of this login gives.
pub open spec fn approved_grant(l: LoginData, approved: Seq<Seq<char>>, family: Seq<char>) -> GrantData {
    GrantData {
        client_id: l.client_id,
        principal: l.principal->0,
        scopes: granted_scopes(l.scopes, approved),
        resource: l.resource,
        family,
    }
}

/// Whether an approved scope was not offered.
fn some_not_offered(approved: &Vec<String>, offered: &Vec<String>) -> (r: bool)
    ensures
        r == exists|i: int|
            0 <= i < approved@.len() && !texts(offered@).contains(#[trigger] texts(approved@)[i]),
{
    let ghost all = texts(approved@);
    let mut i: usize = 0;
    while i < approved.len()
        invariant
            i <= approved@.len(),
            all == texts(approved@),
            forall|j: int| 0 <= j < i ==> texts(offered@).contains(#[trigger] all[j]),
        decreases approved@.len() - i,
    {
        assert(all[i as int] == approved@[i as int]@);
        if !holds_text(offered, &approved[i]) {
            return true;
        }
        i += 1;
    }
    false
}

/// The offered scopes that were approved.
fn keep_approved(offered: &Vec<String>, approved: &Vec<String>) -> (r: Vec<String>)
    ensures
        texts(r@) == granted_scopes(texts(offered@), texts(approved@)),
{
    let ghost all = texts(offered@);
    let mut out: Vec<String> = Vec::new();
    let mut i: usize = 0;
    assert(texts(out@) =~= granted_scopes(all.take(0), texts(approved@)));
    while i < offered.len()
        invariant
            i <= offered@.len(),
            all == texts(offered@),
            texts(out@) == granted_scopes(all.take(i as int), texts(approved@)),
        decreases offered@.len() - i,
    {
        let ghost done = texts(out@);
        assert(all.take(i + 1).drop_last() =~= all.take(i as int));
        assert(all.take(i + 1).last() == offered@[i as int]@);
        if holds_text(approved, &offered[i]) {
            out.push(offered[i].clone());
            assert(texts(out@) =~= done.push(offered@[i as int]@));
        }
        i += 1;
    }
    assert(all.take(offered@.len() as int) =~= all);
    out
}

/// The code row holds that grant for the exchange that the login asked for.
pub open spec fn code_minted(
    m: StoreModel,
    after: StoreModel,
    l: LoginData,
    approved: Seq<Seq<char>>,
    code: Seq<char>,
    family: Seq<char>,
    now: i64,
) -> bool {
    let d = digest_of(code);
    let row = after.codes[d];
    &&& !m.codes.contains_key(d)
    &&& after == (StoreModel {
        logins: m.logins.remove(l.state),
        codes: m.codes.insert(d, row),
        ..m
    })
    &&& row.grant.grant() == Some(approved_grant(l, approved, family))
    &&& row.redirect_uri@ == l.redirect_uri
    &&& row.code_challenge@ == l.code_challenge
    &&& row.created_us == now
    &&& row.expires_us == now + CODE_TTL_US
}

/// Consumes the login and holds the approval to it: the row, the human it names
/// and the scopes that are granted. A refusal after the take puts the row back.
fn take_approvable(
    store: &mut Store,
    state: &str,
    csrf: &str,
    approved: &Vec<String>,
    now_us: i64,
) -> (r: std::result::Result<(LoginRecord, String, Vec<String>), ConsentError>)
    ensures
        match approvable(old(store)@, state@, csrf@, texts(approved@), now_us as int) {
            Err(why) => refused(old(store)@, final(store)@, state@, why) && (r matches Err(e) && why.is(e)),
            Ok(l) => {
                &&& r matches Ok((login, principal, scopes)) && login@ == l && l.principal == Some(
                    principal@,
                ) && texts(scopes@) == granted_scopes(l.scopes, texts(approved@))
                &&& l.state == state@ && old(store)@.logins.contains_key(state@)
                    && old(store)@.logins[state@].login(state@) == Some(l)
                &&& final(store)@ == (StoreModel {
                    logins: old(store)@.logins.remove(state@),
                    ..old(store)@
                })
            },
        },
{
    let ghost m = store@;
    let (login, principal): (LoginRecord, String) = match take_verified(store, state, csrf, now_us) {
        Ok(p) => p,
        Err(e) => {
            return Err(e);
        },
    };
    assert(texts(approved@).len() == approved@.len());
    if some_not_offered(approved, &login.scopes) {
        restore(store, &login, Ghost(m));
        return Err(ConsentError::NotOffered);
    }
    let scopes: Vec<String> = keep_approved(&login.scopes, approved);
    assert(texts(scopes@).len() == scopes@.len());
    if scopes.len() == 0 {
        restore(store, &login, Ghost(m));
        return Err(ConsentError::NothingApproved);
    }
    Ok((login, principal, scopes))
}

/// What minting a code on a login gives: the code and where it goes, or an error
/// where the code's digest is taken.
pub open spec fn approval_made(
    m: StoreModel,
    after: StoreModel,
    l: LoginData,
    approved: Seq<Seq<char>>,
    code: Seq<char>,
    family: Seq<char>,
    now: i64,
    r: std::result::Result<Approval, ConsentError>,
) -> bool {
    match r {
        Ok(a) => {
            &&& code_minted(m, after, l, approved, code, family, now)
            &&& a.code@ == code
            &&& a.redirect_uri@ == l.redirect_uri
            &&& opt_text(a.client_state) == l.client_state
        },
        Err(e) => {
            &&& m.codes.contains_key(digest_of(code))
            &&& e matches ConsentError::Store(StoreError::Database(w)) && w@
                == "UNIQUE constraint failed: oauth_code.code_digest"@
            &&& after == (StoreModel { logins: m.logins.remove(l.state), ..m })
        },
    }
}

/// Mints a code on a login that was taken.
fn mint(
    store: &mut Store,
    login: LoginRecord,
    principal: String,
    scopes: Vec<String>,
    code: String,
    family: String,
    now_us: i64,
    Ghost(m): Ghost<StoreModel>,
    Ghost(approved): Ghost<Seq<Seq<char>>>,
) -> (r: std::result::Result<Approval, ConsentError>)
    requires
        now_us <= i64::MAX - CODE_TTL_US,
        old(store)@ == (StoreModel { logins: m.logins.remove(login.state@), ..m }),
        login@.principal == Some(principal@),
        texts(scopes@) == granted_scopes(login@.scopes, approved),
    ensures
        approval_made(m, final(store)@, login@, approved, code@, family@, now_us, r),
{
    let grant: CodeGrant = CodeGrant {
        grant: Grant {
            client_id: login.client_id,
            principal,
            scopes,
            resource: login.resource,
            family,
        },
        redirect_uri: login.redirect_uri,
        code_challenge: login.code_challenge,
    };
    match store.put_code(&code, &grant, now_us, now_us + CODE_TTL_US) {
        Ok(_) => {},
        Err(e) => {
            return Err(ConsentError::Store(e));
        },
    }
    Ok(
        Approval {
            code,
            redirect_uri: grant.redirect_uri,
            client_state: login.client_state,
        },
    )
}

/// Grants `approved` on the login named by `state` under the given code and
/// family.
pub fn approve_as(
    store: &mut Store,
    state: &str,
    csrf: &str,
    approved: &Vec<String>,
    code: String,
    family: String,
    now_us: i64,
) -> (r: std::result::Result<Approval, ConsentError>)
    requires
        now_us <= i64::MAX - CODE_TTL_US,
    ensures
        match approvable(old(store)@, state@, csrf@, texts(approved@), now_us as int) {
            Err(why) => refused(old(store)@, final(store)@, state@, why) && (r matches Err(e) && why.is(e)),
            Ok(l) => approval_made(
                old(store)@,
                final(store)@,
                l,
                texts(approved@),
                code@,
                family@,
                now_us,
                r,
            ) && l.state == state@,
        },
{
    let ghost m = store@;
    match take_approvable(store, state, csrf, approved, now_us) {
        Ok((login, principal, scopes)) => mint(
            store,
            login,
            principal,
            scopes,
            code,
            family,
            now_us,
            Ghost(m),
            Ghost(texts(approved@)),
        ),
        Err(e) => Err(e),
    }
}

/// What granting scopes on a login gives: the refusal that the form earns, and
/// otherwise a random code in a random family. Where none can be drawn, the
/// login can still be decided on.
pub open spec fn approval_minted(
    before: StoreModel,
    after: StoreModel,
    state: Seq<char>,
    csrf: Seq<char>,
    approved: Seq<Seq<char>>,
    now: i64,
    r: std::result::Result<Approval, ConsentError>,
) -> bool {
    match approvable(before, state, csrf, approved, now as int) {
        Err(why) => refused(before, after, state, why) && (r matches Err(e) && why.is(e)),
        Ok(l) => {
            ||| restored(before, after, state) && (r matches Err(ConsentError::Store(StoreError::Random)))
            ||| exists|code: Seq<char>, family: Seq<char>|
                is_token(code) && is_token(family) && #[trigger] approval_made(
                    before,
                    after,
                    l,
                    approved,
                    code,
                    family,
                    now,
                    r,
                )
        },
    }
}

/// Grants `approved` on the login named by `state`, and mints one code.
///
/// The login row is consumed, so a second approval finds nothing. A refusal
/// puts it back: a human whose form went stale, or who ticked nothing, must be
/// able to decide again, and a stranger who guesses a state must not be able
/// to end somebody else's login.
pub fn approve(
    store: &mut Store,
    state: &str,
    csrf: &str,
    approved: &Vec<String>,
    now_us: i64,
) -> (r: std::result::Result<Approval, ConsentError>)
    requires
        now_us <= i64::MAX - CODE_TTL_US,
    ensures
        approval_minted(old(store)@, final(store)@, state@, csrf@, texts(approved@), now_us, r),
{
    let ghost m = store@;
    let (login, principal, scopes): (LoginRecord, String, Vec<String>) = match take_approvable(
        store,
        state,
        csrf,
        approved,
        now_us,
    ) {
        Ok(x) => x,
        Err(e) => {
            return Err(e);
        },
    };
    match (new_token(), new_token()) {
        (Some(code), Some(family)) => {
            let ghost (l, c, f) = (login@, code@, family@);
            let r: std::result::Result<Approval, ConsentError> = mint(
                store,
                login,
                principal,
                scopes,
                code,
                family,
                now_us,
                Ghost(m),
                Ghost(texts(approved@)),
            );
            assert(approval_made(m, store@, l, texts(approved@), c, f, now_us, r));
            r
        },
        _ => {
            restore(store, &login, Ghost(m));
            Err(ConsentError::Store(StoreError::Random))
        },
    }
}

/// Refuses the login named by `state`, and consumes it. The human said no, so
/// the login is over and no retry is offered. It carries the same token check
/// as [`approve`].
pub fn deny(store: &mut Store, state: &str, csrf: &str, now_us: i64) -> (r: std::result::Result<
    Denial,
    ConsentError,
>)
    ensures
        match verified(old(store)@, state@, csrf@, now_us as int) {
            Ok(l) => {
                &&& final(store)@ == (StoreModel {
                    logins: old(store)@.logins.remove(state@),
                    ..old(store)@
                })
                &&& r matches Ok(d) && d.redirect_uri@ == l.redirect_uri && opt_text(d.client_state)
                    == l.client_state
            },
            Err(why) => refused(old(store)@, final(store)@, state@, why) && (r matches Err(e) && why.is(e)),
        },
{
    match take_verified(store, state, csrf, now_us) {
        Ok((login, _)) => Ok(
            Denial { redirect_uri: login.redirect_uri, client_state: login.client_state },
        ),
        Err(e) => Err(e),
    }
}

/// A granted scope was offered and approved: an approval never widens either.
pub proof fn law_grant_is_offered_and_approved(offered: Seq<Seq<char>>, approved: Seq<Seq<char>>)
    ensures
        forall|s: Seq<char>| #[trigger]
            granted_scopes(offered, approved).contains(s) <==> offered.contains(s) && approved.contains(s),
    decreases offered.len(),
{
    if offered.len() > 0 {
        let rest = offered.drop_last();
        law_grant_is_offered_and_approved(rest, approved);
        let (g, h) = (granted_scopes(offered, approved), granted_scopes(rest, approved));
        let last = offered.last();
        assert(offered[offered.len() - 1] == last);
        assert forall|s: Seq<char>| #[trigger] g.contains(s) <==> offered.contains(s) && approved.contains(s) by {
            if rest.contains(s) {
                assert(offered[rest.index_of(s)] == s);
            }
            if offered.contains(s) && s != last {
                assert(rest[offered.index_of(s)] == s);
            }
            if h.contains(s) {
                assert(g[h.index_of(s)] == s);
            }
            if approved.contains(last) {
                assert(g[h.len() as int] == last);
                if g.contains(s) && s != last {
                    assert(h[g.index_of(s)] == s);
                }
            }
        }
    }
}

/// A decision that is refused over its token, its human or its scopes leaves a
/// login that the same form, corrected, meets again.
pub proof fn law_refused_decision_can_be_repeated(
    m: StoreModel,
    after: StoreModel,
    state: Seq<char>,
    csrf: Seq<char>,
    why: Refusal,
    now: int,
)
    requires
        login_live(m.logins, state, now),
        m.logins[state].login(state) is Some,
        why != Refusal::UnknownLogin && why != Refusal::Unreadable,
        refused(m, after, state, why),
    ensures
        verified(after, state, csrf, now) == verified(m, state, csrf, now),
{
}

/// The offer is in the order of the request: what the first scopes of a request
/// are offered stands in front of what the rest adds.
pub proof fn law_offer_keeps_the_order(requested: Seq<Seq<char>>, held: Set<Seq<char>>, k: int)
    requires
        0 <= k <= requested.len(),
    ensures
        offer(requested.take(k), held).is_prefix_of(offer(requested, held)),
    decreases requested.len(),
{
    if k == requested.len() {
        assert(requested.take(k) =~= requested);
        let o = offer(requested, held);
        assert(o =~= o.subrange(0, o.len() as int));
    } else {
        let front = requested.drop_last();
        law_offer_keeps_the_order(front, held, k);
        assert(front.take(k) =~= requested.take(k));
        let (a, b, c) = (offer(requested.take(k), held), offer(front, held), offer(requested, held));
        assert(a =~= c.subrange(0, a.len() as int)) by {
            assert(a == b.subrange(0, a.len() as int));
            assert forall|i: int| 0 <= i < a.len() implies a[i] == c[i] by {
                assert(b.subrange(0, a.len() as int)[i] == b[i]);
            }
        }
    }
}

/// What is granted is in the order of the offer.
pub proof fn law_grant_keeps_the_order(offered: Seq<Seq<char>>, approved: Seq<Seq<char>>, k: int)
    requires
        0 <= k <= offered.len(),
    ensures
        granted_scopes(offered, approved) == granted_scopes(offered.take(k), approved) + granted_scopes(
            offered.skip(k),
            approved,
        ),
    decreases offered.len(),
{
    if k == offered.len() {
        assert(offered.take(k) =~= offered);
        assert(offered.skip(k) =~= Seq::<Seq<char>>::empty());
        assert(granted_scopes(offered.skip(k), approved) =~= Seq::<Seq<char>>::empty());
        assert(granted_scopes(offered, approved) + Seq::<Seq<char>>::empty() =~= granted_scopes(offered, approved));
    } else {
        let front = offered.drop_last();
        law_grant_keeps_the_order(front, approved, k);
        assert(front.take(k) =~= offered.take(k));
        assert(offered.skip(k).drop_last() =~= front.skip(k));
        assert(offered.skip(k).last() == offered.last());
        assert(granted_scopes(offered, approved) =~= granted_scopes(offered.take(k), approved) + granted_scopes(
            offered.skip(k),
            approved,
        ));
    }
}

/// A decision on a live login with a human on it, with the token of its form, is
/// accepted exactly where every approved scope was offered and there is one.
pub proof fn law_a_valid_decision_is_accepted(
    m: StoreModel,
    state: Seq<char>,
    approved: Seq<Seq<char>>,
    now: int,
    l: LoginData,
)
    requires
        m.logins.contains_key(state),
        m.logins[state].expires_us > now,
        m.logins[state].login(state) == Some(l),
        l.principal is Some,
    ensures
        verified(m, state, l.csrf, now) == Ok::<LoginData, Refusal>(l),
        approvable(m, state, l.csrf, approved, now) == Ok::<LoginData, Refusal>(l) <==> approved.len() > 0 && forall|
            i: int,
        |
            0 <= i < approved.len() ==> l.scopes.contains(#[trigger] approved[i]),
        approved.len() == 0 ==> approvable(m, state, l.csrf, approved, now) == Err::<LoginData, Refusal>(
            Refusal::NothingApproved,
        ),
        (exists|i: int| 0 <= i < approved.len() && !l.scopes.contains(#[trigger] approved[i])) ==> approvable(
            m,
            state,
            l.csrf,
            approved,
            now,
        ) == Err::<LoginData, Refusal>(Refusal::NotOffered),
{
    let granted = granted_scopes(l.scopes, approved);
    law_grant_is_offered_and_approved(l.scopes, approved);
    if approved.len() == 0 {
        if granted.len() > 0 {
            assert(granted.contains(granted[0]));
        }
    } else if l.scopes.contains(approved[0]) {
        assert(approved.contains(approved[0]));
        assert(granted.contains(approved[0]));
        assert(granted.len() > 0);
    }
}

/// Whoever approves gives exactly that: the code that is minted is worth, for a
/// minute, to the login's client, at the login's address and for its verifier, a
/// grant of the human on the login, for its resource, of exactly the offered
/// scopes that were approved. The login is decided, and no other.
pub proof fn law_an_approval_is_worth_what_was_approved(
    m: StoreModel,
    after: StoreModel,
    l: LoginData,
    approved: Seq<Seq<char>>,
    code: Seq<char>,
    family: Seq<char>,
    now: i64,
    a: Approval,
    p: crate::token::CodeExchange,
    later: int,
    scope: Seq<char>,
    other: Seq<char>,
)
    requires
        approval_made(m, after, l, approved, code, family, now, Ok(a)),
        l.principal is Some,
        p.code@ == a.code@,
    ensures
        a.redirect_uri@ == l.redirect_uri && opt_text(a.client_state) == l.client_state,
        p.client_id@ == l.client_id && p.redirect_uri@ == l.redirect_uri && crate::crypto::challenge_of(p.code_verifier@)
            == l.code_challenge && later < now + 60_000_000 ==> (crate::token::redeemed(after, p, later) matches Ok(g) && {
            &&& g.client_id == l.client_id && Some(g.principal) == l.principal
            &&& g.resource == l.resource && g.family == family
            &&& g.scopes.contains(scope) <==> l.scopes.contains(scope) && approved.contains(scope)
        }),
        later >= now + 60_000_000 ==> crate::token::redeemed(after, p, later) is Err,
        p.client_id@ != l.client_id || p.redirect_uri@ != l.redirect_uri || crate::crypto::challenge_of(
            p.code_verifier@,
        ) != l.code_challenge ==> crate::token::redeemed(after, p, later) is Err,
        !after.logins.contains_key(l.state),
        other != l.state && m.logins.contains_key(other) ==> after.logins.contains_key(other) && after.logins[other]
            == m.logins[other],
        after.tokens == m.tokens && after.clients == m.clients,
{
    law_grant_is_offered_and_approved(l.scopes, approved);
}

/// Escaping goes character by character: a text that is put behind another does
/// not change what the first becomes, and a character that can do no harm stays.
pub proof fn law_escaping_goes_character_by_character(a: Seq<char>, b: Seq<char>, c: char)
    ensures
        escaped(a + b) == escaped(a) + escaped(b),
        c != '&' && c != '<' && c != '>' && c != '"' && c != '\'' && !bidi_control(c) ==> escaped(seq![c]) == seq![c],
        escaped(seq!['&']) == "&amp;"@ && escaped(seq!['<']) == "&lt;"@ && escaped(seq!['>']) == "&gt;"@,
        escaped(seq!['"']) == "&quot;"@ && escaped(seq!['\'']) == "&#39;"@,
    decreases b.len(),
{
    lemma_escaped_one(c);
    lemma_escaped_one('&');
    lemma_escaped_one('<');
    lemma_escaped_one('>');
    lemma_escaped_one('"');
    lemma_escaped_one('\'');
    if b.len() == 0 {
        assert(a + b =~= a);
        assert(escaped(a) + escaped(b) =~= escaped(a));
    } else {
        law_escaping_goes_character_by_character(a, b.drop_last(), c);
        assert((a + b).drop_last() =~= a + b.drop_last());
        assert((a + b).last() == b.last());
        assert(escaped(a + b) =~= escaped(a) + escaped(b));
    }
}

proof fn lemma_escaped_one(c: char)
    ensures
        escaped(seq![c]) == escape_char(c),
{
    assert(seq![c].drop_last() =~= Seq::<char>::empty());
    assert(escaped(seq![c].drop_last()) =~= Seq::<char>::empty());
    assert(seq![c].last() == c);
    assert(escaped(seq![c]) =~= escape_char(c));
}

/// Every offered scope has its row, in the order of the offer.
pub proof fn law_every_offered_scope_has_its_row(a: Seq<Seq<char>>, b: Seq<Seq<char>>, s: Seq<char>)
    ensures
        scope_rows(a + b) == scope_rows(a) + scope_rows(b),
        scope_rows(seq![s]) == rendered(SCOPE_ROW@, seq![("scope"@, escaped(s))]),
    decreases b.len(),
{
    assert(seq![s].drop_last() =~= Seq::<Seq<char>>::empty());
    assert(scope_rows(seq![s].drop_last()) =~= Seq::<char>::empty());
    assert(seq![s].last() == s);
    assert(scope_rows(seq![s]) =~= rendered(SCOPE_ROW@, seq![("scope"@, escaped(s))]));
    if b.len() == 0 {
        assert(a + b =~= a);
        assert(scope_rows(a) + scope_rows(b) =~= scope_rows(a));
    } else {
        law_every_offered_scope_has_its_row(a, b.drop_last(), s);
        assert((a + b).drop_last() =~= a + b.drop_last());
        assert((a + b).last() == b.last());
        assert(scope_rows(a + b) =~= scope_rows(a) + scope_rows(b));
    }
}

/// A key has the value of the first pair with that key, and none where there is
/// no such pair.
pub proof fn law_a_key_has_its_first_value(values: Seq<(Seq<char>, Seq<char>)>, key: Seq<char>, i: int)
    ensures
        0 <= i < values.len() && values[i].0 == key && (forall|j: int| 0 <= j < i ==> (#[trigger] values[j]).0 != key)
            ==> value_of(values, key) == Some(values[i].1),
        (forall|j: int| 0 <= j < values.len() ==> (#[trigger] values[j]).0 != key) <==> value_of(values, key) is None,
    decreases values.len(),
{
    if values.len() > 0 {
        let rest = values.skip(1);
        law_a_key_has_its_first_value(rest, key, i - 1);
        if values[0].0 != key {
            if 0 < i < values.len() && values[i].0 == key && (forall|j: int|
                0 <= j < i ==> (#[trigger] values[j]).0 != key) {
                assert(rest[i - 1] == values[i]);
                assert forall|j: int| 0 <= j < i - 1 implies (#[trigger] rest[j]).0 != key by {
                    assert(values[j + 1].0 != key);
                }
            }
            if value_of(values, key) is None {
                assert forall|j: int| 0 <= j < values.len() implies (#[trigger] values[j]).0 != key by {
                    if j > 0 {
                        assert(rest[j - 1].0 != key);
                    }
                }
            } else {
                let j = choose|j: int| 0 <= j < rest.len() && (#[trigger] rest[j]).0 == key;
                assert(values[j + 1].0 == key);
            }
        }
    }
}

/// A template is filled from left to right: what holds no brace stays as it is, a
/// placeholder becomes its value, or stays where it has none, and what follows is
/// filled by itself. No value is looked at again.
pub proof fn law_a_placeholder_becomes_its_value(
    a: Seq<char>,
    key: Seq<char>,
    b: Seq<char>,
    values: Seq<(Seq<char>, Seq<char>)>,
)
    requires
        !a.contains('{'),
        !key.contains('}'),
    ensures
        rendered(a + seq!['{', '{'] + key + seq!['}', '}'] + b, values) == a + filled(values, key) + rendered(b, values),
        rendered(a, values) == a,
    decreases a.len(),
{
    let t = a + seq!['{', '{'] + key + seq!['}', '}'] + b;
    if a.len() == 0 {
        let rest = t.skip(2);
        let n = key.len() as int;
        assert(t[0] == '{' && t[1] == '{');
        assert(rest =~= key + seq!['}', '}'] + b);
        assert(closes_at(rest, n)) by {
            assert(rest[n] == '}' && rest[n + 1] == '}');
            assert forall|j: int| 0 <= j < n implies !(#[trigger] rest[j] == '}' && rest[j + 1] == '}') by {
                assert(key.contains(key[j]));
            }
        }
        let i = choose|i: int| closes_at(rest, i);
        assert(closes_at(rest, i));
        assert(i == n) by {
            if i < n {
                assert(!(rest[i] == '}' && rest[i + 1] == '}'));
            }
            if n < i {
                assert(!(rest[n] == '}' && rest[n + 1] == '}'));
            }
        }
        assert(rest.take(n) =~= key);
        assert(rest.skip(n + 2) =~= b);
        assert(rendered(t, values) =~= a + filled(values, key) + rendered(b, values));
        assert(rendered(a, values) =~= a);
    } else {
        let more = a.skip(1);
        assert(a.contains(a[0]));
        assert(!more.contains('{')) by {
            if more.contains('{') {
                assert(a[more.index_of('{') + 1] == '{');
            }
        }
        law_a_placeholder_becomes_its_value(more, key, b, values);
        assert(t[0] == a[0]);
        assert(t.skip(1) =~= more + seq!['{', '{'] + key + seq!['}', '}'] + b);
        assert(rendered(t, values) =~= a + filled(values, key) + rendered(b, values));
        assert(rendered(a, values) =~= a);
    }
}

/// A mark of the keyboard can be seen, and so can a letter of any script; a blank
/// cannot, nor can the letters that draw nothing.
pub proof fn law_what_can_be_seen(c: char)
    ensures
        '!' <= c <= '~' ==> visible(c),
        alphanumeric(c) && c != '\u{115f}' && c != '\u{1160}' && c != '\u{3164}' && c != '\u{ffa0}' ==> visible(c),
        c == '\u{115f}' || c == '\u{1160}' || c == '\u{3164}' || c == '\u{ffa0}' ==> !visible(c),
        !alphanumeric(c) && !('!' <= c <= '~') ==> !visible(c),
{
}

} // verus!
