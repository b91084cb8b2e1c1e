//! Sessions and logins: the signed session token, its cookie, reading it back from a
//! `Cookie` header, and the decision taken on a login attempt.
use vstd::prelude::*;
use base64::Engine;
use hmac::Mac;
use crate::text::{
    append_chars, chars_of, eq_chars, literal, starts_with, starts_with_chars,
    string_of, trim, trim_chars,
};

verus! {

/// The HMAC-SHA256 tag of a message under a key.
pub uninterp spec fn hmac_sha256_tag(key: Seq<u8>, msg: Seq<u8>) -> Seq<u8>;

/// The URL-safe Base64 alphabet: `A`–`Z`, `a`–`z`, `0`–`9`, `-`, `_`.
pub open spec fn base64_alphabet() -> Seq<char> {
    seq![
        'A', 'B', 'C', 'D', 'E', 'F', 'G', 'H', 'I', 'J', 'K', 'L', 'M', 'N', 'O', 'P', 'Q',
        'R', 'S', 'T', 'U', 'V', 'W', 'X', 'Y', 'Z', 'a', 'b', 'c', 'd', 'e', 'f', 'g', 'h',
        'i', 'j', 'k', 'l', 'm', 'n', 'o', 'p', 'q', 'r', 's', 't', 'u', 'v', 'w', 'x', 'y',
        'z', '0', '1', '2', '3', '4', '5', '6', '7', '8', '9', '-', '_',
    ]
}

/// The Base64 character of a 6-bit value.
pub open spec fn b64(v: int) -> char {
    base64_alphabet()[v]
}

/// The unpadded URL-safe Base64 text of some bytes: each group of three bytes gives four
/// characters of six bits each; a last group of one or two bytes gives two or three.
pub open spec fn base64_url_nopad(b: Seq<u8>) -> Seq<char>
    decreases b.len(),
{
    if b.len() == 0 {
        seq![]
    } else if b.len() == 1 {
        seq![b64((b[0] as int) / 4), b64(((b[0] as int) % 4) * 16)]
    } else if b.len() == 2 {
        seq![b64((b[0] as int) / 4), b64(((b[0] as int) % 4) * 16 + (b[1] as int) / 16), b64(((b[1] as int) % 16) * 4)]
    } else {
        seq![
            b64((b[0] as int) / 4),
            b64(((b[0] as int) % 4) * 16 + (b[1] as int) / 16),
            b64(((b[1] as int) % 16) * 4 + (b[2] as int) / 64),
            b64((b[2] as int) % 64),
        ] + base64_url_nopad(b.subrange(3, b.len() as int))
    }
}

proof fn lemma_alphabet_url_safe(v: int)
    requires
        0 <= v < 64,
    ensures
        is_url_safe_base64_char(b64(v)),
{
    let a = base64_alphabet();
    assert(a.len() == 64);
    assert(forall|i: int| 0 <= i < 64 ==> is_url_safe_base64_char(#[trigger] a[i]));
}

/// Base64 text is made of the URL-safe alphabet only.
proof fn lemma_base64_url_safe(b: Seq<u8>)
    ensures
        forall|i: int|
            0 <= i < base64_url_nopad(b).len() ==> is_url_safe_base64_char(
                #[trigger] base64_url_nopad(b)[i],
            ),
    decreases b.len(),
{
    if b.len() > 0 {
        lemma_alphabet_url_safe((b[0] as int) / 4);
        if b.len() == 1 {
            lemma_alphabet_url_safe(((b[0] as int) % 4) * 16);
        } else {
            lemma_alphabet_url_safe(((b[0] as int) % 4) * 16 + (b[1] as int) / 16);
            if b.len() == 2 {
                lemma_alphabet_url_safe(((b[1] as int) % 16) * 4);
            } else {
                lemma_alphabet_url_safe(((b[1] as int) % 16) * 4 + (b[2] as int) / 64);
                lemma_alphabet_url_safe((b[2] as int) % 64);
                let rest = b.subrange(3, b.len() as int);
                lemma_base64_url_safe(rest);
                let head = seq![
                    b64((b[0] as int) / 4),
                    b64(((b[0] as int) % 4) * 16 + (b[1] as int) / 16),
                    b64(((b[1] as int) % 16) * 4 + (b[2] as int) / 64),
                    b64((b[2] as int) % 64),
                ];
                assert forall|i: int| 0 <= i < base64_url_nopad(b).len() implies is_url_safe_base64_char(
                    #[trigger] base64_url_nopad(b)[i],
                ) by {
                    if i >= 4 {
                        assert(base64_url_nopad(b)[i] == base64_url_nopad(rest)[i - 4]);
                    } else {
                        assert(base64_url_nopad(b)[i] == head[i]);
                    }
                }
            }
        }
    }
}

/// A character of the URL-safe Base64 alphabet.
pub open spec fn is_url_safe_base64_char(c: char) -> bool {
    ('A' <= c && c <= 'Z') || ('a' <= c && c <= 'z') || ('0' <= c && c <= '9') || c == '-' || c
        == '_'
}

/// Computes HMAC-SHA256 with the `hmac` and `sha2` crates (`Hmac::<Sha256>::new_from_slice`,
/// `update`, `finalize`). The contract ties the tag to the name `hmac_sha256_tag` of key and
/// message and gives its 32-byte length; `new_from_slice` accepts keys of every length.
#[verifier::external_body]
fn hmac_sha256(key: &[u8], msg: &[u8]) -> (tag: Vec<u8>)
    ensures
        tag@ == hmac_sha256_tag(key@, msg@),
        tag@.len() == 32,
{
    let mut mac = hmac::Hmac::<sha2::Sha256>::new_from_slice(key).expect("hmac accepts any key");
    mac.update(msg);
    mac.finalize().into_bytes().to_vec()
}

/// Encodes bytes with `base64`'s `URL_SAFE_NO_PAD` engine (`Engine::encode`): the
/// unpadded URL-safe Base64 text of the bytes (`base64_url_nopad`).
#[verifier::external_body]
fn encode_base64_url(bytes: &[u8]) -> (text: String)
    requires
        bytes@.len() <= usize::MAX / 2,
    ensures
        text@ == base64_url_nopad(bytes@),
{
    base64::engine::general_purpose::URL_SAFE_NO_PAD.encode(bytes)
}

/// The session token of a user: the HMAC-SHA256 of the user name's UTF-8 bytes under the
/// server secret, in unpadded URL-safe Base64.
pub open spec fn session_token(username: Seq<char>, secret: Seq<u8>) -> Seq<char> {
    base64_url_nopad(hmac_sha256_tag(secret, vstd::utf8::encode_utf8(username)))
}

/// Signs a session for a user with the server secret.
pub fn sign_session(username: &str, secret: &[u8]) -> (token: String)
    ensures
        token@ == session_token(username@, secret@),
        forall|i: int| 0 <= i < token@.len() ==> is_url_safe_base64_char(#[trigger] token@[i]),
{
    let tag = hmac_sha256(secret, username.as_bytes());
    proof {
        lemma_base64_url_safe(tag@);
    }
    encode_base64_url(tag.as_slice())
}

/// The name of the session cookie followed by `=`.
pub open spec fn cookie_prefix() -> Seq<char> {
    "brain_session="@
}

/// The parts of a `Cookie` header between semicolons (`str::split(';')`), from `i` on.
pub open spec fn cookie_parts_from(s: Seq<char>, i: int, done: Seq<Seq<char>>, cur: Seq<char>) -> Seq<
    Seq<char>,
>
    decreases s.len() - i,
{
    if i >= s.len() {
        done.push(cur)
    } else if s[i] == ';' {
        cookie_parts_from(s, i + 1, done.push(cur), seq![])
    } else {
        cookie_parts_from(s, i + 1, done, cur.push(s[i]))
    }
}

/// The session token in the parts `ps[i..]`: the rest of the first part that, trimmed,
/// starts with `brain_session=`.
pub open spec fn token_in_parts(ps: Seq<Seq<char>>, i: int) -> Option<Seq<char>>
    decreases ps.len() - i,
{
    if i >= ps.len() {
        None
    } else {
        let t = trim(ps[i]);
        if starts_with(t, cookie_prefix()) {
            Some(t.subrange(cookie_prefix().len() as int, t.len() as int))
        } else {
            token_in_parts(ps, i + 1)
        }
    }
}

/// The session token a `Cookie` header carries.
pub open spec fn cookie_token(header: Seq<char>) -> Option<Seq<char>> {
    token_in_parts(cookie_parts_from(header, 0, seq![], seq![]), 0)
}

pub open spec fn option_view(o: Option<String>) -> Option<Seq<char>> {
    match o {
        Some(s) => Some(s@),
        None => None,
    }
}

fn cookie_parts(s: &Vec<char>) -> (r: Vec<Vec<char>>)
    ensures
        crate::text::views(r@) == cookie_parts_from(s@, 0, seq![], seq![]),
{
    let mut done: Vec<Vec<char>> = Vec::new();
    let mut cur: Vec<char> = Vec::new();
    let mut i: usize = 0;
    assert(crate::text::views(done@) =~= seq![]);
    while i < s.len()
        invariant
            i <= s.len(),
            cookie_parts_from(s@, 0, seq![], seq![]) == cookie_parts_from(
                s@,
                i as int,
                crate::text::views(done@),
                cur@,
            ),
        decreases s.len() - i,
    {
        if s[i] == ';' {
            let ghost before = done@;
            done.push(cur);
            proof {
                crate::text::lemma_views_push(before, cur);
            }
            cur = Vec::new();
            assert(cur@ =~= seq![]);
        } else {
            cur.push(s[i]);
        }
        i = i + 1;
    }
    let ghost before = done@;
    done.push(cur);
    proof {
        crate::text::lemma_views_push(before, cur);
    }
    done
}

/// The session token that a `Cookie` header carries, if any.
pub fn session_token_from_cookie(header: &str) -> (r: Option<String>)
    ensures
        option_view(r) == cookie_token(header@),
{
    let s = chars_of(header);
    let ps = cookie_parts(&s);
    let ghost pv = crate::text::views(ps@);
    let prefix = literal("brain_session=");
    let mut i: usize = 0;
    while i < ps.len()
        invariant
            i <= ps.len(),
            pv == crate::text::views(ps@),
            prefix@ == cookie_prefix(),
            cookie_token(header@) == token_in_parts(pv, i as int),
            s@ == header@,
        decreases ps.len() - i,
    {
        assert(pv[i as int] == ps@[i as int]@);
        let t = trim_chars(&ps[i]);
        if starts_with_chars(&t, &prefix) {
            let rest = crate::text::slice_copy(&t, prefix.len(), t.len());
            return Some(string_of(&rest));
        }
        i = i + 1;
    }
    None
}

/// Whether a request is signed in: its `Cookie` header carries the session token of the
/// admin user (when admin credentials are set).
pub open spec fn spec_session_valid(
    header: Option<Seq<char>>,
    admin: Option<Seq<char>>,
    secret: Seq<u8>,
) -> bool {
    match header {
        None => false,
        Some(h) => match cookie_token(h) {
            None => false,
            Some(token) => match admin {
                None => false,
                Some(u) => token == session_token(u, secret),
            },
        },
    }
}

pub open spec fn str_option_view(o: Option<&str>) -> Option<Seq<char>> {
    match o {
        Some(s) => Some(s@),
        None => None,
    }
}

/// Decides whether a request is signed in, given its `Cookie` header (if readable), the
/// admin user name (if credentials are set) and the server secret.
pub fn session_is_valid(cookie_header: Option<&str>, admin_username: Option<&str>, secret: &[u8]) -> (r:
    bool)
    ensures
        r == spec_session_valid(
            str_option_view(cookie_header),
            str_option_view(admin_username),
            secret@,
        ),
{
    let header = match cookie_header {
        None => {
            return false;
        },
        Some(h) => h,
    };
    let token = match session_token_from_cookie(header) {
        None => {
            return false;
        },
        Some(t) => t,
    };
    let username = match admin_username {
        None => {
            return false;
        },
        Some(u) => u,
    };
    let expected = sign_session(username, secret);
    let a = chars_of(token.as_str());
    let b = chars_of(expected.as_str());
    eq_chars(&a, &b)
}

/// The `Set-Cookie` value that opens a session for a week.
pub open spec fn session_cookie_text(token: Seq<char>) -> Seq<char> {
    cookie_prefix() + token + "; HttpOnly; SameSite=Lax; Path=/; Max-Age=604800"@
}

/// The `Set-Cookie` value of a session with the given token.
pub fn session_cookie(token: &str) -> (r: String)
    ensures
        r@ == session_cookie_text(token@),
{
    let mut v = literal("brain_session=");
    let t = chars_of(token);
    append_chars(&mut v, &t);
    let tail = literal("; HttpOnly; SameSite=Lax; Path=/; Max-Age=604800");
    append_chars(&mut v, &tail);
    string_of(&v)
}

/// The `Set-Cookie` value that ends the session.
pub fn logout_cookie() -> (r: String)
    ensures
        r@ == "brain_session=; HttpOnly; SameSite=Lax; Path=/; Max-Age=0"@,
{
    let v = literal("brain_session=; HttpOnly; SameSite=Lax; Path=/; Max-Age=0");
    string_of(&v)
}

/// Failed logins from one address, inside the last day, after which it is refused.
pub const MAX_BAD_LOGINS: i64 = 5;

/// What a login attempt leads to.
#[derive(Clone, Copy, Debug, PartialEq, Eq, Structural)]
pub enum LoginOutcome {
    /// Too many failed logins from this address: refused without checking.
    Banned,
    /// No admin credentials are set.
    CredentialsUnavailable,
    /// Wrong user name or password: the failure is recorded.
    Rejected,
    /// The session is opened.
    Accepted,
}

pub open spec fn spec_decide_login(
    recent_failures: i64,
    admin: Option<(Seq<char>, Seq<char>)>,
    username: Seq<char>,
    password: Seq<char>,
) -> LoginOutcome {
    if recent_failures >= MAX_BAD_LOGINS {
        LoginOutcome::Banned
    } else {
        match admin {
            None => LoginOutcome::CredentialsUnavailable,
            Some((u, p)) => if username != u || password != p {
                LoginOutcome::Rejected
            } else {
                LoginOutcome::Accepted
            },
        }
    }
}

pub open spec fn pair_view(o: Option<(&str, &str)>) -> Option<(Seq<char>, Seq<char>)> {
    match o {
        Some((u, p)) => Some((u@, p@)),
        None => None,
    }
}

/// Decides a login attempt from the number of failed attempts of the address in the last
/// day, the admin credentials (if set) and the submitted user name and password.
pub fn decide_login(
    recent_failures: i64,
    admin: Option<(&str, &str)>,
    username: &str,
    password: &str,
) -> (r: LoginOutcome)
    ensures
        r == spec_decide_login(recent_failures, pair_view(admin), username@, password@),
{
    if recent_failures >= MAX_BAD_LOGINS {
        return LoginOutcome::Banned;
    }
    match admin {
        None => LoginOutcome::CredentialsUnavailable,
        Some((u, p)) => {
            let a = chars_of(username);
            let b = chars_of(u);
            let c = chars_of(password);
            let d = chars_of(p);
            if !eq_chars(&a, &b) || !eq_chars(&c, &d) {
                LoginOutcome::Rejected
            } else {
                LoginOutcome::Accepted
            }
        },
    }
}

} // verus!

verus! {

proof fn lemma_cookie_parts_segment(s: Seq<char>, i: int, done: Seq<Seq<char>>, cur: Seq<char>)
    requires
        0 <= i <= s.len(),
        forall|k: int| i <= k < s.len() ==> s[k] != ';',
    ensures
        cookie_parts_from(s, i, done, cur) == done.push(cur + s.subrange(i, s.len() as int)),
    decreases s.len() - i,
{
    if i == s.len() {
        assert(cur + s.subrange(i, s.len() as int) =~= cur);
    } else {
        lemma_cookie_parts_segment(s, i + 1, done, cur.push(s[i]));
        assert(cur.push(s[i]) + s.subrange(i + 1, s.len() as int) =~= cur + s.subrange(
            i,
            s.len() as int,
        ));
    }
}

/// A `Cookie` header holding only the session cookie gives back its token, for every token
/// written in the URL-safe Base64 alphabet (as session tokens are).
pub proof fn lemma_session_cookie_round_trip(token: Seq<char>)
    requires
        forall|i: int| 0 <= i < token.len() ==> is_url_safe_base64_char(#[trigger] token[i]),
    ensures
        cookie_token(cookie_prefix() + token) == Some(token),
{
    reveal_strlit("brain_session=");
    let p = cookie_prefix();
    let h = p + token;
    assert(p.len() == 14);
    assert forall|k: int| 0 <= k < h.len() implies h[k] != ';' && !crate::text::is_ws(h[k]) by {
        if k < 14 {
            assert(h[k] == p[k]);
        } else {
            assert(h[k] == token[k - 14]);
            assert(is_url_safe_base64_char(token[k - 14]));
        }
    }
    lemma_cookie_parts_segment(h, 0, seq![], seq![]);
    assert(seq![] + h.subrange(0, h.len() as int) =~= h);
    assert(seq![].push(h) =~= seq![h]);
    crate::text::lemma_trim_no_ws(h);
    assert(h.subrange(0, 14) =~= p);
    assert(h.subrange(14, h.len() as int) =~= token);
}

/// The session that login opens signs the admin in: a `Cookie` header holding the session
/// cookie with the admin's signed token is a valid session, while the same credentials
/// are set.
pub proof fn lemma_signed_session_is_valid(username: Seq<char>, secret: Seq<u8>)
    requires
        forall|i: int|
            0 <= i < session_token(username, secret).len() ==> is_url_safe_base64_char(
                #[trigger] session_token(username, secret)[i],
            ),
    ensures
        spec_session_valid(
            Some(cookie_prefix() + session_token(username, secret)),
            Some(username),
            secret,
        ),
{
    lemma_session_cookie_round_trip(session_token(username, secret));
}

} // verus!

verus! {

/// How a login attempt is decided: it is refused as banned exactly when its address has
/// five or more failed logins in the last day; otherwise it finds no credentials when none
/// are set, is accepted exactly when the user name and the password both equal the admin
/// credentials, and is rejected when either differs.
pub proof fn lemma_login_decisions(
    failures: i64,
    admin: Option<(Seq<char>, Seq<char>)>,
    username: Seq<char>,
    password: Seq<char>,
)
    ensures
        (spec_decide_login(failures, admin, username, password) == LoginOutcome::Banned) <==> failures
            >= 5,
        (spec_decide_login(failures, admin, username, password)
            == LoginOutcome::CredentialsUnavailable) <==> failures < 5 && admin is None,
        (spec_decide_login(failures, admin, username, password) == LoginOutcome::Accepted) <==> failures
            < 5 && admin == Some((username, password)),
        (spec_decide_login(failures, admin, username, password) == LoginOutcome::Rejected) <==> failures
            < 5 && admin is Some && admin != Some((username, password)),
{
}

} // verus!

verus! {

proof fn lemma_cookie_parts_split(s: Seq<char>, i: int, j: int, done: Seq<Seq<char>>, cur: Seq<char>)
    requires
        0 <= i <= j < s.len(),
        forall|k: int| i <= k < j ==> s[k] != ';',
        s[j] == ';',
    ensures
        cookie_parts_from(s, i, done, cur) == cookie_parts_from(
            s,
            j + 1,
            done.push(cur + s.subrange(i, j)),
            seq![],
        ),
    decreases j - i,
{
    if i == j {
        assert(cur + s.subrange(i, j) =~= cur);
    } else {
        lemma_cookie_parts_split(s, i + 1, j, done, cur.push(s[i]));
        assert(cur.push(s[i]) + s.subrange(i + 1, j) =~= cur + s.subrange(i, j));
    }
}

/// The session token is found after another cookie: in a `Cookie` header whose first
/// cookie is some other one and whose second, after `; `, is the session cookie, the token
/// of the session cookie is read (for every token in the URL-safe Base64 alphabet).
pub proof fn lemma_session_cookie_after_another(other: Seq<char>, token: Seq<char>)
    requires
        forall|i: int| 0 <= i < other.len() ==> other[i] != ';',
        !starts_with(trim(other), cookie_prefix()),
        forall|i: int| 0 <= i < token.len() ==> is_url_safe_base64_char(#[trigger] token[i]),
    ensures
        cookie_token(other + seq![';', ' '] + cookie_prefix() + token) == Some(token),
{
    reveal_strlit("brain_session=");
    let p = cookie_prefix();
    let x = p + token;
    let second = seq![' '] + x;
    let h = other + seq![';'] + second;
    assert(other + seq![';', ' '] + cookie_prefix() + token =~= h);
    let j = other.len() as int;
    assert forall|k: int| 0 <= k < x.len() implies x[k] != ';' && !crate::text::is_ws(x[k]) by {
        if k < 14 {
            assert(x[k] == p[k]);
        } else {
            assert(x[k] == token[k - 14]);
            assert(is_url_safe_base64_char(token[k - 14]));
        }
    }
    assert forall|k: int| 0 <= k < j implies h[k] != ';' by {
        assert(h[k] == other[k]);
    }
    lemma_cookie_parts_split(h, 0, j, seq![], seq![]);
    assert(seq![] + h.subrange(0, j) =~= other);
    assert forall|k: int| j + 1 <= k < h.len() implies h[k] != ';' by {
        assert(h[k] == second[k - j - 1]);
        if k > j + 1 {
            assert(second[k - j - 1] == x[k - j - 2]);
        }
    }
    lemma_cookie_parts_segment(h, j + 1, seq![other], seq![]);
    assert(seq![] + h.subrange(j + 1, h.len() as int) =~= second);
    let parts = seq![other].push(second);
    assert(parts[0] == other && parts[1] == second);
    crate::text::lemma_trim_no_ws(x);
    assert(second.drop_first() =~= x);
    assert(crate::text::is_ws(' '));
    assert(crate::text::trim_start(second) == crate::text::trim_start(x));
    assert(x[0] == 'b');
    assert(crate::text::trim_start(x) == x);
    assert(trim(second) == x);
    assert(x.subrange(0, 14) =~= p);
    assert(x.subrange(14, x.len() as int) =~= token);
    assert(token_in_parts(parts, 1) == Some(token));
}

} // verus!
