//! Session issuer: dual-token (access + refresh) sessions bound to a
//! username and an expiry.
//!
//! A token is the fixed-width signature code, the fixed-width expiry
//! stamp, a kind character, and the username. The signature is a digest of
//! everything after it under the server secret, so an altered payload or
//! signature fails closed. Refresh tokens are reusable until they expire:
//! refreshing hands out a fresh pair and leaves the old refresh token
//! valid for its remaining lifetime.

use vstd::prelude::*;

use crate::auth::{lemma_mix_bound, mix, mix_chars};
use crate::codec::{
    chars_of, fits, lemma_parse_num_enc, lemma_u64_fits, num_enc, parse_char, parse_num,
    push_chars, push_num, take_num, NUM_WIDTH,
};
use crate::error_handling::WarpRejections;
use crate::sys::{now_ts, string_from_chars};

verus! {

/// Lifetime of an access token, in seconds.
pub const ACCESS_LIFE: i64 = 900;

/// Lifetime of a refresh token, in seconds.
pub const REFRESH_LIFE: i64 = 604800;

/// Upper clamp for clock readings: far enough out for any real clock,
/// small enough that adding a token lifetime cannot overflow.
pub const MAX_STAMP: i64 = 4_000_000_000_000_000_000;

/// The two token kinds.
#[derive(Debug, Clone, Copy, PartialEq, Eq, Structural)]
pub enum TokenKind {
    Access,
    Refresh,
}

pub open spec fn kind_char(k: TokenKind) -> char {
    match k {
        TokenKind::Access => 'a',
        TokenKind::Refresh => 'r',
    }
}

pub open spec fn char_kind(c: char) -> Option<TokenKind> {
    if c == 'a' {
        Some(TokenKind::Access)
    } else if c == 'r' {
        Some(TokenKind::Refresh)
    } else {
        None
    }
}

fn kind_char_of(k: TokenKind) -> (c: char)
    ensures
        c == kind_char(k),
{
    match k {
        TokenKind::Access => 'a',
        TokenKind::Refresh => 'r',
    }
}

fn kind_of(c: char) -> (r: Option<TokenKind>)
    ensures
        r == char_kind(c),
{
    match c {
        'a' => Some(TokenKind::Access),
        'r' => Some(TokenKind::Refresh),
        _ => None,
    }
}

/// The signature code of a token body under the server secret.
pub open spec fn token_sig_of(body: Seq<char>, secret: Seq<char>) -> nat {
    mix(secret, mix(body, mix(secret, 7919)))
}

/// The body of a token: expiry stamp, kind character, username.
pub open spec fn token_body(username: Seq<char>, expiry: nat, kind: TokenKind) -> Seq<char> {
    num_enc(expiry) + seq![kind_char(kind)] + username
}

/// The full encoding of a token.
pub open spec fn token_enc(
    username: Seq<char>,
    expiry: nat,
    kind: TokenKind,
    secret: Seq<char>,
) -> Seq<char> {
    num_enc(token_sig_of(token_body(username, expiry, kind), secret)) + token_body(
        username,
        expiry,
        kind,
    )
}

/// What validating a token yields.
#[derive(Debug, Clone)]
pub enum TokenStatus {
    /// The token is authentic and current: the username it is bound to.
    Valid(String),
    /// The token is authentic but its expiry has passed.
    Expired,
    /// The token is malformed or its signature does not match.
    Invalid,
}

/// Spec-level model of a [`TokenStatus`].
#[verifier::ext_equal]
pub enum TokenStatusV {
    Valid(Seq<char>),
    Expired,
    Invalid,
}

impl View for TokenStatus {
    type V = TokenStatusV;

    open spec fn view(&self) -> TokenStatusV {
        match self {
            TokenStatus::Valid(u) => TokenStatusV::Valid(u@),
            TokenStatus::Expired => TokenStatusV::Expired,
            TokenStatus::Invalid => TokenStatusV::Invalid,
        }
    }
}

/// Total meaning of validation: what any token string yields under a
/// secret at a given time. Fail-closed: a bad signature is `Invalid` even
/// if the expiry has also passed.
pub open spec fn validate_spec(tok: Seq<char>, secret: Seq<char>, now: int) -> TokenStatusV {
    match parse_num(tok) {
        Some((sig, r1)) => match parse_num(r1) {
            Some((expiry, r2)) => match parse_char(r2) {
                Some((kc, username)) => match char_kind(kc) {
                    Some(_kind) => if sig != token_sig_of(tok.skip(NUM_WIDTH as int), secret) {
                        TokenStatusV::Invalid
                    } else if now >= expiry {
                        TokenStatusV::Expired
                    } else {
                        TokenStatusV::Valid(username)
                    },
                    None => TokenStatusV::Invalid,
                },
                None => TokenStatusV::Invalid,
            },
            None => TokenStatusV::Invalid,
        },
        None => TokenStatusV::Invalid,
    }
}

/// The kind a token claims, read from its kind character.
pub open spec fn token_kind_spec(tok: Seq<char>) -> Option<TokenKind> {
    if tok.len() >= 2 * NUM_WIDTH + 1 {
        char_kind(tok[(2 * NUM_WIDTH) as int])
    } else {
        None
    }
}

/// The clock, clamped into `[0, MAX_STAMP]` so that timestamps are never
/// negative and token expiries cannot overflow.
pub fn current_stamp() -> (r: i64)
    ensures
        0 <= r <= MAX_STAMP,
{
    let t = now_ts();
    if t < 0 {
        0
    } else if t > MAX_STAMP {
        MAX_STAMP
    } else {
        t
    }
}

/// Builds one token.
fn make_token(username: &str, expiry: i64, kind: TokenKind, secret: &str) -> (r: String)
    requires
        0 <= expiry,
    ensures
        r@ == token_enc(username@, expiry as nat, kind, secret@),
{
    let mut body: Vec<char> = Vec::new();
    push_num(&mut body, expiry as u64);
    body.push(kind_char_of(kind));
    push_chars(&mut body, username);
    proof {
        assert(body@ =~= token_body(username@, expiry as nat, kind));
    }
    let secret_chars = chars_of(secret);
    let m1 = mix_chars(&secret_chars, 7919);
    let m2 = mix_chars(&body, m1);
    let m3 = mix_chars(&secret_chars, m2);
    let mut out: Vec<char> = Vec::new();
    push_num(&mut out, m3);
    let mut body_tail = body;
    out.append(&mut body_tail);
    proof {
        assert(out@ =~= token_enc(username@, expiry as nat, kind, secret@));
    }
    string_from_chars(&out)
}

/// Issues a fresh access/refresh token pair for `username`, bound to the
/// given clock reading and the server secret.
pub fn issue(username: &str, now: i64, secret: &str) -> (r: (String, String))
    requires
        0 <= now <= MAX_STAMP,
    ensures
        r.0@ == token_enc(username@, (now + ACCESS_LIFE) as nat, TokenKind::Access, secret@),
        r.1@ == token_enc(username@, (now + REFRESH_LIFE) as nat, TokenKind::Refresh, secret@),
{
    let access = make_token(username, now + ACCESS_LIFE, TokenKind::Access, secret);
    let refresh_t = make_token(username, now + REFRESH_LIFE, TokenKind::Refresh, secret);
    (access, refresh_t)
}

/// Validates a token against the secret at the given time: `Valid` with
/// the bound username before expiry, `Expired` after, `Invalid` on any
/// malformed or mis-signed token.
pub fn validate(token: &str, now: i64, secret: &str) -> (r: TokenStatus)
    ensures
        r@ == validate_spec(token@, secret@, now as int),
{
    let v = chars_of(token);
    proof {
        assert(v@.skip(0) =~= token@);
    }
    let (sig, p1) = match take_num(&v, 0) {
        Some(x) => x,
        None => {
            return TokenStatus::Invalid;
        },
    };
    let (expiry, p2) = match take_num(&v, p1) {
        Some(x) => x,
        None => {
            return TokenStatus::Invalid;
        },
    };
    if p2 >= v.len() {
        proof {
            assert(v@.skip(p2 as int).len() == 0);
        }
        return TokenStatus::Invalid;
    }
    let kc = v[p2];
    proof {
        assert(v@.skip(p2 as int)[0] == kc);
    }
    if kind_of(kc).is_none() {
        return TokenStatus::Invalid;
    }
    let mut body: Vec<char> = Vec::new();
    let mut j: usize = p1;
    while j < v.len()
        invariant
            p1 <= j <= v.len(),
            body@ == v@.subrange(p1 as int, j as int),
        decreases v.len() - j,
    {
        body.push(v[j]);
        proof {
            assert(v@.subrange(p1 as int, (j + 1) as int) =~= v@.subrange(p1 as int, j as int).push(
                v@[j as int],
            ));
        }
        j = j + 1;
    }
    proof {
        assert(body@ =~= v@.skip(p1 as int));
        assert(v@.skip(NUM_WIDTH as int) == v@.skip(p1 as int));
    }
    let secret_chars = chars_of(secret);
    let m1 = mix_chars(&secret_chars, 7919);
    let m2 = mix_chars(&body, m1);
    let m3 = mix_chars(&secret_chars, m2);
    if sig != m3 as u128 {
        return TokenStatus::Invalid;
    }
    if expiry <= i64::MAX as u128 && now >= expiry as i64 {
        return TokenStatus::Expired;
    }
    proof {
        if expiry > i64::MAX as u128 {
            assert(now < expiry);
        }
    }
    let mut uname: Vec<char> = Vec::new();
    let mut t: usize = p2 + 1;
    while t < v.len()
        invariant
            p2 + 1 <= t <= v.len(),
            uname@ == v@.subrange((p2 + 1) as int, t as int),
        decreases v.len() - t,
    {
        uname.push(v[t]);
        proof {
            assert(v@.subrange((p2 + 1) as int, (t + 1) as int) =~= v@.subrange(
                (p2 + 1) as int,
                t as int,
            ).push(v@[t as int]));
        }
        t = t + 1;
    }
    let username = string_from_chars(&uname);
    proof {
        assert(uname@ =~= v@.skip(p2 as int).skip(1));
    }
    TokenStatus::Valid(username)
}

/// Exchanges a live refresh token for a fresh token pair. An expired,
/// malformed, mis-signed or wrong-kind token fails closed with
/// `AuthFailure`; the old refresh token is not tracked and simply runs out
/// its lifetime.
pub fn refresh(token: &str, now: i64, secret: &str) -> (r: Result<(String, String), WarpRejections>)
    requires
        0 <= now <= MAX_STAMP,
    ensures
        match r {
            Ok(pair) => {
                &&& validate_spec(token@, secret@, now as int) matches TokenStatusV::Valid(u)
                    && pair.0@ == token_enc(u, (now + ACCESS_LIFE) as nat, TokenKind::Access, secret@)
                    && pair.1@ == token_enc(
                    u,
                    (now + REFRESH_LIFE) as nat,
                    TokenKind::Refresh,
                    secret@,
                )
                &&& token_kind_spec(token@) == Some(TokenKind::Refresh)
            },
            Err(e) => {
                &&& e == WarpRejections::AuthFailure
                &&& !(validate_spec(token@, secret@, now as int) is Valid) || token_kind_spec(
                    token@,
                ) != Some(TokenKind::Refresh)
            },
        },
{
    let outcome = validate(token, now, secret);
    match outcome {
        TokenStatus::Valid(username) => {
            let v = chars_of(token);
            if v.len() < 2 * NUM_WIDTH + 1 {
                proof {
                    assert(validate_spec(token@, secret@, now as int) is Valid);
                    assert(token@.len() >= 2 * NUM_WIDTH + 1);
                }
                return Err(WarpRejections::AuthFailure);
            }
            let kc = v[2 * NUM_WIDTH];
            match kind_of(kc) {
                Some(TokenKind::Refresh) => {
                    let pair = issue(username.as_str(), now, secret);
                    Ok(pair)
                },
                _ => Err(WarpRejections::AuthFailure),
            }
        },
        _ => Err(WarpRejections::AuthFailure),
    }
}

/// Law: a token issued for a user validates, under the same secret, to
/// that user before its expiry and to `Expired` from the expiry on.
pub proof fn lemma_issued_token_validates(
    username: Seq<char>,
    expiry: nat,
    kind: TokenKind,
    secret: Seq<char>,
    now: int,
)
    requires
        fits(expiry),
    ensures
        validate_spec(token_enc(username, expiry, kind, secret), secret, now) == (if now >= expiry {
            TokenStatusV::Expired
        } else {
            TokenStatusV::Valid(username)
        }),
{
    let body = token_body(username, expiry, kind);
    let sig = token_sig_of(body, secret);
    let tok = token_enc(username, expiry, kind, secret);
    lemma_mix_bound(secret, mix(body, mix(secret, 7919)));
    assert(fits(sig)) by {
        lemma_u64_fits();
    }
    lemma_parse_num_enc(sig, body);
    assert(tok == num_enc(sig) + body);
    assert(body =~= num_enc(expiry) + (seq![kind_char(kind)] + username));
    lemma_parse_num_enc(expiry, seq![kind_char(kind)] + username);
    let r2 = seq![kind_char(kind)] + username;
    assert(r2[0] == kind_char(kind));
    assert(r2.skip(1) =~= username);
    assert(char_kind(kind_char(kind)) == Some(kind));
    assert(tok.skip(NUM_WIDTH as int) =~= body) by {
        lemma_parse_num_enc(sig, body);
    }
    if now >= expiry {
        assert(validate_spec(tok, secret, now) =~= TokenStatusV::Expired);
    } else {
        assert(validate_spec(tok, secret, now) =~= TokenStatusV::Valid(username));
    }
}

} // verus!
