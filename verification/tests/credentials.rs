//! Credential and session behaviour, checked on concrete values.

use movie_night::auth::{hasher, verify_pass};
use movie_night::error_handling::WarpRejections;
use movie_night::session::{issue, refresh, validate, TokenStatus, ACCESS_LIFE, REFRESH_LIFE};

/// Replicates the digest formula: three 32-bit mixing passes.
fn mix(s: &str, acc0: u64) -> u64 {
    let mut acc = acc0;
    for c in s.chars() {
        acc = (acc * 31 + c as u64) % 0x1_0000_0000;
    }
    acc
}

fn expected_hash(password: &str, salt: &str) -> String {
    let code = mix(salt, mix(password, mix(salt, 5381)));
    format!("{}${:020}", salt, code)
}

#[test]
fn password_verifies_against_its_own_hash() {
    let (hashed, salt) = hasher("hunter2").unwrap();
    assert_eq!(verify_pass("hunter2".to_string(), salt.clone(), hashed.clone()), Ok(true));
    assert_eq!(verify_pass("hunter2x".to_string(), salt, hashed), Ok(false));
}

#[test]
fn hash_format_is_salt_separator_code() {
    let (hashed, salt) = hasher("abc").unwrap();
    assert_eq!(hashed, expected_hash("abc", &salt));
    assert_eq!(hashed.len(), salt.len() + 1 + 20);
    assert_eq!(hashed.chars().nth(salt.len()), Some('$'));
}

#[test]
fn verify_accepts_exactly_the_recomputed_hash() {
    let exact = expected_hash("pw", "somesalt");
    assert_eq!(verify_pass("pw".to_string(), "somesalt".to_string(), exact.clone()), Ok(true));
    let mut altered = exact.clone();
    altered.pop();
    altered.push('0');
    let altered_differs = altered != exact;
    assert_eq!(
        verify_pass("pw".to_string(), "somesalt".to_string(), altered),
        Ok(!altered_differs)
    );
}

#[test]
fn rehashing_draws_a_fresh_salt_and_hash() {
    let (h1, s1) = hasher("same password").unwrap();
    let (h2, s2) = hasher("same password").unwrap();
    assert_ne!(s1, s2);
    assert_ne!(h1, h2);
}

#[test]
fn salts_are_hyphenated_identifiers() {
    let (_, salt) = hasher("x").unwrap();
    assert_eq!(salt.len(), 36);
    for (i, c) in salt.chars().enumerate() {
        if i == 8 || i == 13 || i == 18 || i == 23 {
            assert_eq!(c, '-');
        } else {
            assert!(c.is_ascii_hexdigit());
        }
    }
}

#[test]
fn issued_token_validates_until_expiry() {
    let now = 1_000_000;
    let (access, refresh_tok) = issue("bob", now, "server-secret");
    match validate(&access, now + ACCESS_LIFE - 1, "server-secret") {
        TokenStatus::Valid(u) => assert_eq!(u, "bob"),
        other => panic!("expected Valid, got {:?}", other),
    }
    assert!(matches!(
        validate(&access, now + ACCESS_LIFE, "server-secret"),
        TokenStatus::Expired
    ));
    match validate(&refresh_tok, now + REFRESH_LIFE - 1, "server-secret") {
        TokenStatus::Valid(u) => assert_eq!(u, "bob"),
        other => panic!("expected Valid, got {:?}", other),
    }
    assert!(matches!(
        validate(&refresh_tok, now + REFRESH_LIFE, "server-secret"),
        TokenStatus::Expired
    ));
}

#[test]
fn tampered_token_is_invalid() {
    let now = 5_000;
    let (access, _) = issue("bob", now, "server-secret");
    // Altered payload: bind the token to another name.
    let forged = format!("{}x", access);
    assert!(matches!(validate(&forged, now, "server-secret"), TokenStatus::Invalid));
    // Altered signature: flip the first digit.
    let mut chars: Vec<char> = access.chars().collect();
    chars[0] = if chars[0] == '9' { '8' } else { '9' };
    let resigned: String = chars.iter().collect();
    assert!(matches!(validate(&resigned, now, "server-secret"), TokenStatus::Invalid));
    // Wrong secret.
    assert!(matches!(validate(&access, now, "other-secret"), TokenStatus::Invalid));
    // Garbage.
    assert!(matches!(validate("garbage", now, "server-secret"), TokenStatus::Invalid));
}

#[test]
fn token_layout_is_sig_expiry_kind_name() {
    let now = 1_000;
    let (access, refresh_tok) = issue("bob", now, "s");
    assert_eq!(&access[20..40], format!("{:020}", now + ACCESS_LIFE));
    assert_eq!(&access[40..41], "a");
    assert_eq!(&access[41..], "bob");
    assert_eq!(&refresh_tok[20..40], format!("{:020}", now + REFRESH_LIFE));
    assert_eq!(&refresh_tok[40..41], "r");
    assert_eq!(&refresh_tok[41..], "bob");
}

#[test]
fn refresh_rotates_only_live_refresh_tokens() {
    let now = 42;
    let (access, refresh_tok) = issue("ann", now, "sec");
    let (a2, r2) = refresh(&refresh_tok, now + 10, "sec").unwrap();
    match validate(&a2, now + 11, "sec") {
        TokenStatus::Valid(u) => assert_eq!(u, "ann"),
        other => panic!("expected Valid, got {:?}", other),
    }
    match validate(&r2, now + 11, "sec") {
        TokenStatus::Valid(u) => assert_eq!(u, "ann"),
        other => panic!("expected Valid, got {:?}", other),
    }
    // An access token cannot be used to refresh.
    assert_eq!(refresh(&access, now, "sec"), Err(WarpRejections::AuthFailure));
    // An expired refresh token cannot either.
    assert_eq!(
        refresh(&refresh_tok, now + REFRESH_LIFE, "sec"),
        Err(WarpRejections::AuthFailure)
    );
    // Neither can a tampered one.
    assert_eq!(refresh(&format!("{}!", refresh_tok), now, "sec"), Err(WarpRejections::AuthFailure));
}

#[test]
fn error_messages_and_status() {
    assert_eq!(WarpRejections::Conflict.message(), "Conflict");
    assert_eq!(WarpRejections::SerializationError.message(), "SerializationError");
    assert_eq!(WarpRejections::AuthFailure.message(), "AuthFailure");
    assert_eq!(WarpRejections::Other("boom".to_string()).message(), "boom");
    assert_eq!(WarpRejections::Conflict.status_code(), 400);
}
