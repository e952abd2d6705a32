//! Credential manager: salted one-way password hashing and verification.
//!
//! A credential is stored as a `(hashed_password, salt)` pair. The hashed
//! form is `salt$<code>`, where the code is a deterministic digest of the
//! password and the salt; verification recomputes the hash with the stored
//! salt and compares. The salt is drawn fresh on every hashing call, so
//! re-hashing the same password yields a different stored hash.
//!
//! The digest is kept deliberately simple so that its functional contract
//! can be stated and proved exactly; a deployment wanting a slower,
//! memory-hard derivation can swap one in behind the same contracts.

use vstd::prelude::*;

use crate::codec::{num_enc, push_chars, push_num, chars_of, lemma_decfix_len, NUM_WIDTH};
use crate::error_handling::WarpRejections;
use crate::sys::{new_uuid_string, string_from_chars};

verus! {

/// One mixing pass of the digest: a 32-bit rolling accumulation over the
/// characters, most recent character last.
pub open spec fn mix(s: Seq<char>, acc: nat) -> nat
    decreases s.len(),
{
    if s.len() == 0 {
        acc
    } else {
        (mix(s.drop_last(), acc) * 31 + ((s.last() as u32) as nat)) % 0x1_0000_0000
    }
}

/// The digest code of a password under a salt: three mixing passes.
pub open spec fn credential_code(pw: Seq<char>, salt: Seq<char>) -> nat {
    mix(salt, mix(pw, mix(salt, 5381)))
}

/// The stored hash for a password under a salt: the salt, a separator, and
/// the fixed-width digest code.
pub open spec fn hashed_of(pw: Seq<char>, salt: Seq<char>) -> Seq<char> {
    salt + seq!['$'] + num_enc(credential_code(pw, salt))
}

/// Whether a plain password verifies against a stored salt and hash.
pub open spec fn verify_spec(pw: Seq<char>, salt: Seq<char>, hashed: Seq<char>) -> bool {
    hashed == hashed_of(pw, salt)
}

pub proof fn lemma_mix_bound(s: Seq<char>, acc: nat)
    requires
        acc < 0x1_0000_0000,
    ensures
        mix(s, acc) < 0x1_0000_0000,
    decreases s.len(),
{
    if s.len() > 0 {
        lemma_mix_bound(s.drop_last(), acc);
    }
}

pub(crate) fn mix_chars(v: &Vec<char>, acc0: u64) -> (r: u64)
    requires
        acc0 < 0x1_0000_0000,
    ensures
        r as nat == mix(v@, acc0 as nat),
        r < 0x1_0000_0000,
{
    let mut acc: u64 = acc0;
    let mut i: usize = 0;
    while i < v.len()
        invariant
            i <= v.len(),
            acc < 0x1_0000_0000,
            acc as nat == mix(v@.take(i as int), acc0 as nat),
        decreases v.len() - i,
    {
        let c = v[i];
        proof {
            assert(v@.take((i + 1) as int).drop_last() =~= v@.take(i as int));
            assert(v@.take((i + 1) as int).last() == c);
        }
        acc = (acc * 31 + ((c as u32) as u64)) % 0x1_0000_0000;
        i = i + 1;
    }
    proof {
        assert(v@.take(v@.len() as int) =~= v@);
    }
    acc
}

/// Recomputes the stored hash of `password` under `salt`.
fn hash_with_salt(password: &str, salt: &str) -> (r: String)
    ensures
        r@ == hashed_of(password@, salt@),
{
    let pw_chars = chars_of(password);
    let salt_chars = chars_of(salt);
    let m1 = mix_chars(&salt_chars, 5381);
    let m2 = mix_chars(&pw_chars, m1);
    let m3 = mix_chars(&salt_chars, m2);
    let mut out: Vec<char> = Vec::new();
    push_chars(&mut out, salt);
    out.push('$');
    push_num(&mut out, m3);
    proof {
        assert(out@ =~= hashed_of(password@, salt@));
    }
    string_from_chars(&out)
}

/// Derives a fresh salted credential for a password. The salt is a freshly
/// drawn identifier; the hash is the digest of the password under it. The
/// derivation itself cannot fail.
pub fn hasher(password: &str) -> (r: Result<(String, String), WarpRejections>)
    ensures
        match r {
            Ok((hashed, salt)) => {
                &&& hashed@ == hashed_of(password@, salt@)
                &&& salt@.len() == 36
            },
            Err(_) => false,
        },
{
    let salt = new_uuid_string();
    let hashed = hash_with_salt(password, salt.as_str());
    Ok((hashed, salt))
}

/// Recomputes the hash of `password` under `salt` and compares it with the
/// stored hash in full. A mismatch is `Ok(false)`, not an error; the
/// comparison itself cannot fail.
pub fn verify_pass(password: String, salt: String, hashed_password: String) -> (r: Result<
    bool,
    WarpRejections,
>)
    ensures
        match r {
            Ok(b) => b == verify_spec(password@, salt@, hashed_password@),
            Err(_) => false,
        },
{
    let expected = hash_with_salt(password.as_str(), salt.as_str());
    Ok(expected == hashed_password)
}

/// Law: a password always verifies against the hash that was derived from
/// it with the same salt.
pub proof fn lemma_hash_then_verify(pw: Seq<char>, salt: Seq<char>)
    ensures
        verify_spec(pw, salt, hashed_of(pw, salt)),
{
}

/// Law: hashing under two different salts yields two different stored
/// hashes, whatever the password.
pub proof fn lemma_distinct_salts_distinct_hashes(pw: Seq<char>, s1: Seq<char>, s2: Seq<char>)
    requires
        s1 != s2,
    ensures
        hashed_of(pw, s1) != hashed_of(pw, s2),
{
    let h1 = hashed_of(pw, s1);
    let h2 = hashed_of(pw, s2);
    lemma_decfix_len(credential_code(pw, s1), NUM_WIDTH as nat);
    lemma_decfix_len(credential_code(pw, s2), NUM_WIDTH as nat);
    if h1 == h2 {
        assert(h1.len() == s1.len() + 1 + NUM_WIDTH);
        assert(h2.len() == s2.len() + 1 + NUM_WIDTH);
        assert(s1.len() == s2.len());
        assert forall|i: int| 0 <= i < s1.len() implies s1[i] == s2[i] by {
            assert(h1[i] == s1[i]);
            assert(h2[i] == s2[i]);
        }
        assert(s1 =~= s2);
    }
}

} // verus!
