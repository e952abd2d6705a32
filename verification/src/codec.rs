//! Serialization codec for the two document types.
//!
//! Documents are stored as strings with an explicit, versioned-by-shape
//! schema: every number is written as exactly [`NUM_WIDTH`] decimal digits,
//! every string as its length followed by its characters, and lists as a
//! count followed by the items. Decoding is total: any string that does not
//! decode to the expected shape is rejected, and `decode(encode(d))`
//! recovers `d` exactly.

use vstd::arithmetic::div_mod::{lemma_div_denominator, lemma_fundamental_div_mod};
use vstd::prelude::*;

use crate::db_structs::{
    pairs_dv, GroupData, GroupDataV, GroupInfo, GroupInfoV, SystemState, UserData, UserDataV,
};
use crate::error_handling::WarpRejections;

verus! {

/// Every encoded number takes exactly this many decimal digits, which is
/// enough for any `u64` (and so for any length and any timestamp).
pub const NUM_WIDTH: usize = 20;

pub open spec fn pow10(e: nat) -> nat
    decreases e,
{
    if e == 0 {
        1
    } else {
        10 * pow10((e - 1) as nat)
    }
}

pub open spec fn is_digit_c(c: char) -> bool {
    c == '0' || c == '1' || c == '2' || c == '3' || c == '4' || c == '5' || c == '6' || c == '7'
        || c == '8' || c == '9'
}

pub open spec fn digit_char(d: nat) -> char {
    if d == 0 {
        '0'
    } else if d == 1 {
        '1'
    } else if d == 2 {
        '2'
    } else if d == 3 {
        '3'
    } else if d == 4 {
        '4'
    } else if d == 5 {
        '5'
    } else if d == 6 {
        '6'
    } else if d == 7 {
        '7'
    } else if d == 8 {
        '8'
    } else {
        '9'
    }
}

pub open spec fn digit_val(c: char) -> nat {
    if c == '1' {
        1
    } else if c == '2' {
        2
    } else if c == '3' {
        3
    } else if c == '4' {
        4
    } else if c == '5' {
        5
    } else if c == '6' {
        6
    } else if c == '7' {
        7
    } else if c == '8' {
        8
    } else if c == '9' {
        9
    } else {
        0
    }
}

pub open spec fn all_digits(s: Seq<char>) -> bool {
    forall|i: int| 0 <= i < s.len() ==> is_digit_c(#[trigger] s[i])
}

/// The low `w` decimal digits of `n`, most significant first.
pub open spec fn decfix(n: nat, w: nat) -> Seq<char>
    decreases w,
{
    if w == 0 {
        Seq::empty()
    } else {
        decfix(n / 10, (w - 1) as nat) + seq![digit_char(n % 10)]
    }
}

/// The fixed-width encoding of a number.
pub open spec fn num_enc(n: nat) -> Seq<char> {
    decfix(n, NUM_WIDTH as nat)
}

/// Numeric value of a digit string, most significant digit first.
pub open spec fn seq_val(s: Seq<char>) -> nat
    decreases s.len(),
{
    if s.len() == 0 {
        0
    } else {
        seq_val(s.drop_last()) * 10 + digit_val(s.last())
    }
}

pub proof fn lemma_pow10_pos(e: nat)
    ensures
        pow10(e) >= 1,
    decreases e,
{
    if e > 0 {
        lemma_pow10_pos((e - 1) as nat);
    }
}

pub proof fn lemma_pow10_increases(e1: nat, e2: nat)
    ensures
        e1 <= e2 ==> pow10(e1) <= pow10(e2),
    decreases e2,
{
    if e2 > 0 && e1 <= e2 - 1 {
        lemma_pow10_increases(e1, (e2 - 1) as nat);
        lemma_pow10_pos(e1);
    }
}

pub proof fn lemma_decfix_len(n: nat, w: nat)
    ensures
        decfix(n, w).len() == w,
        all_digits(decfix(n, w)),
    decreases w,
{
    if w > 0 {
        lemma_decfix_len(n / 10, (w - 1) as nat);
        let s = decfix(n, w);
        let a = decfix(n / 10, (w - 1) as nat);
        assert forall|i: int| 0 <= i < s.len() implies is_digit_c(#[trigger] s[i]) by {
            if i < a.len() {
                assert(s[i] == a[i]);
            } else {
                assert(s[i] == digit_char(n % 10));
            }
        }
    }
}

/// A digit string's value recovers the encoded number.
pub proof fn lemma_seq_val_decfix(n: nat, w: nat)
    ensures
        seq_val(decfix(n, w)) == n % pow10(w),
    decreases w,
{
    lemma_pow10_pos(w);
    if w == 0 {
        assert(n % 1 == 0) by {
            lemma_fundamental_div_mod(n as int, 1);
        }
    } else {
        let q = n / 10;
        let r = n % 10;
        let p = pow10((w - 1) as nat) as int;
        lemma_pow10_pos((w - 1) as nat);
        lemma_seq_val_decfix(q, (w - 1) as nat);
        let a = decfix(q, (w - 1) as nat);
        let s = decfix(n, w);
        lemma_decfix_len(q, (w - 1) as nat);
        assert(s.drop_last() =~= a);
        assert(s.last() == digit_char(r));
        assert(r < 10) by {
            lemma_fundamental_div_mod(n as int, 10);
        }
        assert(digit_val(digit_char(r)) == r);
        assert(seq_val(s) == (q % p as nat) * 10 + r);
        // (n / 10) % p * 10 + n % 10 == n % (10 * p)
        let ni = n as int;
        lemma_fundamental_div_mod(ni, 10);
        lemma_fundamental_div_mod(ni / 10, p);
        lemma_fundamental_div_mod(ni, 10 * p);
        lemma_div_denominator(ni, 10, p);
        assert((ni / 10) % p * 10 + ni % 10 == ni % (10 * p)) by (nonlinear_arith)
            requires
                p >= 1,
                ni >= 0,
                ni == 10 * (ni / 10) + ni % 10,
                ni / 10 == p * ((ni / 10) / p) + (ni / 10) % p,
                ni == (10 * p) * (ni / (10 * p)) + ni % (10 * p),
                (ni / 10) / p == ni / (10 * p),
                0 <= ni % (10 * p) < 10 * p,
                0 <= (ni / 10) % p < p,
                0 <= ni % 10 < 10,
        ;
    }
}

/// The value of a digit string is bounded by the width.
pub proof fn lemma_seq_val_bound(s: Seq<char>)
    ensures
        seq_val(s) < pow10(s.len()),
    decreases s.len(),
{
    if s.len() == 0 {
    } else {
        lemma_seq_val_bound(s.drop_last());
        assert(digit_val(s.last()) <= 9);
        assert(pow10(s.len()) == 10 * pow10((s.len() - 1) as nat));
    }
}

/// Encoding is exact for numbers that fit the width.
pub proof fn lemma_num_roundtrip(n: nat)
    requires
        n < pow10(NUM_WIDTH as nat),
    ensures
        seq_val(num_enc(n)) == n,
        num_enc(n).len() == NUM_WIDTH,
        all_digits(num_enc(n)),
{
    lemma_decfix_len(n, NUM_WIDTH as nat);
    lemma_seq_val_decfix(n, NUM_WIDTH as nat);
    assert(n % pow10(NUM_WIDTH as nat) == n) by {
        lemma_pow10_pos(NUM_WIDTH as nat);
        lemma_fundamental_div_mod(n as int, pow10(NUM_WIDTH as nat) as int);
        vstd::arithmetic::div_mod::lemma_small_mod(n, pow10(NUM_WIDTH as nat));
    }
}

/// `u64::MAX` fits in [`NUM_WIDTH`] digits.
pub proof fn lemma_u64_fits()
    ensures
        u64::MAX < pow10(NUM_WIDTH as nat),
{
    reveal_with_fuel(pow10, 21);
    assert(pow10(20) == 100_000_000_000_000_000_000);
}

/// Length-prefixed encoding of one string.
pub open spec fn str_enc(t: Seq<char>) -> Seq<char> {
    num_enc(t.len()) + t
}

pub open spec fn bool_char(b: bool) -> char {
    if b {
        't'
    } else {
        'f'
    }
}

pub open spec fn char_bool(c: char) -> Option<bool> {
    if c == 't' {
        Some(true)
    } else if c == 'f' {
        Some(false)
    } else {
        None
    }
}

pub open spec fn state_char(st: SystemState) -> char {
    match st {
        SystemState::AddingMovies => 'a',
        SystemState::Voting => 'v',
        SystemState::Watching => 'w',
    }
}

pub open spec fn char_state(c: char) -> Option<SystemState> {
    if c == 'a' {
        Some(SystemState::AddingMovies)
    } else if c == 'v' {
        Some(SystemState::Voting)
    } else if c == 'w' {
        Some(SystemState::Watching)
    } else {
        None
    }
}

/// Encoding of a list of strings, in order.
pub open spec fn strs_enc(items: Seq<Seq<char>>) -> Seq<char>
    decreases items.len(),
{
    if items.len() == 0 {
        Seq::empty()
    } else {
        strs_enc(items.drop_last()) + str_enc(items.last())
    }
}

/// Encoding of a list of group references, in order.
pub open spec fn groups_enc(items: Seq<GroupInfoV>) -> Seq<char>
    decreases items.len(),
{
    if items.len() == 0 {
        Seq::empty()
    } else {
        groups_enc(items.drop_last()) + str_enc(items.last().uuid) + str_enc(items.last().name)
    }
}

/// Encoding of a list of readiness entries, in order.
pub open spec fn pairs_enc(items: Seq<(Seq<char>, bool)>) -> Seq<char>
    decreases items.len(),
{
    if items.len() == 0 {
        Seq::empty()
    } else {
        pairs_enc(items.drop_last()) + str_enc(items.last().0) + seq![bool_char(items.last().1)]
    }
}

/// Timestamps are stored clamped at zero.
pub open spec fn date_nat(d: i64) -> nat {
    if d < 0 {
        0
    } else {
        d as nat
    }
}

/// The stored string representation of a user document.
pub open spec fn encode_user_v(u: UserDataV) -> Seq<char> {
    str_enc(u.id) + str_enc(u.hashed_password) + str_enc(u.salt) + num_enc(u.groups.len())
        + groups_enc(u.groups) + num_enc(date_nat(u.date_created)) + num_enc(
        date_nat(u.date_modified),
    )
}

/// The stored string representation of a group document.
pub open spec fn encode_group_v(g: GroupDataV) -> Seq<char> {
    str_enc(g.group_name) + num_enc(g.members.len()) + strs_enc(g.members) + num_enc(
        g.movies_watched.len(),
    ) + strs_enc(g.movies_watched) + num_enc(g.current_movies.len()) + strs_enc(g.current_movies)
        + num_enc(g.ready_status.len()) + pairs_enc(g.ready_status) + seq![
        state_char(g.system_state),
    ] + str_enc(g.turn) + num_enc(date_nat(g.date_created)) + num_enc(date_nat(g.date_modified))
}

pub open spec fn parse_num(s: Seq<char>) -> Option<(nat, Seq<char>)> {
    if s.len() >= NUM_WIDTH && all_digits(s.take(NUM_WIDTH as int)) {
        Some((seq_val(s.take(NUM_WIDTH as int)), s.skip(NUM_WIDTH as int)))
    } else {
        None
    }
}

pub open spec fn parse_str(s: Seq<char>) -> Option<(Seq<char>, Seq<char>)> {
    match parse_num(s) {
        Some((n, r)) => if n <= r.len() {
            Some((r.take(n as int), r.skip(n as int)))
        } else {
            None
        },
        None => None,
    }
}

pub open spec fn parse_char(s: Seq<char>) -> Option<(char, Seq<char>)> {
    if s.len() >= 1 {
        Some((s[0], s.skip(1)))
    } else {
        None
    }
}

pub open spec fn parse_strs(s: Seq<char>, n: nat) -> Option<(Seq<Seq<char>>, Seq<char>)>
    decreases n,
{
    if n == 0 {
        Some((Seq::empty(), s))
    } else {
        match parse_str(s) {
            Some((t, r)) => match parse_strs(r, (n - 1) as nat) {
                Some((ts, r2)) => Some((seq![t] + ts, r2)),
                None => None,
            },
            None => None,
        }
    }
}

pub open spec fn parse_groups(s: Seq<char>, n: nat) -> Option<(Seq<GroupInfoV>, Seq<char>)>
    decreases n,
{
    if n == 0 {
        Some((Seq::empty(), s))
    } else {
        match parse_str(s) {
            Some((uuid, r1)) => match parse_str(r1) {
                Some((name, r2)) => match parse_groups(r2, (n - 1) as nat) {
                    Some((gs, r3)) => Some((seq![GroupInfoV { uuid, name }] + gs, r3)),
                    None => None,
                },
                None => None,
            },
            None => None,
        }
    }
}

pub open spec fn parse_pairs(s: Seq<char>, n: nat) -> Option<(Seq<(Seq<char>, bool)>, Seq<char>)>
    decreases n,
{
    if n == 0 {
        Some((Seq::empty(), s))
    } else {
        match parse_str(s) {
            Some((k, r1)) => match parse_char(r1) {
                Some((c, r2)) => match char_bool(c) {
                    Some(b) => match parse_pairs(r2, (n - 1) as nat) {
                        Some((ps, r3)) => Some((seq![(k, b)] + ps, r3)),
                        None => None,
                    },
                    None => None,
                },
                None => None,
            },
            None => None,
        }
    }
}

/// Total decoder for user documents: `None` exactly on malformed input.
pub open spec fn decode_user_v(s: Seq<char>) -> Option<UserDataV> {
    match parse_str(s) {
        Some((id, s1)) => match parse_str(s1) {
            Some((hp, s2)) => match parse_str(s2) {
                Some((salt, s3)) => match parse_num(s3) {
                    Some((n, s4)) => match parse_groups(s4, n) {
                        Some((groups, s5)) => match parse_num(s5) {
                            Some((dc, s6)) => match parse_num(s6) {
                                Some((dm, s7)) => if s7.len() == 0 && dc <= i64::MAX as nat && dm
                                    <= i64::MAX as nat {
                                    Some(
                                        UserDataV {
                                            id,
                                            hashed_password: hp,
                                            salt,
                                            groups,
                                            date_created: dc as i64,
                                            date_modified: dm as i64,
                                        },
                                    )
                                } else {
                                    None
                                },
                                None => None,
                            },
                            None => None,
                        },
                        None => None,
                    },
                    None => None,
                },
                None => None,
            },
            None => None,
        },
        None => None,
    }
}

/// Total decoder for group documents: `None` exactly on malformed input.
pub open spec fn decode_group_v(s: Seq<char>) -> Option<GroupDataV> {
    match parse_str(s) {
        Some((gname, s1)) => match parse_num(s1) {
            Some((nm, s2)) => match parse_strs(s2, nm) {
                Some((members, s3)) => match parse_num(s3) {
                    Some((nw, s4)) => match parse_strs(s4, nw) {
                        Some((watched, s5)) => match parse_num(s5) {
                            Some((nc, s6)) => match parse_strs(s6, nc) {
                                Some((current, s7)) => match parse_num(s7) {
                                    Some((nr, s8)) => match parse_pairs(s8, nr) {
                                        Some((ready, s9)) => match parse_char(s9) {
                                            Some((sc, s10)) => match char_state(sc) {
                                                Some(state) => match parse_str(s10) {
                                                    Some((turn, s11)) => match parse_num(s11) {
                                                        Some((dc, s12)) => match parse_num(s12) {
                                                            Some((dm, s13)) => if s13.len() == 0
                                                                && dc <= i64::MAX as nat && dm
                                                                <= i64::MAX as nat {
                                                                Some(
                                                                    GroupDataV {
                                                                        group_name: gname,
                                                                        members,
                                                                        movies_watched: watched,
                                                                        current_movies: current,
                                                                        ready_status: ready,
                                                                        system_state: state,
                                                                        turn,
                                                                        date_created: dc as i64,
                                                                        date_modified: dm as i64,
                                                                    },
                                                                )
                                                            } else {
                                                                None
                                                            },
                                                            None => None,
                                                        },
                                                        None => None,
                                                    },
                                                    None => None,
                                                },
                                                None => None,
                                            },
                                            None => None,
                                        },
                                        None => None,
                                    },
                                    None => None,
                                },
                                None => None,
                            },
                            None => None,
                        },
                        None => None,
                    },
                    None => None,
                },
                None => None,
            },
            None => None,
        },
        None => None,
    }
}

/// A number fits the fixed width.
pub open spec fn fits(n: nat) -> bool {
    n < pow10(NUM_WIDTH as nat)
}

/// All string lengths and counts in a user document fit the fixed width.
pub open spec fn user_bounded(u: UserDataV) -> bool {
    &&& fits(u.id.len())
    &&& fits(u.hashed_password.len())
    &&& fits(u.salt.len())
    &&& fits(u.groups.len())
    &&& forall|i: int|
        0 <= i < u.groups.len() ==> fits((#[trigger] u.groups[i]).uuid.len()) && fits(
            u.groups[i].name.len(),
        )
}

/// All string lengths and counts in a group document fit the fixed width.
pub open spec fn group_bounded(g: GroupDataV) -> bool {
    &&& fits(g.group_name.len())
    &&& fits(g.members.len())
    &&& forall|i: int| 0 <= i < g.members.len() ==> fits((#[trigger] g.members[i]).len())
    &&& fits(g.movies_watched.len())
    &&& forall|i: int| 0 <= i < g.movies_watched.len() ==> fits((#[trigger] g.movies_watched[i]).len())
    &&& fits(g.current_movies.len())
    &&& forall|i: int| 0 <= i < g.current_movies.len() ==> fits((#[trigger] g.current_movies[i]).len())
    &&& fits(g.ready_status.len())
    &&& forall|i: int| 0 <= i < g.ready_status.len() ==> fits((#[trigger] g.ready_status[i]).0.len())
    &&& fits(g.turn.len())
}

proof fn lemma_take_skip(a: Seq<char>, b: Seq<char>)
    ensures
        (a + b).take(a.len() as int) == a,
        (a + b).skip(a.len() as int) == b,
{
    assert((a + b).take(a.len() as int) =~= a);
    assert((a + b).skip(a.len() as int) =~= b);
}

/// An encoded number parses back, leaving the rest untouched.
pub proof fn lemma_parse_num_enc(n: nat, rest: Seq<char>)
    requires
        fits(n),
    ensures
        parse_num(num_enc(n) + rest) == Some((n, rest)),
{
    lemma_num_roundtrip(n);
    lemma_take_skip(num_enc(n), rest);
    let s = num_enc(n) + rest;
    assert(s.take(NUM_WIDTH as int) == num_enc(n));
}

/// An encoded string parses back, leaving the rest untouched.
pub proof fn lemma_parse_str_enc(t: Seq<char>, rest: Seq<char>)
    requires
        fits(t.len()),
    ensures
        parse_str(str_enc(t) + rest) == Some((t, rest)),
{
    let s = str_enc(t) + rest;
    assert(s =~= num_enc(t.len()) + (t + rest));
    lemma_parse_num_enc(t.len(), t + rest);
    lemma_take_skip(t, rest);
}

proof fn lemma_strs_enc_first(items: Seq<Seq<char>>)
    requires
        items.len() > 0,
    ensures
        strs_enc(items) == str_enc(items.first()) + strs_enc(items.drop_first()),
    decreases items.len(),
{
    if items.len() == 1 {
        assert(items.drop_last() =~= Seq::<Seq<char>>::empty());
        assert(items.drop_first() =~= Seq::<Seq<char>>::empty());
        assert(strs_enc(items) =~= str_enc(items.first()) + strs_enc(items.drop_first()));
    } else {
        let dl = items.drop_last();
        let df = items.drop_first();
        lemma_strs_enc_first(dl);
        assert(df.drop_last() =~= dl.drop_first());
        assert(strs_enc(items) =~= str_enc(items.first()) + strs_enc(df));
    }
}

proof fn lemma_groups_enc_first(items: Seq<GroupInfoV>)
    requires
        items.len() > 0,
    ensures
        groups_enc(items) == str_enc(items.first().uuid) + str_enc(items.first().name)
            + groups_enc(items.drop_first()),
    decreases items.len(),
{
    if items.len() == 1 {
        assert(items.drop_last() =~= Seq::<GroupInfoV>::empty());
        assert(items.drop_first() =~= Seq::<GroupInfoV>::empty());
        assert(groups_enc(items) =~= str_enc(items.first().uuid) + str_enc(items.first().name)
            + groups_enc(items.drop_first()));
    } else {
        let dl = items.drop_last();
        let df = items.drop_first();
        lemma_groups_enc_first(dl);
        assert(df.drop_last() =~= dl.drop_first());
        assert(groups_enc(items) =~= str_enc(items.first().uuid) + str_enc(items.first().name)
            + groups_enc(df));
    }
}

proof fn lemma_pairs_enc_first(items: Seq<(Seq<char>, bool)>)
    requires
        items.len() > 0,
    ensures
        pairs_enc(items) == str_enc(items.first().0) + seq![bool_char(items.first().1)]
            + pairs_enc(items.drop_first()),
    decreases items.len(),
{
    if items.len() == 1 {
        assert(items.drop_last() =~= Seq::<(Seq<char>, bool)>::empty());
        assert(items.drop_first() =~= Seq::<(Seq<char>, bool)>::empty());
        assert(pairs_enc(items) =~= str_enc(items.first().0) + seq![bool_char(items.first().1)]
            + pairs_enc(items.drop_first()));
    } else {
        let dl = items.drop_last();
        let df = items.drop_first();
        lemma_pairs_enc_first(dl);
        assert(df.drop_last() =~= dl.drop_first());
        assert(pairs_enc(items) =~= str_enc(items.first().0) + seq![bool_char(items.first().1)]
            + pairs_enc(df));
    }
}

/// An encoded string list parses back, leaving the rest untouched.
pub proof fn lemma_parse_strs_enc(items: Seq<Seq<char>>, rest: Seq<char>)
    requires
        forall|i: int| 0 <= i < items.len() ==> fits((#[trigger] items[i]).len()),
    ensures
        parse_strs(strs_enc(items) + rest, items.len()) == Some((items, rest)),
    decreases items.len(),
{
    if items.len() == 0 {
        assert(strs_enc(items) + rest =~= rest);
    } else {
        lemma_strs_enc_first(items);
        let first = items.first();
        let df = items.drop_first();
        assert(strs_enc(items) + rest =~= str_enc(first) + (strs_enc(df) + rest));
        assert(fits(first.len()));
        lemma_parse_str_enc(first, strs_enc(df) + rest);
        assert forall|i: int| 0 <= i < df.len() implies fits((#[trigger] df[i]).len()) by {
            assert(df[i] == items[i + 1]);
        }
        lemma_parse_strs_enc(df, rest);
        assert(seq![first] + df =~= items);
    }
}

/// An encoded group-reference list parses back.
pub proof fn lemma_parse_groups_enc(items: Seq<GroupInfoV>, rest: Seq<char>)
    requires
        forall|i: int|
            0 <= i < items.len() ==> fits((#[trigger] items[i]).uuid.len()) && fits(
                items[i].name.len(),
            ),
    ensures
        parse_groups(groups_enc(items) + rest, items.len()) == Some((items, rest)),
    decreases items.len(),
{
    if items.len() == 0 {
        assert(groups_enc(items) + rest =~= rest);
    } else {
        lemma_groups_enc_first(items);
        let first = items.first();
        let df = items.drop_first();
        assert(groups_enc(items) + rest =~= str_enc(first.uuid) + (str_enc(first.name)
            + (groups_enc(df) + rest)));
        assert(fits(first.uuid.len()) && fits(first.name.len()));
        lemma_parse_str_enc(first.uuid, str_enc(first.name) + (groups_enc(df) + rest));
        lemma_parse_str_enc(first.name, groups_enc(df) + rest);
        assert forall|i: int|
            0 <= i < df.len() implies fits((#[trigger] df[i]).uuid.len()) && fits(
            df[i].name.len(),
        ) by {
            assert(df[i] == items[i + 1]);
        }
        lemma_parse_groups_enc(df, rest);
        assert(GroupInfoV { uuid: first.uuid, name: first.name } =~= first);
        assert(seq![GroupInfoV { uuid: first.uuid, name: first.name }] + df =~= items);
    }
}

/// An encoded readiness list parses back.
pub proof fn lemma_parse_pairs_enc(items: Seq<(Seq<char>, bool)>, rest: Seq<char>)
    requires
        forall|i: int| 0 <= i < items.len() ==> fits((#[trigger] items[i]).0.len()),
    ensures
        parse_pairs(pairs_enc(items) + rest, items.len()) == Some((items, rest)),
    decreases items.len(),
{
    if items.len() == 0 {
        assert(pairs_enc(items) + rest =~= rest);
    } else {
        lemma_pairs_enc_first(items);
        let first = items.first();
        let df = items.drop_first();
        assert(pairs_enc(items) + rest =~= str_enc(first.0) + (seq![bool_char(first.1)]
            + (pairs_enc(df) + rest)));
        assert(fits(first.0.len()));
        lemma_parse_str_enc(first.0, seq![bool_char(first.1)] + (pairs_enc(df) + rest));
        let tail = seq![bool_char(first.1)] + (pairs_enc(df) + rest);
        assert(tail[0] == bool_char(first.1));
        assert(tail.skip(1) =~= pairs_enc(df) + rest);
        assert(char_bool(bool_char(first.1)) == Some(first.1));
        assert forall|i: int| 0 <= i < df.len() implies fits((#[trigger] df[i]).0.len()) by {
            assert(df[i] == items[i + 1]);
        }
        lemma_parse_pairs_enc(df, rest);
        assert((first.0, first.1) == first);
        assert(seq![(first.0, first.1)] + df =~= items);
    }
}

/// Decoding recovers exactly the encoded user document.
pub proof fn lemma_user_roundtrip(u: UserDataV)
    requires
        user_bounded(u),
        0 <= u.date_created,
        0 <= u.date_modified,
    ensures
        decode_user_v(encode_user_v(u)) == Some(u),
{
    lemma_u64_fits();
    let e_id = str_enc(u.id);
    let e_hp = str_enc(u.hashed_password);
    let e_salt = str_enc(u.salt);
    let e_n = num_enc(u.groups.len());
    let e_g = groups_enc(u.groups);
    let e_dc = num_enc(date_nat(u.date_created));
    let e_dm = num_enc(date_nat(u.date_modified));
    let s = encode_user_v(u);
    let r1 = e_hp + (e_salt + (e_n + (e_g + (e_dc + e_dm))));
    let r2 = e_salt + (e_n + (e_g + (e_dc + e_dm)));
    let r3 = e_n + (e_g + (e_dc + e_dm));
    let r4 = e_g + (e_dc + e_dm);
    let r5 = e_dc + e_dm;
    assert(s =~= e_id + r1);
    lemma_parse_str_enc(u.id, r1);
    assert(r1 =~= e_hp + r2);
    lemma_parse_str_enc(u.hashed_password, r2);
    assert(r2 =~= e_salt + r3);
    lemma_parse_str_enc(u.salt, r3);
    assert(r3 =~= e_n + r4);
    lemma_parse_num_enc(u.groups.len(), r4);
    lemma_parse_groups_enc(u.groups, r5);
    assert(r5 =~= e_dc + e_dm);
    lemma_parse_num_enc(date_nat(u.date_created), e_dm);
    assert(e_dm =~= e_dm + Seq::<char>::empty());
    lemma_parse_num_enc(date_nat(u.date_modified), Seq::<char>::empty());
    assert(decode_user_v(s) == Some(
        UserDataV {
            id: u.id,
            hashed_password: u.hashed_password,
            salt: u.salt,
            groups: u.groups,
            date_created: date_nat(u.date_created) as i64,
            date_modified: date_nat(u.date_modified) as i64,
        },
    ));
    assert(UserDataV {
        id: u.id,
        hashed_password: u.hashed_password,
        salt: u.salt,
        groups: u.groups,
        date_created: date_nat(u.date_created) as i64,
        date_modified: date_nat(u.date_modified) as i64,
    } =~= u);
}

/// Decoding recovers exactly the encoded group document.
#[verifier::rlimit(100)]
#[verifier::spinoff_prover]
pub proof fn lemma_group_roundtrip(g: GroupDataV)
    requires
        group_bounded(g),
        0 <= g.date_created,
        0 <= g.date_modified,
    ensures
        decode_group_v(encode_group_v(g)) == Some(g),
{
    lemma_u64_fits();
    let e_name = str_enc(g.group_name);
    let e_nm = num_enc(g.members.len());
    let e_m = strs_enc(g.members);
    let e_nw = num_enc(g.movies_watched.len());
    let e_w = strs_enc(g.movies_watched);
    let e_nc = num_enc(g.current_movies.len());
    let e_c = strs_enc(g.current_movies);
    let e_nr = num_enc(g.ready_status.len());
    let e_r = pairs_enc(g.ready_status);
    let e_st = seq![state_char(g.system_state)];
    let e_t = str_enc(g.turn);
    let e_dc = num_enc(date_nat(g.date_created));
    let e_dm = num_enc(date_nat(g.date_modified));
    let s = encode_group_v(g);
    let r12 = e_dm;
    let r11 = e_dc + r12;
    let r10 = e_t + r11;
    let r9 = e_st + r10;
    let r8 = e_r + r9;
    let r7 = e_nr + r8;
    let r6 = e_c + r7;
    let r5 = e_nc + r6;
    let r4 = e_w + r5;
    let r3 = e_nw + r4;
    let r2 = e_m + r3;
    let r1 = e_nm + r2;
    assert(s =~= e_name + r1);
    lemma_parse_str_enc(g.group_name, r1);
    assert(r1 =~= e_nm + r2);
    lemma_parse_num_enc(g.members.len(), r2);
    lemma_parse_strs_enc(g.members, r3);
    assert(r3 =~= e_nw + r4);
    lemma_parse_num_enc(g.movies_watched.len(), r4);
    lemma_parse_strs_enc(g.movies_watched, r5);
    assert(r5 =~= e_nc + r6);
    lemma_parse_num_enc(g.current_movies.len(), r6);
    lemma_parse_strs_enc(g.current_movies, r7);
    assert(r7 =~= e_nr + r8);
    lemma_parse_num_enc(g.ready_status.len(), r8);
    lemma_parse_pairs_enc(g.ready_status, r9);
    assert(r9[0] == state_char(g.system_state));
    assert(r9.skip(1) =~= r10);
    assert(char_state(state_char(g.system_state)) == Some(g.system_state));
    lemma_parse_str_enc(g.turn, r11);
    assert(r11 =~= e_dc + e_dm);
    lemma_parse_num_enc(date_nat(g.date_created), e_dm);
    assert(e_dm =~= e_dm + Seq::<char>::empty());
    lemma_parse_num_enc(date_nat(g.date_modified), Seq::<char>::empty());
    assert(GroupDataV {
        group_name: g.group_name,
        members: g.members,
        movies_watched: g.movies_watched,
        current_movies: g.current_movies,
        ready_status: g.ready_status,
        system_state: g.system_state,
        turn: g.turn,
        date_created: date_nat(g.date_created) as i64,
        date_modified: date_nat(g.date_modified) as i64,
    } =~= g);
}

/// A successful string parse consumes at least the number header.
proof fn lemma_parse_str_min(s: Seq<char>)
    ensures
        parse_str(s) matches Some((t, r)) ==> r.len() + NUM_WIDTH <= s.len(),
{
}

/// A list of `n` items cannot parse out of fewer than `20 * n` characters.
proof fn lemma_parse_strs_min(s: Seq<char>, n: nat)
    requires
        s.len() < 20 * n,
    ensures
        parse_strs(s, n) is None,
    decreases n,
{
    if n > 0 {
        match parse_str(s) {
            Some((t, r)) => {
                lemma_parse_str_min(s);
                lemma_parse_strs_min(r, (n - 1) as nat);
            },
            None => {},
        }
    }
}

/// A list of `n` group references cannot parse out of fewer than `20 * n`
/// characters.
proof fn lemma_parse_groups_min(s: Seq<char>, n: nat)
    requires
        s.len() < 20 * n,
    ensures
        parse_groups(s, n) is None,
    decreases n,
{
    if n > 0 {
        match parse_str(s) {
            Some((uuid, r1)) => {
                lemma_parse_str_min(s);
                match parse_str(r1) {
                    Some((name, r2)) => {
                        lemma_parse_str_min(r1);
                        lemma_parse_groups_min(r2, (n - 1) as nat);
                    },
                    None => {},
                }
            },
            None => {},
        }
    }
}

/// A list of `n` readiness entries cannot parse out of fewer than `20 * n`
/// characters.
proof fn lemma_parse_pairs_min(s: Seq<char>, n: nat)
    requires
        s.len() < 20 * n,
    ensures
        parse_pairs(s, n) is None,
    decreases n,
{
    if n > 0 {
        match parse_str(s) {
            Some((k, r1)) => {
                lemma_parse_str_min(s);
                match parse_char(r1) {
                    Some((c, r2)) => {
                        lemma_parse_pairs_min(r2, (n - 1) as nat);
                    },
                    None => {},
                }
            },
            None => {},
        }
    }
}

/// The characters of a string, as a vector.
pub(crate) fn chars_of(s: &str) -> (v: Vec<char>)
    ensures
        v@ == s@,
{
    let n = s.unicode_len();
    let mut v: Vec<char> = Vec::new();
    let mut i: usize = 0;
    while i < n
        invariant
            i <= n,
            n == s@.len(),
            v@ == s@.take(i as int),
        decreases n - i,
    {
        let c = s.get_char(i);
        v.push(c);
        proof {
            assert(s@.take((i + 1) as int) =~= s@.take(i as int).push(s@[i as int]));
        }
        i = i + 1;
    }
    proof {
        assert(s@.take(n as int) =~= s@);
    }
    v
}

/// Appends the characters of `s` to `out`.
pub(crate) fn push_chars(out: &mut Vec<char>, s: &str)
    ensures
        final(out)@ == old(out)@ + s@,
{
    let mut tmp = chars_of(s);
    out.append(&mut tmp);
}

fn digit_char_of(d: u64) -> (c: char)
    requires
        d < 10,
    ensures
        c == digit_char(d as nat),
{
    if d == 0 {
        '0'
    } else if d == 1 {
        '1'
    } else if d == 2 {
        '2'
    } else if d == 3 {
        '3'
    } else if d == 4 {
        '4'
    } else if d == 5 {
        '5'
    } else if d == 6 {
        '6'
    } else if d == 7 {
        '7'
    } else if d == 8 {
        '8'
    } else {
        '9'
    }
}

fn digit_of(c: char) -> (r: Option<u8>)
    ensures
        match r {
            Some(d) => is_digit_c(c) && d as nat == digit_val(c) && d < 10,
            None => !is_digit_c(c),
        },
{
    match c {
        '0' => Some(0),
        '1' => Some(1),
        '2' => Some(2),
        '3' => Some(3),
        '4' => Some(4),
        '5' => Some(5),
        '6' => Some(6),
        '7' => Some(7),
        '8' => Some(8),
        '9' => Some(9),
        _ => None,
    }
}

proof fn lemma_decfix_index(n: nat, w: nat, j: int)
    requires
        0 <= j < w,
    ensures
        decfix(n, w)[j] == digit_char((n / pow10((w - 1 - j) as nat)) % 10),
    decreases w,
{
    lemma_decfix_len(n / 10, (w - 1) as nat);
    if j == w - 1 {
        vstd::arithmetic::div_mod::lemma_div_basics(n as int);
        assert(n / pow10(0) == n);
    } else {
        lemma_decfix_index(n / 10, (w - 1) as nat, j);
        let k = (w - 2 - j) as nat;
        lemma_pow10_pos(k);
        lemma_div_denominator(n as int, 10, pow10(k) as int);
        assert(pow10(k + 1) == 10 * pow10(k));
        assert((n / 10) / pow10(k) == n / pow10(k + 1));
        assert((w - 1 - j) as nat == k + 1);
    }
}

/// Appends the fixed-width decimal digits of `n` to `out`.
pub(crate) fn push_num(out: &mut Vec<char>, n: u64)
    ensures
        final(out)@ == old(out)@ + num_enc(n as nat),
{
    let ghost orig = out@;
    proof {
        vstd::arithmetic::div_mod::lemma_div_basics(n as int);
    }
    let mut temp: Vec<char> = Vec::new();
    let mut m: u64 = n;
    let mut k: usize = 0;
    while k < NUM_WIDTH
        invariant
            k <= NUM_WIDTH,
            temp@.len() == k,
            m as nat == (n as nat) / pow10(k as nat),
            forall|j: int|
                0 <= j < k ==> temp@[j] == digit_char(((n as nat) / pow10(j as nat)) % 10),
        decreases NUM_WIDTH - k,
    {
        let d = m % 10;
        let c = digit_char_of(d);
        temp.push(c);
        proof {
            lemma_pow10_pos(k as nat);
            lemma_div_denominator(n as int, pow10(k as nat) as int, 10);
            assert(pow10((k + 1) as nat) == 10 * pow10(k as nat));
            assert((n as nat) / pow10(k as nat) / 10 == (n as nat) / pow10((k + 1) as nat));
        }
        m = m / 10;
        k = k + 1;
    }
    let mut j: usize = 0;
    while j < NUM_WIDTH
        invariant
            j <= NUM_WIDTH,
            temp@.len() == NUM_WIDTH,
            forall|t: int|
                0 <= t < NUM_WIDTH ==> temp@[t] == digit_char(
                    ((n as nat) / pow10(t as nat)) % 10,
                ),
            out@.len() == orig.len() + j,
            orig.len() <= out@.len(),
            forall|t: int| 0 <= t < orig.len() ==> out@[t] == orig[t],
            forall|t: int|
                0 <= t < j ==> #[trigger] out@[orig.len() + t] == temp@[NUM_WIDTH - 1 - t],
        decreases NUM_WIDTH - j,
    {
        let c = temp[NUM_WIDTH - 1 - j];
        out.push(c);
        j = j + 1;
    }
    proof {
        lemma_decfix_len(n as nat, NUM_WIDTH as nat);
        assert forall|t: int|
            0 <= t < NUM_WIDTH implies out@[orig.len() + t] == num_enc(n as nat)[t] by {
            lemma_decfix_index(n as nat, NUM_WIDTH as nat, t);
        }
        assert(out@ =~= orig + num_enc(n as nat));
    }
}

/// Appends a timestamp, clamped at zero.
fn push_date(out: &mut Vec<char>, d: i64)
    ensures
        final(out)@ == old(out)@ + num_enc(date_nat(d)),
{
    if d < 0 {
        push_num(out, 0);
    } else {
        push_num(out, d as u64);
    }
}

/// Appends the length-prefixed encoding of `s`.
fn push_str_item(out: &mut Vec<char>, s: &str)
    ensures
        final(out)@ == old(out)@ + str_enc(s@),
        fits(s@.len()),
{
    let n = s.unicode_len();
    proof {
        lemma_u64_fits();
    }
    push_num(out, n as u64);
    push_chars(out, s);
    proof {
        assert(out@ =~= old(out)@ + str_enc(s@));
    }
}

/// Reads one fixed-width number at `pos`; fails exactly when the spec
/// parser does.
pub(crate) fn take_num(v: &Vec<char>, pos: usize) -> (r: Option<(u128, usize)>)
    requires
        pos <= v.len(),
    ensures
        match r {
            Some((n, np)) => {
                &&& parse_num(v@.skip(pos as int)) == Some((n as nat, v@.skip(np as int)))
                &&& np == pos + NUM_WIDTH
                &&& np <= v.len()
                &&& (n as nat) < pow10(NUM_WIDTH as nat)
            },
            None => parse_num(v@.skip(pos as int)) is None,
        },
{
    if v.len() - pos < NUM_WIDTH {
        return None;
    }
    let ghost s = v@.skip(pos as int);
    let mut acc: u128 = 0;
    let mut i: usize = 0;
    while i < NUM_WIDTH
        invariant
            i <= NUM_WIDTH,
            pos + NUM_WIDTH <= v.len(),
            s == v@.skip(pos as int),
            acc as nat == seq_val(s.take(i as int)),
            all_digits(s.take(i as int)),
            (acc as nat) < pow10(i as nat),
        decreases NUM_WIDTH - i,
    {
        let c = v[pos + i];
        proof {
            assert(s[i as int] == c);
        }
        match digit_of(c) {
            Some(dv) => {
                proof {
                    lemma_pow10_increases((i + 1) as nat, NUM_WIDTH as nat);
                    reveal_with_fuel(pow10, 21);
                    assert(pow10(NUM_WIDTH as nat) == 100_000_000_000_000_000_000);
                    assert(s.take((i + 1) as int).drop_last() =~= s.take(i as int));
                    assert(s.take((i + 1) as int).last() == c);
                }
                acc = acc * 10 + (dv as u128);
                i = i + 1;
            },
            None => {
                proof {
                    assert(s.take(NUM_WIDTH as int)[i as int] == c);
                    assert(!all_digits(s.take(NUM_WIDTH as int)));
                }
                return None;
            },
        }
    }
    proof {
        assert(s.take(NUM_WIDTH as int) =~= s.take(i as int));
        assert(v@.skip((pos + NUM_WIDTH) as int) =~= s.skip(NUM_WIDTH as int));
    }
    Some((acc, pos + NUM_WIDTH))
}

/// Reads one length-prefixed string at `pos`; fails exactly when the spec
/// parser does.
fn take_str(v: &Vec<char>, pos: usize) -> (r: Option<(String, usize)>)
    requires
        pos <= v.len(),
    ensures
        match r {
            Some((t, np)) => {
                &&& parse_str(v@.skip(pos as int)) == Some((t@, v@.skip(np as int)))
                &&& np <= v.len()
                &&& pos + NUM_WIDTH <= np
                &&& fits(t@.len())
            },
            None => parse_str(v@.skip(pos as int)) is None,
        },
{
    match take_num(v, pos) {
        Some((n, p1)) => {
            let rem = v.len() - p1;
            if n > rem as u128 {
                proof {
                    assert(v@.skip(p1 as int).len() == rem);
                }
                None
            } else {
                let len = n as usize;
                let mut chars: Vec<char> = Vec::new();
                let mut j: usize = 0;
                while j < len
                    invariant
                        j <= len,
                        p1 + len <= v.len(),
                        chars@ == v@.subrange(p1 as int, (p1 + j) as int),
                    decreases len - j,
                {
                    chars.push(v[p1 + j]);
                    proof {
                        assert(v@.subrange(p1 as int, (p1 + j + 1) as int) =~= v@.subrange(
                            p1 as int,
                            (p1 + j) as int,
                        ).push(v@[(p1 + j) as int]));
                    }
                    j = j + 1;
                }
                let t = crate::sys::string_from_chars(&chars);
                proof {
                    assert(v@.skip(p1 as int).take(n as int) =~= v@.subrange(
                        p1 as int,
                        (p1 + len) as int,
                    ));
                    assert(v@.skip(p1 as int).skip(n as int) =~= v@.skip((p1 + len) as int));
                }
                Some((t, p1 + len))
            }
        },
        None => None,
    }
}

fn bool_char_of(b: bool) -> (c: char)
    ensures
        c == bool_char(b),
{
    if b {
        't'
    } else {
        'f'
    }
}

fn bool_of(c: char) -> (r: Option<bool>)
    ensures
        r == char_bool(c),
{
    match c {
        't' => Some(true),
        'f' => Some(false),
        _ => None,
    }
}

fn state_char_of(st: SystemState) -> (c: char)
    ensures
        c == state_char(st),
{
    match st {
        SystemState::AddingMovies => 'a',
        SystemState::Voting => 'v',
        SystemState::Watching => 'w',
    }
}

fn state_of(c: char) -> (r: Option<SystemState>)
    ensures
        r == char_state(c),
{
    match c {
        'a' => Some(SystemState::AddingMovies),
        'v' => Some(SystemState::Voting),
        'w' => Some(SystemState::Watching),
        _ => None,
    }
}

/// Appends the encodings of all the strings in `items`.
fn push_strs(out: &mut Vec<char>, items: &Vec<String>)
    ensures
        final(out)@ == old(out)@ + strs_enc(items.deep_view()),
        forall|i: int|
            0 <= i < items.deep_view().len() ==> fits((#[trigger] items.deep_view()[i]).len()),
{
    let ghost pre = out@;
    let ghost dv = items.deep_view();
    let mut i: usize = 0;
    while i < items.len()
        invariant
            i <= items.len(),
            dv == items.deep_view(),
            dv.len() == items@.len(),
            out@ == pre + strs_enc(dv.take(i as int)),
            forall|j: int| 0 <= j < i ==> fits((#[trigger] dv[j]).len()),
        decreases items.len() - i,
    {
        push_str_item(out, items[i].as_str());
        proof {
            assert(dv.take((i + 1) as int).drop_last() =~= dv.take(i as int));
            assert(dv.take((i + 1) as int).last() == dv[i as int]);
            assert(dv[i as int] == items@[i as int]@);
            assert(out@ =~= pre + strs_enc(dv.take((i + 1) as int)));
        }
        i = i + 1;
    }
    proof {
        assert(dv.take(items@.len() as int) =~= dv);
    }
}

/// Reads `count` length-prefixed strings; fails exactly when the spec
/// parser does.
fn take_strs(v: &Vec<char>, pos: usize, count: u128) -> (r: Option<(Vec<String>, usize)>)
    requires
        pos <= v.len(),
    ensures
        match r {
            Some((items, np)) => {
                &&& parse_strs(v@.skip(pos as int), count as nat) == Some(
                    (items.deep_view(), v@.skip(np as int)),
                )
                &&& np <= v.len()
            },
            None => parse_strs(v@.skip(pos as int), count as nat) is None,
        },
{
    if count > v.len() as u128 {
        proof {
            lemma_parse_strs_min(v@.skip(pos as int), count as nat);
        }
        return None;
    }
    let cnt = count as usize;
    let mut items: Vec<String> = Vec::new();
    let mut p: usize = pos;
    let mut i: usize = 0;
    while i < cnt
        invariant
            i <= cnt,
            cnt as nat == count as nat,
            pos <= p <= v.len(),
            items.deep_view().len() == i,
            (match parse_strs(v@.skip(p as int), (cnt - i) as nat) {
                Some((ts, rr)) => parse_strs(v@.skip(pos as int), cnt as nat) == Some(
                    (items.deep_view() + ts, rr),
                ),
                None => parse_strs(v@.skip(pos as int), cnt as nat) is None,
            }),
        decreases cnt - i,
    {
        match take_str(v, p) {
            Some((t, np)) => {
                let ghost prev = items.deep_view();
                let ghost tview = t@;
                items.push(t);
                proof {
                    assert(items.deep_view() =~= prev.push(tview));
                    let m = (cnt - i) as nat;
                    let tail = parse_strs(v@.skip(np as int), (m - 1) as nat);
                    if tail is Some {
                        let pair = tail->Some_0;
                        assert(prev + (seq![tview] + pair.0) =~= prev.push(tview) + pair.0);
                    }
                }
                p = np;
                i = i + 1;
            },
            None => {
                return None;
            },
        }
    }
    proof {
        assert(items.deep_view() + Seq::<Seq<char>>::empty() =~= items.deep_view());
    }
    Some((items, p))
}

/// Reads `count` group references; fails exactly when the spec parser
/// does.
fn take_groups(v: &Vec<char>, pos: usize, count: u128) -> (r: Option<(Vec<GroupInfo>, usize)>)
    requires
        pos <= v.len(),
    ensures
        match r {
            Some((items, np)) => {
                &&& parse_groups(v@.skip(pos as int), count as nat) == Some(
                    (items.deep_view(), v@.skip(np as int)),
                )
                &&& np <= v.len()
            },
            None => parse_groups(v@.skip(pos as int), count as nat) is None,
        },
{
    if count > v.len() as u128 {
        proof {
            lemma_parse_groups_min(v@.skip(pos as int), count as nat);
        }
        return None;
    }
    let cnt = count as usize;
    let mut items: Vec<GroupInfo> = Vec::new();
    let mut p: usize = pos;
    let mut i: usize = 0;
    while i < cnt
        invariant
            i <= cnt,
            cnt as nat == count as nat,
            pos <= p <= v.len(),
            items.deep_view().len() == i,
            (match parse_groups(v@.skip(p as int), (cnt - i) as nat) {
                Some((ts, rr)) => parse_groups(v@.skip(pos as int), cnt as nat) == Some(
                    (items.deep_view() + ts, rr),
                ),
                None => parse_groups(v@.skip(pos as int), cnt as nat) is None,
            }),
        decreases cnt - i,
    {
        match take_str(v, p) {
            Some((uuid, q1)) => {
                match take_str(v, q1) {
                    Some((name, q2)) => {
                        let ghost prev = items.deep_view();
                        let ghost gv = GroupInfoV { uuid: uuid@, name: name@ };
                        items.push(GroupInfo { uuid, name });
                        proof {
                            assert(items.deep_view() =~= prev.push(gv));
                            let m = (cnt - i) as nat;
                            let tail = parse_groups(v@.skip(q2 as int), (m - 1) as nat);
                            if tail is Some {
                                let pair = tail->Some_0;
                                assert(prev + (seq![gv] + pair.0) =~= prev.push(gv) + pair.0);
                            }
                        }
                        p = q2;
                        i = i + 1;
                    },
                    None => {
                        return None;
                    },
                }
            },
            None => {
                return None;
            },
        }
    }
    proof {
        assert(items.deep_view() + Seq::<GroupInfoV>::empty() =~= items.deep_view());
    }
    Some((items, p))
}

/// Reads `count` readiness entries; fails exactly when the spec parser
/// does.
fn take_pairs(v: &Vec<char>, pos: usize, count: u128) -> (r: Option<(Vec<(String, bool)>, usize)>)
    requires
        pos <= v.len(),
    ensures
        match r {
            Some((items, np)) => {
                &&& parse_pairs(v@.skip(pos as int), count as nat) == Some(
                    (pairs_dv(items@), v@.skip(np as int)),
                )
                &&& np <= v.len()
            },
            None => parse_pairs(v@.skip(pos as int), count as nat) is None,
        },
{
    if count > v.len() as u128 {
        proof {
            lemma_parse_pairs_min(v@.skip(pos as int), count as nat);
        }
        return None;
    }
    let cnt = count as usize;
    let mut items: Vec<(String, bool)> = Vec::new();
    let mut p: usize = pos;
    let mut i: usize = 0;
    while i < cnt
        invariant
            i <= cnt,
            cnt as nat == count as nat,
            pos <= p <= v.len(),
            pairs_dv(items@).len() == i,
            (match parse_pairs(v@.skip(p as int), (cnt - i) as nat) {
                Some((ts, rr)) => parse_pairs(v@.skip(pos as int), cnt as nat) == Some(
                    (pairs_dv(items@) + ts, rr),
                ),
                None => parse_pairs(v@.skip(pos as int), cnt as nat) is None,
            }),
        decreases cnt - i,
    {
        match take_str(v, p) {
            Some((k, q1)) => {
                if q1 >= v.len() {
                    proof {
                        assert(v@.skip(q1 as int).len() == 0);
                    }
                    return None;
                }
                let c = v[q1];
                proof {
                    assert(v@.skip(q1 as int)[0] == c);
                    assert(v@.skip(q1 as int).skip(1) =~= v@.skip((q1 + 1) as int));
                }
                match bool_of(c) {
                    Some(b) => {
                        let ghost prev = pairs_dv(items@);
                        let ghost kv = (k@, b);
                        items.push((k, b));
                        proof {
                            assert(pairs_dv(items@) =~= prev.push(kv));
                            let m = (cnt - i) as nat;
                            let tail = parse_pairs(v@.skip((q1 + 1) as int), (m - 1) as nat);
                            if tail is Some {
                                let pair = tail->Some_0;
                                assert(prev + (seq![kv] + pair.0) =~= prev.push(kv) + pair.0);
                            }
                        }
                        p = q1 + 1;
                        i = i + 1;
                    },
                    None => {
                        return None;
                    },
                }
            },
            None => {
                return None;
            },
        }
    }
    proof {
        assert(pairs_dv(items@) + Seq::<(Seq<char>, bool)>::empty() =~= pairs_dv(items@));
    }
    Some((items, p))
}

/// Encodes a user document to its stored string representation.
pub fn encode_user(u: &UserData) -> (r: String)
    ensures
        r@ == encode_user_v(u@),
        user_bounded(u@),
{
    let mut out: Vec<char> = Vec::new();
    push_str_item(&mut out, u.id.as_str());
    push_str_item(&mut out, u.hashed_password.as_str());
    push_str_item(&mut out, u.salt.as_str());
    proof {
        lemma_u64_fits();
    }
    push_num(&mut out, u.groups.len() as u64);
    let ghost pre = out@;
    let ghost gdv = u.groups.deep_view();
    let mut i: usize = 0;
    while i < u.groups.len()
        invariant
            i <= u.groups.len(),
            gdv == u.groups.deep_view(),
            gdv.len() == u.groups@.len(),
            out@ == pre + groups_enc(gdv.take(i as int)),
            forall|j: int|
                0 <= j < i ==> fits((#[trigger] gdv[j]).uuid.len()) && fits(gdv[j].name.len()),
        decreases u.groups.len() - i,
    {
        push_str_item(&mut out, u.groups[i].uuid.as_str());
        push_str_item(&mut out, u.groups[i].name.as_str());
        proof {
            assert(gdv.take((i + 1) as int).drop_last() =~= gdv.take(i as int));
            assert(gdv.take((i + 1) as int).last() == gdv[i as int]);
            assert(gdv[i as int] == u.groups@[i as int]@);
            assert(out@ =~= pre + groups_enc(gdv.take((i + 1) as int)));
        }
        i = i + 1;
    }
    proof {
        assert(gdv.take(u.groups@.len() as int) =~= gdv);
    }
    push_date(&mut out, u.date_created);
    push_date(&mut out, u.date_modified);
    proof {
        assert(out@ =~= encode_user_v(u@));
    }
    crate::sys::string_from_chars(&out)
}

/// Encodes a group document to its stored string representation.
#[verifier::rlimit(50)]
pub fn encode_group(g: &GroupData) -> (r: String)
    ensures
        r@ == encode_group_v(g@),
        group_bounded(g@),
{
    let mut out: Vec<char> = Vec::new();
    push_str_item(&mut out, g.group_name.as_str());
    proof {
        lemma_u64_fits();
    }
    push_num(&mut out, g.members.len() as u64);
    push_strs(&mut out, &g.members);
    push_num(&mut out, g.movies_watched.len() as u64);
    push_strs(&mut out, &g.movies_watched);
    push_num(&mut out, g.current_movies.len() as u64);
    push_strs(&mut out, &g.current_movies);
    push_num(&mut out, g.ready_status.len() as u64);
    let ghost pre = out@;
    let ghost rdv = pairs_dv(g.ready_status@);
    let mut i: usize = 0;
    while i < g.ready_status.len()
        invariant
            i <= g.ready_status.len(),
            rdv == pairs_dv(g.ready_status@),
            rdv.len() == g.ready_status@.len(),
            out@ == pre + pairs_enc(rdv.take(i as int)),
            forall|j: int| 0 <= j < i ==> fits((#[trigger] rdv[j]).0.len()),
        decreases g.ready_status.len() - i,
    {
        let entry = &g.ready_status[i];
        push_str_item(&mut out, entry.0.as_str());
        out.push(bool_char_of(entry.1));
        proof {
            assert(rdv.take((i + 1) as int).drop_last() =~= rdv.take(i as int));
            assert(rdv.take((i + 1) as int).last() == rdv[i as int]);
            assert(out@ =~= pre + pairs_enc(rdv.take((i + 1) as int)));
        }
        i = i + 1;
    }
    proof {
        assert(rdv.take(g.ready_status@.len() as int) =~= rdv);
    }
    out.push(state_char_of(g.system_state));
    push_str_item(&mut out, g.turn.as_str());
    push_date(&mut out, g.date_created);
    push_date(&mut out, g.date_modified);
    proof {
        assert(out@ =~= encode_group_v(g@));
    }
    crate::sys::string_from_chars(&out)
}

/// Decodes a stored user document; fails with `SerializationError` exactly
/// on strings that do not encode one.
pub fn decode_user(s: &str) -> (r: Result<UserData, WarpRejections>)
    ensures
        match r {
            Ok(u) => decode_user_v(s@) == Some(u@),
            Err(e) => decode_user_v(s@) is None && e == WarpRejections::SerializationError,
        },
{
    let v = chars_of(s);
    proof {
        assert(v@.skip(0) =~= s@);
    }
    let (id, p1) = match take_str(&v, 0) {
        Some(x) => x,
        None => {
            return Err(WarpRejections::SerializationError);
        },
    };
    let (hp, p2) = match take_str(&v, p1) {
        Some(x) => x,
        None => {
            return Err(WarpRejections::SerializationError);
        },
    };
    let (salt, p3) = match take_str(&v, p2) {
        Some(x) => x,
        None => {
            return Err(WarpRejections::SerializationError);
        },
    };
    let (count, p4) = match take_num(&v, p3) {
        Some(x) => x,
        None => {
            return Err(WarpRejections::SerializationError);
        },
    };
    let (groups, p5) = match take_groups(&v, p4, count) {
        Some(x) => x,
        None => {
            return Err(WarpRejections::SerializationError);
        },
    };
    let (dc, p6) = match take_num(&v, p5) {
        Some(x) => x,
        None => {
            return Err(WarpRejections::SerializationError);
        },
    };
    let (dm, p7) = match take_num(&v, p6) {
        Some(x) => x,
        None => {
            return Err(WarpRejections::SerializationError);
        },
    };
    if p7 == v.len() && dc <= i64::MAX as u128 && dm <= i64::MAX as u128 {
        let u = UserData {
            id,
            hashed_password: hp,
            salt,
            groups,
            date_created: dc as i64,
            date_modified: dm as i64,
        };
        proof {
            assert(v@.skip(p7 as int).len() == 0);
            assert(decode_user_v(s@)->Some_0 =~= u@);
        }
        Ok(u)
    } else {
        proof {
            if p7 < v.len() {
                assert(v@.skip(p7 as int).len() > 0);
            }
        }
        Err(WarpRejections::SerializationError)
    }
}

/// Decodes a stored group document; fails with `SerializationError`
/// exactly on strings that do not encode one.
#[verifier::rlimit(50)]
pub fn decode_group(s: &str) -> (r: Result<GroupData, WarpRejections>)
    ensures
        match r {
            Ok(g) => decode_group_v(s@) == Some(g@),
            Err(e) => decode_group_v(s@) is None && e == WarpRejections::SerializationError,
        },
{
    let v = chars_of(s);
    proof {
        assert(v@.skip(0) =~= s@);
    }
    let (gname, p1) = match take_str(&v, 0) {
        Some(x) => x,
        None => {
            return Err(WarpRejections::SerializationError);
        },
    };
    let (nm, p2) = match take_num(&v, p1) {
        Some(x) => x,
        None => {
            return Err(WarpRejections::SerializationError);
        },
    };
    let (members, p3) = match take_strs(&v, p2, nm) {
        Some(x) => x,
        None => {
            return Err(WarpRejections::SerializationError);
        },
    };
    let (nw, p4) = match take_num(&v, p3) {
        Some(x) => x,
        None => {
            return Err(WarpRejections::SerializationError);
        },
    };
    let (watched, p5) = match take_strs(&v, p4, nw) {
        Some(x) => x,
        None => {
            return Err(WarpRejections::SerializationError);
        },
    };
    let (nc, p6) = match take_num(&v, p5) {
        Some(x) => x,
        None => {
            return Err(WarpRejections::SerializationError);
        },
    };
    let (current, p7) = match take_strs(&v, p6, nc) {
        Some(x) => x,
        None => {
            return Err(WarpRejections::SerializationError);
        },
    };
    let (nr, p8) = match take_num(&v, p7) {
        Some(x) => x,
        None => {
            return Err(WarpRejections::SerializationError);
        },
    };
    let (ready, p9) = match take_pairs(&v, p8, nr) {
        Some(x) => x,
        None => {
            return Err(WarpRejections::SerializationError);
        },
    };
    if p9 >= v.len() {
        proof {
            assert(v@.skip(p9 as int).len() == 0);
        }
        return Err(WarpRejections::SerializationError);
    }
    let sc = v[p9];
    proof {
        assert(v@.skip(p9 as int)[0] == sc);
        assert(v@.skip(p9 as int).skip(1) =~= v@.skip((p9 + 1) as int));
    }
    let state = match state_of(sc) {
        Some(x) => x,
        None => {
            return Err(WarpRejections::SerializationError);
        },
    };
    let (turn, p10) = match take_str(&v, p9 + 1) {
        Some(x) => x,
        None => {
            return Err(WarpRejections::SerializationError);
        },
    };
    let (dc, p11) = match take_num(&v, p10) {
        Some(x) => x,
        None => {
            return Err(WarpRejections::SerializationError);
        },
    };
    let (dm, p12) = match take_num(&v, p11) {
        Some(x) => x,
        None => {
            return Err(WarpRejections::SerializationError);
        },
    };
    if p12 == v.len() && dc <= i64::MAX as u128 && dm <= i64::MAX as u128 {
        let g = GroupData {
            group_name: gname,
            members,
            movies_watched: watched,
            current_movies: current,
            ready_status: ready,
            system_state: state,
            turn,
            date_created: dc as i64,
            date_modified: dm as i64,
        };
        proof {
            assert(v@.skip(p12 as int).len() == 0);
            assert(decode_group_v(s@)->Some_0 =~= g@);
        }
        Ok(g)
    } else {
        proof {
            if p12 < v.len() {
                assert(v@.skip(p12 as int).len() > 0);
            }
        }
        Err(WarpRejections::SerializationError)
    }
}

proof fn lemma_parse_num_bound(s: Seq<char>)
    ensures
        parse_num(s) matches Some((n, r)) ==> n < pow10(NUM_WIDTH as nat) && r.len() + NUM_WIDTH
            == s.len(),
{
    if parse_num(s) is Some {
        lemma_seq_val_bound(s.take(NUM_WIDTH as int));
    }
}

proof fn lemma_parse_str_bound(s: Seq<char>)
    ensures
        parse_str(s) matches Some((t, r)) ==> fits(t.len()) && r.len() + t.len() + NUM_WIDTH
            == s.len(),
{
    lemma_parse_num_bound(s);
}

proof fn lemma_parse_strs_bounded(s: Seq<char>, n: nat)
    ensures
        parse_strs(s, n) matches Some((ts, r)) ==> ts.len() == n && r.len() + 20 * n <= s.len()
            && (forall|i: int| 0 <= i < ts.len() ==> fits((#[trigger] ts[i]).len())),
    decreases n,
{
    if n > 0 && parse_strs(s, n) is Some {
        lemma_parse_str_bound(s);
        let (t, r1) = parse_str(s)->Some_0;
        lemma_parse_strs_bounded(r1, (n - 1) as nat);
        let (ts2, r2) = parse_strs(r1, (n - 1) as nat)->Some_0;
        assert forall|i: int|
            0 <= i < parse_strs(s, n)->Some_0.0.len() implies fits(
            (#[trigger] parse_strs(s, n)->Some_0.0[i]).len(),
        ) by {
            if i == 0 {
                assert(parse_strs(s, n)->Some_0.0[i] == t);
            } else {
                assert(parse_strs(s, n)->Some_0.0[i] == ts2[i - 1]);
            }
        }
    }
}

proof fn lemma_parse_groups_bounded(s: Seq<char>, n: nat)
    ensures
        parse_groups(s, n) matches Some((gs, r)) ==> gs.len() == n && r.len() + 20 * n <= s.len()
            && (forall|i: int|
            0 <= i < gs.len() ==> fits((#[trigger] gs[i]).uuid.len()) && fits(gs[i].name.len())),
    decreases n,
{
    if n > 0 && parse_groups(s, n) is Some {
        lemma_parse_str_bound(s);
        let (uuid, r1) = parse_str(s)->Some_0;
        lemma_parse_str_bound(r1);
        let (name, r2) = parse_str(r1)->Some_0;
        lemma_parse_groups_bounded(r2, (n - 1) as nat);
        let (gs2, r3) = parse_groups(r2, (n - 1) as nat)->Some_0;
        assert forall|i: int|
            0 <= i < parse_groups(s, n)->Some_0.0.len() implies fits(
            (#[trigger] parse_groups(s, n)->Some_0.0[i]).uuid.len(),
        ) && fits(parse_groups(s, n)->Some_0.0[i].name.len()) by {
            if i == 0 {
                assert(parse_groups(s, n)->Some_0.0[i] == GroupInfoV { uuid, name });
            } else {
                assert(parse_groups(s, n)->Some_0.0[i] == gs2[i - 1]);
            }
        }
    }
}

proof fn lemma_parse_pairs_bounded(s: Seq<char>, n: nat)
    ensures
        parse_pairs(s, n) matches Some((ps, r)) ==> ps.len() == n && r.len() + 20 * n <= s.len()
            && (forall|i: int| 0 <= i < ps.len() ==> fits((#[trigger] ps[i]).0.len())),
    decreases n,
{
    if n > 0 && parse_pairs(s, n) is Some {
        lemma_parse_str_bound(s);
        let (k, r1) = parse_str(s)->Some_0;
        let (c, r2) = parse_char(r1)->Some_0;
        let b = char_bool(c)->Some_0;
        lemma_parse_pairs_bounded(r2, (n - 1) as nat);
        let (ps2, r3) = parse_pairs(r2, (n - 1) as nat)->Some_0;
        assert forall|i: int|
            0 <= i < parse_pairs(s, n)->Some_0.0.len() implies fits(
            (#[trigger] parse_pairs(s, n)->Some_0.0[i]).0.len(),
        ) by {
            if i == 0 {
                assert(parse_pairs(s, n)->Some_0.0[i] == (k, b));
            } else {
                assert(parse_pairs(s, n)->Some_0.0[i] == ps2[i - 1]);
            }
        }
    }
}

/// Any decoded user document is bounded, with timestamps in range and
/// room to spare in its list counts.
pub proof fn lemma_decode_user_bounded(s: Seq<char>)
    ensures
        decode_user_v(s) matches Some(u) ==> user_bounded(u) && 0 <= u.date_created
            && 0 <= u.date_modified && 20 * u.groups.len() <= s.len(),
{
    if decode_user_v(s) is Some {
        lemma_parse_str_bound(s);
        let (id, s1) = parse_str(s)->Some_0;
        lemma_parse_str_bound(s1);
        let (hp, s2) = parse_str(s1)->Some_0;
        lemma_parse_str_bound(s2);
        let (salt, s3) = parse_str(s2)->Some_0;
        lemma_parse_num_bound(s3);
        let (n, s4) = parse_num(s3)->Some_0;
        lemma_parse_groups_bounded(s4, n);
    }
}

/// Any decoded group document is bounded, with timestamps in range and
/// room to spare in its list counts.
pub proof fn lemma_decode_group_bounded(s: Seq<char>)
    ensures
        decode_group_v(s) matches Some(g) ==> group_bounded(g) && 0 <= g.date_created
            && 0 <= g.date_modified && 20 * g.members.len() <= s.len(),
{
    if decode_group_v(s) is Some {
        lemma_parse_str_bound(s);
        let (gname, s1) = parse_str(s)->Some_0;
        lemma_parse_num_bound(s1);
        let (nm, s2) = parse_num(s1)->Some_0;
        lemma_parse_strs_bounded(s2, nm);
        let (members, s3) = parse_strs(s2, nm)->Some_0;
        lemma_parse_num_bound(s3);
        let (nw, s4) = parse_num(s3)->Some_0;
        lemma_parse_strs_bounded(s4, nw);
        let (watched, s5) = parse_strs(s4, nw)->Some_0;
        lemma_parse_num_bound(s5);
        let (nc, s6) = parse_num(s5)->Some_0;
        lemma_parse_strs_bounded(s6, nc);
        let (current, s7) = parse_strs(s6, nc)->Some_0;
        lemma_parse_num_bound(s7);
        let (nr, s8) = parse_num(s7)->Some_0;
        lemma_parse_pairs_bounded(s8, nr);
        let (ready, s9) = parse_pairs(s8, nr)->Some_0;
        lemma_parse_str_bound(parse_char(s9)->Some_0.1);
    }
}

} // verus!
