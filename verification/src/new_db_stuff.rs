//! Repositories over the two tables, and the membership coordinator: the
//! multi-record operations (join, leave, create) that keep the `User` and
//! `Group` documents mutually consistent through their write ordering.

use vstd::prelude::*;

use crate::auth::{hasher, hashed_of, verify_pass, verify_spec};
use crate::codec::{
    chars_of, decode_group, decode_group_v, decode_user, decode_user_v, encode_group,
    encode_group_v, encode_user, encode_user_v, fits, group_bounded, lemma_decode_group_bounded,
    lemma_decode_user_bounded, lemma_group_roundtrip, lemma_user_roundtrip, user_bounded,
};
use crate::db_structs::{
    group_wf, user_wf, DBGroup, DBGroupStruct, DBUser, DBUserStruct, GroupData, GroupDataV, GroupForm,
    GroupInfo, GroupInfoV, SystemState, UserData, UserDataV, UserInfo,
};
use crate::error_handling::WarpRejections;
use crate::session::{
    current_stamp, issue, token_enc, TokenKind, ACCESS_LIFE, MAX_STAMP, REFRESH_LIFE,
};
use crate::store::{lemma_docs_insert, lemma_docs_remove, Database, DbV};
use crate::sys::{canonical_uuid, new_uuid_string, uuid_canon};

verus! {

/// Character-for-character string comparison.
pub fn str_eq(a: &str, b: &str) -> (r: bool)
    ensures
        r == (a@ == b@),
{
    let va = chars_of(a);
    let vb = chars_of(b);
    if va.len() != vb.len() {
        return false;
    }
    let mut i: usize = 0;
    while i < va.len()
        invariant
            i <= va.len(),
            va@ == a@,
            vb@ == b@,
            va.len() == vb.len(),
            forall|j: int| 0 <= j < i ==> va@[j] == vb@[j],
        decreases va.len() - i,
    {
        if va[i] != vb[i] {
            return false;
        }
        i = i + 1;
    }
    proof {
        assert(a@ =~= b@);
    }
    true
}

/// Whether a member list holds the username.
fn contains_member(ms: &Vec<String>, username: &str) -> (r: bool)
    ensures
        r == ms.deep_view().contains(username@),
{
    let mut i: usize = 0;
    while i < ms.len()
        invariant
            i <= ms.len(),
            forall|j: int| 0 <= j < i ==> ms.deep_view()[j] != username@,
        decreases ms.len() - i,
    {
        if str_eq(ms[i].as_str(), username) {
            proof {
                assert(ms.deep_view()[i as int] == username@);
            }
            return true;
        }
        i = i + 1;
    }
    proof {
        if ms.deep_view().contains(username@) {
            let j = choose|j: int|
                0 <= j < ms.deep_view().len() && ms.deep_view()[j] == username@;
            assert(ms.deep_view()[j] != username@);
        }
    }
    false
}

/// Whether a membership index holds a reference to the given group id.
pub open spec fn has_ref(groups: Seq<GroupInfoV>, uuid: Seq<char>) -> bool {
    exists|i: int| 0 <= i < groups.len() && groups[i].uuid == uuid
}

fn contains_uuid(groups: &Vec<GroupInfo>, uuid: &str) -> (r: bool)
    ensures
        r == has_ref(groups.deep_view(), uuid@),
{
    let mut i: usize = 0;
    while i < groups.len()
        invariant
            i <= groups.len(),
            forall|j: int| 0 <= j < i ==> groups.deep_view()[j].uuid != uuid@,
        decreases groups.len() - i,
    {
        if str_eq(groups[i].uuid.as_str(), uuid) {
            proof {
                assert(groups.deep_view()[i as int].uuid == uuid@);
            }
            return true;
        }
        i = i + 1;
    }
    proof {
        if has_ref(groups.deep_view(), uuid@) {
            let j = choose|j: int|
                0 <= j < groups.deep_view().len() && groups.deep_view()[j].uuid == uuid@;
            assert(groups.deep_view()[j].uuid != uuid@);
        }
    }
    false
}

/// The store holds a user under this name and its document decodes.
pub open spec fn has_user(db: DbV, uname: Seq<char>) -> bool {
    db.users.contains_key(uname) && decode_user_v(db.users[uname]) is Some
}

/// The decoded user document (meaningful under [`has_user`]).
pub open spec fn user_at(db: DbV, uname: Seq<char>) -> UserDataV {
    decode_user_v(db.users[uname])->Some_0
}

/// The store holds a group under this id and its document decodes.
pub open spec fn has_group(db: DbV, gid: Seq<char>) -> bool {
    db.groups.contains_key(gid) && decode_group_v(db.groups[gid]) is Some
}

/// The decoded group document (meaningful under [`has_group`]).
pub open spec fn group_at(db: DbV, gid: Seq<char>) -> GroupDataV {
    decode_group_v(db.groups[gid])->Some_0
}

/// Fetches and decodes one user document by username.
pub fn db_get_user(db: &Database, username: &str) -> (r: Result<DBUserStruct, WarpRejections>)
    ensures
        match r {
            Ok(us) => {
                &&& has_user(db@, username@)
                &&& us.user_data@ == user_at(db@, username@)
                &&& us.username@ == username@
            },
            Err(e) => match e {
                WarpRejections::UserNotExist => !db@.users.contains_key(username@),
                WarpRejections::SerializationError => db@.users.contains_key(username@)
                    && decode_user_v(db@.users[username@]) is None,
                _ => false,
            },
        },
{
    match db.users.get(username) {
        Some(doc) => match decode_user(doc.as_str()) {
            Ok(user_data) => Ok(
                DBUserStruct { username: String::from_str(username), user_data },
            ),
            Err(e) => Err(e),
        },
        None => Err(WarpRejections::UserNotExist),
    }
}

/// Decodes one raw user row.
pub fn db_get_user_data(db_user: DBUser) -> (r: Result<DBUserStruct, WarpRejections>)
    ensures
        match r {
            Ok(us) => {
                &&& decode_user_v(db_user.data@) == Some(us.user_data@)
                &&& us.username@ == db_user.username@
            },
            Err(e) => {
                &&& decode_user_v(db_user.data@) is None
                &&& e == WarpRejections::SerializationError
            },
        },
{
    match decode_user(db_user.data.as_str()) {
        Ok(user_data) => Ok(DBUserStruct { username: db_user.username, user_data }),
        Err(e) => Err(e),
    }
}

/// Stores a new user document; fails with `Conflict` when the username is
/// already taken, leaving the store unchanged.
pub fn db_insert_user(db: &mut Database, username: &str, user_data: UserData) -> (r: Result<
    (),
    WarpRejections,
>)
    ensures
        match r {
            Ok(_) => {
                &&& !old(db)@.users.contains_key(username@)
                &&& final(db)@.users == old(db)@.users.insert(
                    username@,
                    encode_user_v(user_data@),
                )
                &&& final(db)@.groups == old(db)@.groups
                &&& user_bounded(user_data@)
            },
            Err(e) => {
                &&& e == WarpRejections::Conflict
                &&& old(db)@.users.contains_key(username@)
                &&& final(db)@ == old(db)@
            },
        },
{
    if db.users.contains_key(username) {
        Err(WarpRejections::Conflict)
    } else {
        let doc = encode_user(&user_data);
        let ghost gdoc = doc;
        let ghost musers = db.users@;
        db.users.insert(String::from_str(username), doc);
        proof {
            lemma_docs_insert(musers, username@, gdoc);
        }
        Ok(())
    }
}

/// Replaces the stored document of an existing user; fails with
/// `UserNotExist` when no such user is stored.
pub fn db_update_user(db: &mut Database, user_struct: DBUserStruct) -> (r: Result<
    (),
    WarpRejections,
>)
    ensures
        match r {
            Ok(_) => {
                &&& old(db)@.users.contains_key(user_struct.username@)
                &&& final(db)@.users == old(db)@.users.insert(
                    user_struct.username@,
                    encode_user_v(user_struct.user_data@),
                )
                &&& final(db)@.groups == old(db)@.groups
                &&& user_bounded(user_struct.user_data@)
            },
            Err(e) => {
                &&& e == WarpRejections::UserNotExist
                &&& !old(db)@.users.contains_key(user_struct.username@)
                &&& final(db)@ == old(db)@
            },
        },
{
    if !db.users.contains_key(user_struct.username.as_str()) {
        Err(WarpRejections::UserNotExist)
    } else {
        let doc = encode_user(&user_struct.user_data);
        let ghost gdoc = doc;
        let ghost musers = db.users@;
        db.users.insert(user_struct.username, doc);
        proof {
            lemma_docs_insert(musers, user_struct.username@, gdoc);
        }
        Ok(())
    }
}

/// Deletes one user row; fails with `UserNotExist` when absent.
pub fn db_delete_user(db: &mut Database, username: &str) -> (r: Result<(), WarpRejections>)
    ensures
        match r {
            Ok(_) => {
                &&& old(db)@.users.contains_key(username@)
                &&& final(db)@.users == old(db)@.users.remove(username@)
                &&& final(db)@.groups == old(db)@.groups
            },
            Err(e) => {
                &&& e == WarpRejections::UserNotExist
                &&& !old(db)@.users.contains_key(username@)
                &&& final(db)@ == old(db)@
            },
        },
{
    if !db.users.contains_key(username) {
        Err(WarpRejections::UserNotExist)
    } else {
        let ghost musers = db.users@;
        db.users.remove(username);
        proof {
            lemma_docs_remove(musers, username@);
        }
        Ok(())
    }
}

/// Fetches and decodes one group document by id.
pub fn db_get_group(db: &Database, group_id: &str) -> (r: Result<DBGroupStruct, WarpRejections>)
    ensures
        match r {
            Ok(gs) => {
                &&& has_group(db@, group_id@)
                &&& gs.group_data@ == group_at(db@, group_id@)
                &&& gs.id@ == group_id@
            },
            Err(e) => match e {
                WarpRejections::GroupNotExist => !db@.groups.contains_key(group_id@),
                WarpRejections::SerializationError => db@.groups.contains_key(group_id@)
                    && decode_group_v(db@.groups[group_id@]) is None,
                _ => false,
            },
        },
{
    match db.groups.get(group_id) {
        Some(doc) => match decode_group(doc.as_str()) {
            Ok(group_data) => Ok(DBGroupStruct { id: String::from_str(group_id), group_data }),
            Err(e) => Err(e),
        },
        None => Err(WarpRejections::GroupNotExist),
    }
}

/// Decodes one raw group row.
pub fn db_get_group_data(db_group: DBGroup) -> (r: Result<DBGroupStruct, WarpRejections>)
    ensures
        match r {
            Ok(gs) => {
                &&& decode_group_v(db_group.data@) == Some(gs.group_data@)
                &&& gs.id@ == db_group.id@
            },
            Err(e) => {
                &&& decode_group_v(db_group.data@) is None
                &&& e == WarpRejections::SerializationError
            },
        },
{
    match decode_group(db_group.data.as_str()) {
        Ok(group_data) => Ok(DBGroupStruct { id: db_group.id, group_data }),
        Err(e) => Err(e),
    }
}

/// Stores a new group document; fails with `Conflict` when the id is
/// already taken, leaving the store unchanged.
pub fn db_insert_group(db: &mut Database, group_struct: DBGroupStruct) -> (r: Result<
    (),
    WarpRejections,
>)
    ensures
        match r {
            Ok(_) => {
                &&& !old(db)@.groups.contains_key(group_struct.id@)
                &&& final(db)@.groups == old(db)@.groups.insert(
                    group_struct.id@,
                    encode_group_v(group_struct.group_data@),
                )
                &&& final(db)@.users == old(db)@.users
                &&& group_bounded(group_struct.group_data@)
            },
            Err(e) => {
                &&& e == WarpRejections::Conflict
                &&& old(db)@.groups.contains_key(group_struct.id@)
                &&& final(db)@ == old(db)@
            },
        },
{
    if db.groups.contains_key(group_struct.id.as_str()) {
        Err(WarpRejections::Conflict)
    } else {
        let doc = encode_group(&group_struct.group_data);
        let ghost gdoc = doc;
        let ghost mgroups = db.groups@;
        db.groups.insert(group_struct.id, doc);
        proof {
            lemma_docs_insert(mgroups, group_struct.id@, gdoc);
        }
        Ok(())
    }
}

/// Replaces the stored document of an existing group; fails with
/// `GroupNotExist` when no such group is stored.
pub fn db_update_group(db: &mut Database, group_struct: &DBGroupStruct) -> (r: Result<
    (),
    WarpRejections,
>)
    ensures
        match r {
            Ok(_) => {
                &&& old(db)@.groups.contains_key(group_struct.id@)
                &&& final(db)@.groups == old(db)@.groups.insert(
                    group_struct.id@,
                    encode_group_v(group_struct.group_data@),
                )
                &&& final(db)@.users == old(db)@.users
                &&& group_bounded(group_struct.group_data@)
            },
            Err(e) => {
                &&& e == WarpRejections::GroupNotExist
                &&& !old(db)@.groups.contains_key(group_struct.id@)
                &&& final(db)@ == old(db)@
            },
        },
{
    if !db.groups.contains_key(group_struct.id.as_str()) {
        Err(WarpRejections::GroupNotExist)
    } else {
        let doc = encode_group(&group_struct.group_data);
        let ghost gdoc = doc;
        let ghost mgroups = db.groups@;
        db.groups.insert(group_struct.id.clone(), doc);
        proof {
            lemma_docs_insert(mgroups, group_struct.id@, gdoc);
        }
        Ok(())
    }
}

/// Deletes one group row; fails with `GroupNotExist` when absent.
pub fn db_delete_group(db: &mut Database, group_id: &str) -> (r: Result<(), WarpRejections>)
    ensures
        match r {
            Ok(_) => {
                &&& old(db)@.groups.contains_key(group_id@)
                &&& final(db)@.groups == old(db)@.groups.remove(group_id@)
                &&& final(db)@.users == old(db)@.users
            },
            Err(e) => {
                &&& e == WarpRejections::GroupNotExist
                &&& !old(db)@.groups.contains_key(group_id@)
                &&& final(db)@ == old(db)@
            },
        },
{
    if !db.groups.contains_key(group_id) {
        Err(WarpRejections::GroupNotExist)
    } else {
        let ghost mgroups = db.groups@;
        db.groups.remove(group_id);
        proof {
            lemma_docs_remove(mgroups, group_id@);
        }
        Ok(())
    }
}

/// The member list of a group, in turn-rotation order.
pub fn db_get_group_members(db: &Database, group_id: &str) -> (r: Result<
    Vec<String>,
    WarpRejections,
>)
    ensures
        match r {
            Ok(ms) => {
                &&& has_group(db@, group_id@)
                &&& ms.deep_view() == group_at(db@, group_id@).members
            },
            Err(e) => match e {
                WarpRejections::GroupNotExist => !db@.groups.contains_key(group_id@),
                WarpRejections::SerializationError => db@.groups.contains_key(group_id@)
                    && decode_group_v(db@.groups[group_id@]) is None,
                _ => false,
            },
        },
{
    match db_get_group(db, group_id) {
        Ok(gs) => Ok(gs.group_data.members),
        Err(e) => Err(e),
    }
}

/// The membership index without any reference to the given group id.
pub open spec fn refs_without(gs: Seq<GroupInfoV>, uuid: Seq<char>) -> Seq<GroupInfoV>
    decreases gs.len(),
{
    if gs.len() == 0 {
        Seq::empty()
    } else if gs.last().uuid == uuid {
        refs_without(gs.drop_last(), uuid)
    } else {
        refs_without(gs.drop_last(), uuid).push(gs.last())
    }
}

/// The membership index without any reference carrying the given name.
pub open spec fn refs_without_name(gs: Seq<GroupInfoV>, name: Seq<char>) -> Seq<GroupInfoV>
    decreases gs.len(),
{
    if gs.len() == 0 {
        Seq::empty()
    } else if gs.last().name == name {
        refs_without_name(gs.drop_last(), name)
    } else {
        refs_without_name(gs.drop_last(), name).push(gs.last())
    }
}

/// Inserting a reference into the index: any stale reference to the same
/// group id is dropped, then the fresh one goes in.
pub open spec fn add_ref(gs: Seq<GroupInfoV>, info: GroupInfoV) -> Seq<GroupInfoV> {
    refs_without(gs, info.uuid).push(info)
}

/// The member list without the given username.
pub open spec fn members_without(ms: Seq<Seq<char>>, u: Seq<char>) -> Seq<Seq<char>>
    decreases ms.len(),
{
    if ms.len() == 0 {
        Seq::empty()
    } else if ms.last() == u {
        members_without(ms.drop_last(), u)
    } else {
        members_without(ms.drop_last(), u).push(ms.last())
    }
}

/// A user document with its membership index replaced.
pub open spec fn user_with_groups(u: UserDataV, gs: Seq<GroupInfoV>) -> UserDataV {
    UserDataV {
        id: u.id,
        hashed_password: u.hashed_password,
        salt: u.salt,
        groups: gs,
        date_created: u.date_created,
        date_modified: u.date_modified,
    }
}

/// A group document with its member list replaced.
pub open spec fn group_with_members(g: GroupDataV, ms: Seq<Seq<char>>) -> GroupDataV {
    GroupDataV {
        group_name: g.group_name,
        members: ms,
        movies_watched: g.movies_watched,
        current_movies: g.current_movies,
        ready_status: g.ready_status,
        system_state: g.system_state,
        turn: g.turn,
        date_created: g.date_created,
        date_modified: g.date_modified,
    }
}

/// The membership index with the stale references to `info`'s id dropped
/// and `info` appended.
fn with_ref(groups: &Vec<GroupInfo>, info: GroupInfo) -> (r: Vec<GroupInfo>)
    ensures
        r.deep_view() == add_ref(groups.deep_view(), info@),
{
    let ghost dv = groups.deep_view();
    let mut acc: Vec<GroupInfo> = Vec::new();
    let mut i: usize = 0;
    while i < groups.len()
        invariant
            i <= groups.len(),
            dv == groups.deep_view(),
            dv.len() == groups@.len(),
            acc.deep_view() == refs_without(dv.take(i as int), info.uuid@),
        decreases groups.len() - i,
    {
        proof {
            assert(dv.take((i + 1) as int).drop_last() =~= dv.take(i as int));
            assert(dv.take((i + 1) as int).last() == dv[i as int]);
            assert(dv[i as int] == groups@[i as int]@);
        }
        if !str_eq(groups[i].uuid.as_str(), info.uuid.as_str()) {
            let ghost prev = acc.deep_view();
            acc.push(
                GroupInfo { uuid: groups[i].uuid.clone(), name: groups[i].name.clone() },
            );
            proof {
                assert(acc.deep_view() =~= prev.push(dv[i as int]));
            }
        }
        i = i + 1;
    }
    proof {
        assert(dv.take(groups@.len() as int) =~= dv);
    }
    let ghost prev = acc.deep_view();
    let ghost infov = info@;
    acc.push(info);
    proof {
        assert(acc.deep_view() =~= prev.push(infov));
    }
    acc
}

/// The member list without the given username.
fn members_minus(ms: &Vec<String>, username: &str) -> (r: Vec<String>)
    ensures
        r.deep_view() == members_without(ms.deep_view(), username@),
{
    let ghost dv = ms.deep_view();
    let mut acc: Vec<String> = Vec::new();
    let mut i: usize = 0;
    while i < ms.len()
        invariant
            i <= ms.len(),
            dv == ms.deep_view(),
            dv.len() == ms@.len(),
            acc.deep_view() == members_without(dv.take(i as int), username@),
        decreases ms.len() - i,
    {
        proof {
            assert(dv.take((i + 1) as int).drop_last() =~= dv.take(i as int));
            assert(dv.take((i + 1) as int).last() == dv[i as int]);
            assert(dv[i as int] == ms@[i as int]@);
        }
        if !str_eq(ms[i].as_str(), username) {
            let ghost prev = acc.deep_view();
            acc.push(ms[i].clone());
            proof {
                assert(acc.deep_view() =~= prev.push(dv[i as int]));
            }
        }
        i = i + 1;
    }
    proof {
        assert(dv.take(ms@.len() as int) =~= dv);
    }
    acc
}

/// The membership index without the references carrying the given name.
fn refs_minus_name(groups: &Vec<GroupInfo>, name: &str) -> (r: Vec<GroupInfo>)
    ensures
        r.deep_view() == refs_without_name(groups.deep_view(), name@),
{
    let ghost dv = groups.deep_view();
    let mut acc: Vec<GroupInfo> = Vec::new();
    let mut i: usize = 0;
    while i < groups.len()
        invariant
            i <= groups.len(),
            dv == groups.deep_view(),
            dv.len() == groups@.len(),
            acc.deep_view() == refs_without_name(dv.take(i as int), name@),
        decreases groups.len() - i,
    {
        proof {
            assert(dv.take((i + 1) as int).drop_last() =~= dv.take(i as int));
            assert(dv.take((i + 1) as int).last() == dv[i as int]);
            assert(dv[i as int] == groups@[i as int]@);
        }
        if !str_eq(groups[i].name.as_str(), name) {
            let ghost prev = acc.deep_view();
            acc.push(
                GroupInfo { uuid: groups[i].uuid.clone(), name: groups[i].name.clone() },
            );
            proof {
                assert(acc.deep_view() =~= prev.push(dv[i as int]));
            }
        }
        i = i + 1;
    }
    proof {
        assert(dv.take(groups@.len() as int) =~= dv);
    }
    acc
}

/// Builds a fresh user document for registration: a new id, a fresh
/// salted credential, an empty membership index, and creation time now.
pub fn create_user_data(input: &UserInfo) -> (r: Result<UserData, WarpRejections>)
    ensures
        match r {
            Ok(u) => {
                &&& u@.groups.len() == 0
                &&& u@.hashed_password == hashed_of(input.password@, u@.salt)
                &&& u@.salt.len() == 36
                &&& u@.id.len() == 36
                &&& uuid_canon(u@.id) == Some(u@.id)
                &&& 0 <= u@.date_created <= MAX_STAMP
                &&& u@.date_modified == u@.date_created
            },
            Err(_) => false,
        },
{
    let id = new_uuid_string();
    let (hashed_password, salt) = match hasher(input.password.as_str()) {
        Ok(p) => p,
        Err(e) => {
            return Err(e);
        },
    };
    let now = current_stamp();
    let u = UserData {
        id,
        hashed_password,
        salt,
        groups: Vec::new(),
        date_created: now,
        date_modified: now,
    };
    Ok(u)
}

/// Builds a fresh group document: the creator as sole member, the
/// movie-adding phase, nobody's turn, creation time now.
pub fn create_group_data(input: GroupForm) -> (g: GroupData)
    ensures
        g@.group_name == input.group_name@,
        g@.members == seq![input.username@],
        g@.movies_watched.len() == 0,
        g@.current_movies.len() == 0,
        g@.ready_status.len() == 0,
        g@.system_state == SystemState::AddingMovies,
        g@.turn.len() == 0,
        0 <= g@.date_created <= MAX_STAMP,
        g@.date_modified == g@.date_created,
{
    let mut members_vec: Vec<String> = Vec::new();
    members_vec.push(input.username);
    let now = current_stamp();
    let turn = String::new();
    let g = GroupData {
        group_name: input.group_name,
        members: members_vec,
        movies_watched: Vec::new(),
        current_movies: Vec::new(),
        ready_status: Vec::new(),
        system_state: SystemState::AddingMovies,
        turn,
        date_created: now,
        date_modified: now,
    };
    proof {
        assert(g@.members =~= seq![g.members@[0]@]);
    }
    g
}

/// Fetches a group and checks that `username` is one of its members.
pub fn db_verify_group_member(group_id: String, username: String, db: &Database) -> (r: Result<
    DBGroupStruct,
    WarpRejections,
>)
    ensures
        match r {
            Ok(gs) => {
                &&& has_group(db@, group_id@)
                &&& gs.group_data@ == group_at(db@, group_id@)
                &&& gs.id@ == group_id@
                &&& group_at(db@, group_id@).members.contains(username@)
            },
            Err(e) => match e {
                WarpRejections::GroupNotExist => !db@.groups.contains_key(group_id@),
                WarpRejections::SerializationError => db@.groups.contains_key(group_id@)
                    && decode_group_v(db@.groups[group_id@]) is None,
                WarpRejections::UserNotInGroup => has_group(db@, group_id@) && !group_at(
                    db@,
                    group_id@,
                ).members.contains(username@),
                _ => false,
            },
        },
{
    match db_get_group(db, group_id.as_str()) {
        Ok(gs) => {
            if contains_member(&gs.group_data.members, username.as_str()) {
                Ok(gs)
            } else {
                Err(WarpRejections::UserNotInGroup)
            }
        },
        Err(e) => Err(e),
    }
}

/// Links one group reference into a user's membership index and stores
/// the updated user document.
pub fn db_add_group_to_user(db: &mut Database, user_struct: DBUserStruct, group: GroupInfo) -> (r:
    Result<(), WarpRejections>)
    ensures
        match r {
            Ok(_) => {
                &&& old(db)@.users.contains_key(user_struct.username@)
                &&& final(db)@.users == old(db)@.users.insert(
                    user_struct.username@,
                    encode_user_v(
                        user_with_groups(
                            user_struct.user_data@,
                            add_ref(user_struct.user_data@.groups, group@),
                        ),
                    ),
                )
                &&& final(db)@.groups == old(db)@.groups
            },
            Err(e) => {
                &&& e == WarpRejections::UserNotExist
                &&& !old(db)@.users.contains_key(user_struct.username@)
                &&& final(db)@ == old(db)@
            },
        },
{
    let mut us = user_struct;
    let new_groups = with_ref(&us.user_data.groups, group);
    us.user_data.groups = new_groups;
    proof {
        assert(us.user_data@ =~= user_with_groups(
            user_struct.user_data@,
            add_ref(user_struct.user_data@.groups, group@),
        ));
    }
    db_update_user(db, us)
}

/// Stores an updated group document (movie lists, readiness, phase).
pub fn db_save_group_movies(db: &mut Database, db_struct: &DBGroupStruct) -> (r: Result<
    (),
    WarpRejections,
>)
    ensures
        match r {
            Ok(_) => {
                &&& old(db)@.groups.contains_key(db_struct.id@)
                &&& final(db)@.groups == old(db)@.groups.insert(
                    db_struct.id@,
                    encode_group_v(db_struct.group_data@),
                )
                &&& final(db)@.users == old(db)@.users
            },
            Err(e) => {
                &&& e == WarpRejections::GroupNotExist
                &&& !old(db)@.groups.contains_key(db_struct.id@)
                &&& final(db)@ == old(db)@
            },
        },
{
    db_update_group(db, db_struct)
}

/// A user document with a new credential and modification time.
pub open spec fn user_with_password(
    u: UserDataV,
    hashed: Seq<char>,
    salt: Seq<char>,
    dm: i64,
) -> UserDataV {
    UserDataV {
        id: u.id,
        hashed_password: hashed,
        salt,
        groups: u.groups,
        date_created: u.date_created,
        date_modified: dm,
    }
}

/// Rotates a user's credential: verifies the old password, then stores a
/// fresh salt, the new password's hash under it, and a bumped modification
/// time. A failed verification aborts with `AuthFailure` and leaves the
/// store untouched.
pub fn db_update_password(db: &mut Database, old_user: &UserInfo, new_user: &UserInfo) -> (r:
    Result<(), WarpRejections>)
    ensures
        match r {
            Ok(_) => {
                &&& has_user(old(db)@, old_user.username@)
                &&& verify_spec(
                    old_user.password@,
                    user_at(old(db)@, old_user.username@).salt,
                    user_at(old(db)@, old_user.username@).hashed_password,
                )
                &&& final(db)@.groups == old(db)@.groups
                &&& final(db)@.users.dom() == old(db)@.users.dom()
                &&& forall|k: Seq<char>|
                    old(db)@.users.contains_key(k) && k != old_user.username@
                        ==> final(db)@.users[k] == old(db)@.users[k]
                &&& (decode_user_v(final(db)@.users[old_user.username@]) matches Some(u2)
                    && u2 == user_with_password(
                    user_at(old(db)@, old_user.username@),
                    hashed_of(new_user.password@, u2.salt),
                    u2.salt,
                    u2.date_modified,
                ) && u2.salt.len() == 36 && 0 <= u2.date_modified <= MAX_STAMP)
            },
            Err(e) => match e {
                WarpRejections::AuthFailure => {
                    &&& has_user(old(db)@, old_user.username@)
                    &&& !verify_spec(
                        old_user.password@,
                        user_at(old(db)@, old_user.username@).salt,
                        user_at(old(db)@, old_user.username@).hashed_password,
                    )
                    &&& final(db)@ == old(db)@
                },
                WarpRejections::UserNotExist => !old(db)@.users.contains_key(old_user.username@)
                    && final(db)@ == old(db)@,
                WarpRejections::SerializationError => old(db)@.users.contains_key(
                    old_user.username@,
                ) && decode_user_v(old(db)@.users[old_user.username@]) is None && final(db)@ == old(
                    db,
                )@,
                _ => false,
            },
        },
{
    let now = current_stamp();
    let mut old_user_struct = match db_get_user(db, old_user.username.as_str()) {
        Ok(x) => x,
        Err(e) => {
            return Err(e);
        },
    };
    let verified = match verify_pass(
        old_user.password.clone(),
        old_user_struct.user_data.salt.clone(),
        old_user_struct.user_data.hashed_password.clone(),
    ) {
        Ok(b) => b,
        Err(e) => {
            return Err(e);
        },
    };
    if verified {
        let (new_hashed_password, new_salt) = match hasher(new_user.password.as_str()) {
            Ok(p) => p,
            Err(e) => {
                return Err(e);
            },
        };
        old_user_struct.user_data.salt = new_salt;
        old_user_struct.user_data.hashed_password = new_hashed_password;
        old_user_struct.user_data.date_modified = now;
        let ghost u2v = old_user_struct.user_data@;
        proof {
            crate::codec::lemma_decode_user_bounded(old(db)@.users[old_user.username@]);
        }
        match db_update_user(db, old_user_struct) {
            Ok(_) => {},
            Err(e) => {
                return Err(e);
            },
        }
        proof {
            crate::codec::lemma_user_roundtrip(u2v);
            assert(final(db)@.users.dom() =~= old(db)@.users.dom());
            assert(u2v =~= user_with_password(
                user_at(old(db)@, old_user.username@),
                hashed_of(new_user.password@, u2v.salt),
                u2v.salt,
                u2v.date_modified,
            ));
        }
        Ok(())
    } else {
        Err(WarpRejections::AuthFailure)
    }
}

/// Touches a user document after re-authentication: verifies the given
/// password and bumps the modification time. A failed verification aborts
/// with `AuthFailure` and leaves the store untouched.
pub fn db_update_username(db: &mut Database, old_user: &DBUserStruct, old_password: String) -> (r:
    Result<(), WarpRejections>)
    ensures
        match r {
            Ok(_) => {
                &&& has_user(old(db)@, old_user.username@)
                &&& verify_spec(
                    old_password@,
                    user_at(old(db)@, old_user.username@).salt,
                    user_at(old(db)@, old_user.username@).hashed_password,
                )
                &&& final(db)@.groups == old(db)@.groups
                &&& final(db)@.users.dom() == old(db)@.users.dom()
                &&& forall|k: Seq<char>|
                    old(db)@.users.contains_key(k) && k != old_user.username@
                        ==> final(db)@.users[k] == old(db)@.users[k]
                &&& (decode_user_v(final(db)@.users[old_user.username@]) matches Some(u2)
                    && u2 == user_with_password(
                    user_at(old(db)@, old_user.username@),
                    user_at(old(db)@, old_user.username@).hashed_password,
                    user_at(old(db)@, old_user.username@).salt,
                    u2.date_modified,
                ) && 0 <= u2.date_modified <= MAX_STAMP)
            },
            Err(e) => match e {
                WarpRejections::AuthFailure => {
                    &&& has_user(old(db)@, old_user.username@)
                    &&& !verify_spec(
                        old_password@,
                        user_at(old(db)@, old_user.username@).salt,
                        user_at(old(db)@, old_user.username@).hashed_password,
                    )
                    &&& final(db)@ == old(db)@
                },
                WarpRejections::UserNotExist => !old(db)@.users.contains_key(old_user.username@)
                    && final(db)@ == old(db)@,
                WarpRejections::SerializationError => old(db)@.users.contains_key(
                    old_user.username@,
                ) && decode_user_v(old(db)@.users[old_user.username@]) is None && final(db)@ == old(
                    db,
                )@,
                _ => false,
            },
        },
{
    let now = current_stamp();
    let mut user_struct = match db_get_user(db, old_user.username.as_str()) {
        Ok(x) => x,
        Err(e) => {
            return Err(e);
        },
    };
    let verified = match verify_pass(
        old_password,
        user_struct.user_data.salt.clone(),
        user_struct.user_data.hashed_password.clone(),
    ) {
        Ok(b) => b,
        Err(e) => {
            return Err(e);
        },
    };
    if verified {
        user_struct.user_data.date_modified = now;
        let ghost u2v = user_struct.user_data@;
        proof {
            crate::codec::lemma_decode_user_bounded(old(db)@.users[old_user.username@]);
        }
        match db_update_user(db, user_struct) {
            Ok(_) => {},
            Err(e) => {
                return Err(e);
            },
        }
        proof {
            crate::codec::lemma_user_roundtrip(u2v);
            assert(final(db)@.users.dom() =~= old(db)@.users.dom());
            assert(u2v =~= user_with_password(
                user_at(old(db)@, old_user.username@),
                user_at(old(db)@, old_user.username@).hashed_password,
                user_at(old(db)@, old_user.username@).salt,
                u2v.date_modified,
            ));
        }
        Ok(())
    } else {
        Err(WarpRejections::AuthFailure)
    }
}

/// The join is possible: the id is well-formed and both documents are
/// stored and decode.
pub open spec fn join_allowed(db: DbV, gid: Seq<char>, uname: Seq<char>) -> bool {
    &&& uuid_canon(gid) is Some
    &&& has_group(db, gid)
    &&& has_user(db, uname)
}

/// The state after a join: the member appended to the group (written
/// first) and the reference linked into the user's index (written
/// second); unchanged when the member is already in, or on any error.
pub open spec fn join_spec(db: DbV, gid: Seq<char>, uname: Seq<char>) -> DbV {
    if !join_allowed(db, gid, uname) {
        db
    } else {
        let g = group_at(db, gid);
        let u = user_at(db, uname);
        if g.members.contains(uname) {
            db
        } else {
            let g2 = group_with_members(g, g.members.push(uname));
            let info = GroupInfoV { uuid: uuid_canon(gid)->Some_0, name: g.group_name };
            let u2 = user_with_groups(u, add_ref(u.groups, info));
            DbV {
                users: db.users.insert(uname, encode_user_v(u2)),
                groups: db.groups.insert(gid, encode_group_v(g2)),
            }
        }
    }
}

/// Adds a registered user to a group. Idempotent: a user already in
/// `members` is left exactly as it is, with nothing written. Otherwise the
/// username is appended at the tail of `members`, the group is written
/// first, and the group reference is then linked into the user's index.
pub fn db_add_user_to_group(group_id: &str, new_member: &str, db: &mut Database) -> (r: Result<
    (),
    WarpRejections,
>)
    ensures
        final(db)@ == join_spec(old(db)@, group_id@, new_member@),
        match r {
            Ok(_) => join_allowed(old(db)@, group_id@, new_member@),
            Err(e) => match e {
                WarpRejections::UuidError => uuid_canon(group_id@) is None && final(db)@ == old(
                    db,
                )@,
                WarpRejections::GroupNotExist => uuid_canon(group_id@) is Some && !old(
                    db,
                )@.groups.contains_key(group_id@) && final(db)@ == old(db)@,
                WarpRejections::UserNotExist => uuid_canon(group_id@) is Some && has_group(
                    old(db)@,
                    group_id@,
                ) && !old(db)@.users.contains_key(new_member@) && final(db)@ == old(db)@,
                WarpRejections::SerializationError => uuid_canon(group_id@) is Some && ((old(
                    db,
                )@.groups.contains_key(group_id@) && decode_group_v(
                    old(db)@.groups[group_id@],
                ) is None) || (has_group(old(db)@, group_id@) && old(db)@.users.contains_key(
                    new_member@,
                ) && decode_user_v(old(db)@.users[new_member@]) is None)) && final(db)@ == old(
                    db,
                )@,
                _ => false,
            },
        },
{
    let canon = match canonical_uuid(group_id) {
        Some(c) => c,
        None => {
            return Err(WarpRejections::UuidError);
        },
    };
    let mut group_struct = match db_get_group(db, group_id) {
        Ok(g) => g,
        Err(e) => {
            return Err(e);
        },
    };
    let user_struct = match db_get_user(db, new_member) {
        Ok(u) => u,
        Err(e) => {
            return Err(e);
        },
    };
    if contains_member(&group_struct.group_data.members, new_member) {
        return Ok(());
    }
    let ghost g = group_at(old(db)@, group_id@);
    let ghost u = user_at(old(db)@, new_member@);
    group_struct.group_data.members.push(String::from_str(new_member));
    proof {
        assert(group_struct.group_data@.members =~= g.members.push(new_member@));
        assert(group_struct.group_data@ =~= group_with_members(g, g.members.push(new_member@)));
    }
    match db_update_group(db, &group_struct) {
        Ok(_) => {},
        Err(e) => {
            return Err(e);
        },
    }
    let group_info = GroupInfo { uuid: canon, name: group_struct.group_data.group_name.clone() };
    let ghost infov = group_info@;
    proof {
        assert(infov =~= GroupInfoV { uuid: uuid_canon(group_id@)->Some_0, name: g.group_name });
    }
    match db_add_group_to_user(db, user_struct, group_info) {
        Ok(_) => {},
        Err(e) => {
            return Err(e);
        },
    }
    proof {
        assert(final(db)@ =~= join_spec(old(db)@, group_id@, new_member@));
    }
    Ok(())
}

/// The state after a leave: the user's index cleared of references
/// carrying the group's name (written first), then the group either
/// rewritten without the member or, when that member was the last one,
/// deleted; unchanged on any error.
pub open spec fn leave_spec(db: DbV, gid: Seq<char>, uname: Seq<char>) -> DbV {
    if !(has_group(db, gid) && has_user(db, uname)) {
        db
    } else {
        let g = group_at(db, gid);
        let u = user_at(db, uname);
        let u2 = user_with_groups(u, refs_without_name(u.groups, g.group_name));
        let users2 = db.users.insert(uname, encode_user_v(u2));
        let ms2 = members_without(g.members, uname);
        if ms2.len() == 0 {
            DbV { users: users2, groups: db.groups.remove(gid) }
        } else {
            DbV {
                users: users2,
                groups: db.groups.insert(gid, encode_group_v(group_with_members(g, ms2))),
            }
        }
    }
}

/// Removes a user from a group. The user's index is written first; the
/// group is then rewritten without the member, or deleted outright when
/// its member list would become empty.
pub fn db_user_leave_group1(db: &mut Database, username: String, group_id: &str) -> (r: Result<
    (),
    WarpRejections,
>)
    ensures
        final(db)@ == leave_spec(old(db)@, group_id@, username@),
        match r {
            Ok(_) => has_group(old(db)@, group_id@) && has_user(old(db)@, username@),
            Err(e) => match e {
                WarpRejections::GroupNotExist => !old(db)@.groups.contains_key(group_id@)
                    && final(db)@ == old(db)@,
                WarpRejections::UserNotExist => has_group(old(db)@, group_id@) && !old(
                    db,
                )@.users.contains_key(username@) && final(db)@ == old(db)@,
                WarpRejections::SerializationError => ((old(db)@.groups.contains_key(group_id@)
                    && decode_group_v(old(db)@.groups[group_id@]) is None) || (has_group(
                    old(db)@,
                    group_id@,
                ) && old(db)@.users.contains_key(username@) && decode_user_v(
                    old(db)@.users[username@],
                ) is None)) && final(db)@ == old(db)@,
                _ => false,
            },
        },
{
    let mut group_struct = match db_get_group(db, group_id) {
        Ok(g) => g,
        Err(e) => {
            return Err(e);
        },
    };
    let mut user_struct = match db_get_user(db, username.as_str()) {
        Ok(u) => u,
        Err(e) => {
            return Err(e);
        },
    };
    let ghost g = group_at(old(db)@, group_id@);
    let ghost u = user_at(old(db)@, username@);
    let new_refs = refs_minus_name(
        &user_struct.user_data.groups,
        group_struct.group_data.group_name.as_str(),
    );
    user_struct.user_data.groups = new_refs;
    proof {
        assert(user_struct.user_data@ =~= user_with_groups(
            u,
            refs_without_name(u.groups, g.group_name),
        ));
    }
    match db_update_user(db, user_struct) {
        Ok(_) => {},
        Err(e) => {
            return Err(e);
        },
    }
    let updated_members = members_minus(&group_struct.group_data.members, username.as_str());
    if updated_members.len() == 0 {
        match db_delete_group(db, group_id) {
            Ok(_) => {},
            Err(e) => {
                return Err(e);
            },
        }
    } else {
        group_struct.group_data.members = updated_members;
        proof {
            assert(group_struct.group_data@ =~= group_with_members(
                g,
                members_without(g.members, username@),
            ));
        }
        match db_update_group(db, &group_struct) {
            Ok(_) => {},
            Err(e) => {
                return Err(e);
            },
        }
    }
    proof {
        assert(final(db)@ =~= leave_spec(old(db)@, group_id@, username@));
    }
    Ok(())
}

/// A field-for-field copy of a user document.
fn duplicate_user(u: &UserData) -> (r: UserData)
    ensures
        r@ == u@,
{
    let ghost dv = u.groups.deep_view();
    let mut groups: Vec<GroupInfo> = Vec::new();
    let mut i: usize = 0;
    while i < u.groups.len()
        invariant
            i <= u.groups.len(),
            dv == u.groups.deep_view(),
            dv.len() == u.groups@.len(),
            groups.deep_view() == dv.take(i as int),
        decreases u.groups.len() - i,
    {
        let ghost prev = groups.deep_view();
        groups.push(
            GroupInfo { uuid: u.groups[i].uuid.clone(), name: u.groups[i].name.clone() },
        );
        proof {
            assert(groups.deep_view() =~= prev.push(dv[i as int]));
            assert(dv.take((i + 1) as int) =~= dv.take(i as int).push(dv[i as int]));
        }
        i = i + 1;
    }
    proof {
        assert(dv.take(u.groups@.len() as int) =~= dv);
    }
    let r = UserData {
        id: u.id.clone(),
        hashed_password: u.hashed_password.clone(),
        salt: u.salt.clone(),
        groups,
        date_created: u.date_created,
        date_modified: u.date_modified,
    };
    proof {
        assert(r@ =~= u@);
    }
    r
}

/// Registers a new user: uniqueness via the insert's `Conflict`, fresh
/// credentials, an empty membership index.
pub fn register(db: &mut Database, input: &UserInfo) -> (r: Result<UserData, WarpRejections>)
    ensures
        match r {
            Ok(u) => {
                &&& !old(db)@.users.contains_key(input.username@)
                &&& final(db)@.users == old(db)@.users.insert(input.username@, encode_user_v(u@))
                &&& final(db)@.groups == old(db)@.groups
                &&& u@.groups.len() == 0
                &&& u@.hashed_password == hashed_of(input.password@, u@.salt)
                &&& u@.salt.len() == 36
                &&& uuid_canon(u@.id) == Some(u@.id)
                &&& 0 <= u@.date_created <= MAX_STAMP
                &&& u@.date_modified == u@.date_created
            },
            Err(e) => {
                &&& e == WarpRejections::Conflict
                &&& old(db)@.users.contains_key(input.username@)
                &&& final(db)@ == old(db)@
            },
        },
{
    let user_data = match create_user_data(input) {
        Ok(u) => u,
        Err(e) => {
            return Err(e);
        },
    };
    let copy = duplicate_user(&user_data);
    match db_insert_user(db, input.username.as_str(), user_data) {
        Ok(_) => Ok(copy),
        Err(e) => Err(e),
    }
}

/// Authenticates a user and issues an access/refresh token pair bound to
/// the given clock reading and server secret. A wrong password fails with
/// `AuthFailure`.
pub fn login(db: &Database, input: &UserInfo, now: i64, secret: &str) -> (r: Result<
    (String, String),
    WarpRejections,
>)
    requires
        0 <= now <= MAX_STAMP,
    ensures
        match r {
            Ok(pair) => {
                &&& has_user(db@, input.username@)
                &&& verify_spec(
                    input.password@,
                    user_at(db@, input.username@).salt,
                    user_at(db@, input.username@).hashed_password,
                )
                &&& pair.0@ == token_enc(
                    input.username@,
                    (now + ACCESS_LIFE) as nat,
                    TokenKind::Access,
                    secret@,
                )
                &&& pair.1@ == token_enc(
                    input.username@,
                    (now + REFRESH_LIFE) as nat,
                    TokenKind::Refresh,
                    secret@,
                )
            },
            Err(e) => match e {
                WarpRejections::AuthFailure => has_user(db@, input.username@) && !verify_spec(
                    input.password@,
                    user_at(db@, input.username@).salt,
                    user_at(db@, input.username@).hashed_password,
                ),
                WarpRejections::UserNotExist => !db@.users.contains_key(input.username@),
                WarpRejections::SerializationError => db@.users.contains_key(input.username@)
                    && decode_user_v(db@.users[input.username@]) is None,
                _ => false,
            },
        },
{
    let user_struct = match db_get_user(db, input.username.as_str()) {
        Ok(u) => u,
        Err(e) => {
            return Err(e);
        },
    };
    let verified = match verify_pass(
        input.password.clone(),
        user_struct.user_data.salt.clone(),
        user_struct.user_data.hashed_password.clone(),
    ) {
        Ok(b) => b,
        Err(e) => {
            return Err(e);
        },
    };
    if verified {
        Ok(issue(input.username.as_str(), now, secret))
    } else {
        Err(WarpRejections::AuthFailure)
    }
}

/// Creates a group with the creator as sole member (in the movie-adding
/// phase), writes the group first, then links the reference into the
/// creator's index: the join write pattern for its single member.
/// `Conflict` can only arise when the freshly drawn group id collides
/// with a stored one.
#[verifier::rlimit(100)]
#[verifier::spinoff_prover]
pub fn create_group(db: &mut Database, form: &GroupForm) -> (r: Result<GroupInfo, WarpRejections>)
    ensures
        match r {
            Ok(info) => {
                &&& has_user(old(db)@, form.username@)
                &&& !old(db)@.groups.contains_key(info.uuid@)
                &&& info.name@ == form.group_name@
                &&& uuid_canon(info.uuid@) == Some(info.uuid@)
                &&& final(db)@.groups.dom() == old(db)@.groups.dom().insert(info.uuid@)
                &&& forall|k: Seq<char>|
                    old(db)@.groups.contains_key(k) && k != info.uuid@ ==> final(db)@.groups[k]
                        == old(db)@.groups[k]
                &&& (decode_group_v(final(db)@.groups[info.uuid@]) matches Some(g) && {
                    &&& g.group_name == form.group_name@
                    &&& g.members == seq![form.username@]
                    &&& g.movies_watched.len() == 0
                    &&& g.current_movies.len() == 0
                    &&& g.ready_status.len() == 0
                    &&& g.system_state == SystemState::AddingMovies
                    &&& g.turn.len() == 0
                    &&& 0 <= g.date_created <= MAX_STAMP
                    &&& g.date_modified == g.date_created
                })
                &&& final(db)@.users == old(db)@.users.insert(
                    form.username@,
                    encode_user_v(
                        user_with_groups(
                            user_at(old(db)@, form.username@),
                            add_ref(user_at(old(db)@, form.username@).groups, info@),
                        ),
                    ),
                )
            },
            Err(e) => match e {
                WarpRejections::UserNotExist => !old(db)@.users.contains_key(form.username@)
                    && final(db)@ == old(db)@,
                WarpRejections::SerializationError => old(db)@.users.contains_key(form.username@)
                    && decode_user_v(old(db)@.users[form.username@]) is None && final(db)@ == old(
                    db,
                )@,
                WarpRejections::Conflict => final(db)@ == old(db)@,
                _ => false,
            },
        },
{
    let user_struct = match db_get_user(db, form.username.as_str()) {
        Ok(u) => u,
        Err(e) => {
            return Err(e);
        },
    };
    let group_data = create_group_data(
        GroupForm { username: form.username.clone(), group_name: form.group_name.clone() },
    );
    let id = new_uuid_string();
    let info = GroupInfo { uuid: id.clone(), name: form.group_name.clone() };
    let ghost gdv = group_data@;
    let ghost infov = info@;
    match db_insert_group(db, DBGroupStruct { id, group_data }) {
        Ok(_) => {},
        Err(e) => {
            return Err(e);
        },
    }
    proof {
        lemma_group_roundtrip(gdv);
    }
    match db_add_group_to_user(
        db,
        user_struct,
        GroupInfo { uuid: info.uuid.clone(), name: info.name.clone() },
    ) {
        Ok(_) => {},
        Err(e) => {
            return Err(e);
        },
    }
    proof {
        assert(final(db)@.groups.dom() =~= old(db)@.groups.dom().insert(infov.uuid));
    }
    Ok(info)
}

/// Law: inserting a reference always leaves it present in the index, as
/// its most recent entry.
pub proof fn lemma_add_ref_links(gs: Seq<GroupInfoV>, info: GroupInfoV)
    ensures
        add_ref(gs, info).last() == info,
        add_ref(gs, info).contains(info),
{
    let r = add_ref(gs, info);
    assert(r[r.len() - 1] == info);
}

/// Every entry that survives the reference filter was in the index.
proof fn lemma_refs_without_items(gs: Seq<GroupInfoV>, uuid: Seq<char>)
    ensures
        forall|i: int|
            0 <= i < refs_without(gs, uuid).len() ==> gs.contains(
                #[trigger] refs_without(gs, uuid)[i],
            ),
    decreases gs.len(),
{
    if gs.len() > 0 {
        let dl = gs.drop_last();
        lemma_refs_without_items(dl, uuid);
        assert forall|i: int|
            0 <= i < refs_without(gs, uuid).len() implies gs.contains(
            #[trigger] refs_without(gs, uuid)[i],
        ) by {
            let r = refs_without(gs, uuid);
            if gs.last().uuid == uuid {
                assert(r[i] == refs_without(dl, uuid)[i]);
                assert(dl.contains(r[i]));
                let j = choose|j: int| 0 <= j < dl.len() && dl[j] == r[i];
                assert(gs[j] == r[i]);
            } else {
                if i < r.len() - 1 {
                    assert(r[i] == refs_without(dl, uuid)[i]);
                    assert(dl.contains(r[i]));
                    let j = choose|j: int| 0 <= j < dl.len() && dl[j] == r[i];
                    assert(gs[j] == r[i]);
                } else {
                    assert(r[i] == gs.last());
                    assert(gs[gs.len() - 1] == r[i]);
                }
            }
        }
    }
}

/// The reference filter never grows the index.
proof fn lemma_refs_without_len(gs: Seq<GroupInfoV>, uuid: Seq<char>)
    ensures
        refs_without(gs, uuid).len() <= gs.len(),
    decreases gs.len(),
{
    if gs.len() > 0 {
        lemma_refs_without_len(gs.drop_last(), uuid);
    }
}

/// Filtering by an id that the index does not hold changes nothing.
proof fn lemma_refs_without_absent(gs: Seq<GroupInfoV>, uuid: Seq<char>)
    requires
        !has_ref(gs, uuid),
    ensures
        refs_without(gs, uuid) == gs,
    decreases gs.len(),
{
    if gs.len() > 0 {
        let dl = gs.drop_last();
        assert(!has_ref(dl, uuid)) by {
            if has_ref(dl, uuid) {
                let i = choose|i: int| 0 <= i < dl.len() && dl[i].uuid == uuid;
                assert(gs[i].uuid == uuid);
            }
        }
        assert(gs.last().uuid != uuid) by {
            if gs.last().uuid == uuid {
                assert(gs[gs.len() - 1].uuid == uuid);
            }
        }
        lemma_refs_without_absent(dl, uuid);
        assert(refs_without(gs, uuid) =~= gs);
    }
}

/// Filtering by a name that no reference carries changes nothing.
proof fn lemma_refs_without_name_absent(gs: Seq<GroupInfoV>, name: Seq<char>)
    requires
        forall|i: int| 0 <= i < gs.len() ==> (#[trigger] gs[i]).name != name,
    ensures
        refs_without_name(gs, name) == gs,
    decreases gs.len(),
{
    if gs.len() > 0 {
        let dl = gs.drop_last();
        assert(forall|i: int| 0 <= i < dl.len() ==> (#[trigger] dl[i]).name != name) by {
            assert(forall|i: int| 0 <= i < dl.len() ==> dl[i] == gs[i]);
        }
        assert(gs.last().name != name) by {
            assert(gs[gs.len() - 1].name != name);
        }
        lemma_refs_without_name_absent(dl, name);
        assert(refs_without_name(gs, name) =~= gs);
    }
}

/// Removing a username that the member list does not hold changes
/// nothing.
proof fn lemma_members_without_absent(ms: Seq<Seq<char>>, u: Seq<char>)
    requires
        !ms.contains(u),
    ensures
        members_without(ms, u) == ms,
    decreases ms.len(),
{
    if ms.len() > 0 {
        let dl = ms.drop_last();
        assert(!dl.contains(u)) by {
            if dl.contains(u) {
                let i = choose|i: int| 0 <= i < dl.len() && dl[i] == u;
                assert(ms[i] == u);
            }
        }
        assert(ms.last() != u) by {
            assert(ms[ms.len() - 1] == ms.last());
            if ms.last() == u {
                assert(ms.contains(u));
            }
        }
        lemma_members_without_absent(dl, u);
        assert(members_without(ms, u) =~= ms);
    }
}

/// Inserting a bounded reference into a bounded index keeps it bounded.
proof fn lemma_add_ref_bounded(u: UserDataV, info: GroupInfoV)
    requires
        user_bounded(u),
        fits(info.uuid.len()),
        fits(info.name.len()),
        u.groups.len() + 1 < crate::codec::pow10(crate::codec::NUM_WIDTH as nat),
    ensures
        user_bounded(user_with_groups(u, add_ref(u.groups, info))),
{
    lemma_refs_without_items(u.groups, info.uuid);
    lemma_refs_without_len(u.groups, info.uuid);
    let gs2 = add_ref(u.groups, info);
    assert forall|i: int|
        0 <= i < gs2.len() implies fits((#[trigger] gs2[i]).uuid.len()) && fits(
        gs2[i].name.len(),
    ) by {
        if i < gs2.len() - 1 {
            let r = refs_without(u.groups, info.uuid);
            assert(gs2[i] == r[i]);
            assert(u.groups.contains(r[i]));
            let j = choose|j: int| 0 <= j < u.groups.len() && u.groups[j] == r[i];
            assert(fits((u.groups[j]).uuid.len()) && fits(u.groups[j].name.len()));
        } else {
            assert(gs2[i] == info);
        }
    }
}

/// Appending a bounded member to a bounded group keeps it bounded.
proof fn lemma_push_member_bounded(g: GroupDataV, uname: Seq<char>)
    requires
        group_bounded(g),
        fits(uname.len()),
        g.members.len() + 1 < crate::codec::pow10(crate::codec::NUM_WIDTH as nat),
    ensures
        group_bounded(group_with_members(g, g.members.push(uname))),
{
    let ms2 = g.members.push(uname);
    assert forall|i: int| 0 <= i < ms2.len() implies fits((#[trigger] ms2[i]).len()) by {
        if i < g.members.len() {
            assert(ms2[i] == g.members[i]);
        } else {
            assert(ms2[i] == uname);
        }
    }
}

/// Law: joining a group is idempotent. One successful join leaves the
/// member present exactly once (the list stays duplicate-free), and a
/// second join of the same user changes nothing at all.
pub proof fn lemma_join_idempotent(db: DbV, gid: Seq<char>, uname: Seq<char>)
    requires
        fits(uname.len()),
        uuid_canon(gid) matches Some(c) ==> fits(c.len()),
        db.groups.contains_key(gid) ==> fits(db.groups[gid].len()),
        db.users.contains_key(uname) ==> fits(db.users[uname].len()),
    ensures
        join_spec(join_spec(db, gid, uname), gid, uname) == join_spec(db, gid, uname),
        join_allowed(db, gid, uname) ==> has_group(join_spec(db, gid, uname), gid) && group_at(
            join_spec(db, gid, uname),
            gid,
        ).members.contains(uname),
        join_allowed(db, gid, uname) && group_wf(group_at(db, gid)) ==> group_wf(
            group_at(join_spec(db, gid, uname), gid),
        ),
{
    if join_allowed(db, gid, uname) {
        let g = group_at(db, gid);
        let u = user_at(db, uname);
        if g.members.contains(uname) {
            assert(join_spec(db, gid, uname) == db);
        } else {
            let c = uuid_canon(gid)->Some_0;
            let g2 = group_with_members(g, g.members.push(uname));
            let info = GroupInfoV { uuid: c, name: g.group_name };
            let u2 = user_with_groups(u, add_ref(u.groups, info));
            let db1 = join_spec(db, gid, uname);
            lemma_decode_group_bounded(db.groups[gid]);
            lemma_decode_user_bounded(db.users[uname]);
            lemma_push_member_bounded(g, uname);
            crate::codec::lemma_group_roundtrip(g2);
            lemma_add_ref_bounded(u, info);
            crate::codec::lemma_user_roundtrip(u2);
            assert(db1.groups[gid] == encode_group_v(g2));
            assert(db1.users[uname] == encode_user_v(u2));
            assert(has_group(db1, gid));
            assert(group_at(db1, gid) == g2);
            assert(has_user(db1, uname));
            assert(g2.members.contains(uname)) by {
                assert(g2.members[g.members.len() as int] == uname);
            }
            assert(join_spec(db1, gid, uname) == db1);
            if group_wf(g) {
                assert(group_wf(g2)) by {
                    assert forall|i: int, j: int|
                        0 <= i < j < g2.members.len() implies g2.members[i] != g2.members[j] by {
                        if j < g.members.len() {
                            assert(g2.members[i] == g.members[i]);
                            assert(g2.members[j] == g.members[j]);
                        } else {
                            assert(g2.members[j] == uname);
                            assert(g2.members[i] == g.members[i]);
                            if g.members[i] == uname {
                                assert(g.members.contains(uname));
                            }
                        }
                    }
                }
            }
        }
    }
}

/// Law: joining and then leaving restores the user's membership index to
/// its pre-join value and leaves every other record untouched; the group
/// itself is restored too, or deleted entirely when the joiner would have
/// been its only member. Holds provided the user was not already a member
/// and held no reference to this group's id or name beforehand.
#[verifier::rlimit(100)]
#[verifier::spinoff_prover]
pub proof fn lemma_join_then_leave_restores(db: DbV, gid: Seq<char>, uname: Seq<char>)
    requires
        join_allowed(db, gid, uname),
        !group_at(db, gid).members.contains(uname),
        !has_ref(user_at(db, uname).groups, uuid_canon(gid)->Some_0),
        forall|i: int|
            0 <= i < user_at(db, uname).groups.len() ==> (#[trigger] user_at(
                db,
                uname,
            ).groups[i]).name != group_at(db, gid).group_name,
        fits(uname.len()),
        fits(uuid_canon(gid)->Some_0.len()),
        fits(db.groups[gid].len()),
        fits(db.users[uname].len()),
    ensures
        has_user(leave_spec(join_spec(db, gid, uname), gid, uname), uname),
        user_at(leave_spec(join_spec(db, gid, uname), gid, uname), uname) == user_at(db, uname),
        group_at(db, gid).members.len() == 0 ==> !leave_spec(
            join_spec(db, gid, uname),
            gid,
            uname,
        ).groups.contains_key(gid),
        group_at(db, gid).members.len() > 0 ==> has_group(
            leave_spec(join_spec(db, gid, uname), gid, uname),
            gid,
        ) && group_at(leave_spec(join_spec(db, gid, uname), gid, uname), gid) == group_at(db, gid),
        forall|k: Seq<char>|
            k != uname && db.users.contains_key(k) ==> leave_spec(
                join_spec(db, gid, uname),
                gid,
                uname,
            ).users.contains_key(k) && leave_spec(join_spec(db, gid, uname), gid, uname).users[k]
                == db.users[k],
        forall|k: Seq<char>|
            k != gid && db.groups.contains_key(k) ==> leave_spec(
                join_spec(db, gid, uname),
                gid,
                uname,
            ).groups.contains_key(k) && leave_spec(join_spec(db, gid, uname), gid, uname).groups[k]
                == db.groups[k],
{
    let g = group_at(db, gid);
    let u = user_at(db, uname);
    let c = uuid_canon(gid)->Some_0;
    let info = GroupInfoV { uuid: c, name: g.group_name };
    let g2 = group_with_members(g, g.members.push(uname));
    let u2 = user_with_groups(u, add_ref(u.groups, info));
    let db1 = join_spec(db, gid, uname);
    lemma_decode_group_bounded(db.groups[gid]);
    lemma_decode_user_bounded(db.users[uname]);
    lemma_push_member_bounded(g, uname);
    crate::codec::lemma_group_roundtrip(g2);
    lemma_add_ref_bounded(u, info);
    crate::codec::lemma_user_roundtrip(u2);
    assert(db1.groups == db.groups.insert(gid, encode_group_v(g2)));
    assert(db1.users == db.users.insert(uname, encode_user_v(u2)));
    assert(has_group(db1, gid) && group_at(db1, gid) == g2);
    assert(has_user(db1, uname) && user_at(db1, uname) == u2);
    // The user's index goes back to exactly what it was.
    lemma_refs_without_absent(u.groups, c);
    assert(u2.groups == u.groups.push(info));
    assert((u.groups.push(info)).drop_last() =~= u.groups);
    assert((u.groups.push(info)).last() == info);
    lemma_refs_without_name_absent(u.groups, g.group_name);
    assert(refs_without_name(u2.groups, g2.group_name) == u.groups);
    let u3 = user_with_groups(u2, refs_without_name(u2.groups, g2.group_name));
    assert(u3 =~= u);
    // The member list goes back to exactly what it was.
    assert(g2.members.drop_last() =~= g.members);
    assert(g2.members.last() == uname);
    lemma_members_without_absent(g.members, uname);
    assert(members_without(g2.members, uname) == g.members);
    let db2 = leave_spec(db1, gid, uname);
    crate::codec::lemma_user_roundtrip(u);
    assert(db2.users == db1.users.insert(uname, encode_user_v(u)));
    assert(user_at(db2, uname) == u);
    if g.members.len() == 0 {
        assert(db2.groups == db1.groups.remove(gid));
    } else {
        assert(group_with_members(g2, g.members) =~= g);
        crate::codec::lemma_group_roundtrip(g);
        assert(db2.groups == db1.groups.insert(gid, encode_group_v(g)));
        assert(group_at(db2, gid) == g);
    }
}

/// Law: when the leaver is the group's only member, a repeated join is a
/// no-op and the leave deletes the group outright: a later lookup finds
/// nothing.
pub proof fn lemma_leave_last_member_deletes(db: DbV, gid: Seq<char>, uname: Seq<char>)
    requires
        has_group(db, gid),
        has_user(db, uname),
        group_at(db, gid).members == seq![uname],
    ensures
        join_spec(db, gid, uname) == db,
        !leave_spec(db, gid, uname).groups.contains_key(gid),
{
    let g = group_at(db, gid);
    assert(g.members[0] == uname);
    assert(g.members.contains(uname));
    let ms2 = members_without(g.members, uname);
    reveal_with_fuel(members_without, 2);
    assert(g.members.drop_last() =~= Seq::<Seq<char>>::empty());
    assert(g.members.last() == uname);
    assert(ms2 == members_without(g.members.drop_last(), uname));
    assert(members_without(Seq::<Seq<char>>::empty(), uname) =~= Seq::<Seq<char>>::empty());
    assert(ms2.len() == 0);
}

/// Every surviving member was in the list, and none is the removed one.
proof fn lemma_members_without_items(ms: Seq<Seq<char>>, u: Seq<char>)
    ensures
        forall|i: int|
            0 <= i < members_without(ms, u).len() ==> ms.contains(
                #[trigger] members_without(ms, u)[i],
            ) && members_without(ms, u)[i] != u,
        members_without(ms, u).len() <= ms.len(),
    decreases ms.len(),
{
    if ms.len() > 0 {
        let dl = ms.drop_last();
        lemma_members_without_items(dl, u);
        assert forall|i: int|
            0 <= i < members_without(ms, u).len() implies ms.contains(
            #[trigger] members_without(ms, u)[i],
        ) && members_without(ms, u)[i] != u by {
            let r = members_without(ms, u);
            if ms.last() == u {
                assert(r[i] == members_without(dl, u)[i]);
                assert(dl.contains(r[i]));
                let j = choose|j: int| 0 <= j < dl.len() && dl[j] == r[i];
                assert(ms[j] == r[i]);
            } else {
                if i < r.len() - 1 {
                    assert(r[i] == members_without(dl, u)[i]);
                    assert(dl.contains(r[i]));
                    let j = choose|j: int| 0 <= j < dl.len() && dl[j] == r[i];
                    assert(ms[j] == r[i]);
                } else {
                    assert(r[i] == ms.last());
                    assert(ms[ms.len() - 1] == r[i]);
                }
            }
        }
    }
}

/// The store invariant on the groups table: every stored group document
/// decodes to a well-formed group (no duplicate members, no duplicate
/// readiness keys), and none is an empty shell — a group whose last
/// member left is deleted, never kept.
pub open spec fn groups_wf(db: DbV) -> bool {
    forall|k: Seq<char>|
        #[trigger] db.groups.contains_key(k) ==> decode_group_v(db.groups[k]) is Some
            && decode_group_v(db.groups[k])->Some_0.members.len() >= 1 && group_wf(
            decode_group_v(db.groups[k])->Some_0,
        )
}

/// Removing a member keeps the remaining members pairwise distinct.
proof fn lemma_members_without_distinct(ms: Seq<Seq<char>>, u: Seq<char>)
    requires
        forall|i: int, j: int| 0 <= i < j < ms.len() ==> ms[i] != ms[j],
    ensures
        forall|i: int, j: int|
            0 <= i < j < members_without(ms, u).len() ==> members_without(ms, u)[i]
                != members_without(ms, u)[j],
    decreases ms.len(),
{
    if ms.len() > 0 {
        let dl = ms.drop_last();
        assert(forall|i: int, j: int| 0 <= i < j < dl.len() ==> dl[i] != dl[j]) by {
            assert(forall|i: int| 0 <= i < dl.len() ==> dl[i] == ms[i]);
        }
        lemma_members_without_distinct(dl, u);
        lemma_members_without_items(dl, u);
        let r = members_without(ms, u);
        let p = members_without(dl, u);
        if ms.last() == u {
            assert forall|i: int, j: int| 0 <= i < j < r.len() implies r[i] != r[j] by {
                assert(r[i] == p[i] && r[j] == p[j]);
            }
        } else {
            assert forall|i: int, j: int| 0 <= i < j < r.len() implies r[i] != r[j] by {
                if j < r.len() - 1 {
                    assert(r[i] == p[i] && r[j] == p[j]);
                } else {
                    assert(r[i] == p[i]);
                    assert(r[j] == ms.last());
                    assert(dl.contains(p[i]));
                    let k = choose|k: int| 0 <= k < dl.len() && dl[k] == p[i];
                    assert(ms[k] == p[i]);
                    assert(ms[k] != ms[ms.len() - 1]);
                }
            }
        }
    }
}

/// Law: joining preserves the groups-table invariant: the rewritten
/// document still decodes and the group keeps at least one member.
pub proof fn lemma_join_preserves_groups_wf(db: DbV, gid: Seq<char>, uname: Seq<char>)
    requires
        groups_wf(db),
        fits(uname.len()),
        db.groups.contains_key(gid) ==> fits(db.groups[gid].len()),
    ensures
        groups_wf(join_spec(db, gid, uname)),
{
    let db1 = join_spec(db, gid, uname);
    if join_allowed(db, gid, uname) && !group_at(db, gid).members.contains(uname) {
        let g = group_at(db, gid);
        let g2 = group_with_members(g, g.members.push(uname));
        lemma_decode_group_bounded(db.groups[gid]);
        lemma_push_member_bounded(g, uname);
        crate::codec::lemma_group_roundtrip(g2);
        assert(group_wf(g2)) by {
            assert forall|i: int, j: int|
                0 <= i < j < g2.members.len() implies g2.members[i] != g2.members[j] by {
                if j < g.members.len() {
                    assert(g2.members[i] == g.members[i]);
                    assert(g2.members[j] == g.members[j]);
                } else {
                    assert(g2.members[j] == uname);
                    assert(g2.members[i] == g.members[i]);
                    if g.members[i] == uname {
                        assert(g.members.contains(uname));
                    }
                }
            }
        }
        assert forall|k: Seq<char>| #[trigger] db1.groups.contains_key(k) implies decode_group_v(
            db1.groups[k],
        ) is Some && decode_group_v(db1.groups[k])->Some_0.members.len() >= 1 && group_wf(
            decode_group_v(db1.groups[k])->Some_0,
        ) by {
            if k == gid {
                assert(db1.groups[k] == encode_group_v(g2));
            } else {
                assert(db.groups.contains_key(k));
                assert(db1.groups[k] == db.groups[k]);
            }
        }
    }
}

/// Law: leaving preserves the groups-table invariant: the group is either
/// rewritten with its remaining members, or deleted outright when the
/// last member leaves — an empty group is never persisted.
pub proof fn lemma_leave_preserves_groups_wf(db: DbV, gid: Seq<char>, uname: Seq<char>)
    requires
        groups_wf(db),
    ensures
        groups_wf(leave_spec(db, gid, uname)),
{
    let db1 = leave_spec(db, gid, uname);
    if has_group(db, gid) && has_user(db, uname) {
        let g = group_at(db, gid);
        let ms2 = members_without(g.members, uname);
        lemma_decode_group_bounded(db.groups[gid]);
        lemma_members_without_items(g.members, uname);
        if ms2.len() == 0 {
            assert forall|k: Seq<char>|
                #[trigger] db1.groups.contains_key(k) implies decode_group_v(
                db1.groups[k],
            ) is Some && decode_group_v(db1.groups[k])->Some_0.members.len() >= 1 && group_wf(
                decode_group_v(db1.groups[k])->Some_0,
            ) by {
                assert(db.groups.contains_key(k));
                assert(db1.groups[k] == db.groups[k]);
            }
        } else {
            let g2 = group_with_members(g, ms2);
            assert(group_bounded(g2)) by {
                assert forall|i: int| 0 <= i < ms2.len() implies fits(
                    (#[trigger] ms2[i]).len(),
                ) by {
                    assert(g.members.contains(ms2[i]));
                    let j = choose|j: int| 0 <= j < g.members.len() && g.members[j] == ms2[i];
                    assert(fits((g.members[j]).len()));
                }
            }
            crate::codec::lemma_group_roundtrip(g2);
            assert(group_wf(g2)) by {
                lemma_members_without_distinct(g.members, uname);
            }
            assert forall|k: Seq<char>|
                #[trigger] db1.groups.contains_key(k) implies decode_group_v(
                db1.groups[k],
            ) is Some && decode_group_v(db1.groups[k])->Some_0.members.len() >= 1 && group_wf(
                decode_group_v(db1.groups[k])->Some_0,
            ) by {
                if k == gid {
                    assert(db1.groups[k] == encode_group_v(g2));
                } else {
                    assert(db.groups.contains_key(k));
                    assert(db1.groups[k] == db.groups[k]);
                }
            }
        }
    }
}

/// The reference filter leaves no entry with the filtered id.
proof fn lemma_refs_without_no_uuid(gs: Seq<GroupInfoV>, uuid: Seq<char>)
    ensures
        forall|i: int|
            0 <= i < refs_without(gs, uuid).len() ==> (#[trigger] refs_without(
                gs,
                uuid,
            )[i]).uuid != uuid,
    decreases gs.len(),
{
    if gs.len() > 0 {
        lemma_refs_without_no_uuid(gs.drop_last(), uuid);
        let dl = gs.drop_last();
        assert forall|i: int|
            0 <= i < refs_without(gs, uuid).len() implies (#[trigger] refs_without(
            gs,
            uuid,
        )[i]).uuid != uuid by {
            let r = refs_without(gs, uuid);
            if gs.last().uuid == uuid {
                assert(r[i] == refs_without(dl, uuid)[i]);
            } else {
                if i < r.len() - 1 {
                    assert(r[i] == refs_without(dl, uuid)[i]);
                } else {
                    assert(r[i] == gs.last());
                }
            }
        }
    }
}

/// The reference filter keeps ids pairwise distinct.
proof fn lemma_refs_without_distinct(gs: Seq<GroupInfoV>, uuid: Seq<char>)
    requires
        forall|i: int, j: int| 0 <= i < j < gs.len() ==> gs[i].uuid != gs[j].uuid,
    ensures
        forall|i: int, j: int|
            0 <= i < j < refs_without(gs, uuid).len() ==> refs_without(gs, uuid)[i].uuid
                != refs_without(gs, uuid)[j].uuid,
    decreases gs.len(),
{
    if gs.len() > 0 {
        let dl = gs.drop_last();
        assert(forall|i: int, j: int| 0 <= i < j < dl.len() ==> dl[i].uuid != dl[j].uuid) by {
            assert(forall|i: int| 0 <= i < dl.len() ==> dl[i] == gs[i]);
        }
        lemma_refs_without_distinct(dl, uuid);
        lemma_refs_without_items(dl, uuid);
        if gs.last().uuid == uuid {
            let r = refs_without(gs, uuid);
            let p = refs_without(dl, uuid);
            assert forall|i: int, j: int|
                0 <= i < j < r.len() implies r[i].uuid != r[j].uuid by {
                assert(r[i] == p[i] && r[j] == p[j]);
            }
        }
        if gs.last().uuid != uuid {
            let r = refs_without(gs, uuid);
            let p = refs_without(dl, uuid);
            assert forall|i: int, j: int|
                0 <= i < j < r.len() implies r[i].uuid != r[j].uuid by {
                if j < r.len() - 1 {
                    assert(r[i] == p[i] && r[j] == p[j]);
                } else {
                    assert(r[i] == p[i]);
                    assert(r[j] == gs.last());
                    assert(dl.contains(p[i]));
                    let k = choose|k: int| 0 <= k < dl.len() && dl[k] == p[i];
                    assert(gs[k] == p[i]);
                    assert(gs[k].uuid != gs[gs.len() - 1].uuid);
                }
            }
        }
    }
}

/// Law: linking a reference into a well-formed user document keeps it
/// well-formed: the membership index never gains two references to the
/// same group id.
pub proof fn lemma_add_ref_keeps_user_wf(u: UserDataV, info: GroupInfoV)
    requires
        user_wf(u),
    ensures
        user_wf(user_with_groups(u, add_ref(u.groups, info))),
{
    lemma_refs_without_distinct(u.groups, info.uuid);
    lemma_refs_without_no_uuid(u.groups, info.uuid);
    let r = add_ref(u.groups, info);
    let p = refs_without(u.groups, info.uuid);
    assert forall|i: int, j: int| 0 <= i < j < r.len() implies r[i].uuid != r[j].uuid by {
        if j < r.len() - 1 {
            assert(r[i] == p[i] && r[j] == p[j]);
        } else {
            assert(r[j] == info);
            assert(r[i] == p[i]);
        }
    }
}

/// The index holds a reference to this group id carrying this name.
pub open spec fn has_ref_named(gs: Seq<GroupInfoV>, uuid: Seq<char>, name: Seq<char>) -> bool {
    exists|i: int| 0 <= i < gs.len() && gs[i].uuid == uuid && gs[i].name == name
}

/// Every stored document decodes.
pub open spec fn all_decode(db: DbV) -> bool {
    &&& forall|k: Seq<char>|
        #[trigger] db.users.contains_key(k) ==> decode_user_v(db.users[k]) is Some
    &&& forall|k: Seq<char>|
        #[trigger] db.groups.contains_key(k) ==> decode_group_v(db.groups[k]) is Some
}

/// Every reference in a user's membership index points at a stored group
/// that lists the user as a member, under that group's current name.
pub open spec fn index_consistent(db: DbV) -> bool {
    forall|uk: Seq<char>, i: int|
        db.users.contains_key(uk) && 0 <= i < user_at(db, uk).groups.len() ==> {
            &&& has_group(db, (#[trigger] user_at(db, uk).groups[i]).uuid)
            &&& group_at(db, user_at(db, uk).groups[i].uuid).members.contains(uk)
            &&& user_at(db, uk).groups[i].name == group_at(
                db,
                user_at(db, uk).groups[i].uuid,
            ).group_name
        }
}

/// Every member of a stored group is a registered user whose index holds
/// a matching reference to that group.
pub open spec fn membership_consistent(db: DbV) -> bool {
    forall|gk: Seq<char>, j: int|
        db.groups.contains_key(gk) && 0 <= j < group_at(db, gk).members.len() ==> {
            &&& has_user(db, #[trigger] group_at(db, gk).members[j])
            &&& has_ref_named(
                user_at(db, group_at(db, gk).members[j]).groups,
                gk,
                group_at(db, gk).group_name,
            )
        }
}

/// The protocol invariant the coordinator maintains across the two
/// tables: the membership index and the member lists mirror each other
/// exactly, though the store itself enforces nothing.
pub open spec fn consistent(db: DbV) -> bool {
    all_decode(db) && index_consistent(db) && membership_consistent(db)
}

proof fn lemma_join_all_decode(db: DbV, db1: DbV, gid: Seq<char>, uname: Seq<char>, g2: GroupDataV, u2: UserDataV)
    requires
        all_decode(db),
        db1.users == db.users.insert(uname, encode_user_v(u2)),
        db1.groups == db.groups.insert(gid, encode_group_v(g2)),
        decode_user_v(encode_user_v(u2)) == Some(u2),
        decode_group_v(encode_group_v(g2)) == Some(g2),
    ensures
        all_decode(db1),
{
    assert forall|k: Seq<char>| #[trigger] db1.users.contains_key(k) implies decode_user_v(
        db1.users[k],
    ) is Some by {
        if k != uname {
            assert(db.users.contains_key(k));
            assert(db1.users[k] == db.users[k]);
        }
    }
    assert forall|k: Seq<char>| #[trigger] db1.groups.contains_key(k) implies decode_group_v(
        db1.groups[k],
    ) is Some by {
        if k != gid {
            assert(db.groups.contains_key(k));
            assert(db1.groups[k] == db.groups[k]);
        }
    }
}

proof fn lemma_join_index_consistent(
    db: DbV,
    db1: DbV,
    gid: Seq<char>,
    uname: Seq<char>,
    g: GroupDataV,
    u: UserDataV,
    g2: GroupDataV,
    u2: UserDataV,
)
    requires
        consistent(db),
        db.groups.contains_key(gid),
        db.users.contains_key(uname),
        decode_group_v(db.groups[gid]) == Some(g),
        decode_user_v(db.users[uname]) == Some(u),
        g2 == group_with_members(g, g.members.push(uname)),
        u2 == user_with_groups(u, u.groups.push(GroupInfoV { uuid: gid, name: g.group_name })),
        db1.users == db.users.insert(uname, encode_user_v(u2)),
        db1.groups == db.groups.insert(gid, encode_group_v(g2)),
        decode_user_v(encode_user_v(u2)) == Some(u2),
        decode_group_v(encode_group_v(g2)) == Some(g2),
    ensures
        index_consistent(db1),
{
    let info = GroupInfoV { uuid: gid, name: g.group_name };
    assert forall|uk: Seq<char>, i: int|
        db1.users.contains_key(uk) && 0 <= i < user_at(db1, uk).groups.len() implies {
        &&& has_group(db1, (#[trigger] user_at(db1, uk).groups[i]).uuid)
        &&& group_at(db1, user_at(db1, uk).groups[i].uuid).members.contains(uk)
        &&& user_at(db1, uk).groups[i].name == group_at(
            db1,
            user_at(db1, uk).groups[i].uuid,
        ).group_name
    } by {
        let refs = user_at(db1, uk).groups;
        if uk == uname && i == refs.len() - 1 {
            assert(refs[i] == info);
            assert(group_at(db1, gid) == g2);
            assert(g2.members[g.members.len() as int] == uname);
            assert(g2.members.contains(uname));
        } else {
            assert(db.users.contains_key(uk));
            let old_refs = user_at(db, uk).groups;
            if uk == uname {
                assert(user_at(db1, uk) == u2);
                assert(refs[i] == old_refs[i]);
            } else {
                assert(db1.users[uk] == db.users[uk]);
                assert(user_at(db1, uk) == user_at(db, uk));
                assert(refs[i] == old_refs[i]);
            }
            let r = old_refs[i];
            assert(has_group(db, r.uuid));
            assert(group_at(db, r.uuid).members.contains(uk));
            assert(r.name == group_at(db, r.uuid).group_name);
            let w = choose|w: int|
                0 <= w < group_at(db, r.uuid).members.len() && group_at(db, r.uuid).members[w]
                    == uk;
            if r.uuid == gid {
                assert(group_at(db, gid) == g);
                assert(group_at(db1, gid) == g2);
                assert(g2.members[w] == uk);
                assert(g2.members.contains(uk));
            } else {
                assert(db1.groups[r.uuid] == db.groups[r.uuid]);
                assert(group_at(db1, r.uuid) == group_at(db, r.uuid));
            }
        }
    }
}

proof fn lemma_join_membership_consistent(
    db: DbV,
    db1: DbV,
    gid: Seq<char>,
    uname: Seq<char>,
    g: GroupDataV,
    u: UserDataV,
    g2: GroupDataV,
    u2: UserDataV,
)
    requires
        consistent(db),
        db.groups.contains_key(gid),
        db.users.contains_key(uname),
        decode_group_v(db.groups[gid]) == Some(g),
        decode_user_v(db.users[uname]) == Some(u),
        g2 == group_with_members(g, g.members.push(uname)),
        u2 == user_with_groups(u, u.groups.push(GroupInfoV { uuid: gid, name: g.group_name })),
        db1.users == db.users.insert(uname, encode_user_v(u2)),
        db1.groups == db.groups.insert(gid, encode_group_v(g2)),
        decode_user_v(encode_user_v(u2)) == Some(u2),
        decode_group_v(encode_group_v(g2)) == Some(g2),
    ensures
        membership_consistent(db1),
{
    let info = GroupInfoV { uuid: gid, name: g.group_name };
    assert forall|gk: Seq<char>, j: int|
        db1.groups.contains_key(gk) && 0 <= j < group_at(db1, gk).members.len() implies {
        &&& has_user(db1, #[trigger] group_at(db1, gk).members[j])
        &&& has_ref_named(
            user_at(db1, group_at(db1, gk).members[j]).groups,
            gk,
            group_at(db1, gk).group_name,
        )
    } by {
        let ms = group_at(db1, gk).members;
        if gk == gid && j == ms.len() - 1 {
            assert(group_at(db1, gid) == g2);
            assert(ms[j] == uname);
            assert(user_at(db1, uname) == u2);
            assert(u2.groups[u.groups.len() as int] == info);
            assert(has_ref_named(u2.groups, gid, g2.group_name));
        } else {
            assert(db.groups.contains_key(gk));
            let m = ms[j];
            assert(group_at(db, gk).members.contains(m)) by {
                if gk == gid {
                    assert(group_at(db1, gid) == g2);
                    assert(group_at(db, gid) == g);
                    assert(ms[j] == g.members[j]);
                } else {
                    assert(db1.groups[gk] == db.groups[gk]);
                    assert(group_at(db1, gk) == group_at(db, gk));
                    assert(group_at(db, gk).members[j] == m);
                }
            }
            let w = choose|w: int|
                0 <= w < group_at(db, gk).members.len() && group_at(db, gk).members[w] == m;
            assert(has_user(db, m));
            assert(has_ref_named(user_at(db, m).groups, gk, group_at(db, gk).group_name));
            if m == uname {
                let t = choose|t: int|
                    0 <= t < user_at(db, m).groups.len() && user_at(db, m).groups[t].uuid == gk
                        && user_at(db, m).groups[t].name == group_at(db, gk).group_name;
                assert(u.groups[t].uuid == gk);
                assert(u2.groups[t] == u.groups[t]);
                assert(user_at(db1, uname) == u2);
                assert(has_ref_named(u2.groups, gk, group_at(db, gk).group_name));
            } else {
                assert(db1.users[m] == db.users[m]);
                assert(user_at(db1, m) == user_at(db, m));
            }
            assert(group_at(db1, gk).group_name == group_at(db, gk).group_name) by {
                if gk == gid {
                    assert(group_at(db1, gid) == g2);
                } else {
                    assert(db1.groups[gk] == db.groups[gk]);
                }
            }
        }
    }
}

/// Law: joining preserves cross-table consistency — every reference keeps
/// pointing at a group that lists its holder, and every member keeps a
/// matching reference — provided stored group keys are canonical
/// identifiers, as the engine creates them.
pub proof fn lemma_join_preserves_consistency(db: DbV, gid: Seq<char>, uname: Seq<char>)
    requires
        consistent(db),
        uuid_canon(gid) matches Some(c) ==> c == gid,
        fits(uname.len()),
        fits(gid.len()),
        db.groups.contains_key(gid) ==> fits(db.groups[gid].len()),
        db.users.contains_key(uname) ==> fits(db.users[uname].len()),
    ensures
        consistent(join_spec(db, gid, uname)),
{
    if !(join_allowed(db, gid, uname) && !group_at(db, gid).members.contains(uname)) {
        assert(join_spec(db, gid, uname) == db);
    } else {
        let g = group_at(db, gid);
        let u = user_at(db, uname);
        assert(uuid_canon(gid)->Some_0 == gid);
        let info = GroupInfoV { uuid: gid, name: g.group_name };
        let g2 = group_with_members(g, g.members.push(uname));
        let db1 = join_spec(db, gid, uname);
        lemma_decode_group_bounded(db.groups[gid]);
        lemma_decode_user_bounded(db.users[uname]);
        lemma_push_member_bounded(g, uname);
        crate::codec::lemma_group_roundtrip(g2);
        lemma_add_ref_bounded(u, info);
        // The user held no reference to this group, so the insert is a
        // plain append.
        assert(!has_ref(u.groups, gid)) by {
            if has_ref(u.groups, gid) {
                let i = choose|i: int| 0 <= i < u.groups.len() && u.groups[i].uuid == gid;
                assert(group_at(db, u.groups[i].uuid).members.contains(uname));
            }
        }
        lemma_refs_without_absent(u.groups, gid);
        let u2 = user_with_groups(u, u.groups.push(info));
        assert(add_ref(u.groups, info) == u.groups.push(info));
        crate::codec::lemma_user_roundtrip(u2);
        assert(db1.users == db.users.insert(uname, encode_user_v(u2)));
        assert(db1.groups == db.groups.insert(gid, encode_group_v(g2)));
        lemma_join_all_decode(db, db1, gid, uname, g2, u2);
        lemma_join_index_consistent(db, db1, gid, uname, g, u, g2, u2);
        lemma_join_membership_consistent(db, db1, gid, uname, g, u, g2, u2);
    }
}

/// Every surviving reference was in the index and none carries the
/// filtered name.
proof fn lemma_refs_without_name_items(gs: Seq<GroupInfoV>, name: Seq<char>)
    ensures
        forall|i: int|
            0 <= i < refs_without_name(gs, name).len() ==> gs.contains(
                #[trigger] refs_without_name(gs, name)[i],
            ) && refs_without_name(gs, name)[i].name != name,
        refs_without_name(gs, name).len() <= gs.len(),
    decreases gs.len(),
{
    if gs.len() > 0 {
        let dl = gs.drop_last();
        lemma_refs_without_name_items(dl, name);
        assert forall|i: int|
            0 <= i < refs_without_name(gs, name).len() implies gs.contains(
            #[trigger] refs_without_name(gs, name)[i],
        ) && refs_without_name(gs, name)[i].name != name by {
            let r = refs_without_name(gs, name);
            let p = refs_without_name(dl, name);
            if gs.last().name == name {
                assert(r[i] == p[i]);
                assert(dl.contains(p[i]));
                let j = choose|j: int| 0 <= j < dl.len() && dl[j] == p[i];
                assert(gs[j] == r[i]);
            } else {
                if i < r.len() - 1 {
                    assert(r[i] == p[i]);
                    assert(dl.contains(p[i]));
                    let j = choose|j: int| 0 <= j < dl.len() && dl[j] == p[i];
                    assert(gs[j] == r[i]);
                } else {
                    assert(r[i] == gs.last());
                    assert(gs[gs.len() - 1] == r[i]);
                }
            }
        }
    }
}

/// A reference whose name differs from the filtered one survives.
proof fn lemma_refs_without_name_keeps(gs: Seq<GroupInfoV>, name: Seq<char>, x: GroupInfoV)
    requires
        gs.contains(x),
        x.name != name,
    ensures
        refs_without_name(gs, name).contains(x),
    decreases gs.len(),
{
    let dl = gs.drop_last();
    let p = refs_without_name(dl, name);
    if gs.last() == x {
        if gs.last().name == name {
        } else {
            let r = refs_without_name(gs, name);
            assert(r[r.len() - 1] == x);
        }
    } else {
        assert(dl.contains(x)) by {
            let j = choose|j: int| 0 <= j < gs.len() && gs[j] == x;
            assert(dl[j] == x);
        }
        lemma_refs_without_name_keeps(dl, name, x);
        let w = choose|w: int| 0 <= w < p.len() && p[w] == x;
        if gs.last().name == name {
            assert(refs_without_name(gs, name)[w] == x);
        } else {
            assert(refs_without_name(gs, name)[w] == x);
        }
    }
}

/// A member other than the removed one survives.
proof fn lemma_members_without_keeps(ms: Seq<Seq<char>>, u: Seq<char>, x: Seq<char>)
    requires
        ms.contains(x),
        x != u,
    ensures
        members_without(ms, u).contains(x),
    decreases ms.len(),
{
    let dl = ms.drop_last();
    let p = members_without(dl, u);
    if ms.last() == x {
        let r = members_without(ms, u);
        assert(r[r.len() - 1] == x);
    } else {
        assert(dl.contains(x)) by {
            let j = choose|j: int| 0 <= j < ms.len() && ms[j] == x;
            assert(dl[j] == x);
        }
        lemma_members_without_keeps(dl, u, x);
        let w = choose|w: int| 0 <= w < p.len() && p[w] == x;
        if ms.last() == u {
            assert(members_without(ms, u)[w] == x);
        } else {
            assert(members_without(ms, u)[w] == x);
        }
    }
}

/// If nothing survives the removal, every member was the removed one.
proof fn lemma_members_without_empty(ms: Seq<Seq<char>>, u: Seq<char>)
    requires
        members_without(ms, u).len() == 0,
    ensures
        forall|j: int| 0 <= j < ms.len() ==> ms[j] == u,
    decreases ms.len(),
{
    if ms.len() > 0 {
        let dl = ms.drop_last();
        assert(ms.last() == u) by {
            if ms.last() != u {
                assert(members_without(ms, u).len() == members_without(dl, u).len() + 1);
            }
        }
        lemma_members_without_empty(dl, u);
        assert forall|j: int| 0 <= j < ms.len() implies ms[j] == u by {
            if j < ms.len() - 1 {
                assert(dl[j] == ms[j]);
            }
        }
    }
}

proof fn lemma_leave_all_decode(
    db: DbV,
    db1: DbV,
    gid: Seq<char>,
    uname: Seq<char>,
    g3: GroupDataV,
    u3: UserDataV,
    deleted: bool,
)
    requires
        all_decode(db),
        db1.users == db.users.insert(uname, encode_user_v(u3)),
        decode_user_v(encode_user_v(u3)) == Some(u3),
        deleted ==> db1.groups == db.groups.remove(gid),
        !deleted ==> db1.groups == db.groups.insert(gid, encode_group_v(g3))
            && decode_group_v(encode_group_v(g3)) == Some(g3),
    ensures
        all_decode(db1),
{
    assert forall|k: Seq<char>| #[trigger] db1.users.contains_key(k) implies decode_user_v(
        db1.users[k],
    ) is Some by {
        if k != uname {
            assert(db.users.contains_key(k));
            assert(db1.users[k] == db.users[k]);
        }
    }
    assert forall|k: Seq<char>| #[trigger] db1.groups.contains_key(k) implies decode_group_v(
        db1.groups[k],
    ) is Some by {
        if deleted || k != gid {
            assert(db.groups.contains_key(k));
            assert(db1.groups[k] == db.groups[k]);
        }
    }
}

proof fn lemma_leave_index_case_leaver(
    db: DbV,
    db1: DbV,
    gid: Seq<char>,
    uname: Seq<char>,
    g: GroupDataV,
    u: UserDataV,
    u3: UserDataV,
    i: int,
)
    requires
        index_consistent(db),
        db.groups.contains_key(gid),
        db.users.contains_key(uname),
        decode_group_v(db.groups[gid]) == Some(g),
        decode_user_v(db.users[uname]) == Some(u),
        u3 == user_with_groups(u, refs_without_name(u.groups, g.group_name)),
        db1.users == db.users.insert(uname, encode_user_v(u3)),
        decode_user_v(encode_user_v(u3)) == Some(u3),
        forall|k: Seq<char>|
            k != gid && db.groups.contains_key(k) ==> db1.groups.contains_key(k)
                && db1.groups[k] == db.groups[k],
        0 <= i < u3.groups.len(),
    ensures
        has_group(db1, u3.groups[i].uuid),
        group_at(db1, u3.groups[i].uuid).members.contains(uname),
        u3.groups[i].name == group_at(db1, u3.groups[i].uuid).group_name,
{
    // A surviving reference of the leaver: it cannot point at the left
    // group, whose current name every reference to it carries.
    lemma_refs_without_name_items(u.groups, g.group_name);
    let r = u3.groups[i];
    assert(u.groups.contains(r) && r.name != g.group_name);
    let t = choose|t: int| 0 <= t < u.groups.len() && u.groups[t] == r;
    assert(user_at(db, uname) == u);
    assert(has_group(db, r.uuid));
    assert(group_at(db, r.uuid).members.contains(uname));
    assert(r.name == group_at(db, r.uuid).group_name);
    assert(r.uuid != gid) by {
        if r.uuid == gid {
            assert(r.name == g.group_name);
        }
    }
    assert(db1.groups[r.uuid] == db.groups[r.uuid]);
    assert(group_at(db1, r.uuid) == group_at(db, r.uuid));
}

proof fn lemma_leave_index_case_other_deleted(
    db: DbV,
    db1: DbV,
    gid: Seq<char>,
    uname: Seq<char>,
    g: GroupDataV,
    uk: Seq<char>,
    i: int,
)
    requires
        index_consistent(db),
        db.groups.contains_key(gid),
        decode_group_v(db.groups[gid]) == Some(g),
        forall|j: int| 0 <= j < g.members.len() ==> g.members[j] == uname,
        forall|k: Seq<char>|
            k != gid && db.groups.contains_key(k) ==> db1.groups.contains_key(k)
                && db1.groups[k] == db.groups[k],
        uk != uname,
        db.users.contains_key(uk),
        0 <= i < user_at(db, uk).groups.len(),
    ensures
        has_group(db1, user_at(db, uk).groups[i].uuid),
        group_at(db1, user_at(db, uk).groups[i].uuid).members.contains(uk),
        user_at(db, uk).groups[i].name == group_at(
            db1,
            user_at(db, uk).groups[i].uuid,
        ).group_name,
{
    let r = user_at(db, uk).groups[i];
    assert(has_group(db, r.uuid));
    assert(group_at(db, r.uuid).members.contains(uk));
    assert(r.name == group_at(db, r.uuid).group_name);
    // Nobody but the leaver was listed in the deleted group, so no other
    // user's reference points at it.
    assert(r.uuid != gid) by {
        if r.uuid == gid {
            let w = choose|w: int| 0 <= w < g.members.len() && g.members[w] == uk;
            assert(g.members[w] == uname);
        }
    }
    assert(db1.groups[r.uuid] == db.groups[r.uuid]);
    assert(group_at(db1, r.uuid) == group_at(db, r.uuid));
}

proof fn lemma_leave_index_case_other_update(
    db: DbV,
    db1: DbV,
    gid: Seq<char>,
    uname: Seq<char>,
    g: GroupDataV,
    g3: GroupDataV,
    uk: Seq<char>,
    i: int,
)
    requires
        index_consistent(db),
        db.groups.contains_key(gid),
        decode_group_v(db.groups[gid]) == Some(g),
        g3 == group_with_members(g, members_without(g.members, uname)),
        db1.groups.contains_key(gid),
        db1.groups[gid] == encode_group_v(g3),
        decode_group_v(encode_group_v(g3)) == Some(g3),
        forall|k: Seq<char>|
            k != gid && db.groups.contains_key(k) ==> db1.groups.contains_key(k)
                && db1.groups[k] == db.groups[k],
        uk != uname,
        db.users.contains_key(uk),
        0 <= i < user_at(db, uk).groups.len(),
    ensures
        has_group(db1, user_at(db, uk).groups[i].uuid),
        group_at(db1, user_at(db, uk).groups[i].uuid).members.contains(uk),
        user_at(db, uk).groups[i].name == group_at(
            db1,
            user_at(db, uk).groups[i].uuid,
        ).group_name,
{
    let r = user_at(db, uk).groups[i];
    assert(has_group(db, r.uuid));
    assert(group_at(db, r.uuid).members.contains(uk));
    assert(r.name == group_at(db, r.uuid).group_name);
    if r.uuid == gid {
        // Any other member of the left group stays listed, under the
        // unchanged name.
        lemma_members_without_keeps(g.members, uname, uk);
        assert(group_at(db1, gid) == g3);
        assert(g3.members.contains(uk));
    } else {
        assert(db1.groups[r.uuid] == db.groups[r.uuid]);
        assert(group_at(db1, r.uuid) == group_at(db, r.uuid));
    }
}

#[verifier::spinoff_prover]
proof fn lemma_leave_index_deleted(
    db: DbV,
    db1: DbV,
    gid: Seq<char>,
    uname: Seq<char>,
    g: GroupDataV,
    u: UserDataV,
    u3: UserDataV,
)
    requires
        index_consistent(db),
        db.groups.contains_key(gid),
        db.users.contains_key(uname),
        decode_group_v(db.groups[gid]) == Some(g),
        decode_user_v(db.users[uname]) == Some(u),
        u3 == user_with_groups(u, refs_without_name(u.groups, g.group_name)),
        db1.users == db.users.insert(uname, encode_user_v(u3)),
        decode_user_v(encode_user_v(u3)) == Some(u3),
        db1.groups == db.groups.remove(gid),
        forall|j: int| 0 <= j < g.members.len() ==> g.members[j] == uname,
    ensures
        index_consistent(db1),
{
    assert forall|uk: Seq<char>, i: int|
        db1.users.contains_key(uk) && 0 <= i < user_at(db1, uk).groups.len() implies {
        &&& has_group(db1, (#[trigger] user_at(db1, uk).groups[i]).uuid)
        &&& group_at(db1, user_at(db1, uk).groups[i].uuid).members.contains(uk)
        &&& user_at(db1, uk).groups[i].name == group_at(
            db1,
            user_at(db1, uk).groups[i].uuid,
        ).group_name
    } by {
        if uk == uname {
            assert(user_at(db1, uname) == u3);
            lemma_leave_index_case_leaver(db, db1, gid, uname, g, u, u3, i);
        } else {
            assert(db.users.contains_key(uk));
            assert(db1.users[uk] == db.users[uk]);
            assert(user_at(db1, uk) == user_at(db, uk));
            lemma_leave_index_case_other_deleted(db, db1, gid, uname, g, uk, i);
        }
    }
}

#[verifier::spinoff_prover]
proof fn lemma_leave_index_update(
    db: DbV,
    db1: DbV,
    gid: Seq<char>,
    uname: Seq<char>,
    g: GroupDataV,
    u: UserDataV,
    g3: GroupDataV,
    u3: UserDataV,
)
    requires
        index_consistent(db),
        db.groups.contains_key(gid),
        db.users.contains_key(uname),
        decode_group_v(db.groups[gid]) == Some(g),
        decode_user_v(db.users[uname]) == Some(u),
        u3 == user_with_groups(u, refs_without_name(u.groups, g.group_name)),
        db1.users == db.users.insert(uname, encode_user_v(u3)),
        decode_user_v(encode_user_v(u3)) == Some(u3),
        db1.groups == db.groups.insert(gid, encode_group_v(g3)),
        g3 == group_with_members(g, members_without(g.members, uname)),
        decode_group_v(encode_group_v(g3)) == Some(g3),
    ensures
        index_consistent(db1),
{
    assert forall|uk: Seq<char>, i: int|
        db1.users.contains_key(uk) && 0 <= i < user_at(db1, uk).groups.len() implies {
        &&& has_group(db1, (#[trigger] user_at(db1, uk).groups[i]).uuid)
        &&& group_at(db1, user_at(db1, uk).groups[i].uuid).members.contains(uk)
        &&& user_at(db1, uk).groups[i].name == group_at(
            db1,
            user_at(db1, uk).groups[i].uuid,
        ).group_name
    } by {
        if uk == uname {
            assert(user_at(db1, uname) == u3);
            lemma_leave_index_case_leaver(db, db1, gid, uname, g, u, u3, i);
        } else {
            assert(db.users.contains_key(uk));
            assert(db1.users[uk] == db.users[uk]);
            assert(user_at(db1, uk) == user_at(db, uk));
            lemma_leave_index_case_other_update(db, db1, gid, uname, g, g3, uk, i);
        }
    }
}

#[verifier::rlimit(100)]
#[verifier::spinoff_prover]
proof fn lemma_leave_membership_consistent(
    db: DbV,
    db1: DbV,
    gid: Seq<char>,
    uname: Seq<char>,
    g: GroupDataV,
    u: UserDataV,
    g3: GroupDataV,
    u3: UserDataV,
    deleted: bool,
)
    requires
        membership_consistent(db),
        db.groups.contains_key(gid),
        db.users.contains_key(uname),
        decode_group_v(db.groups[gid]) == Some(g),
        decode_user_v(db.users[uname]) == Some(u),
        forall|i: int|
            0 <= i < u.groups.len() ==> ((#[trigger] u.groups[i]).name == g.group_name
                ==> u.groups[i].uuid == gid),
        u3 == user_with_groups(u, refs_without_name(u.groups, g.group_name)),
        db1.users == db.users.insert(uname, encode_user_v(u3)),
        decode_user_v(encode_user_v(u3)) == Some(u3),
        deleted ==> db1.groups == db.groups.remove(gid),
        !deleted ==> db1.groups == db.groups.insert(gid, encode_group_v(g3)) && g3
            == group_with_members(g, members_without(g.members, uname)) && decode_group_v(
            encode_group_v(g3),
        ) == Some(g3),
    ensures
        membership_consistent(db1),
{
    lemma_members_without_items(g.members, uname);
    assert forall|gk: Seq<char>, j: int|
        db1.groups.contains_key(gk) && 0 <= j < group_at(db1, gk).members.len() implies {
        &&& has_user(db1, #[trigger] group_at(db1, gk).members[j])
        &&& has_ref_named(
            user_at(db1, group_at(db1, gk).members[j]).groups,
            gk,
            group_at(db1, gk).group_name,
        )
    } by {
        if !deleted && gk == gid {
            // A remaining member of the left group: not the leaver, so its
            // document and its reference are untouched.
            assert(group_at(db1, gid) == g3);
            let m = g3.members[j];
            assert(g.members.contains(m) && m != uname);
            let w = choose|w: int| 0 <= w < g.members.len() && g.members[w] == m;
            assert(has_user(db, m));
            assert(has_ref_named(user_at(db, m).groups, gid, g.group_name));
            assert(db1.users[m] == db.users[m]);
            assert(user_at(db1, m) == user_at(db, m));
            assert(g3.group_name == g.group_name);
        } else {
            assert(db.groups.contains_key(gk));
            assert(db1.groups[gk] == db.groups[gk]);
            assert(group_at(db1, gk) == group_at(db, gk));
            let m = group_at(db, gk).members[j];
            assert(has_user(db, m));
            assert(has_ref_named(user_at(db, m).groups, gk, group_at(db, gk).group_name));
            if m == uname {
                // The leaver's reference to any other group survives the
                // name filter: a same-named reference could only point at
                // the left group itself.
                let t = choose|t: int|
                    0 <= t < u.groups.len() && u.groups[t].uuid == gk && u.groups[t].name
                        == group_at(db, gk).group_name;
                assert(u.groups[t].name != g.group_name) by {
                    if u.groups[t].name == g.group_name {
                        assert(u.groups[t].uuid == gid);
                    }
                }
                assert(u.groups.contains(u.groups[t]));
                lemma_refs_without_name_keeps(u.groups, g.group_name, u.groups[t]);
                assert(user_at(db1, uname) == u3);
                let s = choose|s: int|
                    0 <= s < u3.groups.len() && u3.groups[s] == u.groups[t];
                assert(has_ref_named(u3.groups, gk, group_at(db, gk).group_name));
            } else {
                assert(db1.users[m] == db.users[m]);
                assert(user_at(db1, m) == user_at(db, m));
            }
        }
    }
}

/// Law: leaving preserves cross-table consistency, provided the leaver
/// belongs to no other group carrying the same name (references are
/// cleared by name, so a same-named sibling would be stranded).
pub proof fn lemma_leave_preserves_consistency(db: DbV, gid: Seq<char>, uname: Seq<char>)
    requires
        consistent(db),
        has_group(db, gid) && has_user(db, uname) ==> forall|i: int|
            0 <= i < user_at(db, uname).groups.len() ==> ((#[trigger] user_at(
                db,
                uname,
            ).groups[i]).name == group_at(db, gid).group_name ==> user_at(db, uname).groups[i].uuid
                == gid),
    ensures
        consistent(leave_spec(db, gid, uname)),
{
    if has_group(db, gid) && has_user(db, uname) {
        let g = group_at(db, gid);
        let u = user_at(db, uname);
        lemma_decode_group_bounded(db.groups[gid]);
        lemma_decode_user_bounded(db.users[uname]);
        let refs3 = refs_without_name(u.groups, g.group_name);
        let u3 = user_with_groups(u, refs3);
        lemma_refs_without_name_items(u.groups, g.group_name);
        assert(user_bounded(u3)) by {
            assert forall|i: int| 0 <= i < refs3.len() implies fits(
                (#[trigger] refs3[i]).uuid.len(),
            ) && fits(refs3[i].name.len()) by {
                assert(u.groups.contains(refs3[i]));
                let t = choose|t: int| 0 <= t < u.groups.len() && u.groups[t] == refs3[i];
                assert(fits((u.groups[t]).uuid.len()) && fits(u.groups[t].name.len()));
            }
        }
        crate::codec::lemma_user_roundtrip(u3);
        let ms2 = members_without(g.members, uname);
        lemma_members_without_items(g.members, uname);
        let db1 = leave_spec(db, gid, uname);
        if ms2.len() == 0 {
            lemma_members_without_empty(g.members, uname);
            assert(db1.users == db.users.insert(uname, encode_user_v(u3)));
            assert(db1.groups == db.groups.remove(gid));
            lemma_leave_all_decode(db, db1, gid, uname, g, u3, true);
            lemma_leave_index_deleted(db, db1, gid, uname, g, u, u3);
            lemma_leave_membership_consistent(db, db1, gid, uname, g, u, g, u3, true);
        } else {
            let g3 = group_with_members(g, ms2);
            assert(group_bounded(g3)) by {
                assert forall|i: int| 0 <= i < ms2.len() implies fits(
                    (#[trigger] ms2[i]).len(),
                ) by {
                    assert(g.members.contains(ms2[i]));
                    let t = choose|t: int| 0 <= t < g.members.len() && g.members[t] == ms2[i];
                    assert(fits((g.members[t]).len()));
                }
            }
            crate::codec::lemma_group_roundtrip(g3);
            assert(db1.users == db.users.insert(uname, encode_user_v(u3)));
            assert(db1.groups == db.groups.insert(gid, encode_group_v(g3)));
            lemma_leave_all_decode(db, db1, gid, uname, g3, u3, false);
            lemma_leave_index_update(db, db1, gid, uname, g, u, g3, u3);
            lemma_leave_membership_consistent(db, db1, gid, uname, g, u, g3, u3, false);
        }
    } else {
        assert(leave_spec(db, gid, uname) == db);
    }
}

} // verus!
