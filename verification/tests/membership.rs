//! Coordinator behaviour over the in-memory store: registration, group
//! creation, join/leave consistency, password rotation.

use movie_night::auth::verify_pass;
use movie_night::codec::{decode_group, decode_user, encode_group, encode_user};
use movie_night::db_structs::{DBGroup, DBUser, GroupForm, GroupInfo, SystemState, UserData, UserInfo};
use movie_night::error_handling::WarpRejections;
use movie_night::new_db_stuff::{
    create_group, create_group_data, create_user_data, db_add_group_to_user, db_add_user_to_group,
    db_delete_group, db_delete_user, db_get_group, db_get_group_data, db_get_group_members,
    db_get_user, db_get_user_data, db_insert_group, db_insert_user, db_save_group_movies,
    db_update_group, db_update_password, db_update_username, db_update_user,
    db_user_leave_group1, db_verify_group_member, login, register,
};
use movie_night::store::Database;

fn info(username: &str, password: &str) -> UserInfo {
    UserInfo { username: username.to_string(), password: password.to_string() }
}

fn form(username: &str, group_name: &str) -> GroupForm {
    GroupForm { username: username.to_string(), group_name: group_name.to_string() }
}

#[test]
fn register_then_fetch() {
    let mut db = Database::new();
    let u = register(&mut db, &info("alice", "pw")).unwrap();
    assert!(u.groups.is_empty());
    assert_eq!(u.date_created, u.date_modified);
    assert!(u.date_created >= 0);
    let fetched = db_get_user(&db, "alice").unwrap();
    assert_eq!(fetched.username, "alice");
    assert_eq!(fetched.user_data.id, u.id);
    assert_eq!(fetched.user_data.salt, u.salt);
    assert_eq!(fetched.user_data.hashed_password, u.hashed_password);
}

#[test]
fn duplicate_registration_conflicts() {
    let mut db = Database::new();
    register(&mut db, &info("alice", "pw")).unwrap();
    assert_eq!(register(&mut db, &info("alice", "pw2")).unwrap_err(), WarpRejections::Conflict);
}

#[test]
fn missing_user_and_group_not_found() {
    let mut db = Database::new();
    assert_eq!(db_get_user(&db, "nobody").unwrap_err(), WarpRejections::UserNotExist);
    assert_eq!(db_get_group(&db, "nothing").unwrap_err(), WarpRejections::GroupNotExist);
    assert_eq!(db_delete_user(&mut db, "nobody").unwrap_err(), WarpRejections::UserNotExist);
    assert_eq!(db_delete_group(&mut db, "nothing").unwrap_err(), WarpRejections::GroupNotExist);
}

#[test]
fn create_group_links_creator() {
    let mut db = Database::new();
    register(&mut db, &info("alice", "pw")).unwrap();
    let ginfo = create_group(&mut db, &form("alice", "movie night")).unwrap();
    assert_eq!(ginfo.name, "movie night");
    let gs = db_get_group(&db, &ginfo.uuid).unwrap();
    assert_eq!(gs.group_data.members, vec!["alice".to_string()]);
    assert_eq!(gs.group_data.group_name, "movie night");
    assert!(matches!(gs.group_data.system_state, SystemState::AddingMovies));
    assert_eq!(gs.group_data.turn, "");
    let alice = db_get_user(&db, "alice").unwrap();
    assert!(alice
        .user_data
        .groups
        .iter()
        .any(|g| g.name == "movie night" && g.uuid == ginfo.uuid));
}

#[test]
fn join_is_idempotent() {
    let mut db = Database::new();
    register(&mut db, &info("alice", "pw")).unwrap();
    register(&mut db, &info("bob", "pw")).unwrap();
    let ginfo = create_group(&mut db, &form("alice", "g")).unwrap();
    db_add_user_to_group(&ginfo.uuid, "bob", &mut db).unwrap();
    db_add_user_to_group(&ginfo.uuid, "bob", &mut db).unwrap();
    let members = db_get_group_members(&db, &ginfo.uuid).unwrap();
    assert_eq!(members, vec!["alice".to_string(), "bob".to_string()]);
    assert_eq!(members.iter().filter(|m| m.as_str() == "bob").count(), 1);
    let bob = db_get_user(&db, "bob").unwrap();
    assert_eq!(bob.user_data.groups.iter().filter(|g| g.uuid == ginfo.uuid).count(), 1);
}

#[test]
fn join_then_leave_restores_the_index() {
    let mut db = Database::new();
    register(&mut db, &info("alice", "pw")).unwrap();
    register(&mut db, &info("bob", "pw")).unwrap();
    let ginfo = create_group(&mut db, &form("alice", "g")).unwrap();
    let bob_before = db_get_user(&db, "bob").unwrap();
    db_add_user_to_group(&ginfo.uuid, "bob", &mut db).unwrap();
    db_user_leave_group1(&mut db, "bob".to_string(), &ginfo.uuid).unwrap();
    let bob_after = db_get_user(&db, "bob").unwrap();
    assert_eq!(bob_after.user_data.groups.len(), bob_before.user_data.groups.len());
    assert!(bob_after.user_data.groups.is_empty());
    let members = db_get_group_members(&db, &ginfo.uuid).unwrap();
    assert_eq!(members, vec!["alice".to_string()]);
    // The last member leaving deletes the group entirely.
    db_user_leave_group1(&mut db, "alice".to_string(), &ginfo.uuid).unwrap();
    assert_eq!(db_get_group(&db, &ginfo.uuid).unwrap_err(), WarpRejections::GroupNotExist);
    let alice = db_get_user(&db, "alice").unwrap();
    assert!(alice.user_data.groups.is_empty());
}

#[test]
fn join_rejects_bad_ids_and_strangers() {
    let mut db = Database::new();
    register(&mut db, &info("alice", "pw")).unwrap();
    let ginfo = create_group(&mut db, &form("alice", "g")).unwrap();
    assert_eq!(
        db_add_user_to_group("not-a-uuid", "alice", &mut db),
        Err(WarpRejections::UuidError)
    );
    assert_eq!(
        db_add_user_to_group("00000000-0000-4000-8000-000000000000", "alice", &mut db),
        Err(WarpRejections::GroupNotExist)
    );
    assert_eq!(
        db_add_user_to_group(&ginfo.uuid, "stranger", &mut db),
        Err(WarpRejections::UserNotExist)
    );
}

#[test]
fn verify_group_member_checks_membership() {
    let mut db = Database::new();
    register(&mut db, &info("alice", "pw")).unwrap();
    register(&mut db, &info("bob", "pw")).unwrap();
    let ginfo = create_group(&mut db, &form("alice", "g")).unwrap();
    let gs = db_verify_group_member(ginfo.uuid.clone(), "alice".to_string(), &db).unwrap();
    assert_eq!(gs.id, ginfo.uuid);
    assert_eq!(
        db_verify_group_member(ginfo.uuid.clone(), "bob".to_string(), &db).unwrap_err(),
        WarpRejections::UserNotInGroup
    );
    assert_eq!(
        db_verify_group_member("missing".to_string(), "bob".to_string(), &db).unwrap_err(),
        WarpRejections::GroupNotExist
    );
}

#[test]
fn login_issues_tokens_for_good_credentials() {
    let mut db = Database::new();
    register(&mut db, &info("alice", "pw")).unwrap();
    let (access, refresh_tok) = login(&db, &info("alice", "pw"), 1_000, "sec").unwrap();
    assert_eq!(&access[41..], "alice");
    assert_eq!(&refresh_tok[41..], "alice");
    assert_eq!(
        login(&db, &info("alice", "wrong"), 1_000, "sec"),
        Err(WarpRejections::AuthFailure)
    );
    assert_eq!(
        login(&db, &info("nobody", "pw"), 1_000, "sec"),
        Err(WarpRejections::UserNotExist)
    );
}

#[test]
fn wrong_old_password_leaves_credential_untouched() {
    let mut db = Database::new();
    register(&mut db, &info("carol", "pw1")).unwrap();
    let before = db_get_user(&db, "carol").unwrap();
    assert_eq!(
        db_update_password(&mut db, &info("carol", "pw1x"), &info("carol", "pw2")),
        Err(WarpRejections::AuthFailure)
    );
    let after = db_get_user(&db, "carol").unwrap();
    assert_eq!(after.user_data.hashed_password, before.user_data.hashed_password);
    assert_eq!(after.user_data.salt, before.user_data.salt);
    assert_eq!(
        verify_pass(
            "pw1".to_string(),
            after.user_data.salt.clone(),
            after.user_data.hashed_password.clone()
        ),
        Ok(true)
    );
}

#[test]
fn password_update_rotates_salt_and_hash() {
    let mut db = Database::new();
    register(&mut db, &info("carol", "pw1")).unwrap();
    let before = db_get_user(&db, "carol").unwrap();
    db_update_password(&mut db, &info("carol", "pw1"), &info("carol", "pw2")).unwrap();
    let after = db_get_user(&db, "carol").unwrap();
    assert_ne!(after.user_data.salt, before.user_data.salt);
    assert_ne!(after.user_data.hashed_password, before.user_data.hashed_password);
    assert_eq!(after.user_data.id, before.user_data.id);
    assert_eq!(after.user_data.date_created, before.user_data.date_created);
    assert_eq!(
        verify_pass(
            "pw2".to_string(),
            after.user_data.salt.clone(),
            after.user_data.hashed_password.clone()
        ),
        Ok(true)
    );
    assert_eq!(
        verify_pass(
            "pw1".to_string(),
            after.user_data.salt.clone(),
            after.user_data.hashed_password.clone()
        ),
        Ok(false)
    );
    assert_eq!(
        db_update_password(&mut db, &info("absent", "a"), &info("absent", "b")),
        Err(WarpRejections::UserNotExist)
    );
}

#[test]
fn update_username_requires_the_password() {
    let mut db = Database::new();
    register(&mut db, &info("dave", "pw")).unwrap();
    let stored = db_get_user(&db, "dave").unwrap();
    assert_eq!(
        db_update_username(&mut db, &stored, "wrong".to_string()),
        Err(WarpRejections::AuthFailure)
    );
    db_update_username(&mut db, &stored, "pw".to_string()).unwrap();
    let after = db_get_user(&db, "dave").unwrap();
    assert_eq!(after.user_data.hashed_password, stored.user_data.hashed_password);
}

#[test]
fn group_updates_and_movie_saves_persist() {
    let mut db = Database::new();
    register(&mut db, &info("alice", "pw")).unwrap();
    let ginfo = create_group(&mut db, &form("alice", "g")).unwrap();
    let mut gs = db_get_group(&db, &ginfo.uuid).unwrap();
    gs.group_data.current_movies.push("tt0111161".to_string());
    gs.group_data.ready_status.push(("alice".to_string(), true));
    gs.group_data.system_state = SystemState::Voting;
    gs.group_data.turn = "alice".to_string();
    db_save_group_movies(&mut db, &gs).unwrap();
    let back = db_get_group(&db, &ginfo.uuid).unwrap();
    assert_eq!(back.group_data.current_movies, vec!["tt0111161".to_string()]);
    assert_eq!(back.group_data.ready_status, vec![("alice".to_string(), true)]);
    assert!(matches!(back.group_data.system_state, SystemState::Voting));
    assert_eq!(back.group_data.turn, "alice");
    assert_eq!(
        db_update_group(
            &mut db,
            &movie_night::db_structs::DBGroupStruct {
                id: "absent".to_string(),
                group_data: back.group_data.clone()
            }
        ),
        Err(WarpRejections::GroupNotExist)
    );
}

#[test]
fn add_group_to_user_replaces_stale_references() {
    let mut db = Database::new();
    register(&mut db, &info("alice", "pw")).unwrap();
    let stored = db_get_user(&db, "alice").unwrap();
    db_add_group_to_user(
        &mut db,
        stored,
        GroupInfo { uuid: "id-1".to_string(), name: "old name".to_string() },
    )
    .unwrap();
    let stored = db_get_user(&db, "alice").unwrap();
    db_add_group_to_user(
        &mut db,
        stored,
        GroupInfo { uuid: "id-1".to_string(), name: "new name".to_string() },
    )
    .unwrap();
    let after = db_get_user(&db, "alice").unwrap();
    assert_eq!(after.user_data.groups.len(), 1);
    assert_eq!(after.user_data.groups[0].name, "new name");
}

#[test]
fn raw_inserts_and_codec_round_trip() {
    let mut db = Database::new();
    let input = info("erin", "pw");
    let user_data = create_user_data(&input).unwrap();
    let encoded = encode_user(&user_data);
    let decoded = decode_user(&encoded).unwrap();
    assert_eq!(decoded.id, user_data.id);
    assert_eq!(decoded.salt, user_data.salt);
    assert_eq!(decoded.hashed_password, user_data.hashed_password);
    assert_eq!(decoded.date_created, user_data.date_created);
    db_insert_user(&mut db, "erin", user_data).unwrap();
    let gd = create_group_data(form("erin", "club"));
    let encoded_g = encode_group(&gd);
    let decoded_g = decode_group(&encoded_g).unwrap();
    assert_eq!(decoded_g.group_name, "club");
    assert_eq!(decoded_g.members, vec!["erin".to_string()]);
    db_insert_group(
        &mut db,
        movie_night::db_structs::DBGroupStruct { id: "gid".to_string(), group_data: gd },
    )
    .unwrap();
    assert!(db_get_group(&db, "gid").is_ok());
    // Re-inserting under the same key conflicts.
    let gd2 = create_group_data(form("erin", "club"));
    assert_eq!(
        db_insert_group(
            &mut db,
            movie_night::db_structs::DBGroupStruct { id: "gid".to_string(), group_data: gd2 }
        ),
        Err(WarpRejections::Conflict)
    );
    db_delete_user(&mut db, "erin").unwrap();
    assert_eq!(db_get_user(&db, "erin").unwrap_err(), WarpRejections::UserNotExist);
}

#[test]
fn decode_rejects_corrupt_documents() {
    assert_eq!(decode_user("").unwrap_err(), WarpRejections::SerializationError);
    assert_eq!(decode_user("garbage").unwrap_err(), WarpRejections::SerializationError);
    assert_eq!(
        decode_group("00000000000000000003abc").unwrap_err(),
        WarpRejections::SerializationError
    );
    let mut db = Database::new();
    let input = info("erin", "pw");
    let user_data = create_user_data(&input).unwrap();
    let mut encoded = encode_user(&user_data);
    db_insert_user(&mut db, "erin", user_data).unwrap();
    // A truncated document fails to decode, not to fetch.
    encoded.pop();
    assert_eq!(decode_user(&encoded).unwrap_err(), WarpRejections::SerializationError);
}

#[test]
fn codec_handles_awkward_field_values() {
    let gd = movie_night::db_structs::GroupData {
        group_name: "with\nnewline$and:separators 0123".to_string(),
        members: vec!["a b".to_string(), "".to_string(), "00000000000000000005".to_string()],
        movies_watched: vec![],
        current_movies: vec!["m".to_string()],
        ready_status: vec![("a b".to_string(), false), ("x".to_string(), true)],
        system_state: SystemState::Watching,
        turn: "a b".to_string(),
        date_created: 0,
        date_modified: i64::MAX,
    };
    let decoded = decode_group(&encode_group(&gd)).unwrap();
    assert_eq!(decoded.group_name, gd.group_name);
    assert_eq!(decoded.members, gd.members);
    assert_eq!(decoded.current_movies, gd.current_movies);
    assert_eq!(decoded.ready_status, gd.ready_status);
    assert_eq!(decoded.turn, gd.turn);
    assert_eq!(decoded.date_created, 0);
    assert_eq!(decoded.date_modified, i64::MAX);
    let ud = UserData {
        id: "идентификатор".to_string(),
        hashed_password: "h$20".to_string(),
        salt: "s".to_string(),
        groups: vec![GroupInfo { uuid: "u:1".to_string(), name: "n$2".to_string() }],
        date_created: 7,
        date_modified: 8,
    };
    let decoded_u = decode_user(&encode_user(&ud)).unwrap();
    assert_eq!(decoded_u.id, ud.id);
    assert_eq!(decoded_u.groups.len(), 1);
    assert_eq!(decoded_u.groups[0].uuid, "u:1");
    assert_eq!(decoded_u.groups[0].name, "n$2");
}

#[test]
fn raw_rows_decode_to_structs() {
    let input = info("fred", "pw");
    let user_data = create_user_data(&input).unwrap();
    let row = DBUser { username: "fred".to_string(), data: encode_user(&user_data) };
    let us = db_get_user_data(row).unwrap();
    assert_eq!(us.username, "fred");
    assert_eq!(us.user_data.id, user_data.id);
    let bad = DBUser { username: "fred".to_string(), data: "junk".to_string() };
    assert_eq!(db_get_user_data(bad).unwrap_err(), WarpRejections::SerializationError);
    let gd = create_group_data(form("fred", "club"));
    let grow = DBGroup { id: "gid".to_string(), data: encode_group(&gd) };
    let gs = db_get_group_data(grow).unwrap();
    assert_eq!(gs.id, "gid");
    assert_eq!(gs.group_data.members, vec!["fred".to_string()]);
    let gbad = DBGroup { id: "gid".to_string(), data: String::new() };
    assert_eq!(db_get_group_data(gbad).unwrap_err(), WarpRejections::SerializationError);
}

#[test]
fn update_user_replaces_the_whole_document() {
    let mut db = Database::new();
    register(&mut db, &info("gail", "pw")).unwrap();
    let mut stored = db_get_user(&db, "gail").unwrap();
    stored.user_data.groups.push(GroupInfo { uuid: "gid-9".to_string(), name: "n".to_string() });
    stored.user_data.date_modified = stored.user_data.date_modified + 5;
    let expected_dm = stored.user_data.date_modified;
    db_update_user(&mut db, stored).unwrap();
    let after = db_get_user(&db, "gail").unwrap();
    assert_eq!(after.user_data.groups.len(), 1);
    assert_eq!(after.user_data.groups[0].uuid, "gid-9");
    assert_eq!(after.user_data.date_modified, expected_dm);
    // Updating an unregistered user is refused.
    let ghost_user = db_get_user(&db, "gail").unwrap();
    db_delete_user(&mut db, "gail").unwrap();
    assert_eq!(db_update_user(&mut db, ghost_user).unwrap_err(), WarpRejections::UserNotExist);
}
