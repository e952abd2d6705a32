//! The two persisted document types and the small value types the engine
//! exchanges with its callers.
//!
//! A `User` document is keyed by username, a `Group` document by a generated
//! identifier. Each document is stored as one serialized string (see
//! [`crate::codec`]); the spec-level models below (`UserDataV`,
//! `GroupDataV`, ...) are what the contracts speak of.

use vstd::prelude::*;

verus! {

/// Login credentials as the boundary layer hands them in.
#[derive(Debug, Clone)]
pub struct UserInfo {
    pub username: String,
    pub password: String,
}

/// Request to create a group: the creator and the label.
#[derive(Debug, Clone)]
pub struct GroupForm {
    pub username: String,
    pub group_name: String,
}

/// Denormalized reference from a user to one group it belongs to.
#[derive(Debug, Clone)]
pub struct GroupInfo {
    pub uuid: String,
    pub name: String,
}

/// Spec-level model of a [`GroupInfo`].
#[verifier::ext_equal]
pub struct GroupInfoV {
    pub uuid: Seq<char>,
    pub name: Seq<char>,
}

impl View for GroupInfo {
    type V = GroupInfoV;

    open spec fn view(&self) -> GroupInfoV {
        GroupInfoV { uuid: self.uuid@, name: self.name@ }
    }
}

impl DeepView for GroupInfo {
    type V = GroupInfoV;

    open spec fn deep_view(&self) -> GroupInfoV {
        self@
    }
}

/// The phase a group is in, governing which mutations are legal.
#[derive(Debug, Clone, Copy, PartialEq, Eq, Structural)]
pub enum SystemState {
    AddingMovies,
    Voting,
    Watching,
}

/// Identity, credentials and membership index of one user.
#[derive(Debug, Clone)]
pub struct UserData {
    /// Globally unique identifier, immutable, assigned at creation.
    pub id: String,
    pub hashed_password: String,
    pub salt: String,
    /// Denormalized index of group memberships, no duplicates by id.
    pub groups: Vec<GroupInfo>,
    /// Seconds; never negative.
    pub date_created: i64,
    pub date_modified: i64,
}

/// Spec-level model of a [`UserData`] document.
#[verifier::ext_equal]
pub struct UserDataV {
    pub id: Seq<char>,
    pub hashed_password: Seq<char>,
    pub salt: Seq<char>,
    pub groups: Seq<GroupInfoV>,
    pub date_created: i64,
    pub date_modified: i64,
}

impl View for UserData {
    type V = UserDataV;

    open spec fn view(&self) -> UserDataV {
        UserDataV {
            id: self.id@,
            hashed_password: self.hashed_password@,
            salt: self.salt@,
            groups: self.groups.deep_view(),
            date_created: self.date_created,
            date_modified: self.date_modified,
        }
    }
}

/// Well-formed user document: timestamps in range and no two membership
/// references to the same group id.
pub open spec fn user_wf(u: UserDataV) -> bool {
    &&& 0 <= u.date_created
    &&& 0 <= u.date_modified
    &&& forall|i: int, j: int|
        0 <= i < j < u.groups.len() ==> u.groups[i].uuid != u.groups[j].uuid
}

/// Shared watch-session state of one group.
#[derive(Debug, Clone)]
pub struct GroupData {
    pub group_name: String,
    /// Usernames in insertion order (the order determines turn rotation),
    /// no duplicates.
    pub members: Vec<String>,
    pub movies_watched: Vec<String>,
    pub current_movies: Vec<String>,
    /// Readiness flag per username, no duplicate usernames.
    pub ready_status: Vec<(String, bool)>,
    pub system_state: SystemState,
    /// Username whose turn it is, or empty.
    pub turn: String,
    pub date_created: i64,
    pub date_modified: i64,
}

/// Spec-level model of a [`GroupData`] document.
#[verifier::ext_equal]
pub struct GroupDataV {
    pub group_name: Seq<char>,
    pub members: Seq<Seq<char>>,
    pub movies_watched: Seq<Seq<char>>,
    pub current_movies: Seq<Seq<char>>,
    pub ready_status: Seq<(Seq<char>, bool)>,
    pub system_state: SystemState,
    pub turn: Seq<char>,
    pub date_created: i64,
    pub date_modified: i64,
}

/// Spec-level model of a readiness list.
pub open spec fn pairs_dv(items: Seq<(String, bool)>) -> Seq<(Seq<char>, bool)> {
    Seq::new(items.len(), |i: int| (items[i].0@, items[i].1))
}

impl View for GroupData {
    type V = GroupDataV;

    open spec fn view(&self) -> GroupDataV {
        GroupDataV {
            group_name: self.group_name@,
            members: self.members.deep_view(),
            movies_watched: self.movies_watched.deep_view(),
            current_movies: self.current_movies.deep_view(),
            ready_status: pairs_dv(self.ready_status@),
            system_state: self.system_state,
            turn: self.turn@,
            date_created: self.date_created,
            date_modified: self.date_modified,
        }
    }
}

/// Well-formed group document: timestamps in range, no duplicate members,
/// no duplicate readiness keys.
pub open spec fn group_wf(g: GroupDataV) -> bool {
    &&& 0 <= g.date_created
    &&& 0 <= g.date_modified
    &&& forall|i: int, j: int| 0 <= i < j < g.members.len() ==> g.members[i] != g.members[j]
    &&& forall|i: int, j: int|
        0 <= i < j < g.ready_status.len() ==> g.ready_status[i].0 != g.ready_status[j].0
}

/// One raw stored row of the `users` table.
#[derive(Debug, Clone)]
pub struct DBUser {
    pub username: String,
    pub data: String,
}

/// One raw stored row of the `groups` table.
#[derive(Debug, Clone)]
pub struct DBGroup {
    pub id: String,
    pub data: String,
}

/// A decoded user row: key plus document.
#[derive(Debug, Clone)]
pub struct DBUserStruct {
    pub username: String,
    pub user_data: UserData,
}

/// A decoded group row: key plus document.
#[derive(Debug, Clone)]
pub struct DBGroupStruct {
    pub id: String,
    pub group_data: GroupData,
}

} // verus!
