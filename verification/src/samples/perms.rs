//! User permission bits: reporting them and changing them.

#![allow(non_snake_case)]

use vstd::prelude::*;

verus! {

/// A user and their permission bits: 4 read, 2 write, 1 execute.
#[derive(Copy, Clone)]
pub struct User {
    pub id: i32,
    pub permissions: u32,
}

/// The permissions of one user, as the report shows them.
#[derive(Copy, Clone, Debug, PartialEq, Eq, Structural)]
pub struct PermissionReport {
    pub id: i32,
    pub read: bool,
    pub write: bool,
    pub execute: bool,
}

/// The report line of a user.
pub open spec fn report_of(user: User) -> PermissionReport {
    PermissionReport {
        id: user.id,
        read: user.permissions & 4u32 != 0,
        write: user.permissions & 2u32 != 0,
        execute: user.permissions & 1u32 != 0,
    }
}

/// The permissions of the first `numUsers` users, in order: for each, its id
/// and whether the read (4), write (2) and execute (1) bits are set.
pub fn checkPermissions(users: &Vec<User>, numUsers: i32) -> (r: Vec<PermissionReport>)
    requires
        numUsers <= users@.len(),
    ensures
        numUsers <= 0 ==> r@.len() == 0,
        numUsers > 0 ==> r@.len() == numUsers,
        forall|k: int| 0 <= k < r@.len() ==> #[trigger] r@[k] == report_of(users@[k]),
{
    let mut r: Vec<PermissionReport> = Vec::new();
    if numUsers <= 0 {
        return r;
    }
    let n = numUsers as usize;
    let mut i: usize = 0;
    while i < n
        invariant
            i <= n,
            n == numUsers,
            n <= users@.len(),
            r@.len() == i,
            forall|k: int| 0 <= k < i ==> #[trigger] r@[k] == report_of(users@[k]),
        decreases n - i,
    {
        let user = users[i];
        r.push(PermissionReport {
            id: user.id,
            read: user.permissions & 4 != 0,
            write: user.permissions & 2 != 0,
            execute: user.permissions & 1 != 0,
        });
        i = i + 1;
    }
    r
}

/// Whether a permission number is accepted: 0 to 7, three bits.
pub fn accepts_permissions(value: u32) -> (r: bool)
    ensures
        r == (value <= 7),
{
    value <= 7
}

/// Gives the user the new permission bits, which must be accepted ones.
pub fn modifyPermissions(user: &mut User, newPermissions: u32)
    requires
        newPermissions <= 7,
    ensures
        final(user).id == old(user).id,
        final(user).permissions == newPermissions,
{
    user.permissions = newPermissions;
}

/// Whether `id` names one of `numUsers` users, numbered from 1.
pub fn is_valid_user_id(id: i32, numUsers: i32) -> (r: bool)
    ensures
        r == (1 <= id && id <= numUsers),
{
    !(id < 1 || id > numUsers)
}

/// `count` users numbered from 1, with no permissions yet.
pub fn numbered_users(count: i32) -> (r: Vec<User>)
    requires
        count >= 0,
    ensures
        r@.len() == count,
        forall|k: int| 0 <= k < count ==> #[trigger] r@[k].id == k + 1 && r@[k].permissions == 0,
{
    let n = count as usize;
    let mut users: Vec<User> = Vec::new();
    let mut i: usize = 0;
    while i < n
        invariant
            i <= n,
            n == count,
            users@.len() == i,
            forall|k: int| 0 <= k < i ==> #[trigger] users@[k].id == k + 1 && users@[k].permissions == 0,
        decreases n - i,
    {
        users.push(User { id: (i + 1) as i32, permissions: 0 });
        i = i + 1;
    }
    users
}

/// After a change, the report of the user shows exactly the new bits.
pub proof fn lemma_report_after_change(user: User, newPermissions: u32)
    requires
        newPermissions <= 7,
    ensures
        ({
            let changed = User { id: user.id, permissions: newPermissions };
            &&& report_of(changed).id == user.id
            &&& report_of(changed).read == (newPermissions >= 4)
            &&& report_of(changed).write == (newPermissions % 4 >= 2)
            &&& report_of(changed).execute == (newPermissions % 2 == 1)
        }),
{
    assert(newPermissions <= 7 ==> ((newPermissions & 4u32 != 0) == (newPermissions >= 4)
        && (newPermissions & 2u32 != 0) == (newPermissions % 4 >= 2)
        && (newPermissions & 1u32 != 0) == (newPermissions % 2 == 1))) by (bit_vector);
}

} // verus!
