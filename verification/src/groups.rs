//! Group management operations.
//!
//! The computational parts of creating, renaming, switching, deleting
//! groups and toggling the settlement policy.  The surrounding application
//! owns the store and does the locking and saving; these functions only
//! transform the in-memory state.

use crate::errors::AppError;
use crate::models::{AppData, Group};
use crate::names::{trim_str, trimmed_of};
use vstd::prelude::*;

verus! {

/// A request to create a group with this name.
pub struct CreateGroupRequest {
    pub name: String,
}

/// A request to make the group with this id the current one.
pub struct SwitchGroupRequest {
    pub group_id: usize,
}

/// A request to rename a group.
pub struct UpdateGroupRequest {
    pub name: String,
}

/// The largest group id in use.
pub open spec fn max_group_id(groups: Seq<Group>) -> int
    decreases groups.len(),
{
    if groups.len() == 0 {
        0
    } else {
        let rest = max_group_id(groups.drop_last());
        if groups.last().id > rest {
            groups.last().id as int
        } else {
            rest
        }
    }
}

/// Some group carries this id.
pub open spec fn group_exists(groups: Seq<Group>, id: usize) -> bool {
    exists|i: int| 0 <= i < groups.len() && (#[trigger] groups[i]).id == id
}

/// Find a group by id.
pub fn find_group_index(groups: &Vec<Group>, id: usize) -> (r: Option<usize>)
    ensures
        match r {
            Some(i) => i < groups@.len() && groups@[i as int].id == id && forall|k: int|
                0 <= k < i ==> (#[trigger] groups@[k]).id != id,
            None => !group_exists(groups@, id),
        },
{
    let n = groups.len();
    let mut i: usize = 0;
    while i < n
        invariant
            0 <= i <= n,
            n == groups@.len(),
            forall|k: int| 0 <= k < i ==> (#[trigger] groups@[k]).id != id,
        decreases n - i,
    {
        if groups[i].id == id {
            return Some(i);
        }
        i = i + 1;
    }
    None
}

fn compute_max_group_id(groups: &Vec<Group>) -> (r: usize)
    ensures
        r as int == max_group_id(groups@),
{
    let n = groups.len();
    let mut m: usize = 0;
    let mut i: usize = 0;
    while i < n
        invariant
            0 <= i <= n,
            n == groups@.len(),
            m as int == max_group_id(groups@.take(i as int)),
        decreases n - i,
    {
        proof {
            assert(groups@.take(i + 1).drop_last() =~= groups@.take(i as int));
            assert(groups@.take(i + 1).last() == groups@[i as int]);
        }
        if groups[i].id > m {
            m = groups[i].id;
        }
        i = i + 1;
    }
    proof {
        assert(groups@.take(n as int) =~= groups@);
    }
    m
}

/// Create an empty group under a fresh id and return that id; the first
/// group ever created becomes the current one.
pub fn create_group(app: &mut AppData, name: &str) -> (r: Result<usize, AppError>)
    requires
        max_group_id(old(app).groups@) < usize::MAX,
    ensures
        match r {
            Ok(id) => {
                &&& trimmed_of(name@).len() > 0
                &&& id as int == max_group_id(old(app).groups@) + 1
                &&& final(app).groups@.len() == old(app).groups@.len() + 1
                &&& forall|k: int|
                    0 <= k < old(app).groups@.len()
                        ==> #[trigger] final(app).groups@[k] == old(app).groups@[k]
                &&& final(app).groups@.last().id == id
                &&& final(app).groups@.last().name@ == trimmed_of(name@)
                &&& final(app).groups@.last().members@.len() == 0
                &&& final(app).groups@.last().expenses@.len() == 0
                &&& final(app).groups@.last().settled_settlements@.len() == 0
                &&& final(app).groups@.last().simplify_debts == false
                &&& final(app).users == old(app).users
                &&& final(app).current_group_id == if old(app).groups@.len() == 0 {
                    id
                } else {
                    old(app).current_group_id
                }
            },
            Err(e) => {
                &&& *final(app) == *old(app)
                &&& e matches AppError::BadRequest(_)
                &&& trimmed_of(name@).len() == 0
            },
        },
{
    let nm = trim_str(name);
    if nm.unicode_len() == 0 {
        return Err(AppError::BadRequest("Group name cannot be empty".to_owned()));
    }
    let max_id = compute_max_group_id(&app.groups);
    let id = max_id + 1;
    let was_empty = app.groups.len() == 0;
    let group = Group {
        id,
        name: nm,
        members: Vec::new(),
        expenses: Vec::new(),
        simplify_debts: false,
        settled_settlements: Vec::new(),
    };
    app.groups.push(group);
    if was_empty {
        app.current_group_id = id;
    }
    Ok(id)
}

/// Make an existing group the current one.
pub fn switch_group(app: &mut AppData, group_id: usize) -> (r: Result<(), AppError>)
    ensures
        match r {
            Ok(_) => {
                &&& group_exists(old(app).groups@, group_id)
                &&& final(app).groups == old(app).groups
                &&& final(app).users == old(app).users
                &&& final(app).current_group_id == group_id
            },
            Err(e) => {
                &&& *final(app) == *old(app)
                &&& e matches AppError::NotFound(_)
                &&& !group_exists(old(app).groups@, group_id)
            },
        },
{
    if find_group_index(&app.groups, group_id).is_none() {
        return Err(AppError::NotFound("Group not found".to_owned()));
    }
    app.current_group_id = group_id;
    Ok(())
}

/// Rename an existing group.
pub fn update_group(app: &mut AppData, id: usize, name: &str) -> (r: Result<(), AppError>)
    ensures
        match r {
            Ok(_) => exists|i: int|
                {
                    &&& 0 <= i < old(app).groups@.len()
                    &&& (#[trigger] old(app).groups@[i]).id == id
                    &&& forall|k: int| 0 <= k < i ==> (#[trigger] old(app).groups@[k]).id != id
                    &&& trimmed_of(name@).len() > 0
                    &&& final(app).groups@.len() == old(app).groups@.len()
                    &&& forall|k: int|
                        0 <= k < old(app).groups@.len() && k != i
                            ==> #[trigger] final(app).groups@[k] == old(app).groups@[k]
                    &&& final(app).groups@[i].id == old(app).groups@[i].id
                    &&& final(app).groups@[i].name@ == trimmed_of(name@)
                    &&& final(app).groups@[i].members == old(app).groups@[i].members
                    &&& final(app).groups@[i].expenses == old(app).groups@[i].expenses
                    &&& final(app).groups@[i].simplify_debts == old(app).groups@[i].simplify_debts
                    &&& final(app).groups@[i].settled_settlements == old(
                        app,
                    ).groups@[i].settled_settlements
                    &&& final(app).users == old(app).users
                    &&& final(app).current_group_id == old(app).current_group_id
                },
            Err(e) => {
                &&& *final(app) == *old(app)
                &&& match e {
                    AppError::BadRequest(_) => trimmed_of(name@).len() == 0,
                    AppError::NotFound(_) => trimmed_of(name@).len() > 0 && !group_exists(
                        old(app).groups@,
                        id,
                    ),
                    _ => false,
                }
            },
        },
{
    let nm = trim_str(name);
    if nm.unicode_len() == 0 {
        return Err(AppError::BadRequest("Group name cannot be empty".to_owned()));
    }
    let idx = match find_group_index(&app.groups, id) {
        Some(i) => i,
        None => {
            return Err(AppError::NotFound("Group not found".to_owned()));
        },
    };
    let ghost prev = app.groups@;
    let mut g = app.groups.remove(idx);
    g.name = nm;
    app.groups.insert(idx, g);
    proof {
        assert forall|k: int| 0 <= k < prev.len() && k != idx implies #[trigger] app.groups@[k]
            == prev[k] by {
            if k < idx {
                assert(app.groups@[k] == prev.remove(idx as int).insert(
                    idx as int,
                    app.groups@[idx as int],
                )[k]);
            }
        }
    }
    Ok(())
}

/// Delete a group; when the current group is deleted, the first remaining
/// group (or none) becomes current.
pub fn delete_group(app: &mut AppData, id: usize) -> (r: Result<Option<usize>, AppError>)
    ensures
        match r {
            Ok(switched) => exists|i: int|
                {
                    &&& 0 <= i < old(app).groups@.len()
                    &&& (#[trigger] old(app).groups@[i]).id == id
                    &&& forall|k: int| 0 <= k < i ==> (#[trigger] old(app).groups@[k]).id != id
                    &&& final(app).groups@ == old(app).groups@.remove(i)
                    &&& final(app).users == old(app).users
                    &&& if old(app).current_group_id == id {
                        &&& final(app).current_group_id == (if final(app).groups@.len() > 0 {
                            final(app).groups@[0].id
                        } else {
                            0
                        })
                        &&& switched == Some(final(app).current_group_id)
                    } else {
                        &&& final(app).current_group_id == old(app).current_group_id
                        &&& switched matches None::<usize>
                    }
                },
            Err(e) => {
                &&& *final(app) == *old(app)
                &&& e matches AppError::NotFound(_)
                &&& !group_exists(old(app).groups@, id)
            },
        },
{
    let idx = match find_group_index(&app.groups, id) {
        Some(i) => i,
        None => {
            return Err(AppError::NotFound("Group not found".to_owned()));
        },
    };
    app.groups.remove(idx);
    if app.current_group_id == id {
        let new_current = if app.groups.len() > 0 {
            app.groups[0].id
        } else {
            0
        };
        app.current_group_id = new_current;
        Ok(Some(new_current))
    } else {
        Ok(None)
    }
}

/// Flip the current group's settlement policy and report the new value.
pub fn toggle_simplify(app: &mut AppData) -> (r: Result<bool, AppError>)
    ensures
        match r {
            Ok(v) => exists|i: int|
                {
                    &&& 0 <= i < old(app).groups@.len()
                    &&& (#[trigger] old(app).groups@[i]).id == old(app).current_group_id
                    &&& forall|k: int|
                        0 <= k < i ==> (#[trigger] old(app).groups@[k]).id != old(
                            app,
                        ).current_group_id
                    &&& final(app).groups@.len() == old(app).groups@.len()
                    &&& forall|k: int|
                        0 <= k < old(app).groups@.len() && k != i
                            ==> #[trigger] final(app).groups@[k] == old(app).groups@[k]
                    &&& final(app).groups@[i].simplify_debts == !old(app).groups@[i].simplify_debts
                    &&& v == final(app).groups@[i].simplify_debts
                    &&& final(app).groups@[i].id == old(app).groups@[i].id
                    &&& final(app).groups@[i].name == old(app).groups@[i].name
                    &&& final(app).groups@[i].members == old(app).groups@[i].members
                    &&& final(app).groups@[i].expenses == old(app).groups@[i].expenses
                    &&& final(app).groups@[i].settled_settlements == old(
                        app,
                    ).groups@[i].settled_settlements
                    &&& final(app).users == old(app).users
                    &&& final(app).current_group_id == old(app).current_group_id
                },
            Err(e) => {
                &&& *final(app) == *old(app)
                &&& e matches AppError::NotFound(_)
                &&& !group_exists(old(app).groups@, old(app).current_group_id)
            },
        },
{
    let idx = match find_group_index(&app.groups, app.current_group_id) {
        Some(i) => i,
        None => {
            return Err(AppError::group_not_found());
        },
    };
    let ghost prev = app.groups@;
    let mut g = app.groups.remove(idx);
    let new_value = !g.simplify_debts;
    g.simplify_debts = new_value;
    app.groups.insert(idx, g);
    proof {
        assert forall|k: int| 0 <= k < prev.len() && k != idx implies #[trigger] app.groups@[k]
            == prev[k] by {
            if k < idx {
                assert(app.groups@[k] == prev.remove(idx as int).insert(
                    idx as int,
                    app.groups@[idx as int],
                )[k]);
            }
        }
    }
    Ok(new_value)
}

} // verus!
