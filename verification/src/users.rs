//! Account and membership operations.
//!
//! These are the computational parts of registration, login and group
//! membership management.  Anything the outside world supplies — session
//! tokens, timestamps — is handed in as a plain value, so each operation is
//! a pure transformation of the application state.

use crate::errors::AppError;
use crate::models::{AppData, AuthUser, Group, User};
use crate::names::{push_char, str_eq, trim_str, trimmed_of};
use vstd::prelude::*;

verus! {

/// A registration request: a phone number and a display name.
pub struct RegisterRequest {
    pub phone: String,
    pub name: String,
}

/// A login request: the registered phone number.
pub struct LoginRequest {
    pub phone: String,
}

/// What registration and login hand back: the account.
pub struct AuthResponse {
    pub user: AuthUser,
}

/// A request to add the account with this phone number to a group.
pub struct CreateUserRequest {
    pub phone: String,
}

/// A decimal digit.
pub open spec fn is_digit_char(c: char) -> bool {
    '0' <= c && c <= '9'
}

/// The decimal digits of a string, in order.
pub open spec fn digits_of(s: Seq<char>) -> Seq<char>
    decreases s.len(),
{
    if s.len() == 0 {
        Seq::empty()
    } else {
        let rest = digits_of(s.drop_last());
        if is_digit_char(s.last()) {
            rest.push(s.last())
        } else {
            rest
        }
    }
}

/// Keep only the digits of a phone number; fewer than ten of them is a bad
/// request.
pub fn validate_phone(phone: &str) -> (r: Result<String, AppError>)
    ensures
        match r {
            Ok(d) => digits_of(phone@).len() >= 10 && d@ == digits_of(phone@),
            Err(e) => digits_of(phone@).len() < 10 && (e matches AppError::BadRequest(m) && m@
                == "Phone number must have at least 10 digits"@),
        },
{
    let n = phone.unicode_len();
    let mut digits = String::new();
    let mut i: usize = 0;
    while i < n
        invariant
            0 <= i <= n,
            n == phone@.len(),
            digits@ == digits_of(phone@.take(i as int)),
        decreases n - i,
    {
        proof {
            assert(phone@.take(i + 1).drop_last() =~= phone@.take(i as int));
            assert(phone@.take(i + 1).last() == phone@[i as int]);
        }
        let c = phone.get_char(i);
        if '0' <= c && c <= '9' {
            push_char(&mut digits, c);
        }
        i = i + 1;
    }
    proof {
        assert(phone@.take(n as int) =~= phone@);
    }
    if digits.unicode_len() < 10 {
        Err(AppError::BadRequest("Phone number must have at least 10 digits".to_owned()))
    } else {
        Ok(digits)
    }
}

/// The largest account id in use.
pub open spec fn max_auth_id(users: Seq<AuthUser>) -> int
    decreases users.len(),
{
    if users.len() == 0 {
        0
    } else {
        let rest = max_auth_id(users.drop_last());
        if users.last().id > rest {
            users.last().id as int
        } else {
            rest
        }
    }
}

/// The largest member id in use within one group.
pub open spec fn max_member_id(members: Seq<User>) -> int
    decreases members.len(),
{
    if members.len() == 0 {
        0
    } else {
        let rest = max_member_id(members.drop_last());
        if members.last().id > rest {
            members.last().id as int
        } else {
            rest
        }
    }
}

/// Some registered account already uses this phone number.
pub open spec fn phone_registered(users: Seq<AuthUser>, phone: Seq<char>) -> bool {
    exists|i: int| 0 <= i < users.len() && (#[trigger] users[i]).phone@ == phone
}

fn find_user_by_phone(users: &Vec<AuthUser>, phone: &String) -> (r: Option<usize>)
    ensures
        match r {
            Some(i) => i < users@.len() && users@[i as int].phone@ == phone@ && forall|k: int|
                0 <= k < i ==> (#[trigger] users@[k]).phone@ != phone@,
            None => !phone_registered(users@, phone@),
        },
{
    let n = users.len();
    let mut i: usize = 0;
    while i < n
        invariant
            0 <= i <= n,
            n == users@.len(),
            forall|k: int| 0 <= k < i ==> (#[trigger] users@[k]).phone@ != phone@,
        decreases n - i,
    {
        if str_eq(users[i].phone.as_str(), phone.as_str()) {
            return Some(i);
        }
        i = i + 1;
    }
    None
}

fn compute_max_auth_id(users: &Vec<AuthUser>) -> (r: usize)
    ensures
        r as int == max_auth_id(users@),
{
    let n = users.len();
    let mut m: usize = 0;
    let mut i: usize = 0;
    while i < n
        invariant
            0 <= i <= n,
            n == users@.len(),
            m as int == max_auth_id(users@.take(i as int)),
        decreases n - i,
    {
        proof {
            assert(users@.take(i + 1).drop_last() =~= users@.take(i as int));
            assert(users@.take(i + 1).last() == users@[i as int]);
        }
        if users[i].id > m {
            m = users[i].id;
        }
        i = i + 1;
    }
    proof {
        assert(users@.take(n as int) =~= users@);
    }
    m
}

fn compute_max_member_id(members: &Vec<User>) -> (r: usize)
    ensures
        r as int == max_member_id(members@),
{
    let n = members.len();
    let mut m: usize = 0;
    let mut i: usize = 0;
    while i < n
        invariant
            0 <= i <= n,
            n == members@.len(),
            m as int == max_member_id(members@.take(i as int)),
        decreases n - i,
    {
        proof {
            assert(members@.take(i + 1).drop_last() =~= members@.take(i as int));
            assert(members@.take(i + 1).last() == members@[i as int]);
        }
        if members[i].id > m {
            m = members[i].id;
        }
        i = i + 1;
    }
    proof {
        assert(members@.take(n as int) =~= members@);
    }
    m
}

impl AuthUser {
    /// An explicit deep copy, so verified callers know the fields carry
    /// over.
    pub fn duplicate(&self) -> (r: AuthUser)
        ensures
            r.id == self.id,
            r.phone@ == self.phone@,
            r.name@ == self.name@,
            r.token@ == self.token@,
            r.current_group_id == self.current_group_id,
            match r.token_expires_at {
                Some(t) => self.token_expires_at matches Some(t0) && t@ == t0@,
                None => self.token_expires_at matches None,
            },
    {
        AuthUser {
            id: self.id,
            phone: self.phone.clone(),
            name: self.name.clone(),
            token: self.token.clone(),
            current_group_id: self.current_group_id,
            token_expires_at: match &self.token_expires_at {
                Some(t) => Some(t.clone()),
                None => None,
            },
        }
    }
}

/// Register a new account: a validated phone number, a non-empty display
/// name, and a fresh token with its expiry, both supplied by the caller.
pub fn register(
    app: &mut AppData,
    phone: &str,
    name: &str,
    token: String,
    expires_at: String,
) -> (r: Result<AuthUser, AppError>)
    requires
        max_auth_id(old(app).users@) < usize::MAX,
    ensures
        match r {
            Ok(u) => {
                &&& digits_of(phone@).len() >= 10
                &&& trimmed_of(name@).len() > 0
                &&& !phone_registered(old(app).users@, digits_of(phone@))
                &&& u.id as int == max_auth_id(old(app).users@) + 1
                &&& u.phone@ == digits_of(phone@)
                &&& u.name@ == trimmed_of(name@)
                &&& u.token@ == token@
                &&& u.current_group_id == 0
                &&& (u.token_expires_at matches Some(t) && t@ == expires_at@)
                &&& final(app).users@.len() == old(app).users@.len() + 1
                &&& forall|k: int|
                    0 <= k < old(app).users@.len()
                        ==> #[trigger] final(app).users@[k] == old(app).users@[k]
                &&& final(app).users@.last().id == u.id
                &&& final(app).users@.last().phone@ == u.phone@
                &&& final(app).users@.last().name@ == u.name@
                &&& final(app).users@.last().token@ == token@
                &&& final(app).groups == old(app).groups
                &&& final(app).current_group_id == old(app).current_group_id
            },
            Err(e) => {
                &&& *final(app) == *old(app)
                &&& e matches AppError::BadRequest(_)
                &&& (digits_of(phone@).len() < 10 || trimmed_of(name@).len() == 0
                    || phone_registered(old(app).users@, digits_of(phone@)))
            },
        },
{
    let digits = match validate_phone(phone) {
        Ok(d) => d,
        Err(e) => {
            return Err(e);
        },
    };
    let nm = trim_str(name);
    if nm.unicode_len() == 0 {
        return Err(AppError::BadRequest("Name is required".to_owned()));
    }
    if find_user_by_phone(&app.users, &digits).is_some() {
        return Err(AppError::BadRequest("Phone number already registered".to_owned()));
    }
    let max_id = compute_max_auth_id(&app.users);
    let user = AuthUser {
        id: max_id + 1,
        phone: digits,
        name: nm,
        token,
        current_group_id: 0,
        token_expires_at: Some(expires_at),
    };
    let result = user.duplicate();
    app.users.push(user);
    Ok(result)
}

/// Log an account in: rotate its token and expiry to the caller-supplied
/// fresh ones.
pub fn login(app: &mut AppData, phone: &str, token: String, expires_at: String) -> (r: Result<
    AuthUser,
    AppError,
>)
    ensures
        match r {
            Ok(u) => exists|i: int|
                {
                    &&& 0 <= i < old(app).users@.len()
                    &&& (#[trigger] old(app).users@[i]).phone@ == digits_of(phone@)
                    &&& forall|k: int|
                        0 <= k < i ==> (#[trigger] old(app).users@[k]).phone@ != digits_of(phone@)
                    &&& final(app).users@.len() == old(app).users@.len()
                    &&& forall|k: int|
                        0 <= k < old(app).users@.len() && k != i
                            ==> #[trigger] final(app).users@[k] == old(app).users@[k]
                    &&& final(app).users@[i].id == old(app).users@[i].id
                    &&& final(app).users@[i].phone == old(app).users@[i].phone
                    &&& final(app).users@[i].name == old(app).users@[i].name
                    &&& final(app).users@[i].current_group_id == old(app).users@[i].current_group_id
                    &&& final(app).users@[i].token@ == token@
                    &&& (final(app).users@[i].token_expires_at matches Some(t) && t@ == expires_at@)
                    &&& u.id == old(app).users@[i].id
                    &&& u.token@ == token@
                    &&& final(app).groups == old(app).groups
                    &&& final(app).current_group_id == old(app).current_group_id
                },
            Err(e) => {
                &&& *final(app) == *old(app)
                &&& match e {
                    AppError::BadRequest(_) => digits_of(phone@).len() < 10,
                    AppError::NotFound(_) => digits_of(phone@).len() >= 10 && !phone_registered(
                        old(app).users@,
                        digits_of(phone@),
                    ),
                    _ => false,
                }
            },
        },
{
    let digits = match validate_phone(phone) {
        Ok(d) => d,
        Err(e) => {
            return Err(e);
        },
    };
    let idx = match find_user_by_phone(&app.users, &digits) {
        Some(i) => i,
        None => {
            return Err(AppError::phone_not_registered());
        },
    };
    let ghost prev = app.users@;
    let mut usr = app.users.remove(idx);
    usr.token = token;
    usr.token_expires_at = Some(expires_at);
    let result = usr.duplicate();
    app.users.insert(idx, usr);
    proof {
        assert forall|k: int| 0 <= k < prev.len() && k != idx implies #[trigger] app.users@[k]
            == prev[k] by {
            if k < idx {
                assert(app.users@[k] == prev.remove(idx as int).insert(idx as int, app.users@[idx as int])[k]);
            }
        }
    }
    Ok(result)
}

/// Add the account registered under `phone` as a member of the group with
/// the given id.
pub fn create_user(app: &mut AppData, current_group_id: usize, phone: &str) -> (r: Result<
    User,
    AppError,
>)
    requires
        forall|g: int|
            0 <= g < old(app).groups@.len() ==> max_member_id(
                (#[trigger] old(app).groups@[g]).members@,
            ) < usize::MAX,
    ensures
        match r {
            Ok(u) => exists|ui: int, gi: int|
                {
                    &&& 0 <= ui < old(app).users@.len()
                    &&& (#[trigger] old(app).users@[ui]).phone@ == digits_of(phone@)
                    &&& 0 <= gi < old(app).groups@.len()
                    &&& (#[trigger] old(app).groups@[gi]).id == current_group_id
                    &&& forall|k: int| 0 <= k < gi ==> (#[trigger] old(app).groups@[k]).id != current_group_id
                    &&& !crate::models::is_member_name(
                        old(app).groups@[gi].members@,
                        old(app).users@[ui].name@,
                    )
                    &&& u.id as int == max_member_id(old(app).groups@[gi].members@) + 1
                    &&& u.name@ == old(app).users@[ui].name@
                    &&& final(app).groups@.len() == old(app).groups@.len()
                    &&& forall|k: int|
                        0 <= k < old(app).groups@.len() && k != gi
                            ==> #[trigger] final(app).groups@[k] == old(app).groups@[k]
                    &&& final(app).groups@[gi].members@.len() == old(
                        app,
                    ).groups@[gi].members@.len() + 1
                    &&& forall|k: int|
                        0 <= k < old(app).groups@[gi].members@.len()
                            ==> #[trigger] final(app).groups@[gi].members@[k] == old(
                            app,
                        ).groups@[gi].members@[k]
                    &&& final(app).groups@[gi].members@.last().id == u.id
                    &&& final(app).groups@[gi].members@.last().name@ == u.name@
                    &&& final(app).groups@[gi].expenses == old(app).groups@[gi].expenses
                    &&& final(app).groups@[gi].settled_settlements == old(
                        app,
                    ).groups@[gi].settled_settlements
                    &&& final(app).groups@[gi].id == old(app).groups@[gi].id
                    &&& final(app).groups@[gi].name == old(app).groups@[gi].name
                    &&& final(app).groups@[gi].simplify_debts == old(
                        app,
                    ).groups@[gi].simplify_debts
                    &&& final(app).users == old(app).users
                    &&& final(app).current_group_id == old(app).current_group_id
                },
            Err(e) => {
                &&& *final(app) == *old(app)
                &&& match e {
                    AppError::BadRequest(_) => digits_of(phone@).len() < 10 || exists|
                        ui: int,
                        gi: int,
                    |
                        {
                            &&& 0 <= ui < old(app).users@.len()
                            &&& (#[trigger] old(app).users@[ui]).phone@ == digits_of(phone@)
                            &&& 0 <= gi < old(app).groups@.len()
                            &&& (#[trigger] old(app).groups@[gi]).id == current_group_id
                            &&& crate::models::is_member_name(
                                old(app).groups@[gi].members@,
                                old(app).users@[ui].name@,
                            )
                        },
                    AppError::NotFound(_) => digits_of(phone@).len() >= 10 && (!phone_registered(
                        old(app).users@,
                        digits_of(phone@),
                    ) || !crate::groups::group_exists(old(app).groups@, current_group_id)),
                    _ => false,
                }
            },
        },
{
    let digits = match validate_phone(phone) {
        Ok(d) => d,
        Err(e) => {
            return Err(e);
        },
    };
    let ui = match find_user_by_phone(&app.users, &digits) {
        Some(i) => i,
        None => {
            return Err(AppError::phone_not_registered());
        },
    };
    let name = app.users[ui].name.clone();
    let gi = match crate::groups::find_group_index(&app.groups, current_group_id) {
        Some(i) => i,
        None => {
            return Err(AppError::group_not_found());
        },
    };
    if crate::models::find_member(&app.groups[gi].members, &name).is_some() {
        let mut m = String::from_str("User '");
        m.append(name.as_str());
        m.append("' is already in this group");
        return Err(AppError::BadRequest(m));
    }
    let ghost prev = app.groups@;
    let mut g = app.groups.remove(gi);
    let max_id = compute_max_member_id(&g.members);
    let user = User { id: max_id + 1, name };
    let result = user.duplicate();
    g.members.push(user);
    app.groups.insert(gi, g);
    proof {
        assert forall|k: int| 0 <= k < prev.len() && k != gi implies #[trigger] app.groups@[k]
            == prev[k] by {
            if k < gi {
                assert(app.groups@[k] == prev.remove(gi as int).insert(
                    gi as int,
                    app.groups@[gi as int],
                )[k]);
            }
        }
    }
    Ok(result)
}

/// Look an account up by its session token.
pub fn find_user_by_token(app: &AppData, token: &str) -> (r: Option<usize>)
    ensures
        match r {
            Some(i) => i < app.users@.len() && app.users@[i as int].token@ == token@,
            None => forall|k: int|
                0 <= k < app.users@.len() ==> (#[trigger] app.users@[k]).token@ != token@,
        },
{
    let n = app.users.len();
    let mut i: usize = 0;
    while i < n
        invariant
            0 <= i <= n,
            n == app.users@.len(),
            forall|k: int| 0 <= k < i ==> (#[trigger] app.users@[k]).token@ != token@,
        decreases n - i,
    {
        if str_eq(app.users[i].token.as_str(), token) {
            return Some(i);
        }
        i = i + 1;
    }
    None
}

/// The member name occurs in some event of the log, as payer or
/// participant.
pub open spec fn involved_in_expenses(events: Seq<crate::models::Expense>, name: Seq<char>) -> bool {
    exists|i: int|
        0 <= i < events.len() && ((#[trigger] events[i]).payer.name@ == name || exists|k: int|
            0 <= k < events[i].participants@.len() && (#[trigger] events[i].participants@[k]).name@
                == name)
}

fn name_in_expenses(events: &Vec<crate::models::Expense>, name: &String) -> (r: bool)
    ensures
        r == involved_in_expenses(events@, name@),
{
    let n = events.len();
    let mut i: usize = 0;
    while i < n
        invariant
            0 <= i <= n,
            n == events@.len(),
            forall|x: int|
                0 <= x < i ==> !((#[trigger] events@[x]).payer.name@ == name@ || exists|k: int|
                    0 <= k < events@[x].participants@.len() && (#[trigger] events@[x].participants@[k]).name@
                        == name@),
        decreases n - i,
    {
        if str_eq(events[i].payer.name.as_str(), name.as_str()) {
            return true;
        }
        let e = &events[i];
        let np = e.participants.len();
        let mut p: usize = 0;
        while p < np
            invariant
                0 <= p <= np,
                0 <= i < n,
                n == events@.len(),
                *e == events@[i as int],
                np == e.participants@.len(),
                forall|k: int|
                    0 <= k < p ==> (#[trigger] e.participants@[k]).name@ != name@,
            decreases np - p,
        {
            if str_eq(e.participants[p].name.as_str(), name.as_str()) {
                return true;
            }
            p = p + 1;
        }
        i = i + 1;
    }
    false
}

/// Remove a member from a group; members that still appear in events stay.
pub fn delete_user(group: &mut Group, id: usize) -> (r: Result<(), AppError>)
    ensures
        match r {
            Ok(_) => exists|i: int|
                {
                    &&& 0 <= i < old(group).members@.len()
                    &&& (#[trigger] old(group).members@[i]).id == id
                    &&& forall|k: int| 0 <= k < i ==> (#[trigger] old(group).members@[k]).id != id
                    &&& !involved_in_expenses(
                        old(group).expenses@,
                        old(group).members@[i].name@,
                    )
                    &&& final(group).members@ == old(group).members@.remove(i)
                    &&& final(group).expenses == old(group).expenses
                    &&& final(group).settled_settlements == old(group).settled_settlements
                    &&& final(group).id == old(group).id
                    &&& final(group).name == old(group).name
                    &&& final(group).simplify_debts == old(group).simplify_debts
                },
            Err(e) => {
                &&& *final(group) == *old(group)
                &&& match e {
                    AppError::NotFound(_) => forall|k: int|
                        0 <= k < old(group).members@.len() ==> (#[trigger] old(
                            group,
                        ).members@[k]).id != id,
                    AppError::BadRequest(_) => exists|i: int|
                        0 <= i < old(group).members@.len() && (#[trigger] old(
                            group,
                        ).members@[i]).id == id && involved_in_expenses(
                            old(group).expenses@,
                            old(group).members@[i].name@,
                        ),
                    _ => false,
                }
            },
        },
{
    let n = group.members.len();
    let mut i: usize = 0;
    while i < n
        invariant
            0 <= i <= n,
            n == group.members@.len(),
            forall|k: int| 0 <= k < i ==> (#[trigger] group.members@[k]).id != id,
            *group == *old(group),
        decreases n - i,
    {
        if group.members[i].id == id {
            if name_in_expenses(&group.expenses, &group.members[i].name) {
                return Err(
                    AppError::BadRequest("Cannot delete user with existing expenses".to_owned()),
                );
            }
            group.members.remove(i);
            return Ok(());
        }
        i = i + 1;
    }
    Err(AppError::NotFound("User not found in this group".to_owned()))
}

} // verus!
