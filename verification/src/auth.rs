//! Users, their passwords and their permissions.

use crate::exact::Exact;
use crate::names::{listed, lists_keys, NameMap};
use crate::perm::{both, either, holds_all, no_perm, without, Perm};
use crate::text::{owned, same_text};
use vstd::prelude::*;

verus! {

/// The name that stands for every database.
pub open spec fn everywhere() -> Seq<char> {
    seq!['*']
}

/// A user.
#[verifier::ext_equal]
pub struct UserV {
    pub name: Seq<char>,
    pub secret: Seq<char>,
    /// Permissions by database.
    pub grants: Map<Seq<char>, Perm>,
}

/// A user.
#[derive(Debug)]
pub struct User {
    pub name: String,
    pub secret: String,
    pub grants: NameMap<Perm>,
}

impl View for User {
    type V = UserV;

    open spec fn view(&self) -> UserV {
        UserV { name: self.name@, secret: self.secret@, grants: self.grants@ }
    }
}

impl UserV {
    /// The permissions granted on a database by its name.
    pub open spec fn direct(self, db: Seq<char>) -> Perm {
        if self.grants.contains_key(db) {
            self.grants[db]
        } else {
            no_perm()
        }
    }

    /// The permissions on a database: those granted on it and those granted on every one.
    pub open spec fn effective(self, db: Seq<char>) -> Perm {
        either(self.direct(db), self.direct(everywhere()))
    }

    /// Whether the user administers every database.
    pub open spec fn is_global_admin(self) -> bool {
        self.direct(everywhere()).admin
    }

    /// The user with permissions on a database set; without an entry where there are none.
    pub open spec fn with_direct(self, db: Seq<char>, p: Perm) -> UserV {
        UserV {
            grants: if p == no_perm() {
                self.grants.remove(db)
            } else {
                self.grants.insert(db, p)
            },
            ..self
        }
    }
}

impl User {
    pub fn new(name: &str, password: &str, grants: NameMap<Perm>) -> (r: Self)
        ensures
            r@ == (UserV { name: name@, secret: password@, grants: grants@ }),
    {
        User { name: owned(name), secret: owned(password), grants }
    }

    pub fn dup(&self) -> (r: Self)
        ensures
            r@ == self@,
    {
        User {
            name: self.name.clone(),
            secret: self.secret.clone(),
            grants: self.grants.dup(),
        }
    }

    /// Whether the password is the user's.
    pub fn verify(&self, password: &str) -> (r: bool)
        ensures
            r == (self@.secret == password@),
    {
        same_text(self.secret.as_str(), password)
    }

    fn direct_perm(&self, db: &str) -> (r: Perm)
        ensures
            r == self@.direct(db@),
    {
        match self.grants.get(db) {
            Some(p) => *p,
            None => Perm::none(),
        }
    }

    /// The permissions on a database: those granted on it and those granted on every one.
    pub fn effective(&self, db: &str) -> (r: Perm)
        ensures
            r == self@.effective(db@),
    {
        proof {
            reveal_strlit("*");
            assert("*"@ =~= everywhere());
        }
        self.direct_perm(db).union(self.direct_perm("*"))
    }

    /// Whether the user administers every database.
    pub fn is_global_admin(&self) -> (r: bool)
        ensures
            r == self@.is_global_admin(),
    {
        proof {
            reveal_strlit("*");
            assert("*"@ =~= everywhere());
        }
        self.direct_perm("*").admin
    }

    /// The grants, by database in name order.
    pub fn grant_list(&self) -> (r: Vec<(String, Perm)>)
        ensures
            lists_grants(r@, self@.grants),
    {
        let names = self.grants.names();
        let mut out: Vec<(String, Perm)> = Vec::new();
        let mut i: usize = 0;
        while i < names.len()
            invariant
                i <= names@.len(),
                lists_keys(names@, self.grants@),
                out@.len() == i,
                forall|k: int|
                    0 <= k < i ==> (#[trigger] out@[k]).0 == names@[k] && out@[k].1
                        == self.grants@[names@[k]@],
            decreases names@.len() - i,
        {
            assert(listed(names@, names@[i as int]@));
            if let Some(p) = self.grants.get(names[i].as_str()) {
                out.push((names[i].clone(), *p));
            }
            i = i + 1;
        }
        proof {
            let firsts = out@.map_values(|g: (String, Perm)| g.0);
            assert(firsts =~= names@);
        }
        out
    }
}

/// The list gives each granted database once, in name order, with its permissions.
pub open spec fn lists_grants(list: Seq<(String, Perm)>, grants: Map<Seq<char>, Perm>) -> bool {
    &&& lists_keys(list.map_values(|g: (String, Perm)| g.0), grants)
    &&& forall|i: int| 0 <= i < list.len() ==> (#[trigger] list[i]).1 == grants[list[i].0@]
}

/// Users by name.
pub type UsersV = Map<Seq<char>, UserV>;

/// The known users.
#[derive(Debug)]
pub struct UserStore {
    pub users: NameMap<User>,
}

impl View for UserStore {
    type V = UsersV;

    open spec fn view(&self) -> UsersV {
        self.users@.map_values(|u: User| u@)
    }
}

impl UserStore {
    pub fn new() -> (r: Self)
        ensures
            r@ == Map::<Seq<char>, UserV>::empty(),
    {
        let r = UserStore { users: NameMap::new() };
        assert(r@ =~= Map::empty());
        r
    }

    pub fn get(&self, name: &str) -> (r: Option<&User>)
        ensures
            r is Some <==> self@.contains_key(name@),
            r matches Some(u) ==> u@ == self@[name@],
    {
        self.users.get(name)
    }

    fn put(&mut self, name: &str, user: User)
        ensures
            final(self)@ == old(self)@.insert(name@, user@),
    {
        self.users.insert(name, user);
        assert(self@ =~= old(self)@.insert(name@, user@));
    }

    /// Adds a user whose name is not taken.
    pub fn add(&mut self, user: User) -> (r: Result<(), String>)
        ensures
            r is Err <==> old(self)@.contains_key(user@.name),
            r is Ok ==> final(self)@ == old(self)@.insert(user@.name, user@),
            r is Err ==> final(self)@ == old(self)@,
            r matches Err(e) ==> e@ == "user '"@ + user@.name + "' already exists"@,
    {
        let name = user.name.clone();
        if self.users.contains_key(name.as_str()) {
            return Err(quoted("user '", name.as_str(), "' already exists"));
        }
        self.put(name.as_str(), user);
        Ok(())
    }

    /// Removes a user.
    pub fn remove(&mut self, name: &str) -> (r: Result<(), String>)
        ensures
            r is Err <==> !old(self)@.contains_key(name@),
            r matches Err(e) ==> e@ == unknown_user(name@),
            final(self)@ == old(self)@.remove(name@),
    {
        let gone: bool = self.users.remove(name).is_some();
        assert(self@ =~= old(self)@.remove(name@));
        if gone {
            Ok(())
        } else {
            Err(no_user(name))
        }
    }

    /// The user, if the password is theirs.
    pub fn verify(&self, name: &str, password: &str) -> (r: Option<&User>)
        ensures
            r is Some <==> self@.contains_key(name@) && self@[name@].secret == password@,
            r matches Some(u) ==> u@ == self@[name@],
    {
        match self.users.get(name) {
            Some(u) => if u.verify(password) {
                Some(u)
            } else {
                None
            },
            None => None,
        }
    }

    /// Gives a user another password.
    pub fn set_password(&mut self, name: &str, password: &str) -> (r: Result<(), String>)
        ensures
            r is Err <==> !old(self)@.contains_key(name@),
            r matches Err(e) ==> e@ == unknown_user(name@),
            r is Err ==> final(self)@ == old(self)@,
            r is Ok ==> final(self)@ == old(self)@.insert(
                name@,
                UserV { secret: password@, ..old(self)@[name@] },
            ),
    {
        let mut user: User = match self.users.get(name) {
            Some(u) => u.dup(),
            None => {
                return Err(no_user(name));
            },
        };
        user.secret = owned(password);
        self.put(name, user);
        Ok(())
    }

    fn set_direct(&mut self, name: &str, db: &str, p: Perm)
        requires
            old(self)@.contains_key(name@),
        ensures
            final(self)@ == old(self)@.insert(name@, old(self)@[name@].with_direct(db@, p)),
    {
        let mut user: User = match self.users.get(name) {
            Some(u) => u.dup(),
            None => {
                return ;
            },
        };
        if p.is_empty() {
            let _ = user.grants.remove(db);
        } else {
            user.grants.insert(db, p);
        }
        self.put(name, user);
    }

    /// Grants permissions on a database, on top of those that are granted already.
    pub fn grant(&mut self, name: &str, db: &str, perms: Perm) -> (r: Result<Perm, String>)
        ensures
            r is Err <==> !old(self)@.contains_key(name@),
            r matches Err(e) ==> e@ == unknown_user(name@),
            r is Err ==> final(self)@ == old(self)@,
            r matches Ok(p) ==> p == either(old(self)@[name@].direct(db@), perms)
                && final(self)@ == granted(old(self)@, name@, db@, perms),
    {
        let now: Perm = match self.users.get(name) {
            Some(u) => u.direct_perm(db).union(perms),
            None => {
                return Err(no_user(name));
            },
        };
        self.set_direct(name, db, now);
        Ok(now)
    }

    /// Takes permissions on a database back.
    pub fn revoke(&mut self, name: &str, db: &str, perms: Perm) -> (r: Result<Perm, String>)
        ensures
            r is Err <==> !old(self)@.contains_key(name@),
            r matches Err(e) ==> e@ == unknown_user(name@),
            r is Err ==> final(self)@ == old(self)@,
            r matches Ok(p) ==> p == without(old(self)@[name@].direct(db@), perms)
                && final(self)@ == revoked(old(self)@, name@, db@, perms),
    {
        let mut now: Perm = match self.users.get(name) {
            Some(u) => u.direct_perm(db),
            None => {
                return Err(no_user(name));
            },
        };
        now.remove(perms);
        self.set_direct(name, db, now);
        Ok(now)
    }

    /// The names of all users, sorted.
    pub fn names(&self) -> (r: Vec<String>)
        ensures
            lists_keys(r@, self@),
    {
        let r = self.users.names();
        proof {
            assert forall|k: Seq<char>| #[trigger] self@.contains_key(k) <==> listed(r@, k) by {
                assert(self.users@.contains_key(k) <==> listed(r@, k));
            }
        }
        r
    }

    /// The grants of a user, by database in name order.
    pub fn grants_for(&self, name: &str) -> (r: Option<Vec<(String, Perm)>>)
        ensures
            r is Some <==> self@.contains_key(name@),
            r matches Some(list) ==> lists_grants(list@, self@[name@].grants),
    {
        match self.users.get(name) {
            Some(u) => Some(u.grant_list()),
            None => None,
        }
    }
}

/// The users once permissions have been granted.
pub open spec fn granted(users: UsersV, name: Seq<char>, db: Seq<char>, perms: Perm) -> UsersV {
    users.insert(
        name,
        users[name].with_direct(db, either(users[name].direct(db), perms)),
    )
}

/// The users once permissions have been taken back.
pub open spec fn revoked(users: UsersV, name: Seq<char>, db: Seq<char>, perms: Perm) -> UsersV {
    users.insert(
        name,
        users[name].with_direct(db, without(users[name].direct(db), perms)),
    )
}

/// Revoking what was just granted leaves a user with the permissions they had, less those
/// that were granted already: where none was, everything is as before.
pub proof fn law_revoke_undoes_grant(users: UsersV, name: Seq<char>, db: Seq<char>, perms: Perm)
    requires
        users.contains_key(name),
    ensures
        ({
            let after = revoked(granted(users, name, db, perms), name, db, perms);
            &&& after[name].direct(db) == without(users[name].direct(db), perms)
            &&& forall|other: Seq<char>|
                other != db ==> #[trigger] after[name].direct(other) == users[name].direct(other)
            &&& both(users[name].direct(db), perms) == no_perm() ==> forall|d: Seq<char>|
                #[trigger]
                after[name].effective(d) == users[name].effective(d)
        }),
{
}

/// Granting never takes a permission away, on any database.
pub proof fn law_grant_only_adds(
    users: UsersV,
    name: Seq<char>,
    db: Seq<char>,
    perms: Perm,
    d: Seq<char>,
)
    requires
        users.contains_key(name),
    ensures
        holds_all(granted(users, name, db, perms)[name].effective(d), users[name].effective(d)),
        holds_all(granted(users, name, db, perms)[name].effective(db), perms),
{
}

fn quoted(before: &str, name: &str, after: &str) -> (r: String)
    ensures
        r@ == before@ + name@ + after@,
{
    let mut out = owned(before);
    out.append(name);
    out.append(after);
    out
}

/// The complaint about a user who is not known.
pub open spec fn unknown_user(name: Seq<char>) -> Seq<char> {
    "user '"@ + name + "' does not exist"@
}

fn no_user(name: &str) -> (r: String)
    ensures
        r@ == unknown_user(name@),
{
    quoted("user '", name, "' does not exist")
}

/// Requests to the authentication service.
#[derive(Debug)]
pub enum AuthEvent {
    Authenticate { username: String, password: String },
    CheckPermission { username: String, database: String, perm: Perm },
    CreateUser { name: String, password: String, grants: NameMap<Perm> },
    RemoveUser { name: String },
    SetPassword { username: String, password: String },
    Grant { username: String, database: String, perms: Perm },
    Revoke { username: String, database: String, perms: Perm },
    ListUsers,
    ListGrants { username: String },
    IsAdmin { username: String },
}

/// Answers of the authentication service.
#[derive(Debug)]
pub enum AuthResult {
    /// The user is known and the password theirs.
    Success { username: String },
    /// The user is known and the password not theirs.
    Failed,
    NotFound,
    Permission { allowed: bool },
    /// A change of the users succeeded.
    UserOp,
    Users { users: Vec<String> },
    Grants { grants: NameMap<Perm> },
    Admin { is_admin: bool },
}

/// The service that knows the users.
#[derive(Debug)]
pub struct AuthService {
    users: UserStore,
}

impl View for AuthService {
    type V = UsersV;

    closed spec fn view(&self) -> UsersV {
        self.users@
    }
}

/// What a request that changes the users leaves; `None` where it is refused.
pub open spec fn auth_change(users: UsersV, event: AuthEvent) -> Option<UsersV> {
    match event {
        AuthEvent::CreateUser { name, password, grants } => if users.contains_key(name@) {
            None
        } else {
            Some(
                users.insert(
                    name@,
                    UserV { name: name@, secret: password@, grants: grants@ },
                ),
            )
        },
        AuthEvent::RemoveUser { name } => if users.contains_key(name@) {
            Some(users.remove(name@))
        } else {
            None
        },
        AuthEvent::SetPassword { username, password } => if users.contains_key(username@) {
            Some(
                users.insert(
                    username@,
                    UserV { secret: password@, ..users[username@] },
                ),
            )
        } else {
            None
        },
        AuthEvent::Grant { username, database, perms } => if users.contains_key(username@) {
            Some(granted(users, username@, database@, perms))
        } else {
            None
        },
        AuthEvent::Revoke { username, database, perms } => if users.contains_key(username@) {
            Some(revoked(users, username@, database@, perms))
        } else {
            None
        },
        _ => Some(users),
    }
}

/// Why a change of the users is refused.
pub open spec fn refusal(event: AuthEvent) -> Seq<char> {
    match event {
        AuthEvent::CreateUser { name, .. } => "user '"@ + name@ + "' already exists"@,
        AuthEvent::RemoveUser { name } => unknown_user(name@),
        AuthEvent::SetPassword { username, .. } => unknown_user(username@),
        AuthEvent::Grant { username, .. } => unknown_user(username@),
        AuthEvent::Revoke { username, .. } => unknown_user(username@),
        _ => Seq::empty(),
    }
}

/// What the service answers.
pub open spec fn auth_answers(
    users: UsersV,
    event: AuthEvent,
    r: Result<AuthResult, SyscallError>,
) -> bool {
    match event {
        AuthEvent::Authenticate { username, password } => if !users.contains_key(username@) {
            r == Ok::<AuthResult, SyscallError>(AuthResult::NotFound)
        } else if users[username@].secret == password@ {
            r matches Ok(AuthResult::Success { username: name }) && name@ == username@
        } else {
            r == Ok::<AuthResult, SyscallError>(AuthResult::Failed)
        },
        AuthEvent::CheckPermission { username, database, perm } => r == Ok::<
            AuthResult,
            SyscallError,
        >(
            AuthResult::Permission {
                allowed: users.contains_key(username@) && holds_all(
                    users[username@].effective(database@),
                    perm,
                ),
            },
        ),
        AuthEvent::ListUsers => r matches Ok(AuthResult::Users { users: names }) && lists_keys(
            names@,
            users,
        ),
        AuthEvent::ListGrants { username } => if users.contains_key(username@) {
            r matches Ok(AuthResult::Grants { grants }) && grants@ == users[username@].grants
        } else {
            r == Ok::<AuthResult, SyscallError>(AuthResult::NotFound)
        },
        AuthEvent::IsAdmin { username } => r == Ok::<AuthResult, SyscallError>(
            AuthResult::Admin {
                is_admin: users.contains_key(username@) && users[username@].is_global_admin(),
            },
        ),
        _ => match auth_change(users, event) {
            Some(_) => r == Ok::<AuthResult, SyscallError>(AuthResult::UserOp),
            None => r matches Err(SyscallError::InternalError(why)) && why@ == refusal(event),
        },
    }
}

/// Errors of system calls.
#[derive(Debug, Clone, PartialEq, Eq)]
pub enum SyscallError {
    /// The handle is stale or was never given out.
    InvalidHandle,
    /// The resource does not support the operation.
    NotSupported,
    ResourceExhausted,
    IoError(String),
    InternalError(String),
}

impl AuthService {
    pub fn new(users: UserStore) -> (r: Self)
        ensures
            r@ == users@,
    {
        AuthService { users }
    }

    /// The users.
    pub fn users(&self) -> (r: &UserStore)
        ensures
            r@ == self@,
    {
        &self.users
    }

    /// Whether the password is the user's; `None` where the user is not known.
    pub fn authenticate(&self, username: &str, password: &str) -> (r: Option<bool>)
        ensures
            r == if self@.contains_key(username@) {
                Some(self@[username@].secret == password@)
            } else {
                None
            },
    {
        match self.users.get(username) {
            Some(u) => Some(u.verify(password)),
            None => None,
        }
    }

    /// Whether a user has permissions on a database. One who is not known has none.
    pub fn check_permission(&self, username: &str, database: &str, perm: Perm) -> (r: bool)
        ensures
            r == (self@.contains_key(username@) && holds_all(
                self@[username@].effective(database@),
                perm,
            )),
    {
        match self.users.get(username) {
            Some(u) => u.effective(database).contains(perm),
            None => false,
        }
    }

    pub fn create_user(&mut self, name: &str, password: &str, grants: NameMap<Perm>) -> (r: Result<
        (),
        String,
    >)
        ensures
            r is Err <==> old(self)@.contains_key(name@),
            r is Err ==> final(self)@ == old(self)@,
            r matches Err(e) ==> e@ == "user '"@ + name@ + "' already exists"@,
            r is Ok ==> final(self)@ == old(self)@.insert(
                name@,
                UserV { name: name@, secret: password@, grants: grants@ },
            ),
    {
        self.users.add(User::new(name, password, grants))
    }

    pub fn remove_user(&mut self, name: &str) -> (r: Result<(), String>)
        ensures
            r is Err <==> !old(self)@.contains_key(name@),
            r matches Err(e) ==> e@ == unknown_user(name@),
            final(self)@ == old(self)@.remove(name@),
    {
        self.users.remove(name)
    }

    pub fn set_password(&mut self, username: &str, password: &str) -> (r: Result<(), String>)
        ensures
            r is Err <==> !old(self)@.contains_key(username@),
            r matches Err(e) ==> e@ == unknown_user(username@),
            r is Err ==> final(self)@ == old(self)@,
            r is Ok ==> final(self)@ == old(self)@.insert(
                username@,
                UserV { secret: password@, ..old(self)@[username@] },
            ),
    {
        self.users.set_password(username, password)
    }

    /// Grants permissions; the answer is what is then granted on the database.
    pub fn grant(&mut self, username: &str, database: &str, perms: Perm) -> (r: Result<Perm, String>)
        ensures
            r is Err <==> !old(self)@.contains_key(username@),
            r matches Err(e) ==> e@ == unknown_user(username@),
            r is Err ==> final(self)@ == old(self)@,
            r matches Ok(p) ==> p == either(old(self)@[username@].direct(database@), perms)
                && final(self)@ == granted(old(self)@, username@, database@, perms),
    {
        self.users.grant(username, database, perms)
    }

    /// Takes permissions back; the answer is what is then granted on the database.
    pub fn revoke(&mut self, username: &str, database: &str, perms: Perm) -> (r: Result<
        Perm,
        String,
    >)
        ensures
            r is Err <==> !old(self)@.contains_key(username@),
            r matches Err(e) ==> e@ == unknown_user(username@),
            r is Err ==> final(self)@ == old(self)@,
            r matches Ok(p) ==> p == without(old(self)@[username@].direct(database@), perms)
                && final(self)@ == revoked(old(self)@, username@, database@, perms),
    {
        self.users.revoke(username, database, perms)
    }

    pub fn list_users(&self) -> (r: Vec<String>)
        ensures
            lists_keys(r@, self@),
    {
        self.users.names()
    }

    pub fn list_grants(&self, username: &str) -> (r: Option<Vec<(String, Perm)>>)
        ensures
            r is Some <==> self@.contains_key(username@),
            r matches Some(list) ==> lists_grants(list@, self@[username@].grants),
    {
        self.users.grants_for(username)
    }

    /// Whether a user administers every database.
    pub fn is_admin(&self, username: &str) -> (r: bool)
        ensures
            r == (self@.contains_key(username@) && self@[username@].is_global_admin()),
    {
        match self.users.get(username) {
            Some(u) => u.is_global_admin(),
            None => false,
        }
    }

    /// Answers a request.
    pub fn auth(&mut self, event: AuthEvent) -> (r: Result<AuthResult, SyscallError>)
        ensures
            auth_answers(old(self)@, event, r),
            final(self)@ == match auth_change(old(self)@, event) {
                Some(users) => users,
                None => old(self)@,
            },
    {
        match event {
            AuthEvent::Authenticate { username, password } => match self.authenticate(
                username.as_str(),
                password.as_str(),
            ) {
                Some(success) => if success {
                    Ok(AuthResult::Success { username })
                } else {
                    Ok(AuthResult::Failed)
                },
                None => Ok(AuthResult::NotFound),
            },
            AuthEvent::CheckPermission { username, database, perm } => {
                let allowed: bool = self.check_permission(
                    username.as_str(),
                    database.as_str(),
                    perm,
                );
                Ok(AuthResult::Permission { allowed })
            },
            AuthEvent::CreateUser { name, password, grants } => user_op(
                self.create_user(name.as_str(), password.as_str(), grants),
            ),
            AuthEvent::RemoveUser { name } => {
                let r = user_op(self.remove_user(name.as_str()));
                assert(self@ =~= match auth_change(old(self)@, event) {
                    Some(users) => users,
                    None => old(self)@,
                });
                r
            },
            AuthEvent::SetPassword { username, password } => user_op(
                self.set_password(username.as_str(), password.as_str()),
            ),
            AuthEvent::Grant { username, database, perms } => match self.grant(
                username.as_str(),
                database.as_str(),
                perms,
            ) {
                Ok(_) => Ok(AuthResult::UserOp),
                Err(e) => Err(SyscallError::InternalError(e)),
            },
            AuthEvent::Revoke { username, database, perms } => match self.revoke(
                username.as_str(),
                database.as_str(),
                perms,
            ) {
                Ok(_) => Ok(AuthResult::UserOp),
                Err(e) => Err(SyscallError::InternalError(e)),
            },
            AuthEvent::ListUsers => Ok(AuthResult::Users { users: self.list_users() }),
            AuthEvent::ListGrants { username } => match self.users.get(username.as_str()) {
                Some(u) => Ok(AuthResult::Grants { grants: u.grants.dup() }),
                None => Ok(AuthResult::NotFound),
            },
            AuthEvent::IsAdmin { username } => Ok(
                AuthResult::Admin { is_admin: self.is_admin(username.as_str()) },
            ),
        }
    }
}

fn user_op(r: Result<(), String>) -> (out: Result<AuthResult, SyscallError>)
    ensures
        r is Ok ==> out == Ok::<AuthResult, SyscallError>(AuthResult::UserOp),
        r matches Err(e) ==> out == Err::<AuthResult, SyscallError>(SyscallError::InternalError(e)),
{
    match r {
        Ok(()) => Ok(AuthResult::UserOp),
        Err(e) => Err(SyscallError::InternalError(e)),
    }
}

} // verus!
