//! Who may execute which statement.

use crate::ast::{opt_text, Stmt};
use crate::auth::{User, UserV};
use crate::error::{same, ExecError, ExecErrorV};
use crate::output::Output;
use crate::perm::{holds_all, no_perm, perm_text, Perm};
use crate::text::{owned, same_text};
use vstd::prelude::*;

verus! {

/// What a statement asks of the user who executes it.
pub enum Demand {
    Nothing,
    /// Permissions on the active database.
    OnActive(Perm),
    /// Permissions on a named database.
    On(Seq<char>, Perm),
    /// The administration of every database.
    GlobalAdmin,
    /// The administration of the named database, or of every one.
    AdminOf(Seq<char>),
    /// Some permission on the named database.
    AnyOn(Seq<char>),
}

pub open spec fn only_create() -> Perm {
    Perm { create: true, ..no_perm() }
}

pub open spec fn only_read() -> Perm {
    Perm { read: true, ..no_perm() }
}

pub open spec fn only_update() -> Perm {
    Perm { update: true, ..no_perm() }
}

pub open spec fn only_delete() -> Perm {
    Perm { delete: true, ..no_perm() }
}

/// What a statement asks of the user who executes it. Users may look at their own grants.
pub open spec fn demand_of(stmt: &Stmt, user: UserV) -> Demand {
    match *stmt {
        Stmt::CreateDatabase { .. } => Demand::GlobalAdmin,
        Stmt::DropDatabase { name } => Demand::AdminOf(name@),
        Stmt::UseDatabase { name } => Demand::AnyOn(name@),
        Stmt::Create { .. } => Demand::OnActive(only_create()),
        Stmt::Append { .. } => Demand::OnActive(only_update()),
        Stmt::AppendNd { .. } => Demand::OnActive(only_update()),
        Stmt::BatchAppend { .. } => Demand::OnActive(only_update()),
        Stmt::Copy { .. } => Demand::OnActive(only_update()),
        Stmt::Derive { .. } => Demand::OnActive(only_create()),
        Stmt::Xderive { .. } => Demand::OnActive(only_create()),
        Stmt::At { .. } => Demand::OnActive(only_read()),
        Stmt::AtNd { .. } => Demand::OnActive(only_read()),
        Stmt::AtAsOf { .. } => Demand::OnActive(only_read()),
        Stmt::AtLayer { .. } => Demand::OnActive(only_read()),
        Stmt::Range { .. } => Demand::OnActive(only_read()),
        Stmt::RangeNd { .. } => Demand::OnActive(only_read()),
        Stmt::Reduce { .. } => Demand::OnActive(only_read()),
        Stmt::HistoryLens { .. } => Demand::OnActive(only_read()),
        Stmt::Drop { .. } => Demand::OnActive(only_delete()),
        Stmt::ShowDatabases => Demand::Nothing,
        Stmt::ShowLenses => Demand::OnActive(only_read()),
        Stmt::CreateUser { .. } => Demand::GlobalAdmin,
        Stmt::DropUser { .. } => Demand::GlobalAdmin,
        Stmt::ShowUsers => Demand::GlobalAdmin,
        Stmt::Grant { database, .. } => Demand::AdminOf(database@),
        Stmt::Revoke { database, .. } => Demand::AdminOf(database@),
        Stmt::ShowGrants { user: target } => if opt_text(target) == Some(user.name) {
            Demand::Nothing
        } else {
            Demand::GlobalAdmin
        },
        Stmt::StartTransaction => Demand::Nothing,
        Stmt::Commit => Demand::Nothing,
        Stmt::Rollback => Demand::Nothing,
        Stmt::SetTtl { .. } => Demand::OnActive(only_create()),
        Stmt::UnsetTtl { .. } => Demand::OnActive(only_create()),
        Stmt::ShowStatus => Demand::Nothing,
        Stmt::BackupDatabase { name, .. } => Demand::On(name@, only_read()),
        Stmt::RestoreDatabase { .. } => Demand::GlobalAdmin,
        Stmt::CreateFunction { .. } => Demand::GlobalAdmin,
        Stmt::DropFunction { .. } => Demand::GlobalAdmin,
        Stmt::CallFunction { .. } => Demand::GlobalAdmin,
        Stmt::ShowFunctions => Demand::Nothing,
    }
}

/// The user has the permissions on the database.
pub open spec fn has_on(user: UserV, db: Seq<char>, perm: Perm) -> Result<(), ExecErrorV> {
    if holds_all(user.effective(db), perm) {
        Ok(())
    } else {
        Err(
            ExecErrorV::PermissionDenied(
                "user '"@ + user.name + "' lacks "@ + perm_text(perm) + " on "@ + db,
            ),
        )
    }
}

/// Whether a user meets a demand.
pub open spec fn meets_demand(demand: Demand, user: UserV, active: Option<Seq<char>>) -> Result<
    (),
    ExecErrorV,
> {
    match demand {
        Demand::Nothing => Ok(()),
        Demand::OnActive(perm) => match active {
            None => Err(ExecErrorV::NoActiveDatabase),
            Some(db) => has_on(user, db, perm),
        },
        Demand::On(db, perm) => has_on(user, db, perm),
        Demand::GlobalAdmin => if user.is_global_admin() {
            Ok(())
        } else {
            Err(
                ExecErrorV::PermissionDenied(
                    "user '"@ + user.name + "' is not a global admin"@,
                ),
            )
        },
        Demand::AdminOf(db) => if user.is_global_admin() || user.effective(db).admin {
            Ok(())
        } else {
            Err(
                ExecErrorV::PermissionDenied("user '"@ + user.name + "' lacks A on "@ + db),
            )
        },
        Demand::AnyOn(db) => if user.effective(db) == no_perm() {
            Err(
                ExecErrorV::PermissionDenied(
                    "user '"@ + user.name + "' has no grants on "@ + db,
                ),
            )
        } else {
            Ok(())
        },
    }
}

/// Whether a user may execute a statement.
pub open spec fn permission_of(stmt: &Stmt, user: UserV, active: Option<Seq<char>>) -> Result<
    (),
    ExecErrorV,
> {
    meets_demand(demand_of(stmt, user), user, active)
}

/// A user who has every permission everywhere may execute every statement, once a database
/// is active.
pub proof fn law_full_grant_allows_everything(stmt: &Stmt, user: UserV, active: Option<Seq<char>>)
    requires
        user.direct(crate::auth::everywhere()) == crate::perm::all_perm(),
        active is Some,
    ensures
        permission_of(stmt, user, active) is Ok,
{
}

/// More permissions never forbid what fewer allow.
pub proof fn law_permission_is_monotone(
    stmt: &Stmt,
    user: UserV,
    stronger: UserV,
    active: Option<Seq<char>>,
)
    requires
        stronger.name == user.name,
        forall|db: Seq<char>| #[trigger]
            holds_all(stronger.effective(db), user.effective(db)),
        permission_of(stmt, user, active) is Ok,
    ensures
        permission_of(stmt, stronger, active) is Ok,
{
    let all = crate::auth::everywhere();
    assert(holds_all(stronger.effective(all), user.effective(all)));
    match demand_of(stmt, user) {
        Demand::OnActive(_) => {
            if let Some(db) = active {
                assert(holds_all(stronger.effective(db), user.effective(db)));
            }
        },
        Demand::On(db, _) => {
            assert(holds_all(stronger.effective(db), user.effective(db)));
        },
        Demand::AdminOf(db) => {
            assert(holds_all(stronger.effective(db), user.effective(db)));
        },
        Demand::AnyOn(db) => {
            assert(holds_all(stronger.effective(db), user.effective(db)));
        },
        _ => {},
    }
}

/// Someone without any grant may only look at the server's status and its functions, at a
/// list of databases, at their own grants, and open or close a transaction.
pub proof fn law_no_grants_no_access(stmt: &Stmt, user: UserV, active: Option<Seq<char>>)
    requires
        user.grants == Map::<Seq<char>, Perm>::empty(),
    ensures
        permission_of(stmt, user, active) is Ok <==> demand_of(stmt, user) is Nothing,
{
}

fn denied(name: &str, middle: &str, end: &str) -> (r: ExecError)
    ensures
        r@ == ExecErrorV::PermissionDenied("user '"@ + name@ + middle@ + end@),
{
    let mut out = owned("user '");
    out.append(name);
    out.append(middle);
    out.append(end);
    ExecError::PermissionDenied(out)
}

fn require(user: &User, db: &str, perm: Perm) -> (r: Result<(), ExecError>)
    ensures
        same(r, has_on(user@, db@, perm)),
{
    if user.effective(db).contains(perm) {
        return Ok(());
    }
    let mut out = owned("user '");
    out.append(user.name.as_str());
    out.append("' lacks ");
    perm.push_text(&mut out);
    out.append(" on ");
    out.append(db);
    Err(ExecError::PermissionDenied(out))
}

fn require_on_active(user: &User, active: &Option<String>, perm: Perm) -> (r: Result<
    (),
    ExecError,
>)
    ensures
        same(r, meets_demand(Demand::OnActive(perm), user@, opt_text(*active))),
{
    match active {
        Some(db) => require(user, db.as_str(), perm),
        None => Err(ExecError::NoActiveDatabase),
    }
}

fn require_global_admin(user: &User) -> (r: Result<(), ExecError>)
    ensures
        forall|active: Option<Seq<char>>|
            same(r, #[trigger] meets_demand(Demand::GlobalAdmin, user@, active)),
{
    if user.is_global_admin() {
        Ok(())
    } else {
        let e = denied(user.name.as_str(), "' is not a global admin", "");
        proof {
            reveal_strlit("");
            assert("user '"@ + user@.name + "' is not a global admin"@ + ""@ =~= "user '"@
                + user@.name + "' is not a global admin"@);
        }
        Err(e)
    }
}

fn require_admin_of(user: &User, db: &str) -> (r: Result<(), ExecError>)
    ensures
        forall|active: Option<Seq<char>>|
            same(r, #[trigger] meets_demand(Demand::AdminOf(db@), user@, active)),
{
    if user.is_global_admin() || user.effective(db).admin {
        Ok(())
    } else {
        Err(denied(user.name.as_str(), "' lacks A on ", db))
    }
}

fn require_any_grant(user: &User, db: &str) -> (r: Result<(), ExecError>)
    ensures
        forall|active: Option<Seq<char>>|
            same(r, #[trigger] meets_demand(Demand::AnyOn(db@), user@, active)),
{
    if user.effective(db).is_empty() {
        Err(denied(user.name.as_str(), "' has no grants on ", db))
    } else {
        Ok(())
    }
}

/// Whether a user may execute a statement while a database, or none, is active.
pub fn check_permission(stmt: &Stmt, user: &User, active: &Option<String>) -> (r: Result<
    (),
    ExecError,
>)
    ensures
        same(r, permission_of(stmt, user@, opt_text(*active))),
{
    match stmt {
        Stmt::CreateDatabase { .. } => require_global_admin(user),
        Stmt::DropDatabase { name } => require_admin_of(user, name.as_str()),
        Stmt::UseDatabase { name } => require_any_grant(user, name.as_str()),
        Stmt::Create { .. } => require_on_active(user, active, Perm::c()),
        Stmt::Append { .. } => require_on_active(user, active, Perm::u()),
        Stmt::AppendNd { .. } => require_on_active(user, active, Perm::u()),
        Stmt::BatchAppend { .. } => require_on_active(user, active, Perm::u()),
        Stmt::Copy { .. } => require_on_active(user, active, Perm::u()),
        Stmt::Derive { .. } => require_on_active(user, active, Perm::c()),
        Stmt::Xderive { .. } => require_on_active(user, active, Perm::c()),
        Stmt::At { .. } => require_on_active(user, active, Perm::r()),
        Stmt::AtNd { .. } => require_on_active(user, active, Perm::r()),
        Stmt::AtAsOf { .. } => require_on_active(user, active, Perm::r()),
        Stmt::AtLayer { .. } => require_on_active(user, active, Perm::r()),
        Stmt::Range { .. } => require_on_active(user, active, Perm::r()),
        Stmt::RangeNd { .. } => require_on_active(user, active, Perm::r()),
        Stmt::Reduce { .. } => require_on_active(user, active, Perm::r()),
        Stmt::HistoryLens { .. } => require_on_active(user, active, Perm::r()),
        Stmt::Drop { .. } => require_on_active(user, active, Perm::d()),
        Stmt::ShowDatabases => Ok(()),
        Stmt::ShowLenses => require_on_active(user, active, Perm::r()),
        Stmt::CreateUser { .. } => require_global_admin(user),
        Stmt::DropUser { .. } => require_global_admin(user),
        Stmt::ShowUsers => require_global_admin(user),
        Stmt::Grant { database, .. } => require_admin_of(user, database.as_str()),
        Stmt::Revoke { database, .. } => require_admin_of(user, database.as_str()),
        Stmt::ShowGrants { user: target } => {
            if let Some(name) = target {
                if same_text(name.as_str(), user.name.as_str()) {
                    return Ok(());
                }
            }
            require_global_admin(user)
        },
        Stmt::StartTransaction => Ok(()),
        Stmt::Commit => Ok(()),
        Stmt::Rollback => Ok(()),
        Stmt::SetTtl { .. } => require_on_active(user, active, Perm::c()),
        Stmt::UnsetTtl { .. } => require_on_active(user, active, Perm::c()),
        Stmt::ShowStatus => Ok(()),
        Stmt::BackupDatabase { name, .. } => require(user, name.as_str(), Perm::r()),
        Stmt::RestoreDatabase { .. } => require_global_admin(user),
        Stmt::CreateFunction { .. } => require_global_admin(user),
        Stmt::DropFunction { .. } => require_global_admin(user),
        Stmt::CallFunction { .. } => require_global_admin(user),
        Stmt::ShowFunctions => Ok(()),
    }
}

/// The names of databases on which a user has some permission, in their order.
pub open spec fn visible_names(names: Seq<String>, user: UserV) -> Seq<Seq<char>>
    decreases names.len(),
{
    if names.len() == 0 {
        Seq::empty()
    } else {
        let front = visible_names(names.drop_last(), user);
        if user.effective(names.last()@) == no_perm() {
            front
        } else {
            front.push(names.last()@)
        }
    }
}

pub open spec fn name_texts(names: Seq<String>) -> Seq<Seq<char>> {
    names.map_values(|s: String| s@)
}

/// Of the answer to `SHOW DATABASES`, what a user who is not a global admin gets to see.
/// Every other answer stays as it is.
pub fn filter_show_databases(out: Output, stmt: &Stmt, user: &User) -> (r: Output)
    ensures
        if stmt is ShowDatabases && !user@.is_global_admin() && out is Names {
            r is Names && name_texts(r->Names_0@) == visible_names(out->Names_0@, user@)
        } else {
            r == out
        },
{
    let listing: bool = match stmt {
        Stmt::ShowDatabases => true,
        _ => false,
    };
    if !listing || user.is_global_admin() {
        return out;
    }
    match out {
        Output::Names(names) => {
            let mut kept: Vec<String> = Vec::new();
            let mut i: usize = 0;
            proof {
                assert(names@.take(0) =~= Seq::empty());
                assert(name_texts(kept@) =~= Seq::empty());
            }
            while i < names.len()
                invariant
                    i <= names@.len(),
                    name_texts(kept@) == visible_names(names@.take(i as int), user@),
                decreases names@.len() - i,
            {
                proof {
                    assert(names@.take(i + 1).drop_last() =~= names@.take(i as int));
                    assert(names@.take(i + 1).last() == names@[i as int]);
                }
                if !user.effective(names[i].as_str()).is_empty() {
                    let ghost before = kept@;
                    kept.push(names[i].clone());
                    assert(name_texts(kept@) =~= name_texts(before).push(names@[i as int]@));
                }
                i = i + 1;
            }
            assert(names@.take(names@.len() as int) =~= names@);
            Output::Names(kept)
        },
        other => other,
    }
}

} // verus!
