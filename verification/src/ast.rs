//! Statements and expressions of the query language.

use crate::perm::Perm;
use crate::value::Type;
use vstd::prelude::*;

verus! {

/// A literal. A decimal number is kept as it was written.
#[derive(Debug, PartialEq)]
pub enum Literal {
    Null,
    Bool(bool),
    Str(String),
    Float(String),
    Int(i64),
}

pub enum LiteralV {
    Null,
    Bool(bool),
    Str(Seq<char>),
    Float(Seq<char>),
    Int(i64),
}

impl View for Literal {
    type V = LiteralV;

    open spec fn view(&self) -> LiteralV {
        match *self {
            Literal::Null => LiteralV::Null,
            Literal::Bool(b) => LiteralV::Bool(b),
            Literal::Str(s) => LiteralV::Str(s@),
            Literal::Float(s) => LiteralV::Float(s@),
            Literal::Int(i) => LiteralV::Int(i),
        }
    }
}

impl Clone for Literal {
    fn clone(&self) -> (r: Self)
        ensures
            r == *self,
    {
        match self {
            Literal::Null => Literal::Null,
            Literal::Bool(b) => Literal::Bool(*b),
            Literal::Str(s) => Literal::Str(s.clone()),
            Literal::Float(s) => Literal::Float(s.clone()),
            Literal::Int(i) => Literal::Int(*i),
        }
    }
}

#[derive(Debug, Clone, Copy, PartialEq, Eq, Structural)]
pub enum UnOp {
    Neg,
    Not,
}

#[derive(Debug, Clone, Copy, PartialEq, Eq, Structural)]
pub enum BinOp {
    Or,
    And,
    Eq,
    NotEq,
    Lt,
    LtEq,
    Gt,
    GtEq,
    Add,
    Sub,
    Mul,
    Div,
    Mod,
}

#[derive(Debug, Clone, Copy, PartialEq, Eq, Structural)]
pub enum AggFunc {
    Min,
    Max,
    Avg,
    Sum,
    Count,
}

/// An expression over lenses.
#[allow(inconsistent_fields)]
#[derive(Debug, PartialEq)]
pub enum Expr {
    Lit(Literal),
    Ident(String),
    Unary { op: UnOp, expr: Box<Expr> },
    Binary { op: BinOp, lhs: Box<Expr>, rhs: Box<Expr> },
    /// An aggregate of a lens over the window from `rel_start` to `rel_end`, relative to
    /// the time of evaluation.
    Agg { func: AggFunc, lens: String, rel_start: i64, rel_end: i64 },
}

#[allow(inconsistent_fields)]
pub enum ExprV {
    Lit(LiteralV),
    Ident(Seq<char>),
    Unary { op: UnOp, expr: Box<ExprV> },
    Binary { op: BinOp, lhs: Box<ExprV>, rhs: Box<ExprV> },
    Agg { func: AggFunc, lens: Seq<char>, rel_start: i64, rel_end: i64 },
}

impl Expr {
    pub open spec fn view(&self) -> ExprV
        decreases self,
    {
        match *self {
            Expr::Lit(l) => ExprV::Lit(l@),
            Expr::Ident(name) => ExprV::Ident(name@),
            Expr::Unary { op, expr } => ExprV::Unary { op, expr: Box::new(expr.view()) },
            Expr::Binary { op, lhs, rhs } => ExprV::Binary {
                op,
                lhs: Box::new(lhs.view()),
                rhs: Box::new(rhs.view()),
            },
            Expr::Agg { func, lens, rel_start, rel_end } => ExprV::Agg {
                func,
                lens: lens@,
                rel_start,
                rel_end,
            },
        }
    }
}

impl Clone for Expr {
    fn clone(&self) -> (r: Self)
        ensures
            r == *self,
        decreases self,
    {
        match self {
            Expr::Lit(l) => Expr::Lit(l.clone()),
            Expr::Ident(name) => Expr::Ident(name.clone()),
            Expr::Unary { op, expr } => Expr::Unary { op: *op, expr: Box::new((&**expr).clone()) },
            Expr::Binary { op, lhs, rhs } => Expr::Binary {
                op: *op,
                lhs: Box::new((&**lhs).clone()),
                rhs: Box::new((&**rhs).clone()),
            },
            Expr::Agg { func, lens, rel_start, rel_end } => Expr::Agg {
                func: *func,
                lens: lens.clone(),
                rel_start: *rel_start,
                rel_end: *rel_end,
            },
        }
    }
}

/// What makes a function run.
#[derive(Debug, Clone, PartialEq)]
pub enum TriggerKind {
    OnDemand,
    /// After an append to the lens, or to any lens where none is named.
    OnWrite { lens: Option<String> },
    OnPermission,
    Cron { every_secs: i64 },
}

pub enum TriggerKindV {
    OnDemand,
    OnWrite { lens: Option<Seq<char>> },
    OnPermission,
    Cron { every_secs: i64 },
}

pub open spec fn opt_text(s: Option<String>) -> Option<Seq<char>> {
    match s {
        Some(t) => Some(t@),
        None => None,
    }
}

impl View for TriggerKind {
    type V = TriggerKindV;

    open spec fn view(&self) -> TriggerKindV {
        match *self {
            TriggerKind::OnDemand => TriggerKindV::OnDemand,
            TriggerKind::OnWrite { lens } => TriggerKindV::OnWrite { lens: opt_text(lens) },
            TriggerKind::OnPermission => TriggerKindV::OnPermission,
            TriggerKind::Cron { every_secs } => TriggerKindV::Cron { every_secs },
        }
    }
}

/// Which parts of the host a function may use.
#[derive(Debug, Clone, Copy, PartialEq, Eq, Structural)]
pub struct Cap {
    pub run: bool,
    pub at: bool,
    pub range: bool,
    pub log: bool,
    pub metric: bool,
    pub clock: bool,
}

/// A statement.
#[allow(inconsistent_fields)]
#[derive(Debug, Clone, PartialEq)]
pub enum Stmt {
    Create { name: String, ty: Type, axes: Vec<String> },
    CreateDatabase { name: String },
    CreateUser { name: String, password: String },
    CreateFunction { name: String, kind: TriggerKind, caps: Cap, body: String },
    Append { name: String, taus: Vec<(i64, i64, Literal)> },
    AppendNd { name: String, taus: Vec<(Vec<(i64, i64)>, Literal)> },
    BatchAppend { name: String, taus: Vec<(i64, i64, Literal)> },
    Copy { name: String, path: String },
    Derive { name: String, expr: Expr, range: Option<(i64, i64)> },
    Xderive { name: String, expr: Expr, range: Option<(i64, i64)> },
    At { name: String, t: i64 },
    AtNd { name: String, ts: Vec<i64>, as_of: Option<i64> },
    AtAsOf { name: String, t: i64, as_of: i64 },
    AtLayer { name: String, t: i64, layer_id: u64 },
    Range {
        name: String,
        start: i64,
        end: i64,
        filter: Option<Expr>,
        limit: Option<u64>,
        offset: Option<u64>,
    },
    RangeNd { name: String, start: i64, end: i64, fixed: Vec<i64> },
    Reduce { name: String, start: i64, end: i64, func: AggFunc },
    HistoryLens { name: String, range: Option<(i64, i64)> },
    Drop { name: String },
    DropDatabase { name: String },
    DropUser { name: String },
    DropFunction { name: String },
    CallFunction { name: String, args: Vec<Literal> },
    UseDatabase { name: String },
    ShowDatabases,
    ShowLenses,
    ShowUsers,
    ShowFunctions,
    ShowGrants { user: Option<String> },
    ShowStatus,
    Grant { perms: Perm, database: String, user: String },
    Revoke { perms: Perm, database: String, user: String },
    StartTransaction,
    Commit,
    Rollback,
    BackupDatabase { name: String, path: String },
    RestoreDatabase { name: String, path: String },
    SetTtl { name: String, secs: i64 },
    UnsetTtl { name: String },
}

#[allow(inconsistent_fields)]
pub enum StmtV {
    Create { name: Seq<char>, ty: Type, axes: Seq<Seq<char>> },
    CreateDatabase { name: Seq<char> },
    CreateUser { name: Seq<char>, password: Seq<char> },
    CreateFunction { name: Seq<char>, kind: TriggerKindV, caps: Cap, body: Seq<char> },
    Append { name: Seq<char>, taus: Seq<(i64, i64, LiteralV)> },
    AppendNd { name: Seq<char>, taus: Seq<(Seq<(i64, i64)>, LiteralV)> },
    BatchAppend { name: Seq<char>, taus: Seq<(i64, i64, LiteralV)> },
    Copy { name: Seq<char>, path: Seq<char> },
    Derive { name: Seq<char>, expr: ExprV, range: Option<(i64, i64)> },
    Xderive { name: Seq<char>, expr: ExprV, range: Option<(i64, i64)> },
    At { name: Seq<char>, t: i64 },
    AtNd { name: Seq<char>, ts: Seq<i64>, as_of: Option<i64> },
    AtAsOf { name: Seq<char>, t: i64, as_of: i64 },
    AtLayer { name: Seq<char>, t: i64, layer_id: u64 },
    Range {
        name: Seq<char>,
        start: i64,
        end: i64,
        filter: Option<ExprV>,
        limit: Option<u64>,
        offset: Option<u64>,
    },
    RangeNd { name: Seq<char>, start: i64, end: i64, fixed: Seq<i64> },
    Reduce { name: Seq<char>, start: i64, end: i64, func: AggFunc },
    HistoryLens { name: Seq<char>, range: Option<(i64, i64)> },
    Drop { name: Seq<char> },
    DropDatabase { name: Seq<char> },
    DropUser { name: Seq<char> },
    DropFunction { name: Seq<char> },
    CallFunction { name: Seq<char>, args: Seq<LiteralV> },
    UseDatabase { name: Seq<char> },
    ShowDatabases,
    ShowLenses,
    ShowUsers,
    ShowFunctions,
    ShowGrants { user: Option<Seq<char>> },
    ShowStatus,
    Grant { perms: Perm, database: Seq<char>, user: Seq<char> },
    Revoke { perms: Perm, database: Seq<char>, user: Seq<char> },
    StartTransaction,
    Commit,
    Rollback,
    BackupDatabase { name: Seq<char>, path: Seq<char> },
    RestoreDatabase { name: Seq<char>, path: Seq<char> },
    SetTtl { name: Seq<char>, secs: i64 },
    UnsetTtl { name: Seq<char> },
}

pub open spec fn taus_view(taus: Seq<(i64, i64, Literal)>) -> Seq<(i64, i64, LiteralV)> {
    taus.map_values(|t: (i64, i64, Literal)| (t.0, t.1, t.2@))
}

pub open spec fn boxes_view(
    taus: Seq<(Vec<(i64, i64)>, Literal)>,
) -> Seq<(Seq<(i64, i64)>, LiteralV)> {
    taus.map_values(|t: (Vec<(i64, i64)>, Literal)| (t.0@, t.1@))
}

pub open spec fn texts_view(texts: Seq<String>) -> Seq<Seq<char>> {
    texts.map_values(|s: String| s@)
}

pub open spec fn literals_view(args: Seq<Literal>) -> Seq<LiteralV> {
    args.map_values(|l: Literal| l@)
}

impl View for Stmt {
    type V = StmtV;

    open spec fn view(&self) -> StmtV {
        match *self {
            Stmt::Create { name, ty, axes } => StmtV::Create {
                name: name@,
                ty,
                axes: texts_view(axes@),
            },
            Stmt::CreateDatabase { name } => StmtV::CreateDatabase { name: name@ },
            Stmt::CreateUser { name, password } => StmtV::CreateUser {
                name: name@,
                password: password@,
            },
            Stmt::CreateFunction { name, kind, caps, body } => StmtV::CreateFunction {
                name: name@,
                kind: kind@,
                caps,
                body: body@,
            },
            Stmt::Append { name, taus } => StmtV::Append { name: name@, taus: taus_view(taus@) },
            Stmt::AppendNd { name, taus } => StmtV::AppendNd {
                name: name@,
                taus: boxes_view(taus@),
            },
            Stmt::BatchAppend { name, taus } => StmtV::BatchAppend {
                name: name@,
                taus: taus_view(taus@),
            },
            Stmt::Copy { name, path } => StmtV::Copy { name: name@, path: path@ },
            Stmt::Derive { name, expr, range } => StmtV::Derive {
                name: name@,
                expr: expr@,
                range,
            },
            Stmt::Xderive { name, expr, range } => StmtV::Xderive {
                name: name@,
                expr: expr@,
                range,
            },
            Stmt::At { name, t } => StmtV::At { name: name@, t },
            Stmt::AtNd { name, ts, as_of } => StmtV::AtNd { name: name@, ts: ts@, as_of },
            Stmt::AtAsOf { name, t, as_of } => StmtV::AtAsOf { name: name@, t, as_of },
            Stmt::AtLayer { name, t, layer_id } => StmtV::AtLayer { name: name@, t, layer_id },
            Stmt::Range { name, start, end, filter, limit, offset } => StmtV::Range {
                name: name@,
                start,
                end,
                filter: match filter {
                    Some(e) => Some(e@),
                    None => None,
                },
                limit,
                offset,
            },
            Stmt::RangeNd { name, start, end, fixed } => StmtV::RangeNd {
                name: name@,
                start,
                end,
                fixed: fixed@,
            },
            Stmt::Reduce { name, start, end, func } => StmtV::Reduce {
                name: name@,
                start,
                end,
                func,
            },
            Stmt::HistoryLens { name, range } => StmtV::HistoryLens { name: name@, range },
            Stmt::Drop { name } => StmtV::Drop { name: name@ },
            Stmt::DropDatabase { name } => StmtV::DropDatabase { name: name@ },
            Stmt::DropUser { name } => StmtV::DropUser { name: name@ },
            Stmt::DropFunction { name } => StmtV::DropFunction { name: name@ },
            Stmt::CallFunction { name, args } => StmtV::CallFunction {
                name: name@,
                args: literals_view(args@),
            },
            Stmt::UseDatabase { name } => StmtV::UseDatabase { name: name@ },
            Stmt::ShowDatabases => StmtV::ShowDatabases,
            Stmt::ShowLenses => StmtV::ShowLenses,
            Stmt::ShowUsers => StmtV::ShowUsers,
            Stmt::ShowFunctions => StmtV::ShowFunctions,
            Stmt::ShowGrants { user } => StmtV::ShowGrants { user: opt_text(user) },
            Stmt::ShowStatus => StmtV::ShowStatus,
            Stmt::Grant { perms, database, user } => StmtV::Grant {
                perms,
                database: database@,
                user: user@,
            },
            Stmt::Revoke { perms, database, user } => StmtV::Revoke {
                perms,
                database: database@,
                user: user@,
            },
            Stmt::StartTransaction => StmtV::StartTransaction,
            Stmt::Commit => StmtV::Commit,
            Stmt::Rollback => StmtV::Rollback,
            Stmt::BackupDatabase { name, path } => StmtV::BackupDatabase {
                name: name@,
                path: path@,
            },
            Stmt::RestoreDatabase { name, path } => StmtV::RestoreDatabase {
                name: name@,
                path: path@,
            },
            Stmt::SetTtl { name, secs } => StmtV::SetTtl { name: name@, secs },
            Stmt::UnsetTtl { name } => StmtV::UnsetTtl { name: name@ },
        }
    }
}

impl Stmt {
    pub open spec fn reads_only(&self) -> bool {
        match *self {
            Stmt::At { .. } => true,
            Stmt::AtNd { .. } => true,
            Stmt::AtAsOf { .. } => true,
            Stmt::AtLayer { .. } => true,
            Stmt::Range { .. } => true,
            Stmt::RangeNd { .. } => true,
            Stmt::Reduce { .. } => true,
            Stmt::HistoryLens { .. } => true,
            Stmt::ShowDatabases => true,
            Stmt::ShowLenses => true,
            Stmt::ShowUsers => true,
            Stmt::ShowFunctions => true,
            Stmt::ShowGrants { .. } => true,
            Stmt::ShowStatus => true,
            Stmt::BackupDatabase { .. } => true,
            _ => false,
        }
    }

    /// Whether the statement leaves every database as it is.
    pub fn is_read_only(&self) -> (r: bool)
        ensures
            r == self.reads_only(),
    {
        match self {
            Stmt::At { .. } => true,
            Stmt::AtNd { .. } => true,
            Stmt::AtAsOf { .. } => true,
            Stmt::AtLayer { .. } => true,
            Stmt::Range { .. } => true,
            Stmt::RangeNd { .. } => true,
            Stmt::Reduce { .. } => true,
            Stmt::HistoryLens { .. } => true,
            Stmt::ShowDatabases => true,
            Stmt::ShowLenses => true,
            Stmt::ShowUsers => true,
            Stmt::ShowFunctions => true,
            Stmt::ShowGrants { .. } => true,
            Stmt::ShowStatus => true,
            Stmt::BackupDatabase { .. } => true,
            _ => false,
        }
    }

    pub open spec fn lens_change(&self) -> bool {
        match *self {
            Stmt::Create { .. } => true,
            Stmt::Append { .. } => true,
            Stmt::AppendNd { .. } => true,
            Stmt::BatchAppend { .. } => true,
            Stmt::Copy { .. } => true,
            Stmt::Derive { .. } => true,
            Stmt::Xderive { .. } => true,
            Stmt::Drop { .. } => true,
            Stmt::SetTtl { .. } => true,
            Stmt::UnsetTtl { .. } => true,
            _ => false,
        }
    }
}

/// Whether the statement is put off while a transaction is open. Only changes to the
/// lenses of a database are; statements on databases and users are not.
pub fn is_transactable(stmt: &Stmt) -> (r: bool)
    ensures
        r == stmt.lens_change(),
{
    match stmt {
        Stmt::Create { .. } => true,
        Stmt::Append { .. } => true,
        Stmt::AppendNd { .. } => true,
        Stmt::BatchAppend { .. } => true,
        Stmt::Copy { .. } => true,
        Stmt::Derive { .. } => true,
        Stmt::Xderive { .. } => true,
        Stmt::Drop { .. } => true,
        Stmt::SetTtl { .. } => true,
        Stmt::UnsetTtl { .. } => true,
        _ => false,
    }
}

} // verus!
