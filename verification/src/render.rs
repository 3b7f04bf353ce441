//! Statements as text: the form in which a database keeps its schema.

use crate::ast::{
    AggFunc, BinOp, Cap, Expr, ExprV, Literal, LiteralV, Stmt, StmtV, TriggerKind, TriggerKindV,
    UnOp,
};
use crate::ast::texts_view;
use crate::text::{int_text, push_int};
use crate::value::Type;
use vstd::prelude::*;
use vstd::string::*;

verus! {

pub open spec fn literal_text(l: LiteralV) -> Seq<char> {
    match l {
        LiteralV::Null => "null"@,
        LiteralV::Bool(b) => if b {
            "true"@
        } else {
            "false"@
        },
        LiteralV::Str(s) => "\""@ + s + "\""@,
        LiteralV::Float(s) => s,
        LiteralV::Int(i) => int_text(i as int),
    }
}

pub open spec fn op_text(op: BinOp) -> Seq<char> {
    match op {
        BinOp::Or => "||"@,
        BinOp::And => "&&"@,
        BinOp::Eq => "=="@,
        BinOp::NotEq => "!="@,
        BinOp::Lt => "<"@,
        BinOp::LtEq => "<="@,
        BinOp::Gt => ">"@,
        BinOp::GtEq => ">="@,
        BinOp::Add => "+"@,
        BinOp::Sub => "-"@,
        BinOp::Mul => "*"@,
        BinOp::Div => "/"@,
        BinOp::Mod => "%"@,
    }
}

pub open spec fn sign_text(op: UnOp) -> Seq<char> {
    match op {
        UnOp::Neg => "-"@,
        UnOp::Not => "!"@,
    }
}

pub open spec fn agg_text(func: AggFunc) -> Seq<char> {
    match func {
        AggFunc::Min => "min"@,
        AggFunc::Max => "max"@,
        AggFunc::Avg => "avg"@,
        AggFunc::Sum => "sum"@,
        AggFunc::Count => "count"@,
    }
}

/// An expression as text. Every binary operation stands in brackets.
pub open spec fn expr_text(e: ExprV) -> Seq<char>
    decreases e,
{
    match e {
        ExprV::Lit(l) => literal_text(l),
        ExprV::Ident(name) => name,
        ExprV::Unary { op, expr } => sign_text(op) + expr_text(*expr),
        ExprV::Binary { op, lhs, rhs } => "("@ + expr_text(*lhs) + " "@ + op_text(op) + " "@
            + expr_text(*rhs) + ")"@,
        ExprV::Agg { func, lens, rel_start, rel_end } => agg_text(func) + "("@ + lens + ", "@
            + int_text(rel_start as int) + ", "@ + int_text(rel_end as int) + ")"@,
    }
}

pub open spec fn over_text(range: Option<(i64, i64)>) -> Seq<char> {
    match range {
        Some((start, end)) => " OVER "@ + int_text(start as int) + " "@ + int_text(end as int),
        None => Seq::empty(),
    }
}

/// Names, each after a comma and a blank.
pub open spec fn comma_names_text(names: Seq<Seq<char>>) -> Seq<char>
    decreases names.len(),
{
    if names.len() == 0 {
        Seq::empty()
    } else {
        ", "@ + names[0] + comma_names_text(names.drop_first())
    }
}

pub open spec fn axes_text(axes: Seq<Seq<char>>) -> Seq<char> {
    if axes.len() == 0 {
        Seq::empty()
    } else {
        " AXES ("@ + axes[0] + comma_names_text(axes.drop_first()) + ")"@
    }
}

pub open spec fn trigger_text(kind: TriggerKindV) -> Seq<char> {
    match kind {
        TriggerKindV::OnDemand => Seq::empty(),
        TriggerKindV::OnWrite { lens } => match lens {
            Some(l) => " ON WRITE LENS "@ + l,
            None => " ON WRITE"@,
        },
        TriggerKindV::OnPermission => " ON PERMISSION"@,
        TriggerKindV::Cron { every_secs } => " SCHEDULE EVERY "@ + int_text(every_secs as int),
    }
}

/// The name of a capability, where it is held, behind a comma unless it is the first.
#[verifier::opaque]
pub open spec fn cap_item(held: bool, first: bool, name: Seq<char>) -> Seq<char> {
    if held {
        if first {
            name
        } else {
            ", "@ + name
        }
    } else {
        Seq::empty()
    }
}

pub open spec fn caps_text(c: Cap) -> Seq<char> {
    cap_item(c.run, true, "exec"@) + cap_item(c.at, !c.run, "at"@) + cap_item(
        c.range,
        !c.run && !c.at,
        "range"@,
    ) + cap_item(c.log, !c.run && !c.at && !c.range, "log"@) + cap_item(
        c.metric,
        !c.run && !c.at && !c.range && !c.log,
        "metric"@,
    ) + cap_item(c.clock, !c.run && !c.at && !c.range && !c.log && !c.metric, "clock"@)
}

/// The text of a statement that changes the schema; `None` for other statements.
pub open spec fn schema_text_of(stmt: StmtV) -> Option<Seq<char>> {
    match stmt {
        StmtV::Create { name, ty, axes } => Some(
            "CREATE LENS "@ + name + " "@ + ty.name() + axes_text(axes),
        ),
        StmtV::Derive { name, expr, range } => Some(
            "DERIVE LENS "@ + name + " AS "@ + expr_text(expr) + over_text(range),
        ),
        StmtV::Xderive { name, expr, range } => Some(
            "XDERIVE LENS "@ + name + " AS "@ + expr_text(expr) + over_text(range),
        ),
        StmtV::Drop { name } => Some("DROP LENS "@ + name),
        StmtV::SetTtl { name, secs } => Some("SET TTL LENS "@ + name + " "@ + int_text(secs as int)),
        StmtV::UnsetTtl { name } => Some("UNSET TTL LENS "@ + name),
        StmtV::CreateFunction { name, kind, caps, body } => Some(
            "CREATE FUNCTION "@ + name + trigger_text(kind) + " CAPS "@ + caps_text(caps)
                + " AS \""@ + body + "\""@,
        ),
        StmtV::DropFunction { name } => Some("DROP FUNCTION "@ + name),
        _ => None,
    }
}

fn push_literal(out: &mut String, l: &Literal)
    ensures
        final(out)@ == old(out)@ + literal_text(l@),
{
    match l {
        Literal::Null => out.append("null"),
        Literal::Bool(b) => if *b {
            out.append("true");
        } else {
            out.append("false");
        },
        Literal::Str(s) => {
            out.append("\"");
            out.append(s.as_str());
            out.append("\"");
            assert(out@ =~= old(out)@ + literal_text(l@));
        },
        Literal::Float(s) => out.append(s.as_str()),
        Literal::Int(i) => push_int(out, *i),
    }
}

fn op_sign(op: BinOp) -> (r: &'static str)
    ensures
        r@ == op_text(op),
{
    match op {
        BinOp::Or => "||",
        BinOp::And => "&&",
        BinOp::Eq => "==",
        BinOp::NotEq => "!=",
        BinOp::Lt => "<",
        BinOp::LtEq => "<=",
        BinOp::Gt => ">",
        BinOp::GtEq => ">=",
        BinOp::Add => "+",
        BinOp::Sub => "-",
        BinOp::Mul => "*",
        BinOp::Div => "/",
        BinOp::Mod => "%",
    }
}

fn agg_keyword(func: AggFunc) -> (r: &'static str)
    ensures
        r@ == agg_text(func),
{
    match func {
        AggFunc::Min => "min",
        AggFunc::Max => "max",
        AggFunc::Avg => "avg",
        AggFunc::Sum => "sum",
        AggFunc::Count => "count",
    }
}

/// Appends an expression to `out`.
pub fn push_expr(out: &mut String, e: &Expr)
    ensures
        final(out)@ == old(out)@ + expr_text(e@),
    decreases e,
{
    match e {
        Expr::Lit(l) => push_literal(out, l),
        Expr::Ident(name) => out.append(name.as_str()),
        Expr::Unary { op, expr } => {
            match *op {
                UnOp::Neg => out.append("-"),
                UnOp::Not => out.append("!"),
            }
            push_expr(out, expr);
            assert(out@ =~= old(out)@ + expr_text(e@));
        },
        Expr::Binary { op, lhs, rhs } => {
            out.append("(");
            push_expr(out, lhs);
            out.append(" ");
            out.append(op_sign(*op));
            out.append(" ");
            push_expr(out, rhs);
            out.append(")");
            assert(out@ =~= old(out)@ + expr_text(e@));
        },
        Expr::Agg { func, lens, rel_start, rel_end } => {
            out.append(agg_keyword(*func));
            out.append("(");
            out.append(lens.as_str());
            out.append(", ");
            push_int(out, *rel_start);
            out.append(", ");
            push_int(out, *rel_end);
            out.append(")");
            assert(out@ =~= old(out)@ + expr_text(e@));
        },
    }
}

fn push_over(out: &mut String, range: Option<(i64, i64)>)
    ensures
        final(out)@ == old(out)@ + over_text(range),
{
    match range {
        Some((start, end)) => {
            out.append(" OVER ");
            push_int(out, start);
            out.append(" ");
            push_int(out, end);
        },
        None => {},
    }
    assert(out@ =~= old(out)@ + over_text(range));
}

fn push_axes(out: &mut String, axes: &Vec<String>)
    ensures
        final(out)@ == old(out)@ + axes_text(texts_view(axes@)),
{
    let ghost names = texts_view(axes@);
    if axes.len() == 0 {
        assert(out@ =~= old(out)@ + axes_text(names));
        return;
    }
    out.append(" AXES (");
    out.append(axes[0].as_str());
    let ghost head = out@;
    let mut i: usize = 1;
    assert(names.skip(1) =~= names.drop_first());
    while i < axes.len()
        invariant
            1 <= i <= axes@.len(),
            names == texts_view(axes@),
            head + comma_names_text(names.skip(1)) =~= out@ + comma_names_text(
                names.skip(i as int),
            ),
        decreases axes@.len() - i,
    {
        proof {
            assert(names.skip(i as int).drop_first() =~= names.skip(i + 1));
            assert(names.skip(i as int)[0] == axes@[i as int]@);
        }
        let ghost before = out@;
        out.append(", ");
        out.append(axes[i].as_str());
        proof {
            assert(before + (", "@ + axes@[i as int]@ + comma_names_text(names.skip(i + 1)))
                =~= out@ + comma_names_text(names.skip(i + 1)));
        }
        i = i + 1;
    }
    assert(out@ =~= head + comma_names_text(names.skip(1)));
    out.append(")");
    assert(out@ =~= old(out)@ + axes_text(names));
}

fn push_trigger(out: &mut String, kind: &TriggerKind)
    ensures
        final(out)@ == old(out)@ + trigger_text(kind@),
{
    match kind {
        TriggerKind::OnDemand => {},
        TriggerKind::OnWrite { lens } => match lens {
            Some(l) => {
                out.append(" ON WRITE LENS ");
                out.append(l.as_str());
            },
            None => out.append(" ON WRITE"),
        },
        TriggerKind::OnPermission => out.append(" ON PERMISSION"),
        TriggerKind::Cron { every_secs } => {
            out.append(" SCHEDULE EVERY ");
            push_int(out, *every_secs);
        },
    }
    assert(out@ =~= old(out)@ + trigger_text(kind@));
}

fn push_cap(out: &mut String, held: bool, first: bool, name: &str)
    ensures
        final(out)@ == old(out)@ + cap_item(held, first, name@),
{
    reveal(cap_item);
    if held {
        if !first {
            out.append(", ");
        }
        out.append(name);
    }
    assert(out@ =~= old(out)@ + cap_item(held, first, name@));
}

fn push_caps(out: &mut String, c: Cap)
    ensures
        final(out)@ == old(out)@ + caps_text(c),
{
    push_cap(out, c.run, true, "exec");
    push_cap(out, c.at, !c.run, "at");
    push_cap(out, c.range, !c.run && !c.at, "range");
    push_cap(out, c.log, !c.run && !c.at && !c.range, "log");
    push_cap(out, c.metric, !c.run && !c.at && !c.range && !c.log, "metric");
    push_cap(out, c.clock, !c.run && !c.at && !c.range && !c.log && !c.metric, "clock");
    assert(out@ =~= old(out)@ + caps_text(c));
}

/// `CREATE LENS <name> <type>`, with the axes where there are any.
pub fn create_text(name: &str, ty: Type, axes: &Vec<String>) -> (r: String)
    ensures
        Some(r@) == schema_text_of(
            StmtV::Create { name: name@, ty, axes: texts_view(axes@) },
        ),
{
    let mut out = String::from_str("CREATE LENS ");
    out.append(name);
    out.append(" ");
    out.append(ty.keyword());
    push_axes(&mut out, axes);
    out
}

/// `DERIVE LENS ...`, or `XDERIVE LENS ...` for a materialised lens.
pub fn derive_text(name: &str, expr: &Expr, range: Option<(i64, i64)>, stored: bool) -> (r: String)
    ensures
        Some(r@) == schema_text_of(
            if stored {
                StmtV::Xderive { name: name@, expr: expr@, range }
            } else {
                StmtV::Derive { name: name@, expr: expr@, range }
            },
        ),
{
    let mut out = if stored {
        String::from_str("XDERIVE LENS ")
    } else {
        String::from_str("DERIVE LENS ")
    };
    out.append(name);
    out.append(" AS ");
    push_expr(&mut out, expr);
    push_over(&mut out, range);
    out
}

pub fn drop_text(name: &str) -> (r: String)
    ensures
        Some(r@) == schema_text_of(StmtV::Drop { name: name@ }),
{
    let mut out = String::from_str("DROP LENS ");
    out.append(name);
    out
}

/// `SET TTL LENS <name> <seconds>`, or `UNSET TTL LENS <name>`.
pub fn ttl_text(name: &str, secs: Option<i64>) -> (r: String)
    ensures
        Some(r@) == schema_text_of(
            match secs {
                Some(secs) => StmtV::SetTtl { name: name@, secs },
                None => StmtV::UnsetTtl { name: name@ },
            },
        ),
{
    match secs {
        Some(s) => {
            let mut out = String::from_str("SET TTL LENS ");
            out.append(name);
            out.append(" ");
            push_int(&mut out, s);
            out
        },
        None => {
            let mut out = String::from_str("UNSET TTL LENS ");
            out.append(name);
            out
        },
    }
}

pub fn create_function_text(name: &str, kind: &TriggerKind, caps: Cap, body: &str) -> (r: String)
    ensures
        Some(r@) == schema_text_of(
            StmtV::CreateFunction { name: name@, kind: kind@, caps, body: body@ },
        ),
{
    let mut out = String::from_str("CREATE FUNCTION ");
    out.append(name);
    push_trigger(&mut out, kind);
    out.append(" CAPS ");
    push_caps(&mut out, caps);
    out.append(" AS \"");
    out.append(body);
    out.append("\"");
    out
}

pub fn drop_function_text(name: &str) -> (r: String)
    ensures
        Some(r@) == schema_text_of(StmtV::DropFunction { name: name@ }),
{
    let mut out = String::from_str("DROP FUNCTION ");
    out.append(name);
    out
}

impl Stmt {
    /// The text of a statement that changes the schema; `None` for other statements.
    pub fn schema_text(&self) -> (r: Option<String>)
        ensures
            r is Some <==> schema_text_of(self@) is Some,
            r matches Some(t) ==> schema_text_of(self@) == Some(t@),
    {
        match self {
            Stmt::Create { name, ty, axes } => Some(create_text(name.as_str(), *ty, axes)),
            Stmt::Derive { name, expr, range } => Some(
                derive_text(name.as_str(), expr, *range, false),
            ),
            Stmt::Xderive { name, expr, range } => Some(
                derive_text(name.as_str(), expr, *range, true),
            ),
            Stmt::Drop { name } => Some(drop_text(name.as_str())),
            Stmt::SetTtl { name, secs } => Some(ttl_text(name.as_str(), Some(*secs))),
            Stmt::UnsetTtl { name } => Some(ttl_text(name.as_str(), None)),
            Stmt::CreateFunction { name, kind, caps, body } => Some(
                create_function_text(name.as_str(), kind, *caps, body.as_str()),
            ),
            Stmt::DropFunction { name } => Some(drop_function_text(name.as_str())),
            _ => None,
        }
    }
}

} // verus!
