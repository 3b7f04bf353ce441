//! The query language: from text to statements, and back for declarations.

use libtau::ast::{AggFunc, BinOp, Cap, Expr, Literal, Stmt, TriggerKind, UnOp};
use libtau::parser::{format_parse_error, parse, parse_literal, read_expr};
use libtau::text::is_white_space;
use libtau::value::Type;

/// A small linear congruential generator, so that the cases are the same in every run.
struct Draw(u64);

impl Draw {
    fn next(&mut self) -> u64 {
        self.0 = self
            .0
            .wrapping_mul(6364136223846793005)
            .wrapping_add(1442695040888963407);
        self.0 >> 16
    }

    fn within(&mut self, lo: i64, hi: i64) -> i64 {
        lo + (self.next() % ((hi - lo) as u64 + 1)) as i64
    }

    fn any(&mut self) -> i64 {
        match self.next() % 8 {
            0 => i64::MIN,
            1 => i64::MAX,
            2 => 0,
            _ => ((self.next() << 32) ^ self.next()) as i64,
        }
    }

    fn flip(&mut self) -> bool {
        self.next() % 2 == 0
    }

    fn ident(&mut self) -> String {
        let first = b"abcdefghijklmnopqrstuvwxyz";
        let rest = b"abcdefghijklmnopqrstuvwxyz0123456789_";
        let mut s = String::new();
        s.push(first[self.within(0, 25) as usize] as char);
        for _ in 0..self.within(0, 10) {
            s.push(rest[self.within(0, 36) as usize] as char);
        }
        s
    }

    fn type_keyword(&mut self) -> (&'static str, Type) {
        [
            ("int", Type::Int),
            ("float", Type::Float),
            ("str", Type::Str),
            ("bool", Type::Bool),
        ][self.within(0, 3) as usize]
    }

    fn agg_keyword(&mut self) -> (&'static str, AggFunc) {
        [
            ("min", AggFunc::Min),
            ("max", AggFunc::Max),
            ("avg", AggFunc::Avg),
            ("sum", AggFunc::Sum),
            ("count", AggFunc::Count),
        ][self.within(0, 4) as usize]
    }
}

fn parsed(input: &str) -> Stmt {
    let (rest, s) = parse(input).expect("parse failed");
    assert!(
        rest.is_empty(),
        "unconsumed input: {rest:?} for query {input:?}"
    );
    s
}

fn expr(text: &str) -> Expr {
    let chars: Vec<char> = text.chars().collect();
    let (e, end) = read_expr(&chars, 0).expect("an expression");
    assert_eq!(end, chars.len());
    e
}

#[test]
fn pbt_parse_never_panics_on_arbitrary_input() {
    let alphabet: Vec<char> = "ABCDERSTN LENSabcxyz0189 \t\n\"'()[]{},;.-+*/%<>=!&|_#\u{e9}\u{1f600}"
        .chars()
        .collect();
    for seed in 1..=300 {
        let mut tc = Draw(seed);
        let n = tc.within(0, 256);
        let s: String = (0..n)
            .map(|_| alphabet[tc.within(0, alphabet.len() as i64 - 1) as usize])
            .collect();
        let _ = parse(&s);
    }
    for lead in ["CREATE", "APPEND LENS x 0", "DERIVE LENS d AS", "AT LENS", "GRANT"] {
        let _ = parse(lead);
    }
}

#[test]
fn pbt_parse_rejects_unknown_leading_token() {
    let known = [
        "CREATE", "DROP", "USE", "APPEND", "BATCH", "COPY", "DERIVE", "XDERIVE", "SHOW", "AT",
        "RANGE", "REDUCE", "GRANT", "REVOKE", "COMMIT", "ROLLBACK", "HISTORY", "BACKUP", "RESTORE",
    ];
    for seed in 1..=100 {
        let mut tc = Draw(seed);
        let n = tc.within(3, 8);
        let junk: String = (0..n).map(|_| (b'A' + tc.within(0, 25) as u8) as char).collect();
        if known.contains(&junk.as_str()) {
            continue;
        }
        assert!(parse(&format!("{junk} LENS x 1")).is_err());
    }
}

#[test]
fn pbt_create_database_roundtrips() {
    for seed in 1..=30 {
        let mut tc = Draw(seed);
        let name = tc.ident();
        assert_eq!(
            parsed(&format!("CREATE DATABASE {name}")),
            Stmt::CreateDatabase { name }
        );
    }
}

#[test]
fn pbt_drop_database_roundtrips() {
    for seed in 1..=30 {
        let mut tc = Draw(seed);
        let name = tc.ident();
        assert_eq!(
            parsed(&format!("DROP DATABASE {name}")),
            Stmt::DropDatabase { name }
        );
    }
}

#[test]
fn pbt_use_database_roundtrips() {
    for seed in 1..=30 {
        let mut tc = Draw(seed);
        let name = tc.ident();
        assert_eq!(
            parsed(&format!("USE DATABASE {name}")),
            Stmt::UseDatabase { name }
        );
    }
}

#[test]
fn pbt_create_lens_roundtrips_for_every_type() {
    for seed in 1..=30 {
        let mut tc = Draw(seed);
        let name = tc.ident();
        let (kw, ty) = tc.type_keyword();
        assert_eq!(
            parsed(&format!("CREATE LENS {name} {kw}")),
            Stmt::Create {
                name,
                ty,
                axes: vec![]
            }
        );
    }
}

#[test]
fn pbt_drop_lens_roundtrips() {
    for seed in 1..=30 {
        let mut tc = Draw(seed);
        let name = tc.ident();
        assert_eq!(parsed(&format!("DROP LENS {name}")), Stmt::Drop { name });
    }
}

#[test]
fn pbt_at_lens_roundtrips_with_any_timestamp() {
    for seed in 1..=30 {
        let mut tc = Draw(seed);
        let name = tc.ident();
        let t = tc.any();
        assert_eq!(parsed(&format!("AT LENS {name} {t}")), Stmt::At { name, t });
    }
}

#[test]
fn pbt_range_lens_roundtrips_without_filter() {
    for seed in 1..=30 {
        let mut tc = Draw(seed);
        let name = tc.ident();
        let start = tc.within(-1_000_000, 1_000_000);
        let end = tc.within(-1_000_000, 1_000_000);
        assert_eq!(
            parsed(&format!("RANGE LENS {name} {start} {end}")),
            Stmt::Range {
                name,
                start,
                end,
                filter: None,
                limit: None,
                offset: None,
            }
        );
    }
}

#[test]
fn pbt_reduce_roundtrips_for_every_func() {
    for seed in 1..=30 {
        let mut tc = Draw(seed);
        let name = tc.ident();
        let start = tc.within(-1_000_000, 1_000_000);
        let end = tc.within(-1_000_000, 1_000_000);
        let (kw, func) = tc.agg_keyword();
        assert_eq!(
            parsed(&format!("REDUCE LENS {name} {start} {end} USING {kw}")),
            Stmt::Reduce {
                name,
                start,
                end,
                func
            }
        );
    }
}

#[test]
fn pbt_append_lens_int_roundtrips() {
    for seed in 1..=30 {
        let mut tc = Draw(seed);
        let name = tc.ident();
        let s = tc.within(-1_000_000, 1_000_000);
        let e = tc.within(-1_000_000, 1_000_000);
        let v = tc.any();
        assert_eq!(
            parsed(&format!("APPEND LENS {name} {s} {e} {v}")),
            Stmt::Append {
                name,
                taus: vec![(s, e, Literal::Int(v))]
            }
        );
    }
}

#[test]
fn pbt_append_lens_bool_and_null_roundtrip() {
    for seed in 1..=30 {
        let mut tc = Draw(seed);
        let name = tc.ident();
        let b = tc.flip();
        let null_or_bool = tc.flip();
        let (literal_str, literal) = if null_or_bool {
            (b.to_string(), Literal::Bool(b))
        } else {
            ("null".to_string(), Literal::Null)
        };
        assert_eq!(
            parsed(&format!("APPEND LENS {name} 0 5 {literal_str}")),
            Stmt::Append {
                name,
                taus: vec![(0, 5, literal)],
            }
        );
    }
}

#[test]
fn pbt_keywords_are_case_sensitive_uppercase() {
    for seed in 1..=30 {
        let mut tc = Draw(seed);
        let name = tc.ident();
        // TauQL statement keywords are UPPERCASE-only so they never collide with
        // tauctl's lowercase meta-commands.  The uppercase form parses; the
        // all-lowercase form (keyword `create lens`) must be rejected.
        let upper = format!("CREATE LENS {name} int");
        assert_eq!(
            parsed(&upper),
            Stmt::Create {
                name: name.clone(),
                ty: Type::Int,
                axes: vec![],
            }
        );
        let lower = upper.to_lowercase();
        assert!(
            parse(&lower).is_err(),
            "lowercase keywords must be rejected: {lower:?}"
        );
    }
}

#[test]
fn pbt_extra_whitespace_is_tolerated() {
    for seed in 1..=30 {
        let mut tc = Draw(seed);
        let pad_a = " ".repeat(tc.within(0, 8) as usize);
        let pad_b = " ".repeat(tc.within(1, 8) as usize);
        let pad_c = " ".repeat(tc.within(1, 8) as usize);
        let pad_d = " ".repeat(tc.within(0, 8) as usize);
        let q = format!("{pad_a}CREATE{pad_b}LENS{pad_b}x{pad_c}int{pad_d}");
        assert_eq!(
            parsed(&q),
            Stmt::Create {
                name: "x".into(),
                ty: Type::Int,
                axes: vec![],
            }
        );
    }
}

#[test]
fn show_statements_parse() {
    assert_eq!(parsed("SHOW DATABASES"), Stmt::ShowDatabases);
    assert_eq!(parsed("SHOW LENSES"), Stmt::ShowLenses);
    assert_eq!(parsed("SHOW USERS"), Stmt::ShowUsers);
    assert_eq!(parsed("SHOW GRANTS"), Stmt::ShowGrants { user: None });
    assert_eq!(
        parsed("SHOW GRANTS alice"),
        Stmt::ShowGrants {
            user: Some("alice".into())
        }
    );
}

#[test]
fn expr_precedence_and_parens() {
    let e1 = expr("1 + 2 * 3");
    assert!(matches!(e1, Expr::Binary { op: BinOp::Add, .. }));
    let e2 = expr("(1 + 2) * 3");
    assert!(matches!(e2, Expr::Binary { op: BinOp::Mul, .. }));
}

#[test]
fn unary_neg_and_not() {
    let e1 = expr("-x");
    assert!(matches!(e1, Expr::Unary { op: UnOp::Neg, .. }));
    let e2 = expr("!flag");
    assert!(matches!(e2, Expr::Unary { op: UnOp::Not, .. }));
}

#[test]
fn append_lens_multi_tau() {
    assert_eq!(
        parsed("APPEND LENS x 0 5 1, 5 10 2, 10 15 3"),
        Stmt::Append {
            name: "x".into(),
            taus: vec![
                (0, 5, Literal::Int(1)),
                (5, 10, Literal::Int(2)),
                (10, 15, Literal::Int(3)),
            ],
        }
    );
}

#[test]
fn create_lens_axes_clause() {
    assert_eq!(
        parsed("CREATE LENS grid int AXES (valid, region)"),
        Stmt::Create {
            name: "grid".into(),
            ty: Type::Int,
            axes: vec!["valid".into(), "region".into()],
        }
    );
    // Display of the parsed statement must re-parse identically (WAL replay).
    let stmt = parsed("CREATE LENS grid int AXES (valid, region)");
    assert_eq!(parsed(&stmt.schema_text().unwrap()), stmt);
}

#[test]
fn append_lens_nd_boxes() {
    assert_eq!(
        parsed("APPEND LENS grid [0 10] [100 200] 42, [0 10] [200 300] 7"),
        Stmt::AppendNd {
            name: "grid".into(),
            taus: vec![
                (vec![(0, 10), (100, 200)], Literal::Int(42)),
                (vec![(0, 10), (200, 300)], Literal::Int(7)),
            ],
        }
    );
}

#[test]
fn at_lens_nd_coords_with_optional_as_of() {
    assert_eq!(
        parsed("AT LENS grid 5 150"),
        Stmt::AtNd {
            name: "grid".into(),
            ts: vec![5, 150],
            as_of: None,
        }
    );
    assert_eq!(
        parsed("AT LENS grid 5 150 AS OF 1700000000000"),
        Stmt::AtNd {
            name: "grid".into(),
            ts: vec![5, 150],
            as_of: Some(1_700_000_000_000),
        }
    );
    // A single coordinate stays the classic 1-D statement.
    assert_eq!(
        parsed("AT LENS grid 5"),
        Stmt::At {
            name: "grid".into(),
            t: 5,
        }
    );
}

#[test]
fn range_lens_nd_fixed_points() {
    assert_eq!(
        parsed("RANGE LENS grid 0 100 AT (150)"),
        Stmt::RangeNd {
            name: "grid".into(),
            start: 0,
            end: 100,
            fixed: vec![150],
        }
    );
    assert_eq!(
        parsed("RANGE LENS cube -5 50 AT (1, -2)"),
        Stmt::RangeNd {
            name: "cube".into(),
            start: -5,
            end: 50,
            fixed: vec![1, -2],
        }
    );
}

#[test]
fn append_lens_string_with_spaces() {
    assert_eq!(
        parsed("APPEND LENS msg 0 10 \"hello world\""),
        Stmt::Append {
            name: "msg".into(),
            taus: vec![(0, 10, Literal::Str("hello world".into()))],
        }
    );
}

#[test]
fn copy_lens_parses() {
    assert_eq!(
        parsed("COPY LENS temp FROM \"/data/temps.csv\""),
        Stmt::Copy {
            name: "temp".into(),
            path: "/data/temps.csv".into(),
        }
    );
}

#[test]
fn derive_with_agg_call_and_arithmetic() {
    let stmt = parsed("DERIVE LENS hot AS x > avg(x, -10, 0)");
    let Stmt::Derive { name, expr, range } = stmt else {
        panic!()
    };
    assert_eq!(name, "hot");
    assert_eq!(range, None);
    let Expr::Binary { op, .. } = expr else {
        panic!()
    };
    assert_eq!(op, BinOp::Gt);
}

#[test]
fn xderive_parses_with_and_without_over() {
    let stmt = parsed("XDERIVE LENS doubled AS c * 2");
    assert_eq!(
        stmt,
        Stmt::Xderive {
            name: "doubled".into(),
            expr: Expr::Binary {
                op: BinOp::Mul,
                lhs: Box::new(Expr::Ident("c".into())),
                rhs: Box::new(Expr::Lit(Literal::Int(2))),
            },
            range: None,
        }
    );
    let stmt = parsed("XDERIVE LENS w AS c OVER 0 100");
    let Stmt::Xderive { name, range, .. } = stmt else {
        panic!()
    };
    assert_eq!(name, "w");
    assert_eq!(range, Some((0, 100)));
}

#[test]
fn format_parse_error_is_human_readable() {
    let q = "XDERIV LENS x AS y * 3";
    let msg = format_parse_error(q, parse(q).unwrap_err());
    assert!(msg.starts_with("parse error at column"), "{msg}");
    assert!(!msg.contains("code:"), "{msg}");
}

#[test]
fn derive_with_over_clause_parses() {
    let stmt = parsed("DERIVE LENS d AS c OVER -5 10");
    let Stmt::Derive { range, .. } = stmt else {
        panic!()
    };
    assert_eq!(range, Some((-5, 10)));
}

#[test]
fn range_with_limit_parses() {
    assert_eq!(
        parsed("RANGE LENS x 0 100 LIMIT 10"),
        Stmt::Range {
            name: "x".into(),
            start: 0,
            end: 100,
            filter: None,
            limit: Some(10),
            offset: None,
        }
    );
    assert_eq!(
        parsed("RANGE LENS x 0 100 WHERE x > 5 LIMIT 3"),
        Stmt::Range {
            name: "x".into(),
            start: 0,
            end: 100,
            filter: Some(Expr::Binary {
                op: BinOp::Gt,
                lhs: Box::new(Expr::Ident("x".into())),
                rhs: Box::new(Expr::Lit(Literal::Int(5))),
            }),
            limit: Some(3),
            offset: None,
        }
    );
}

#[test]
fn range_with_compound_where_clause() {
    let stmt = parsed("RANGE LENS x 0 100 WHERE x > 5 && x < 50");
    let Stmt::Range {
        filter: Some(Expr::Binary { op, .. }),
        ..
    } = stmt
    else {
        panic!()
    };
    assert_eq!(op, BinOp::And);
}

#[test]
fn start_transaction_parses() {
    assert_eq!(parsed("START TRANSACTION"), Stmt::StartTransaction);
    // Lowercase keywords are not TauQL (they are reserved for tauctl
    // meta-commands), so they must not parse.
    assert!(parse("start transaction").is_err());
}

#[test]
fn commit_parses() {
    assert_eq!(parsed("COMMIT"), Stmt::Commit);
    assert!(parse("commit").is_err());
}

#[test]
fn rollback_parses() {
    assert_eq!(parsed("ROLLBACK"), Stmt::Rollback);
    assert!(parse("rollback").is_err());
}

#[test]
fn malformed_inputs_fail() {
    assert!(parse("CREATE test int").is_err()); // missing LENS
    assert!(parse("APPEND LENS test 0").is_err()); // truncated tau
}

#[test]
fn lowercase_vocabulary_is_locked_lowercase() {
    // Type names, aggregate functions and value literals are the lowercase
    // exceptions to the UPPERCASE-keyword rule; their uppercase forms are
    // not valid TauQL.
    assert!(parse("CREATE LENS x int").is_ok());
    assert!(
        parse("CREATE LENS x INT").is_err(),
        "uppercase type rejected"
    );
    assert!(parse("REDUCE LENS x 0 10 USING avg").is_ok());
    assert!(
        parse("REDUCE LENS x 0 10 USING AVG").is_err(),
        "uppercase agg func rejected"
    );
    assert!(parse("APPEND LENS f 0 10 true").is_ok());
    assert!(
        parse("APPEND LENS f 0 10 TRUE").is_err(),
        "uppercase bool literal rejected"
    );
}

#[test]
fn parse_errors_point_at_the_line_and_column() {
    let q = "XDERIV LENS x";
    assert_eq!(
        format_parse_error(q, parse(q).unwrap_err()),
        "parse error at column 1: near `XDERIV LENS x`"
    );
}

#[test]
fn literals_parse() {
    assert_eq!(parse_literal("42"), Some(Literal::Int(42)));
    assert_eq!(parse_literal("-7"), Some(Literal::Int(-7)));
    assert_eq!(parse_literal("1.5"), Some(Literal::Float("1.5".into())));
    assert_eq!(parse_literal("true"), Some(Literal::Bool(true)));
    assert_eq!(parse_literal("null"), Some(Literal::Null));
    assert_eq!(
        parse_literal("\"a b\""),
        Some(Literal::Str("a b".into()))
    );
    assert_eq!(parse_literal("TRUE"), None);
    assert_eq!(
        parse_literal("9223372036854775807"),
        Some(Literal::Int(i64::MAX))
    );
    assert_eq!(
        parse_literal("-9223372036854775808"),
        Some(Literal::Int(i64::MIN))
    );
}

fn no_caps() -> Cap {
    Cap {
        run: false,
        at: false,
        range: false,
        log: false,
        metric: false,
        clock: false,
    }
}

#[test]
fn create_function_display_roundtrips() {
    let mut caps = no_caps();
    caps.run = true;
    caps.log = true;
    for kind in [
        TriggerKind::OnDemand,
        TriggerKind::OnWrite { lens: None },
        TriggerKind::OnWrite {
            lens: Some("temp".into()),
        },
        TriggerKind::OnPermission,
        TriggerKind::Cron { every_secs: 60 },
    ] {
        let stmt = Stmt::CreateFunction {
            name: "f".into(),
            kind,
            caps,
            body: "return 1".into(),
        };
        assert_eq!(parsed(&stmt.schema_text().unwrap()), stmt);
    }
}

#[test]
fn drop_function_display_roundtrips() {
    let stmt = Stmt::DropFunction { name: "f".into() };
    assert_eq!(parsed(&stmt.schema_text().unwrap()), stmt);
}

#[test]
fn declarations_are_read_back_from_their_text() {
    for q in [
        "CREATE LENS x int",
        "CREATE LENS grid float AXES (valid, region, height)",
        "DERIVE LENS d AS a + b * -3",
        "DERIVE LENS d AS (a - b) - (c - 1)",
        "DERIVE LENS d AS !(a > 1 && b < 2) || c == \"x y\"",
        "DERIVE LENS d AS avg(a, -10, 0) * 2.5 OVER -5 10",
        "XDERIVE LENS d AS min(a, 0, 10)",
        "DROP LENS x",
        "SET TTL LENS x 60",
        "UNSET TTL LENS x",
    ] {
        let stmt = parsed(q);
        let text = stmt.schema_text().unwrap();
        assert_eq!(parsed(&text), stmt, "{text}");
    }
}

#[test]
fn schema_texts_parse_to_the_same_statement() {
    for q in [
        "CREATE LENS temp int",
        "CREATE  LENS grid float   AXES ( valid ,height )",
        "DERIVE LENS d AS a + b * 2",
        "DERIVE LENS d AS !(a == null) || min( nullify_1 , -5 , 10) < -3.50 OVER -5 10",
        "DERIVE LENS d AS --9223372036854775808 - maxim % 2",
        "XDERIVE LENS x AS (\"a b\" != s) && true",
        "DROP LENS temp",
        "SET TTL LENS temp 3600",
        "UNSET TTL LENS temp",
        "CREATE FUNCTION f CAPS clock, exec , exec AS \"return 1\"",
        "CREATE FUNCTION f ON WRITE LENS a CAPS at, range AS \"\"",
        "CREATE FUNCTION f ON WRITE CAPS log AS \"x\"",
        "CREATE FUNCTION f ON PERMISSION CAPS metric AS \"x\"",
        "CREATE FUNCTION f SCHEDULE EVERY 5 CAPS exec AS \"x\"",
        "DROP FUNCTION f",
    ] {
        let (_, stmt) = parse(q).unwrap_or_else(|_| panic!("{q}"));
        let text = stmt.schema_text().expect(q);
        let (rest, again) = parse(&text).unwrap_or_else(|_| panic!("{text}"));
        assert_eq!(rest, "");
        assert_eq!(again, stmt, "{q} as {text}");
    }
}

#[test]
fn what_stands_behind_a_statement_is_an_error() {
    assert!(parse("COMMIT").is_ok());
    assert!(parse("  COMMIT \n\t ").is_ok());
    for text in ["COMMIT junk", "COMMIT;", "AT LENS x 5 5 LAYER 1 more", "SHOW LENSES x"] {
        assert!(parse(text).is_err(), "{text}");
    }
    let e = parse("COMMIT junk").unwrap_err();
    assert_eq!(e.at, 7);
    assert_eq!(
        format_parse_error("COMMIT junk", e),
        "parse error at column 8: near `junk`"
    );
}

#[test]
fn white_space_is_as_in_unicode() {
    for c in '\u{0}'..='\u{4000}' {
        assert_eq!(is_white_space(c), c.is_whitespace(), "{c:?}");
    }
    assert!(!is_white_space('\u{feff}'));
}
