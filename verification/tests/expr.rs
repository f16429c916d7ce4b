use rankless::expr::{tokenize, tokens_at_chars, Op, ParseError, Token, MAX_CLAUSES, MAX_DEPTH, MAX_INPUT_BYTES, MAX_LIST_ITEMS};
use rankless::expr_parse::{check_length, parse_call, parse_calls, parse_where, parse_where_tokens};
use rankless::expr_tree::{Arg, Call, Clause, Expr, Operand};

/// `parse_where` with every number read as an `f64`, as the server does: a number that reads
/// as an infinity is a bad number at its position.
fn parse_where_read(s: &str) -> Result<Expr, ParseError> {
    check_length(s)?;
    let tokens = tokens_at_chars(s)?;
    for (at, t) in &tokens {
        if let Token::Num(n) = t {
            let ok = n.parse::<f64>().map_or(false, |v| v.is_finite());
            if !ok {
                return Err(ParseError { at: *at, msg: "bad number" });
            }
        }
    }
    parse_where_tokens(tokens, s.chars().count())
}

fn roundtrip(s: &str) -> String {
    parse_where(s).unwrap().text()
}

fn operand_of(s: &str) -> Operand {
    match parse_where(s).unwrap() {
        Expr::Clause(c) => c.operand,
        other => panic!("{} is not one clause", other.text()),
    }
}

fn number(o: &Operand) -> f64 {
    match o {
        Operand::Num(n) => n.parse::<f64>().unwrap(),
        other => panic!("{} is not a number", other.text()),
    }
}

fn arg_number(a: &Arg) -> f64 {
    match a {
        Arg::Num(n) => n.parse::<f64>().unwrap(),
        other => panic!("{} is not a number", other.text()),
    }
}

#[test]
fn a_parenthesized_conjunction_is_one_conjunction() {
    let flat = parse_where("a > 1 and b > 2 and c > 3").unwrap();
    for text in [
        "(a > 1 and b > 2) and c > 3",
        "a > 1 and (b > 2 and c > 3)",
        "((a > 1 and b > 2) and c > 3)",
    ] {
        assert_eq!(parse_where(text).unwrap(), flat, "{text}");
    }
    assert!(
        matches!(parse_where("(a > 1 or b > 2) and c > 3").unwrap(), Expr::And(i) if i.len() == 2)
    );
}

#[test]
fn precedence_is_parentheses_not_and_or() {
    assert_eq!(roundtrip("a=1 or b=2 and c=3"), "a = 1 or b = 2 and c = 3");
    assert_eq!(
        roundtrip("(a=1 or b=2) and c=3"),
        "(a = 1 or b = 2) and c = 3"
    );
    assert_eq!(roundtrip("not a=1 and b=2"), "not a = 1 and b = 2");
    assert_eq!(roundtrip("not (a=1 and b=2)"), "not (a = 1 and b = 2)");
    assert_eq!(roundtrip("NOT a=1 OR b=2"), "not a = 1 or b = 2");
    let e = parse_where("a=1 or b=2 and c=3").unwrap();
    assert!(
        matches!(&e, Expr::Or(items) if items.len() == 2 && matches!(items[1], Expr::And(_)))
    );
}

#[test]
fn clauses_carry_calls_operators_and_typed_operands() {
    assert_eq!(
        roundtrip(
            "country=hun and city!=budapest and (papers>=500 or weighted_paper_score>=20)"
        ),
        "country = hun and city != budapest and (papers >= 500 or weighted_paper_score >= 20)"
    );
    assert_eq!(
        roundtrip("field_citations(oncology) > 0 and window_papers(2020, 2024) >= 10"),
        "field_citations(oncology) > 0 and window_papers(2020, 2024) >= 10"
    );
    assert_eq!(
        roundtrip("cited_from(usa) >= 0.3"),
        "cited_from(usa) >= 0.3"
    );
    assert_eq!(
        roundtrip("country in (hun, aut) and city not in (\"new york\", 'los angeles')"),
        "country in (hun, aut) and city not in (\"new york\", \"los angeles\")"
    );
    assert_eq!(
        roundtrip("papers_at(budapesti-corvinus-egyetem) >= 5"),
        "papers_at(budapesti-corvinus-egyetem) >= 5"
    );
    assert_eq!(
        roundtrip("year_centroid <= 2005.5"),
        "year_centroid <= 2005.5"
    );
    assert_eq!(roundtrip("x = -1"), "x = -1");
    let c = match parse_where("papers > 1e3").unwrap() {
        Expr::Clause(c) => c,
        _ => panic!(),
    };
    assert_eq!(number(&c.operand), 1000.0);
}

#[test]
fn calls_and_call_lists_parse_alone() {
    assert_eq!(
        parse_call("field_score(oncology)").unwrap().text(),
        "field_score(oncology)"
    );
    assert_eq!(parse_call("citations").unwrap().args, vec![]);
    let calls = parse_calls("field_share(oncology), window_papers(2020, 2024)").unwrap();
    assert_eq!(calls.len(), 2);
    assert_eq!(calls[1].args.len(), 2);
    assert_eq!(arg_number(&calls[1].args[0]), 2020.0);
    assert_eq!(arg_number(&calls[1].args[1]), 2024.0);
    assert!(parse_call("a b").is_err());
    assert!(parse_calls("a,").is_err());
}

#[test]
fn every_malformed_input_is_a_positioned_error() {
    for (s, msg) in [
        ("a=", "expected a value"),
        ("a", "expected an operator"),
        ("(a=1", "expected )"),
        ("a=1)", "unexpected input"),
        ("a in b", "expected ("),
        ("a in ()", "expected a value"),
        ("a not b", "expected in after not"),
        ("a = \"x", "unterminated string"),
        ("a = 1 & b = 2", "unexpected character"),
        ("1 = a", "expected a metric"),
        ("a(1,) = 2", "expected a value"),
    ] {
        let err = parse_where(s).unwrap_err();
        assert_eq!(err.msg, msg, "{s}");
        assert!(err.at <= s.len());
    }
    assert_eq!(
        parse_where("a=1)").unwrap_err().text(),
        "unexpected input at character 4"
    );
}

#[test]
fn an_escape_names_a_character_not_a_byte() {
    assert_eq!(
        operand_of(r#"city = "Budap\ést""#),
        Operand::Name("Budapést".into())
    );
    assert_eq!(
        operand_of(r#"city = "a\"b\\c""#),
        Operand::Name(r#"a"b\c"#.into())
    );
    assert_eq!(roundtrip(r#"city = "a\"b\\c""#), r#"city = "a\"b\\c""#);
    assert_eq!(
        parse_where(r#"city = "a\"#).unwrap_err().msg,
        "unterminated string"
    );
    // A position counts characters, not the bytes a name before it happened to need.
    assert_eq!(
        parse_where("x = \"á\" & 1").unwrap_err().text(),
        "unexpected character at character 9"
    );
}

#[test]
fn one_numeric_grammar_covers_sign_and_exponent() {
    assert_eq!(number(&operand_of("x = -1e3")), -1000.0);
    assert_eq!(number(&operand_of("x = -.5")), number(&operand_of("x = -0.5")));
    assert_eq!(number(&operand_of("x = 1E-2")), 0.01);
    for bad in ["x = 1.2.3", "x = 1e400", "x = -1e400", "x = ."] {
        assert_eq!(parse_where_read(bad).unwrap_err().msg, "bad number", "{bad}");
    }
}

#[test]
fn every_input_is_bounded_before_it_is_parsed() {
    let depth = MAX_DEPTH as usize;
    let nested = |n: usize| format!("{}a=1{}", "(".repeat(n), ")".repeat(n));
    let nots = |n: usize| format!("{}a=1", "not ".repeat(n));
    let clauses = |n: usize| vec!["a=1"; n].join(" and ");
    let list = |n: usize| format!("a in ({})", vec!["1"; n].join(", "));
    for ok in [
        nested(depth),
        nots(depth),
        clauses(MAX_CLAUSES),
        list(MAX_LIST_ITEMS),
    ] {
        assert!(parse_where(&ok).is_ok(), "{ok}");
    }
    for (s, msg) in [
        (nested(depth + 1), "nested too deeply"),
        (nots(depth + 1), "nested too deeply"),
        (clauses(MAX_CLAUSES + 1), "too many clauses"),
        (list(MAX_LIST_ITEMS + 1), "too many values"),
        ("(".repeat(3000), "expression too long"),
        ("a".repeat(MAX_INPUT_BYTES + 1), "expression too long"),
    ] {
        assert_eq!(
            parse_where(&s).unwrap_err().msg,
            msg,
            "{}",
            &s[..8.min(s.len())]
        );
    }
}

fn roll(seed: &mut u64) -> u64 {
    *seed ^= *seed << 13;
    *seed ^= *seed >> 7;
    *seed ^= *seed << 17;
    *seed
}

// A tree of every shape the printer has to handle: names that must be quoted, keywords and an
// empty string among them, numbers, argument lists and each operator.
fn rand_expr(seed: &mut u64, depth: u8) -> Expr {
    const NAMES: [&str; 8] = [
        "hun",
        "new york",
        "a\"b",
        "c\\d",
        "büdapest",
        "and",
        "",
        "x-1",
    ];
    const OPS: [Op; 8] = [
        Op::Eq,
        Op::Ne,
        Op::Lt,
        Op::Le,
        Op::Gt,
        Op::Ge,
        Op::In,
        Op::NotIn,
    ];
    const NUMS: [f64; 5] = [0.0, -1.5, 1e3, 2024.0, 0.125];
    let name = |seed: &mut u64| NAMES[roll(seed) as usize % NAMES.len()].to_string();
    let num = |seed: &mut u64| NUMS[roll(seed) as usize % NUMS.len()].to_string();
    if depth == 0 || roll(seed) % 3 == 0 {
        let op = OPS[roll(seed) as usize % OPS.len()];
        let args = match roll(seed) % 3 {
            0 => Vec::new(),
            1 => vec![Arg::Name(name(seed))],
            _ => vec![Arg::Num(num(seed)), Arg::Name(name(seed))],
        };
        let operand = if op.is_membership() {
            Operand::List(vec![Arg::Name(name(seed)), Arg::Num(2024.0f64.to_string())])
        } else if roll(seed) % 2 == 0 {
            Operand::Num(num(seed))
        } else {
            Operand::Name(name(seed))
        };
        let metric = ["papers", "field_score", "_x-y"][roll(seed) as usize % 3].to_string();
        return Expr::Clause(Clause {
            call: Call { metric, args },
            op,
            operand,
        });
    }
    let kids = 2 + roll(seed) % 2;
    let items = (0..kids).map(|_| rand_expr(seed, depth - 1)).collect();
    match roll(seed) % 3 {
        0 => Expr::And(items),
        1 => Expr::Or(items),
        _ => Expr::Not(Box::new(rand_expr(seed, depth - 1))),
    }
}

// Nothing the language cannot name may panic, and everything it prints it reads back as the
// same tree: token soup and arbitrary characters for the first, printed random trees for the
// second.
#[test]
fn no_input_panics_and_whatever_prints_parses_as_itself() {
    let mut seed = 0x2545_f491_4f6c_dd1d;
    for _ in 0..5_000 {
        let printed = rand_expr(&mut seed, 3).text();
        let e = parse_where(&printed)
            .unwrap_or_else(|e| panic!("{printed:?}: {}", e.text()));
        assert_eq!(parse_where(&e.text()).as_ref(), Ok(&e), "{printed:?}");
    }
    const PIECES: [&str; 26] = [
        "a", "(", ")", ",", "=", "!=", ">=", "and", "or", "not", "in", "1", "-2.5", "1e3",
        "\"", "'", "\\", "é", "😊", "\\é", " ", "_x-y", ".", "e", "\t", "\u{0}",
    ];
    for _ in 0..20_000 {
        let mut s = String::new();
        for _ in 0..(1 + roll(&mut seed) % 12) {
            s.push_str(PIECES[roll(&mut seed) as usize % PIECES.len()]);
        }
        let _ = parse_where(&s);
        let _ = parse_calls(&s);
    }
    for _ in 0..20_000 {
        let mut s = String::new();
        for _ in 0..(1 + roll(&mut seed) % 8) {
            s.push(char::from_u32(roll(&mut seed) as u32 % 0x11_000).unwrap_or('x'));
        }
        let _ = parse_where(&s);
        let _ = parse_calls(&s);
    }
}

#[test]
fn tokens_carry_byte_offsets_and_errors_character_positions() {
    assert_eq!(
        tokenize("'é' = x").unwrap(),
        vec![(0, Token::Str("é".into())), (5, Token::Op(Op::Eq)), (7, Token::Ident("x".into()))]
    );
    assert_eq!(
        tokens_at_chars("'é' = x").unwrap(),
        vec![(0, Token::Str("é".into())), (4, Token::Op(Op::Eq)), (6, Token::Ident("x".into()))]
    );
    let e = tokenize("'é' = $").unwrap_err();
    assert_eq!((e.at, e.msg), (6, "unexpected character"));
    let ts = tokenize("é = 'x'").unwrap_err();
    assert_eq!(ts.msg, "unexpected character");
    assert_eq!(ts.at, 0);
    let ts = tokenize("ab <= \"c d\", -2.5e3").unwrap();
    assert_eq!(
        ts,
        vec![
            (0, Token::Ident("ab".into())),
            (3, Token::Op(Op::Le)),
            (6, Token::Str("c d".into())),
            (11, Token::Comma),
            (13, Token::Num("-2.5e3".into())),
        ]
    );
    assert_eq!(
        tokenize("AND Or nOt IN x").unwrap(),
        vec![
            (0, Token::And),
            (4, Token::Or),
            (7, Token::Not),
            (11, Token::In),
            (14, Token::Ident("x".into())),
        ]
    );
    // An exponent without digits is not part of the number.
    assert_eq!(
        tokenize("1e").unwrap(),
        vec![(0, Token::Num("1".into())), (1, Token::Ident("e".into()))]
    );
}

#[test]
fn the_length_limit_falls_on_a_character() {
    assert!(check_length(&"a".repeat(MAX_INPUT_BYTES)).is_ok());
    // Two-byte characters: the limit falls on the 1024th of them.
    let e = check_length(&"é".repeat(1025)).unwrap_err();
    assert_eq!(e.msg, "expression too long");
    assert_eq!(e.at, 1024);
    let e = check_length(&"€".repeat(700)).unwrap_err();
    assert_eq!(e.at, 683);
}

#[test]
fn membership_is_in_and_not_in() {
    assert!(Op::In.is_membership());
    assert!(Op::NotIn.is_membership());
    assert!(!Op::Eq.is_membership());
    assert_eq!(Op::NotIn.text(), "not in");
    let e = parse_where("a not in (1) or b in (x, \"y z\")").unwrap();
    assert_eq!(e.text(), "a not in (1) or b in (x, \"y z\")");
}

#[test]
fn a_printed_parse_reads_back_as_the_same_tree() {
    assert_eq!(
        roundtrip("(a=1 and b=2) and (c=3 or d=4)"),
        "a = 1 and b = 2 and (c = 3 or d = 4)"
    );
    for s in [
        "not (a=1 or b>=\"x y\") and c in (1, -2.5e3)",
        "f(x, \"a\\\"b\") != 'q' or not not g < .5",
        "(a=1 and b=2) and (c=3 or d=4)",
        "m not in (\"and\", or_x, 7E+2)",
    ] {
        let e = parse_where(s).unwrap();
        let printed = e.text();
        assert_eq!(parse_where(&printed).as_ref(), Ok(&e), "{printed}");
    }
}
