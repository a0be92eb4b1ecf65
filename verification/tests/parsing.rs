use solatic::dimacs_parser::{from_reader, has_zero_literal, is_white_space, parse_i32, parse_line, split_tokens, DimacsError};
use solatic::text::push_decimal;
use solatic::{to_lits, Lit, SolveResult};

fn chars(s: &str) -> Vec<char> {
    s.chars().collect()
}

fn lines(text: &str) -> Vec<String> {
    text.lines().map(|l| l.to_string()).collect()
}

#[test]
fn white_space_matches_std() {
    for u in 0u32..=0x10ffff {
        if let Some(c) = char::from_u32(u) {
            assert_eq!(is_white_space(c), c.is_whitespace(), "U+{:04X}", u);
        }
    }
}

#[test]
fn parse_i32_matches_std() {
    let samples = [
        "0", "7", "+5", "-5", "-", "+", "", "007", "-007", "2147483647", "2147483648", "-2147483648", "-2147483649",
        "99999999999999999999", "1a", "a1", "--1", "+-1", " 1", "\u{0663}", "1.0", "-0", "+0",
    ];
    for s in samples {
        let expected = s.parse::<i32>().ok();
        assert_eq!(parse_i32(&chars(s)), expected, "{:?}", s);
    }
}

#[test]
fn tokens_split_on_any_white_space() {
    let toks = split_tokens(&chars("  1\t-2\u{3000}3 \u{a0} 0  "));
    let expected: Vec<Vec<char>> = vec![chars("1"), chars("-2"), chars("3"), chars("0")];
    assert_eq!(toks, expected);
    assert!(split_tokens(&chars(" \t ")).is_empty());
}

#[test]
fn skipped_lines() {
    assert_eq!(parse_line(""), Ok(None));
    assert_eq!(parse_line("   \t"), Ok(None));
    assert_eq!(parse_line("c a comment 1 2 x"), Ok(None));
    assert_eq!(parse_line("   p cnf 3 2"), Ok(None));
    assert_eq!(parse_line("comment without space"), Ok(None));
}

#[test]
fn clause_lines() {
    assert_eq!(parse_line("1 -3 0"), Ok(Some(vec![Lit::new(0, false), Lit::new(2, true)])));
    // numbers after the 0 are not read
    assert_eq!(parse_line(" 2 0 x 7"), Ok(Some(vec![Lit::new(1, false)])));
    // a clause without its closing 0
    assert_eq!(parse_line("-1 2"), Ok(Some(vec![Lit::new(0, true), Lit::new(1, false)])));
    assert_eq!(parse_line("0"), Ok(Some(vec![])));
    assert_eq!(parse_line("+4 0"), Ok(Some(vec![Lit::new(3, false)])));
    assert_eq!(parse_line("2147483647 0"), Ok(Some(vec![Lit::new(2147483646, false)])));
}

#[test]
fn refused_lines() {
    assert_eq!(parse_line("1 x 0"), Err(DimacsError::InvalidLiteral));
    assert_eq!(parse_line("1 2147483648 0"), Err(DimacsError::InvalidLiteral));
    assert_eq!(parse_line("1 -2147483648 0"), Err(DimacsError::OutOfBounds));
    // the first failing number decides
    assert_eq!(parse_line("-2147483648 x 0"), Err(DimacsError::OutOfBounds));
    assert_eq!(parse_line("x -2147483648 0"), Err(DimacsError::InvalidLiteral));
}

#[test]
fn zero_valued_numbers() {
    assert!(has_zero_literal("-0 0"));
    assert!(has_zero_literal("1 +0 2 0"));
    assert!(has_zero_literal("00"));
    assert!(!has_zero_literal("1 0 -0"));
    assert!(!has_zero_literal("x -0"));
    assert!(!has_zero_literal("c -0"));
    assert!(!has_zero_literal("1 2 0"));
}

#[test]
fn reader_builds_a_solver() {
    let text = "c example\np cnf 3 2\n1 -3 0\n\n2 3 -1 0\n";
    let mut solver = from_reader(&lines(text)).unwrap();
    assert_eq!(solver.values_len(), 3);
    assert_eq!(solver.solve(), SolveResult::Sat);
}

#[test]
fn reader_matches_added_clauses() {
    let text = "1 -3 0\n2 0\n2 3 -1 0\n";
    let mut from_text = from_reader(&lines(text)).unwrap();
    let mut by_hand = solatic::Solver::new();
    for c in [[0i32; 0].as_slice(), &[1, -3], &[2], &[2, 3, -1]] {
        if !c.is_empty() {
            let lits: Vec<Lit> = c.iter().map(|&i| Lit::new(i.unsigned_abs() as usize - 1, i < 0)).collect();
            by_hand.add_clause(&lits).unwrap();
        }
    }
    let mut a: Vec<u8> = Vec::new();
    let mut b: Vec<u8> = Vec::new();
    from_text.write_assignments(&mut a);
    by_hand.write_assignments(&mut b);
    assert_eq!(a, b);
    assert_eq!(from_text.solve_and_write(&mut a), by_hand.solve_and_write(&mut b));
    assert_eq!(a, b);
    let _ = to_lits(&[1]);
}

#[test]
fn reader_errors() {
    assert_eq!(from_reader(&lines("1 2 0\n0\n1 x 0\n")).err(), Some(DimacsError::TriviallyUnsat(2)));
    assert_eq!(from_reader(&lines("c\n1 x 0\n0\n")).err(), Some(DimacsError::InvalidLiteral));
    assert_eq!(from_reader(&lines("1 2 0\n-2147483648 0\n")).err(), Some(DimacsError::OutOfBounds));
    assert_eq!(from_reader(&lines("   \t 0 \n")).err(), Some(DimacsError::TriviallyUnsat(1)));
}

#[test]
fn reader_reports() {
    let cases = [
        ("p cnf 2 2\n1 2 0\n-1 0\n", "SAT\nV1=1\n"),
        ("1 0\n-1 2 0\n-2 -1 0\n", "UNSAT\n"),
    ];
    for (text, expected) in cases {
        let mut solver = from_reader(&lines(text)).unwrap();
        let mut out: Vec<u8> = Vec::new();
        solver.solve_and_write(&mut out);
        assert_eq!(String::from_utf8(out).unwrap(), expected, "{:?}", text);
    }
}

#[test]
fn decimal_digits() {
    for n in [0usize, 7, 10, 12345, usize::MAX] {
        let mut out: Vec<u8> = b"x".to_vec();
        push_decimal(&mut out, n);
        assert_eq!(out, format!("x{}", n).into_bytes());
    }
}
