use small_world::edge_list::parse_edge;

#[test]
fn plain_line_gives_both_ids() {
    assert_eq!(parse_edge("1 2"), Some((1, 2)));
    assert_eq!(parse_edge("0 0"), Some((0, 0)));
    assert_eq!(parse_edge("4038 17"), Some((4038, 17)));
}

#[test]
fn any_whitespace_separates() {
    assert_eq!(parse_edge("  12\t\t34  "), Some((12, 34)));
    assert_eq!(parse_edge("12\u{3000}34"), Some((12, 34)));
    assert_eq!(parse_edge("\u{a0}5\u{2003}6\r"), Some((5, 6)));
    assert_eq!(parse_edge("5\u{b}6"), Some((5, 6)));
}

#[test]
fn fields_after_the_second_are_ignored() {
    assert_eq!(parse_edge("1 2 3"), Some((1, 2)));
    assert_eq!(parse_edge("1 2 weight"), Some((1, 2)));
}

#[test]
fn plus_sign_and_leading_zeros_are_accepted() {
    assert_eq!(parse_edge("+7 007"), Some((7, 7)));
}

#[test]
fn lines_with_fewer_than_two_tokens_are_refused() {
    assert_eq!(parse_edge(""), None);
    assert_eq!(parse_edge("   "), None);
    assert_eq!(parse_edge("17"), None);
    assert_eq!(parse_edge(" 17 "), None);
}

#[test]
fn tokens_that_are_no_numbers_are_refused() {
    assert_eq!(parse_edge("a b"), None);
    assert_eq!(parse_edge("1 b"), None);
    assert_eq!(parse_edge("a 2"), None);
    assert_eq!(parse_edge("-1 2"), None);
    assert_eq!(parse_edge("1 -2"), None);
    assert_eq!(parse_edge("1.5 2"), None);
    assert_eq!(parse_edge("+ 2"), None);
    assert_eq!(parse_edge("1 +"), None);
    assert_eq!(parse_edge("1,2"), None);
    assert_eq!(parse_edge("1 2x"), None);
    assert_eq!(parse_edge("\u{661} 2"), None);
}

#[test]
fn ids_must_fit_a_machine_word() {
    let largest = usize::MAX.to_string();
    assert_eq!(parse_edge(&format!("{} 1", largest)), Some((usize::MAX, 1)));
    assert_eq!(parse_edge(&format!("1 {}0", largest)), None);
    assert_eq!(parse_edge("340282366920938463463374607431768211456 1"), None);
    let mut next = largest.into_bytes();
    let last = next.len() - 1;
    next[last] += 1;
    let next = String::from_utf8(next).unwrap();
    assert_eq!(parse_edge(&format!("{} 1", next)), None);
}

#[test]
fn parsing_agrees_with_the_standard_library() {
    let lines = [
        "3 4", " 3  4 ", "+3 +4", "-3 4", "3", "", "x y", "003 4", "3 4 5", "3\t4", "3\u{2028}4",
        "18446744073709551615 0", "18446744073709551616 0", "++3 4", "3+ 4", "3 4+",
    ];
    for line in lines {
        let tokens: Vec<&str> = line.split_whitespace().collect();
        let expected = if tokens.len() < 2 {
            None
        } else {
            match (tokens[0].parse::<usize>(), tokens[1].parse::<usize>()) {
                (Ok(a), Ok(b)) => Some((a, b)),
                _ => None,
            }
        };
        assert_eq!(parse_edge(line), expected);
    }
}
