use perm_orbit::permutation::Permutation;

#[test]
fn identity_formats_as_empty_parentheses() {
    assert_eq!(Permutation::identity().to_string(), "()");
}

#[test]
fn formats_points_as_base_32_digits() {
    let q = Permutation::from_cycles(&vec![vec![10, 31], vec![1, 2]]);
    assert_eq!(q.to_string(), "(12)(av)");
}

#[test]
fn formats_cycles_from_smallest_point() {
    let q = Permutation::parse("(v0)(532)").unwrap();
    assert_eq!(q.to_string(), "(0v)(253)");
}

#[test]
fn parses_cycle_notation() {
    let q = Permutation::parse("(12)(av)").unwrap();
    assert_eq!(q.index(1), 2);
    assert_eq!(q.index(2), 1);
    assert_eq!(q.index(10), 31);
    assert_eq!(q.index(31), 10);
    assert_eq!(q.index(0), 0);
}

#[test]
fn parses_upper_case_digits() {
    assert_eq!(Permutation::parse("(AV)"), Permutation::parse("(av)"));
}

#[test]
fn parses_empty_and_singleton_cycles_as_identity() {
    assert_eq!(Permutation::parse("()"), Some(Permutation::identity()));
    assert_eq!(Permutation::parse("(1)()(2)"), Some(Permutation::identity()));
}

#[test]
fn parse_rejects_unterminated_text() {
    assert_eq!(Permutation::parse("(1"), None);
}

#[test]
fn parse_rejects_non_digit() {
    assert_eq!(Permutation::parse("(z)"), None);
    assert_eq!(Permutation::parse("(1 2)"), None);
    assert_eq!(Permutation::parse("(w)"), None);
}

#[test]
fn parse_rejects_missing_parentheses() {
    assert_eq!(Permutation::parse(""), None);
    assert_eq!(Permutation::parse("12"), None);
    assert_eq!(Permutation::parse("(12"), None);
    assert_eq!(Permutation::parse("12)"), None);
    assert_eq!(Permutation::parse("("), None);
}

#[test]
fn parse_rejects_stray_parentheses() {
    assert_eq!(Permutation::parse("((1))"), None);
    assert_eq!(Permutation::parse("(1)("), None);
    assert_eq!(Permutation::parse("(1))(2)"), None);
    assert_eq!(Permutation::parse("(1)x(2)"), None);
}

#[test]
fn parse_lets_later_cycles_overwrite_shared_points() {
    assert_eq!(Permutation::parse("(1)(1)"), Some(Permutation::identity()));
    assert_eq!(Permutation::parse("(12)(21)"), Permutation::parse("(12)"));
    assert_eq!(Permutation::parse("(55)"), Some(Permutation::identity()));
}

#[test]
fn parse_rejects_overlaps_that_break_bijection() {
    assert_eq!(Permutation::parse("(12)(23)"), None);
    assert_eq!(Permutation::parse("(121)"), None);
}

#[test]
fn parse_of_format_round_trips() {
    let samples = [
        Permutation::identity(),
        Permutation::parse("(0123)(45)").unwrap(),
        Permutation::parse("(1v)(a5c)(fg)").unwrap(),
        Permutation::from_array(&[31, 30, 29, 28, 27, 26, 25, 24, 23, 22, 21, 20, 19, 18, 17, 16, 15, 14, 13, 12, 11, 10, 9, 8, 7, 6, 5, 4, 3, 2, 1, 0]),
        Permutation::parse("(01)").unwrap().mul(&Permutation::parse("(0123456789abcdefghijklmnopqrstuv)").unwrap()),
    ];
    for q in samples {
        assert_eq!(Permutation::parse(&q.to_string()), Some(q));
    }
}
