use dictdefinition::brackets::solve_unopened_brackets;

#[test]
fn test_no_change() {
    assert_eq!(solve_unopened_brackets("()".to_string()), "()".to_string());
    assert_eq!(
        solve_unopened_brackets("[abc]".to_string()),
        "[abc]".to_string()
    );
}

#[test]
fn test_add_opening_bracket() {
    assert_eq!(solve_unopened_brackets(")".to_string()), "()".to_string());
    assert_eq!(solve_unopened_brackets("]".to_string()), "[]".to_string());
    assert_eq!(solve_unopened_brackets("}".to_string()), "{}".to_string());
}

#[test]
fn solve_unopened_brackets_examples() {
    assert_eq!(
        solve_unopened_brackets("with accusative] above".to_string()),
        "[with accusative] above"
    );
    assert_eq!(solve_unopened_brackets("()".to_string()), "()");
    assert_eq!(solve_unopened_brackets("".to_string()), "");
    assert_eq!(solve_unopened_brackets("no brackets".to_string()), "no brackets");
    // Only the first bracket character decides.
    assert_eq!(solve_unopened_brackets("a) b] c}".to_string()), "(a) b] c}");
    assert_eq!(solve_unopened_brackets("a ( b ]".to_string()), "a ( b ]");
    assert_eq!(solve_unopened_brackets("ж} (x".to_string()), "{ж} (x");
}

#[test]
fn solve_unopened_brackets_is_idempotent_and_keeps_the_text() {
    for text in ["", "abc", ")", "x] y", "}{", "(a", "a) (b", "é]]]"] {
        let once = solve_unopened_brackets(text.to_string());
        let twice = solve_unopened_brackets(once.clone());
        assert_eq!(once, twice);
        assert!(once.ends_with(text));
        assert!(once.chars().count() <= text.chars().count() + 1);
    }
}
