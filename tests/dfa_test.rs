use automata::expression::Expression;

#[test]
fn match_plain_text() {
    let expression = Expression::new("abc");

    assert!(expression.matches("abc"));
    assert!(!expression.matches("a"));
    assert!(!expression.matches("aa"));
    assert!(!expression.matches("b"));
    assert!(!expression.matches("c"));
    assert!(!expression.matches("ab"));
    assert!(!expression.matches("abca"));
}

#[test]
fn match_text_with_optional_chars() {
    let expression = Expression::new("ab?c");

    assert!(expression.matches("ac"));
    assert!(expression.matches("abc"));

    assert!(!expression.matches("a"));
    assert!(!expression.matches("b"));
    assert!(!expression.matches("c"));
    assert!(!expression.matches("ab"));
    assert!(!expression.matches("aab"));
    assert!(!expression.matches("aa"));
}

#[test]
fn match_text_with_kleene_chars() {
    let expression = Expression::new("ab*c");

    assert!(expression.matches("ac"));
    assert!(expression.matches("abc"));
    assert!(expression.matches("abbc"));
    assert!(expression.matches("abbbc"));

    assert!(!expression.matches("a"));
    assert!(!expression.matches("b"));
    assert!(!expression.matches("c"));
    assert!(!expression.matches("ab"));
    assert!(!expression.matches("aab"));
    assert!(!expression.matches("aa"));
}

#[test]
fn match_text_with_plus_chars() {
    let expression = Expression::new("ab+c");

    assert!(expression.matches("abc"));
    assert!(expression.matches("abbc"));
    assert!(expression.matches("abbbc"));

    assert!(!expression.matches("ac"));
    assert!(!expression.matches("a"));
    assert!(!expression.matches("b"));
    assert!(!expression.matches("c"));
    assert!(!expression.matches("ab"));
    assert!(!expression.matches("aab"));
    assert!(!expression.matches("aa"));
}

#[test]
fn match_text_with_or_chars() {
    let expression = Expression::new("b|ac");

    assert!(expression.matches("b"));
    assert!(expression.matches("ac"));

    assert!(!expression.matches("a"));
    assert!(!expression.matches("c"));
    assert!(!expression.matches("ab"));
    assert!(!expression.matches("bac"));
    assert!(!expression.matches("ba"));
    assert!(!expression.matches("abc"));
}

#[test]
fn match_text_with_realistic_example_1() {
    let expression = Expression::new("Ivan|Petq");

    assert!(expression.matches("Ivan"));
    assert!(expression.matches("Petq"));
    assert!(!expression.matches("Petar"));
    assert!(!expression.matches("Niki"));
}

#[test]
fn match_text_with_realistic_example_2() {
    let expression = Expression::new("a+bc*|ca*");

    assert!(expression.matches("ab"));
    assert!(expression.matches("abc"));
    assert!(expression.matches("aaabcc"));
    assert!(expression.matches("abc"));
    assert!(expression.matches("abcccc"));
    assert!(expression.matches("c"));
    assert!(expression.matches("ca"));
    assert!(expression.matches("caaa"));
    assert!(!expression.matches("b"));
    assert!(!expression.matches("bc"));
}

#[test]
fn match_text_with_realistic_example_3() {
    let expression = Expression::new("a+bc*d+e*s*ac+e*");

    assert!(expression.matches("abdac"));
    assert!(expression.matches("abcdac"));
    assert!(expression.matches("abcccdeeac"));
    assert!(expression.matches("abcccdesac"));
    assert!(!expression.matches("bc"));
    assert!(!expression.matches("abces"));
}

#[test]
fn scenario_rejections_of_the_empty_text() {
    assert!(!Expression::new("abc").matches(""));
    assert!(!Expression::new("ab?c").matches(""));
    assert!(!Expression::new("Ivan|Petq").matches(""));
    assert!(!Expression::new("a+bc*|ca*").matches(""));
}

#[test]
fn scenario_further_rejections() {
    assert!(!Expression::new("ab?c").matches("abbc"));
    assert!(!Expression::new("ab*c").matches("abbb"));
}

#[test]
fn empty_pattern_matches_nothing() {
    let expression = Expression::new("");

    assert!(!expression.matches(""));
    assert!(!expression.matches("a"));
}

#[test]
fn symbol_outside_the_alphabet_is_rejected() {
    let expression = Expression::new("a*");

    assert!(expression.matches(""));
    assert!(expression.matches("aaa"));
    assert!(!expression.matches("b"));
    assert!(!expression.matches("aab"));
}

#[test]
fn metacharacter_in_atom_position_is_literal() {
    let star = Expression::new("*");
    assert!(star.matches("*"));
    assert!(!star.matches(""));

    let doubled = Expression::new("a**");
    assert!(doubled.matches("*"));
    assert!(doubled.matches("aa*"));
    assert!(!doubled.matches("aa"));

    let bar = Expression::new("|");
    assert!(!bar.matches(""));
    assert!(!bar.matches("|"));

    let trailing = Expression::new("a|");
    assert!(trailing.matches("a"));
    assert!(!trailing.matches(""));
}

#[test]
fn optional_and_plus_atoms_in_a_row() {
    let expression = Expression::new("x?y+z*");

    assert!(expression.matches("y"));
    assert!(expression.matches("xyyzz"));
    assert!(expression.matches("yz"));
    assert!(!expression.matches("x"));
    assert!(!expression.matches("xxy"));
}
