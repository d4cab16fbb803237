use regex_nfa::parser::{parse_regex, ParseError};
use regex_nfa::regex::RegexExpr;

#[test]
fn main_test_parse_regex1() {
    let expected_expr = RegexExpr::SingleChar('a');
    assert_eq!(parse_regex("a").as_ref(), Ok(&expected_expr));
}

#[test]
fn main_test_parse_regex2() {
    let expected_expr = RegexExpr::Concat(
        Box::new(RegexExpr::SingleChar('a')),
        Box::new(RegexExpr::SingleChar('b')),
    );
    assert_eq!(parse_regex("ab").as_ref(), Ok(&expected_expr));
}

#[test]
fn main_test_parse_regex3() {
    let expected_expr = RegexExpr::Or(
        Box::new(RegexExpr::SingleChar('a')),
        Box::new(RegexExpr::SingleChar('b')),
    );
    assert_eq!(parse_regex("a|b").as_ref(), Ok(&expected_expr));
    assert_eq!(parse_regex("(a)|b").as_ref(), Ok(&expected_expr));
    assert_eq!(parse_regex("((a)|(((b))))").as_ref(), Ok(&expected_expr));
}

#[test]
fn main_test_parse_regex4() {
    let expected_expr = RegexExpr::Star(Box::new(RegexExpr::SingleChar('a')));
    assert_eq!(parse_regex("a*").as_ref(), Ok(&expected_expr));
}

#[test]
fn main_test_parse_regex5() {
    let e1 = RegexExpr::Star(Box::new(RegexExpr::SingleChar('a')));
    let expected_expr = RegexExpr::Or(Box::new(e1), Box::new(RegexExpr::SingleChar('b')));

    assert_eq!(parse_regex("a*|b").as_ref(), Ok(&expected_expr));
    assert_eq!(parse_regex("(a*)|b").as_ref(), Ok(&expected_expr));
    assert_eq!(parse_regex("a*|(b)").as_ref(), Ok(&expected_expr));
}

#[test]
fn main_test_parse_regex6() {
    let e1 = RegexExpr::Star(Box::new(RegexExpr::SingleChar('b')));
    let expected_expr = RegexExpr::Or(Box::new(RegexExpr::SingleChar('a')), Box::new(e1));

    assert_eq!(parse_regex("a|b*").as_ref(), Ok(&expected_expr));
    assert_eq!(parse_regex("a|(b*)").as_ref(), Ok(&expected_expr));
}

#[test]
fn main_test_parse_regex7() {
    let e1 = RegexExpr::Concat(
        Box::new(RegexExpr::SingleChar('a')),
        Box::new(RegexExpr::SingleChar('b')),
    );
    let expected_expr = RegexExpr::Or(Box::new(e1), Box::new(RegexExpr::SingleChar('c')));

    assert_eq!(parse_regex("ab|c").as_ref(), Ok(&expected_expr));
    assert_eq!(parse_regex("ab|(c)").as_ref(), Ok(&expected_expr));
    assert_eq!(parse_regex("(ab)|c").as_ref(), Ok(&expected_expr));
}

#[test]
fn tests_test_parse_regex1() {
    let expected_expr = RegexExpr::SingleChar('a');
    assert_eq!(parse_regex("a").as_ref(), Ok(&expected_expr));
}

#[test]
fn tests_test_parse_regex2() {
    let expected_expr = RegexExpr::Concat(
        Box::new(RegexExpr::SingleChar('a')),
        Box::new(RegexExpr::SingleChar('b')),
    );
    assert_eq!(parse_regex("ab").as_ref(), Ok(&expected_expr));
}

#[test]
fn tests_test_parse_regex3() {
    let expected_expr = RegexExpr::Or(
        Box::new(RegexExpr::SingleChar('a')),
        Box::new(RegexExpr::SingleChar('b')),
    );
    assert_eq!(parse_regex("a|b").as_ref(), Ok(&expected_expr));
    assert_eq!(parse_regex("(a)|b").as_ref(), Ok(&expected_expr));
    assert_eq!(parse_regex("((a)|(((b))))").as_ref(), Ok(&expected_expr));
}

#[test]
fn tests_test_parse_regex4() {
    let expected_expr = RegexExpr::Star(Box::new(RegexExpr::SingleChar('a')));
    assert_eq!(parse_regex("a*").as_ref(), Ok(&expected_expr));
}

#[test]
fn tests_test_parse_regex5() {
    let e1 = RegexExpr::Star(Box::new(RegexExpr::SingleChar('a')));
    let expected_expr = RegexExpr::Or(Box::new(e1), Box::new(RegexExpr::SingleChar('b')));

    assert_eq!(parse_regex("a*|b").as_ref(), Ok(&expected_expr));
    assert_eq!(parse_regex("(a*)|b").as_ref(), Ok(&expected_expr));
    assert_eq!(parse_regex("a*|(b)").as_ref(), Ok(&expected_expr));
}

#[test]
fn tests_test_parse_regex6() {
    let e1 = RegexExpr::Star(Box::new(RegexExpr::SingleChar('b')));
    let expected_expr = RegexExpr::Or(Box::new(RegexExpr::SingleChar('a')), Box::new(e1));

    assert_eq!(parse_regex("a|b*").as_ref(), Ok(&expected_expr));
    assert_eq!(parse_regex("a|(b*)").as_ref(), Ok(&expected_expr));
}

#[test]
fn tests_test_parse_regex7() {
    let e1 = RegexExpr::Concat(
        Box::new(RegexExpr::SingleChar('a')),
        Box::new(RegexExpr::SingleChar('b')),
    );
    let expected_expr = RegexExpr::Or(Box::new(e1), Box::new(RegexExpr::SingleChar('c')));

    assert_eq!(parse_regex("ab|c").as_ref(), Ok(&expected_expr));
    assert_eq!(parse_regex("ab|(c)").as_ref(), Ok(&expected_expr));
    assert_eq!(parse_regex("(ab)|c").as_ref(), Ok(&expected_expr));
}
fn sym(c: char) -> Box<RegexExpr> {
    Box::new(RegexExpr::SingleChar(c))
}

#[test]
fn parse_star_binds_tighter_than_concat() {
    let expected = RegexExpr::Concat(sym('a'), Box::new(RegexExpr::Star(sym('b'))));
    assert_eq!(parse_regex("ab*"), Ok(expected));
}

#[test]
fn parse_concat_chain_nests_right() {
    // the markers wait on the stack until the end, so the last pair joins first
    let expected = RegexExpr::Concat(sym('a'), Box::new(RegexExpr::Concat(sym('b'), sym('c'))));
    assert_eq!(parse_regex("abc"), Ok(expected));
}

#[test]
fn parse_group_followed_by_operand() {
    let expected = RegexExpr::Concat(Box::new(RegexExpr::Or(sym('a'), sym('b'))), sym('c'));
    assert_eq!(parse_regex("(a|b)c"), Ok(expected));
}

#[test]
fn parse_digits_and_capitals() {
    let expected = RegexExpr::Or(sym('Z'), Box::new(RegexExpr::Star(sym('7'))));
    assert_eq!(parse_regex("Z|7*"), Ok(expected));
}

#[test]
fn parse_empty_input_is_an_error() {
    assert_eq!(parse_regex(""), Err(ParseError::EmptyExpression));
}

#[test]
fn parse_empty_group_is_an_error() {
    assert_eq!(parse_regex("()"), Err(ParseError::EmptyExpression));
}

#[test]
fn parse_unknown_character_is_an_error() {
    assert_eq!(parse_regex("a+b"), Err(ParseError::UnrecognizedCharacter('+')));
    assert_eq!(parse_regex("a b"), Err(ParseError::UnrecognizedCharacter(' ')));
}

#[test]
fn parse_missing_operand_is_an_error() {
    assert_eq!(parse_regex("|"), Err(ParseError::Malformed));
    assert_eq!(parse_regex("*"), Err(ParseError::Malformed));
    assert_eq!(parse_regex("a|"), Err(ParseError::Malformed));
}

#[test]
fn parentheses_around_balanced_text_change_nothing() {
    for s in ["a", "ab", "a|b*", "(a)|b", "ab*|(c)d", "", "a+b", "|", "((a))"] {
        let wrapped = format!("({})", s);
        assert_eq!(parse_regex(&wrapped), parse_regex(s), "for {:?}", s);
    }
}
