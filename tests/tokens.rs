use parsenip::lex::{lex, LexerError, Token};
use parsenip::parse::{find_closing, ParserError};

fn s(x: &str) -> String {
    x.to_string()
}

#[test]
fn lex_is_deterministic() {
    let html = "<ul class=\"a b\"><li>A</li> text <br/></ul>";
    let first = lex(html).unwrap();
    let second = lex(html).unwrap();
    assert_eq!(first, second);
}

#[test]
fn self_close_tokenizes_to_one_token() {
    let tokens = lex("<img src=\"x\"/>").unwrap();
    assert_eq!(tokens, vec![Token::SelfClose(s("img"), s("src=\"x\""))]);
}

#[test]
fn minimal_document_tokens() {
    let tokens = lex("<div><h1>Hi</h1></div>").unwrap();
    assert_eq!(
        tokens,
        vec![
            Token::Open(s("div"), s("")),
            Token::Open(s("h1"), s("")),
            Token::Inner(s("Hi")),
            Token::Close(s("h1")),
            Token::Close(s("div")),
        ]
    );
}

#[test]
fn empty_input_has_no_tokens() {
    assert_eq!(lex("").unwrap(), vec![]);
}

#[test]
fn blank_input_has_no_tokens() {
    assert_eq!(lex(" \n\t  \r\n").unwrap(), vec![]);
}

#[test]
fn unterminated_tag_is_malformed() {
    assert_eq!(lex("<div><span"), Err(LexerError::MalformedHTML));
}

#[test]
fn surrounding_white_space_is_trimmed() {
    let tokens = lex("  \n <p>x</p>\n  ").unwrap();
    assert_eq!(
        tokens,
        vec![Token::Open(s("p"), s("")), Token::Inner(s("x")), Token::Close(s("p"))]
    );
}

#[test]
fn tag_name_splits_at_first_white_space() {
    let tokens = lex("< a  href=\"x\" >").unwrap();
    assert_eq!(tokens, vec![Token::Open(s("a"), s(" href=\"x\""))]);
    let tokens = lex("<td\tcolspan=2>").unwrap();
    assert_eq!(tokens, vec![Token::Open(s("td"), s("colspan=2"))]);
}

#[test]
fn close_tag_name_is_trimmed() {
    let tokens = lex("</ div >").unwrap();
    assert_eq!(tokens, vec![Token::Close(s("div"))]);
}

#[test]
fn self_close_with_space_before_slash() {
    let tokens = lex("<br />").unwrap();
    assert_eq!(tokens, vec![Token::SelfClose(s("br"), s(""))]);
}

#[test]
fn text_after_last_tag_is_dropped() {
    let tokens = lex("<b>x</b> tail").unwrap();
    assert_eq!(
        tokens,
        vec![Token::Open(s("b"), s("")), Token::Inner(s("x")), Token::Close(s("b"))]
    );
}

#[test]
fn text_before_first_tag_is_a_token() {
    let tokens = lex("lead<b></b>").unwrap();
    assert_eq!(
        tokens,
        vec![Token::Inner(s("lead")), Token::Open(s("b"), s("")), Token::Close(s("b"))]
    );
}

#[test]
fn non_ascii_text_is_kept() {
    let tokens = lex("<p>héllo wörld</p>").unwrap();
    assert_eq!(tokens[1], Token::Inner(s("héllo wörld")));
}

#[test]
fn same_name_nesting_resolves_to_outer_close() {
    let tokens = lex("<div><div></div></div>").unwrap();
    assert_eq!(find_closing(&tokens, 0), Ok(3));
    assert_eq!(find_closing(&tokens, 1), Ok(2));
}

#[test]
fn closing_of_self_close_is_itself() {
    let tokens = lex("<a><br/></a>").unwrap();
    assert_eq!(find_closing(&tokens, 1), Ok(1));
}

#[test]
fn closing_skips_other_names() {
    let tokens = lex("<a><b></b><c><a></a></c></a>").unwrap();
    assert_eq!(find_closing(&tokens, 0), Ok(7));
    assert_eq!(find_closing(&tokens, 3), Ok(6));
}

#[test]
fn closing_of_unmatched_open() {
    let tokens = lex("<div><span></div>").unwrap();
    assert_eq!(find_closing(&tokens, 1), Err(ParserError::UnmatchedTag(s("span"))));
}

#[test]
fn closing_of_close_token_is_internal() {
    let tokens = lex("<a></a>").unwrap();
    assert!(matches!(find_closing(&tokens, 1), Err(ParserError::InternalError(_))));
}
