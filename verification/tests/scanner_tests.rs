use lib::scanner::{scanner, ScanErrorKind};
use lib::token::{token_to_string, Token, TokenType};

fn kinds(ts: &Vec<Token>) -> Vec<TokenType> {
    ts.iter().map(|t| t.t_type).collect()
}

fn values(ts: &Vec<Token>) -> Vec<String> {
    ts.iter().map(|t| t.value.clone()).collect()
}

#[test]
fn scans_punctuation_and_words() {
    let ts = scanner(String::from("Schemes: a(x,y)\nFacts:")).ok().unwrap();
    assert_eq!(
        kinds(&ts),
        vec![
            TokenType::Schemes,
            TokenType::Colon,
            TokenType::Id,
            TokenType::LeftParen,
            TokenType::Id,
            TokenType::Comma,
            TokenType::Id,
            TokenType::RightParen,
            TokenType::Facts,
            TokenType::Colon,
            TokenType::End,
        ]
    );
    assert_eq!(values(&ts), vec!["Schemes", ":", "a", "(", "x", ",", "y", ")", "Facts", ":", "EOF"]);
    let lines: Vec<u32> = ts.iter().map(|t| t.line).collect();
    assert_eq!(lines, vec![1, 1, 1, 1, 1, 1, 1, 1, 2, 2, 2]);
}

#[test]
fn scans_rule_operators() {
    let ts = scanner(String::from("b(y) :- a(y). q(x)? : .")).ok().unwrap();
    assert_eq!(
        kinds(&ts),
        vec![
            TokenType::Id,
            TokenType::LeftParen,
            TokenType::Id,
            TokenType::RightParen,
            TokenType::ColonDash,
            TokenType::Id,
            TokenType::LeftParen,
            TokenType::Id,
            TokenType::RightParen,
            TokenType::Period,
            TokenType::Id,
            TokenType::LeftParen,
            TokenType::Id,
            TokenType::RightParen,
            TokenType::QMark,
            TokenType::Colon,
            TokenType::Period,
            TokenType::End,
        ]
    );
    assert_eq!(ts[4].value, ":-");
}

#[test]
fn keywords_need_the_whole_word() {
    let ts = scanner(String::from("Rules Queries Rulesx facts x1y2")).ok().unwrap();
    assert_eq!(
        kinds(&ts),
        vec![TokenType::Rules, TokenType::Queries, TokenType::Id, TokenType::Id, TokenType::Id, TokenType::End]
    );
    assert_eq!(ts[4].value, "x1y2");
}

#[test]
fn strings_keep_quotes_spaces_and_doubled_quotes() {
    let ts = scanner(String::from("'a b' 'it''s'")).ok().unwrap();
    assert_eq!(kinds(&ts), vec![TokenType::String, TokenType::String, TokenType::End]);
    assert_eq!(ts[0].value, "'a b'");
    assert_eq!(ts[1].value, "'it''s'");
}

#[test]
fn string_over_lines_ends_on_its_last_line() {
    let ts = scanner(String::from("'one\ntwo' x")).ok().unwrap();
    assert_eq!(ts[0].value, "'one\ntwo'");
    assert_eq!(ts[0].line, 2);
    assert_eq!(ts[1].line, 2);
}

#[test]
fn comments_are_skipped() {
    let ts = scanner(String::from("a # line comment\nb #| block\ncomment |# c")).ok().unwrap();
    assert_eq!(values(&ts), vec!["a", "b", "c", "EOF"]);
    let lines: Vec<u32> = ts.iter().map(|t| t.line).collect();
    assert_eq!(lines, vec![1, 2, 3, 3]);
}

#[test]
fn unterminated_block_comment_runs_to_the_end() {
    let ts = scanner(String::from("a #| never closed\nb")).ok().unwrap();
    assert_eq!(values(&ts), vec!["a", "EOF"]);
    assert_eq!(ts[1].line, 2);
}

#[test]
fn unknown_characters_are_undefined() {
    let ts = scanner(String::from("@ 5 *")).ok().unwrap();
    assert_eq!(kinds(&ts), vec![TokenType::Undefined, TokenType::Undefined, TokenType::Undefined, TokenType::End]);
    assert_eq!(values(&ts), vec!["@", "5", "*", "EOF"]);
}

#[test]
fn unicode_letters_make_words_and_unicode_spaces_separate() {
    let ts = scanner(String::from("\u{e9}t\u{2003}x")).ok().unwrap();
    assert_eq!(values(&ts), vec!["\u{e9}t", "x", "EOF"]);
    assert_eq!(kinds(&ts), vec![TokenType::Id, TokenType::Id, TokenType::End]);
}

#[test]
fn word_text_counts_bytes_after_its_first_letter() {
    // Two letters of two bytes each after `a`: the text takes two bytes, one of them.
    let ts = scanner(String::from("a\u{e9}\u{e9} b")).ok().unwrap();
    assert_eq!(values(&ts), vec!["a\u{e9}", "b", "EOF"]);
    assert_eq!(kinds(&ts), vec![TokenType::Id, TokenType::Id, TokenType::End]);
}

#[test]
fn word_text_ending_inside_a_character_stops_the_scan() {
    let r = scanner(String::from("x\ny\u{e9} b"));
    match r {
        Err(e) => {
            assert_eq!(e.kind, ScanErrorKind::SplitCharacter);
            assert_eq!(e.line, 2);
        }
        Ok(_) => panic!("expected an error"),
    }
}

#[test]
fn ascii_words_keep_all_their_text() {
    let ts = scanner(String::from("abc12 Z9z")).ok().unwrap();
    assert_eq!(values(&ts), vec!["abc12", "Z9z", "EOF"]);
}

#[test]
fn unterminated_string_reports_the_line() {
    let r = scanner(String::from("a\n'open\nstill"));
    match r {
        Err(e) => {
            assert_eq!(e.kind, ScanErrorKind::UnterminatedString);
            assert_eq!(e.line, 3);
        }
        Ok(_) => panic!("expected an error"),
    }
}

#[test]
fn empty_input_gives_only_end() {
    let ts = scanner(String::new()).ok().unwrap();
    assert_eq!(kinds(&ts), vec![TokenType::End]);
    assert_eq!(ts[0].line, 1);
}

#[test]
fn token_text_format() {
    let t = Token { t_type: TokenType::Id, value: String::from("abc"), line: 12 };
    assert_eq!(token_to_string(&t), "(Id,\"abc\",12)");
    let s = Token { t_type: TokenType::String, value: String::from("'x'"), line: 3 };
    assert_eq!(token_to_string(&s), "(String,\"'x'\",3)");
    let e = Token { t_type: TokenType::End, value: String::from("EOF"), line: 1 };
    assert_eq!(token_to_string(&e), "(End,\"EOF\",1)");
}

#[test]
fn end_line_is_one_more_than_the_line_breaks() {
    let ts = scanner(String::from("a\n'x\ny'\n#|c\n|#\nb # c\n")).ok().unwrap();
    let end = ts.last().unwrap();
    assert_eq!(end.t_type, TokenType::End);
    assert_eq!(end.line, 7);
}
