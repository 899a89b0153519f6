use machete::bench::generate_text;
use machete::lexer::{Lexer, PatternError, Token};

fn word_lexer() -> Lexer<&'static str> {
    let mut lexer = Lexer::new();
    lexer.define_token("space", r"^ +").unwrap();
    lexer.define_token("letters", r"^([a-zA-Z])+").unwrap();
    lexer.define_token("numbers", r"^[0-9]+").unwrap();
    lexer
}

#[test]
fn simple_lexer() {
    let mut lexer = Lexer::new();
    lexer.define_token("space", r"^ +").unwrap();
    lexer.define_token("letters", r"^([a-zA-Z])+").unwrap();
    lexer.define_token("numbers", r"^[0-9]+").unwrap();

    let vec: Vec<(Token<&str>, String)> = lexer.tokenize("apple bat 42  cat");
    let tokentypes: Vec<&str> = vec
        .iter()
        .map(|v| match v.0 {
            Token::Matched(x) => x,
            _ => panic!("nope"),
        })
        .collect();
    let texts: Vec<&str> = vec.iter().map(|v| v.1.as_str()).collect();

    assert_eq!(&tokentypes[..], ["letters", "space", "letters", "space", "numbers", "space", "letters"]);
    assert_eq!(&texts[..], ["apple", " ", "bat", " ", "42", "  ", "cat"]);
}

#[test]
fn iterator_yields_the_same_tokens_as_tokenize() {
    let lexer = word_lexer();
    let mut it = lexer.lex("ab 12");
    let mut seen = Vec::new();
    while let Some(t) = it.next() {
        seen.push(t);
    }
    assert_eq!(seen, lexer.tokenize("ab 12"));
    assert_eq!(it.next(), None);
}

#[test]
fn concatenated_tokens_rebuild_the_input() {
    let lexer = word_lexer();
    let input = "héllo, wörld 42!\t€ ok";
    let toks = lexer.tokenize(input);
    let joined: String = toks.iter().map(|t| t.1.as_str()).collect();
    assert_eq!(joined, input);
}

#[test]
fn tokenizing_twice_gives_the_same_tokens() {
    let lexer = word_lexer();
    let input = "one 2 three;;  4";
    assert_eq!(lexer.tokenize(input), lexer.tokenize(input));
}

#[test]
fn earlier_rule_takes_priority() {
    let mut first = Lexer::new();
    first.define_token("as", r"^a+").unwrap();
    first.define_token("word", r"^[a-z]+").unwrap();
    assert_eq!(first.tokenize("aab"), vec![(Token::Matched("as"), "aa".to_string()), (Token::Matched("word"), "b".to_string())]);

    let mut second = Lexer::new();
    second.define_token("word", r"^[a-z]+").unwrap();
    second.define_token("as", r"^a+").unwrap();
    assert_eq!(second.tokenize("aab"), vec![(Token::Matched("word"), "aab".to_string())]);
}

#[test]
fn unmatched_character_is_one_token() {
    let lexer = word_lexer();
    let toks = lexer.tokenize("a€b");
    assert_eq!(
        toks,
        vec![
            (Token::Matched("letters"), "a".to_string()),
            (Token::Unmatched, "€".to_string()),
            (Token::Matched("letters"), "b".to_string()),
        ]
    );
}

#[test]
fn consecutive_unmatched_characters_stay_apart() {
    let lexer = word_lexer();
    let toks = lexer.tokenize(";;");
    assert_eq!(toks, vec![(Token::Unmatched, ";".to_string()), (Token::Unmatched, ";".to_string())]);
}

#[test]
fn empty_input_has_no_tokens() {
    let lexer = word_lexer();
    assert!(lexer.tokenize("").is_empty());
    assert_eq!(lexer.lex("").next(), None);
}

#[test]
fn lexer_without_rules_emits_every_character_unmatched() {
    let lexer: Lexer<u8> = Lexer::new();
    let toks = lexer.tokenize("xy");
    assert_eq!(toks, vec![(Token::Unmatched, "x".to_string()), (Token::Unmatched, "y".to_string())]);
}

#[test]
fn unanchored_match_later_in_text_does_not_count() {
    let mut lexer = Lexer::new();
    lexer.define_token("digits", r"[0-9]+").unwrap();
    let toks = lexer.tokenize("a1");
    assert_eq!(toks, vec![(Token::Unmatched, "a".to_string()), (Token::Matched("digits"), "1".to_string())]);
}

#[test]
fn empty_match_falls_through_to_next_rule() {
    let mut lexer = Lexer::new();
    lexer.define_token("maybe", r"^x*").unwrap();
    lexer.define_token("y", r"^y").unwrap();
    let toks = lexer.tokenize("y");
    assert_eq!(toks, vec![(Token::Matched("y"), "y".to_string())]);
}

#[test]
fn invalid_pattern_is_refused() {
    let mut lexer = word_lexer();
    assert_eq!(lexer.define_token("bad", r"^(ab"), Err(PatternError::Invalid));
    // the lexer keeps its earlier rules
    assert_eq!(lexer.tokenize("ab"), vec![(Token::Matched("letters"), "ab".to_string())]);
}

#[test]
fn generated_text_repeats_the_unit() {
    let txt = generate_text();
    assert_eq!(txt.len(), 2500);
    assert_eq!(txt, "abcd ".repeat(500));
    let mut lexer = Lexer::new();
    lexer.define_token("word", r"^\w+").unwrap();
    lexer.define_token("space", r"^ +").unwrap();
    assert_eq!(lexer.tokenize(&txt).len(), 1000);
}

#[test]
fn size_hint_bounds_tokens_by_characters_left() {
    let lexer = word_lexer();
    let mut it = lexer.lex("ab €");
    assert_eq!(it.size_hint(), (0, Some(4)));
    assert_eq!(it.next_chars(), Some((Token::Matched("letters"), vec!['a', 'b'])));
    assert_eq!(it.size_hint(), (0, Some(2)));
    it.next();
    it.next();
    assert_eq!(it.size_hint(), (0, Some(0)));
    assert_eq!(it.next_chars(), None);
}
