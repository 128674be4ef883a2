use amur::parser::lexer::LexError;
use amur::parser::lexer::Lexer;
use amur::parser::lexer::is_int_lit;
use amur::parser::lexer::keyword_to_token_kind;
use amur::parser::token::Token;
use amur::parser::token::TokenKind;
use amur::util::Spannable;

fn collect(src: &str) -> Vec<Token> {
    let mut lx = Lexer::new(src);
    let mut out = Vec::new();
    loop {
        match lx.next() {
            Ok(Some(t)) => out.push(t),
            Ok(None) => return out,
            Err(e) => panic!("unexpected lexical error at {:?} on {:?}", e.loc, e.ch),
        }
    }
}

fn scan_until_err(src: &str) -> (Vec<Token>, LexError) {
    let mut lx = Lexer::new(src);
    let mut out = Vec::new();
    loop {
        match lx.next() {
            Ok(Some(t)) => out.push(t),
            Ok(None) => panic!("expected a lexical error, got clean end of input"),
            Err(e) => return (out, e),
        }
    }
}

#[test]
fn empty_source_yields_no_token() {
    let mut lx = Lexer::new("");
    assert_eq!(lx.next(), Ok(None));
    assert_eq!(lx.next(), Ok(None));
}

#[test]
fn whitespace_only_source_yields_no_token() {
    let mut lx = Lexer::new("  \n \n  ");
    assert_eq!(lx.next(), Ok(None));
}

#[test]
fn single_char_tokens_one_per_char_increasing_column() {
    let ts = collect("( ) { } = : + -");
    let expected = [
        ("(", TokenKind::LParen),
        (")", TokenKind::RParen),
        ("{", TokenKind::LCurly),
        ("}", TokenKind::RCurly),
        ("=", TokenKind::Eq),
        (":", TokenKind::Colon),
        ("+", TokenKind::Plus),
        ("-", TokenKind::Minus),
    ];
    assert_eq!(ts.len(), expected.len());
    let mut last_col = -1;
    for (t, (text, kind)) in ts.iter().zip(expected.iter()) {
        assert_eq!(t.value, *text);
        assert_eq!(t.kind, *kind);
        assert_eq!(t.loc.1, 0);
        assert!(t.loc.0 > last_col);
        last_col = t.loc.0;
    }
    let cols: Vec<i32> = ts.iter().map(|t| t.loc.0).collect();
    assert_eq!(cols, vec![0, 2, 4, 6, 8, 10, 12, 14]);
}

#[test]
fn newline_increments_row_and_resets_column() {
    let ts = collect("a\nb");
    assert_eq!(ts.len(), 2);
    assert_eq!(ts[0].value, "a");
    assert_eq!(ts[0].loc, (0, 0));
    assert_eq!(ts[1].value, "b");
    assert_eq!(ts[1].loc, (0, 1));
}

#[test]
fn fn_word_is_keyword_not_id() {
    let ts = collect("fn");
    assert_eq!(ts.len(), 1);
    assert_eq!(ts[0].kind, TokenKind::FnKeyword);
    assert_eq!(ts[0].value, "fn");
}

#[test]
fn fn_word_is_keyword_when_bounded_by_delimiters() {
    let ts = collect("(fn)");
    assert_eq!(ts.len(), 3);
    assert_eq!(ts[0].kind, TokenKind::LParen);
    assert_eq!(ts[1].kind, TokenKind::FnKeyword);
    assert_eq!(ts[2].kind, TokenKind::RParen);
}

#[test]
fn let_and_unit_are_keywords() {
    let ts = collect("let Unit");
    assert_eq!(ts.len(), 2);
    assert_eq!(ts[0].kind, TokenKind::LetKeyword);
    assert_eq!(ts[1].kind, TokenKind::TyUnit);
}

#[test]
fn keyword_prefix_word_is_id() {
    let ts = collect("fnx lets");
    assert_eq!(ts.len(), 2);
    assert_eq!(ts[0].kind, TokenKind::Id);
    assert_eq!(ts[0].value, "fnx");
    assert_eq!(ts[1].kind, TokenKind::Id);
}

#[test]
fn number_is_tyint_with_raw_text() {
    let ts = collect("123");
    assert_eq!(ts.len(), 1);
    assert_eq!(ts[0].kind, TokenKind::TyInt);
    assert_eq!(ts[0].value, "123");
}

#[test]
fn number_with_leading_zeros_keeps_raw_text() {
    let ts = collect("007");
    assert_eq!(ts.len(), 1);
    assert_eq!(ts[0].kind, TokenKind::TyInt);
    assert_eq!(ts[0].value, "007");
}

#[test]
fn largest_i32_is_tyint_but_overflow_is_id() {
    let ts = collect("2147483647 2147483648 99999999999");
    assert_eq!(ts.len(), 3);
    assert_eq!(ts[0].kind, TokenKind::TyInt);
    assert_eq!(ts[1].kind, TokenKind::Id);
    assert_eq!(ts[2].kind, TokenKind::Id);
}

#[test]
fn arrow_is_one_token_not_minus_then_error() {
    let ts = collect("->");
    assert_eq!(ts.len(), 1);
    assert_eq!(ts[0].kind, TokenKind::Arrow);
    assert_eq!(ts[0].value, "->");
    assert_eq!(ts[0].loc, (0, 0));
}

#[test]
fn minus_without_angle_is_minus() {
    let ts = collect("- 1");
    assert_eq!(ts.len(), 2);
    assert_eq!(ts[0].kind, TokenKind::Minus);
    assert_eq!(ts[1].kind, TokenKind::TyInt);
}

#[test]
fn colon_closes_word_and_is_its_own_token() {
    let ts = collect("x:Int");
    assert_eq!(ts.len(), 3);
    assert_eq!(ts[0].kind, TokenKind::Id);
    assert_eq!(ts[0].value, "x");
    assert_eq!(ts[1].kind, TokenKind::Colon);
    assert_eq!(ts[1].value, ":");
    assert_eq!(ts[2].kind, TokenKind::Id);
    assert_eq!(ts[2].value, "Int");
    assert_eq!(ts[0].loc, (0, 0));
    assert_eq!(ts[1].loc, (1, 0));
    assert_eq!(ts[2].loc, (2, 0));
}

#[test]
fn token_location_is_where_its_lexeme_begins() {
    let ts = collect("  foo 12");
    assert_eq!(ts.len(), 2);
    assert_eq!(ts[0].value, "foo");
    assert_eq!(ts[0].loc, (2, 0));
    assert_eq!(ts[1].value, "12");
    assert_eq!(ts[1].loc, (6, 0));
}

#[test]
fn operator_closes_word_without_losing_it() {
    let ts = collect("x=5");
    assert_eq!(ts.len(), 3);
    assert_eq!(ts[0].kind, TokenKind::Id);
    assert_eq!(ts[0].value, "x");
    assert_eq!(ts[1].kind, TokenKind::Eq);
    assert_eq!(ts[2].kind, TokenKind::TyInt);
    assert_eq!(ts[2].value, "5");
}

#[test]
fn round_trip_reproduces_source_without_whitespace() {
    let src = "fn add(x:Int y:Int) -> Int {\n  let z = x + y\n  z - 0\n}";
    let ts = collect(src);
    let joined: String = ts.iter().map(|t| t.value.as_str()).collect();
    let stripped: String = src.chars().filter(|c| *c != ' ' && *c != '\n').collect();
    assert_eq!(joined, stripped);
}

#[test]
fn unrecognized_char_is_an_error_with_its_location() {
    let (ts, e) = scan_until_err("@");
    assert_eq!(ts.len(), 0);
    assert_eq!(e.ch, '@');
    assert_eq!(e.loc, (0, 0));
}

#[test]
fn error_after_tokens_reports_the_bad_char_position() {
    let (ts, e) = scan_until_err("ab @");
    assert_eq!(ts.len(), 1);
    assert_eq!(ts[0].value, "ab");
    assert_eq!(e.ch, '@');
    assert_eq!(e.loc, (3, 0));
}

#[test]
fn stray_angle_bracket_is_an_error() {
    let (ts, e) = scan_until_err("- >");
    assert_eq!(ts.len(), 1);
    assert_eq!(ts[0].kind, TokenKind::Minus);
    assert_eq!(e.ch, '>');
    assert_eq!(e.loc, (2, 0));
}

#[test]
fn error_row_tracks_newlines() {
    let (_, e) = scan_until_err("a\n\t");
    assert_eq!(e.ch, '\t');
    assert_eq!(e.loc, (0, 1));
}

#[test]
fn error_does_not_consume_the_bad_char() {
    let mut lx = Lexer::new("#");
    let e1 = lx.next();
    let e2 = lx.next();
    assert_eq!(e1, e2);
    assert!(matches!(e1, Err(LexError { ch: '#', .. })));
}

#[test]
fn unicode_letters_form_identifiers() {
    let ts = collect("über µx");
    assert_eq!(ts.len(), 2);
    assert_eq!(ts[0].kind, TokenKind::Id);
    assert_eq!(ts[0].value, "über");
    assert_eq!(ts[1].kind, TokenKind::Id);
}

#[test]
fn nonascii_digits_are_ids_not_tyint() {
    let ts = collect("١٢٣");
    assert_eq!(ts.len(), 1);
    assert_eq!(ts[0].kind, TokenKind::Id);
}

#[test]
fn keyword_table_lookup() {
    assert_eq!(keyword_to_token_kind("fn"), Some(TokenKind::FnKeyword));
    assert_eq!(keyword_to_token_kind("let"), Some(TokenKind::LetKeyword));
    assert_eq!(keyword_to_token_kind("Unit"), Some(TokenKind::TyUnit));
    assert_eq!(keyword_to_token_kind("unit"), None);
    assert_eq!(keyword_to_token_kind(""), None);
}

#[test]
fn int_literal_recognition() {
    assert!(is_int_lit("0"));
    assert!(is_int_lit("2147483647"));
    assert!(!is_int_lit("2147483648"));
    assert!(!is_int_lit(""));
    assert!(!is_int_lit("12a"));
    assert!(!is_int_lit("x"));
}

#[test]
fn token_new_stores_its_fields() {
    let t = Token::new((4, 2), String::from("let"), TokenKind::LetKeyword);
    assert_eq!(t.loc, (4, 2));
    assert_eq!(t.value, "let");
    assert_eq!(t.kind, TokenKind::LetKeyword);
    assert_eq!(t.get_loc(), (4, 2));
}
