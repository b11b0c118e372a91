use onescript_preprocessor::token::{Keyword, KeywordTable, Token, TokenKind};

#[test]
fn lookup_ignores_letter_case() {
    let table = KeywordTable::new();
    assert_eq!(table.lookup("region"), Some(Keyword::Region));
    assert_eq!(table.lookup("EndRegion"), Some(Keyword::EndRegion));
    assert_eq!(table.lookup("uSe"), Some(Keyword::Use));
}

#[test]
fn lookup_knows_russian_spellings() {
    let table = KeywordTable::new();
    assert_eq!(table.lookup("область"), Some(Keyword::Region));
    assert_eq!(table.lookup("КонецОбласти"), Some(Keyword::EndRegion));
    assert_eq!(table.lookup("использовать"), Some(Keyword::Use));
}

#[test]
fn lookup_rejects_other_words() {
    let table = KeywordTable::new();
    assert_eq!(table.lookup("reion"), None);
    assert_eq!(table.lookup("regions"), None);
    assert_eq!(table.lookup(""), None);
}

#[test]
fn token_new_keeps_fields() {
    let token = Token::new(TokenKind::Path, "\"p\"".to_string(), 4, 5);
    assert_eq!(token.token_kind, TokenKind::Path);
    assert_eq!(token.lexeme, "\"p\"");
    assert_eq!(token.start_line, 4);
    assert_eq!(token.end_line, 5);
}

#[test]
fn lookup_upper_matches_exact_spellings_only() {
    let table = KeywordTable::new();
    assert_eq!(table.lookup_upper("REGION"), Some(Keyword::Region));
    assert_eq!(table.lookup_upper("ENDREGION"), Some(Keyword::EndRegion));
    assert_eq!(table.lookup_upper("ИСПОЛЬЗОВАТЬ"), Some(Keyword::Use));
    assert_eq!(table.lookup_upper("region"), None);
    assert_eq!(table.lookup_upper("REGIO"), None);
}
