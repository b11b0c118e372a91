use onescript_preprocessor::lexer::Lexer;
use onescript_preprocessor::token::{Keyword, TokenKind};

#[test]
fn shebang() {
    let mut lexer = Lexer::new();
    let tokens = lexer.lex("#!");
    assert_eq!(tokens.len(), 1);

    let token = tokens.get(0).unwrap();
    assert_eq!(token.token_kind, TokenKind::Shebang);
    assert_eq!(token.lexeme, "#!");
    assert_eq!(token.start_line, 1);
    assert_eq!(token.end_line, 1);
}

#[test]
fn hash() {
    let mut lexer = Lexer::new();
    let tokens = lexer.lex("#");
    assert_eq!(tokens.len(), 1);

    let token = tokens.get(0).unwrap();
    assert_eq!(token.token_kind, TokenKind::Hash);
    assert_eq!(token.lexeme, "#");
    assert_eq!(token.start_line, 1);
    assert_eq!(token.end_line, 1);
}

#[test]
fn shebang_text_with_new_line() {
    let mut lexer = Lexer::new();
    let tokens = lexer.lex("#!test/test -t\n");
    assert_eq!(tokens.len(), 3);

    let first = tokens.get(0).unwrap();
    assert_eq!(first.token_kind, TokenKind::Shebang);
    assert_eq!(first.lexeme, "#!".to_string());
    assert_eq!(first.start_line, 1);
    assert_eq!(first.end_line, 1);

    let second = tokens.get(1).unwrap();
    assert_eq!(second.token_kind, TokenKind::Text);
    assert_eq!(second.lexeme, "test/test -t");
    assert_eq!(second.start_line, 1);
    assert_eq!(second.end_line, 1);

    let third = tokens.get(2).unwrap();
    assert_eq!(third.token_kind, TokenKind::Text);
    assert_eq!(third.lexeme, "\n");
    assert_eq!(third.start_line, 1);
    assert_eq!(third.end_line, 2);
}

#[test]
fn shebang_text_without_new_line() {
    let mut lexer = Lexer::new();
    let tokens = lexer.lex("#!test/test -t");
    assert_eq!(tokens.len(), 2);

    let first = tokens.get(0).unwrap();
    assert_eq!(first.token_kind, TokenKind::Shebang);
    assert_eq!(first.lexeme, "#!".to_string());
    assert_eq!(first.start_line, 1);
    assert_eq!(first.end_line, 1);

    let second = tokens.get(1).unwrap();
    assert_eq!(second.token_kind, TokenKind::Text);
    assert_eq!(second.lexeme, "test/test -t");
    assert_eq!(second.start_line, 1);
    assert_eq!(second.end_line, 1);
}

#[test]
fn region_eng() {
    let mut lexer = Lexer::new();
    let tokens = lexer.lex("#region");
    assert_eq!(tokens.len(), 2);

    let first = tokens.get(0).unwrap();
    let second = tokens.get(1).unwrap();

    assert_eq!(first.token_kind, TokenKind::Hash);
    assert_eq!(first.lexeme, "#".to_string());
    assert_eq!(first.start_line, 1);
    assert_eq!(first.end_line, 1);

    assert_eq!(second.token_kind, TokenKind::Keyword(Keyword::Region));
    assert_eq!(second.lexeme, "region");
    assert_eq!(second.start_line, 1);
    assert_eq!(second.end_line, 1);
}

#[test]
fn region_ru() {
    let mut lexer = Lexer::new();
    let tokens = lexer.lex("#  область");
    assert_eq!(tokens.len(), 2);

    let first = tokens.get(0).unwrap();
    let second = tokens.get(1).unwrap();

    assert_eq!(first.token_kind, TokenKind::Hash);
    assert_eq!(first.lexeme, "#".to_string());
    assert_eq!(first.start_line, 1);
    assert_eq!(first.end_line, 1);

    assert_eq!(second.token_kind, TokenKind::Keyword(Keyword::Region));
    assert_eq!(second.lexeme, "область");
    assert_eq!(second.start_line, 1);
    assert_eq!(second.end_line, 1);
}

#[test]
fn end_region_eng() {
    let mut lexer = Lexer::new();
    let tokens = lexer.lex("#endRegion");
    assert_eq!(tokens.len(), 2);

    let first = tokens.get(0).unwrap();
    let second = tokens.get(1).unwrap();

    assert_eq!(first.token_kind, TokenKind::Hash);
    assert_eq!(first.lexeme, "#".to_string());
    assert_eq!(first.start_line, 1);
    assert_eq!(first.end_line, 1);

    assert_eq!(second.token_kind, TokenKind::Keyword(Keyword::EndRegion));
    assert_eq!(second.lexeme, "endRegion");
    assert_eq!(second.start_line, 1);
    assert_eq!(second.end_line, 1);
}

#[test]
fn end_region_ru() {
    let mut lexer = Lexer::new();
    let tokens = lexer.lex("#  КонецОбласти");
    assert_eq!(tokens.len(), 2);

    let first = tokens.get(0).unwrap();
    let second = tokens.get(1).unwrap();

    assert_eq!(first.token_kind, TokenKind::Hash);
    assert_eq!(first.lexeme, "#".to_string());
    assert_eq!(first.start_line, 1);
    assert_eq!(first.end_line, 1);

    assert_eq!(second.token_kind, TokenKind::Keyword(Keyword::EndRegion));
    assert_eq!(second.lexeme, "КонецОбласти");
    assert_eq!(second.start_line, 1);
    assert_eq!(second.end_line, 1);
}

#[test]
fn region_identifier() {
    let mut lexer = Lexer::new();
    let tokens = lexer.lex("#region TestRegion\n");
    assert_eq!(tokens.len(), 4);

    let first = tokens.get(0).unwrap();
    let second = tokens.get(1).unwrap();
    let third = tokens.get(2).unwrap();
    let forth = tokens.get(3).unwrap();

    assert_eq!(first.token_kind, TokenKind::Hash);
    assert_eq!(first.lexeme, "#".to_string());
    assert_eq!(first.start_line, 1);
    assert_eq!(first.end_line, 1);

    assert_eq!(second.token_kind, TokenKind::Keyword(Keyword::Region));
    assert_eq!(second.lexeme, "region".to_string());
    assert_eq!(second.start_line, 1);
    assert_eq!(second.end_line, 1);

    assert_eq!(third.token_kind, TokenKind::Identifier);
    assert_eq!(third.lexeme, "TestRegion");
    assert_eq!(third.start_line, 1);
    assert_eq!(third.end_line, 1);

    assert_eq!(forth.token_kind, TokenKind::Text);
    assert_eq!(forth.lexeme, "\n");
    assert_eq!(forth.start_line, 1);
    assert_eq!(forth.end_line, 2);
}

#[test]
fn text_after_region() {
    let mut lexer = Lexer::new();
    let tokens = lexer.lex("#region test\r\ntext");
    assert_eq!(tokens.len(), 4);

    let text_token = tokens.get(3).unwrap();

    assert_eq!(text_token.token_kind, TokenKind::Text);
    assert_eq!(text_token.lexeme, "\ntext");
    assert_eq!(text_token.start_line, 1);
    assert_eq!(text_token.end_line, 2);
}

#[test]
fn use_with_quotes() {
    let mut lexer = Lexer::new();
    let tokens = lexer.lex("#use \"../core\"");

    assert_eq!(tokens.len(), 3);
    let use_id = tokens.get(2).unwrap();

    assert_eq!(use_id.token_kind, TokenKind::Path);
    assert_eq!(use_id.lexeme, "\"../core\"");
    assert_eq!(use_id.start_line, 1);
    assert_eq!(use_id.end_line, 1);
}

#[test]
fn test_region_name_with_underscore() {
    let mut lexer = Lexer::new();
    let tokens = lexer.lex("#reion test_region");

    assert_eq!(tokens.len(), 3);
    let identifier = tokens.get(2).unwrap();

    assert_eq!(identifier.token_kind, TokenKind::Identifier);
    assert_eq!(identifier.lexeme, "test_region");
    assert_eq!(identifier.start_line, 1);
    assert_eq!(identifier.end_line, 1);
}

#[test]
fn test_multiply_line_counter() {
    let mut lexer = Lexer::new();
    let tokens = lexer.lex("test\ntest\ntest");

    assert_eq!(tokens.len(), 1);
    let text = tokens.get(0).unwrap();

    assert_eq!(text.token_kind, TokenKind::Text);
    assert_eq!(text.lexeme, "test\ntest\ntest");
    assert_eq!(text.start_line, 1);
    assert_eq!(text.end_line, 3);
}
#[test]
fn hash_inside_quotes_stays_text() {
    let mut lexer = Lexer::new();
    let tokens = lexer.lex("a = \"#x\" + '#'\n#region");
    assert_eq!(tokens.len(), 3);
    assert_eq!(tokens[0].token_kind, TokenKind::Text);
    assert_eq!(tokens[0].lexeme, "a = \"#x\" + '#'\n");
    assert_eq!(tokens[0].start_line, 1);
    assert_eq!(tokens[0].end_line, 2);
    assert_eq!(tokens[1].token_kind, TokenKind::Hash);
    assert_eq!(tokens[1].start_line, 2);
    assert_eq!(tokens[2].token_kind, TokenKind::Keyword(Keyword::Region));
}

#[test]
fn use_keyword_in_both_languages() {
    let mut lexer = Lexer::new();
    let tokens = lexer.lex("#USE\n#Использовать");
    assert_eq!(tokens.len(), 5);
    assert_eq!(tokens[1].token_kind, TokenKind::Keyword(Keyword::Use));
    assert_eq!(tokens[1].lexeme, "USE");
    assert_eq!(tokens[2].token_kind, TokenKind::Text);
    assert_eq!(tokens[2].lexeme, "\n");
    assert_eq!(tokens[4].token_kind, TokenKind::Keyword(Keyword::Use));
    assert_eq!(tokens[4].lexeme, "Использовать");
    assert_eq!(tokens[4].start_line, 2);
}

#[test]
fn unterminated_path_runs_to_end() {
    let mut lexer = Lexer::new();
    let tokens = lexer.lex("#use \"lib\nnext");
    assert_eq!(tokens.len(), 3);
    assert_eq!(tokens[2].token_kind, TokenKind::Path);
    assert_eq!(tokens[2].lexeme, "\"lib\nnext");
    assert_eq!(tokens[2].start_line, 1);
    assert_eq!(tokens[2].end_line, 2);
}

#[test]
fn path_spanning_lines_moves_counter() {
    let mut lexer = Lexer::new();
    let tokens = lexer.lex("#use \"a\nb\" x\ny");
    assert_eq!(tokens.len(), 5);
    assert_eq!(tokens[2].token_kind, TokenKind::Path);
    assert_eq!(tokens[2].lexeme, "\"a\nb\"");
    assert_eq!(tokens[2].end_line, 2);
    assert_eq!(tokens[3].token_kind, TokenKind::Identifier);
    assert_eq!(tokens[3].lexeme, "x");
    assert_eq!(tokens[3].start_line, 2);
    assert_eq!(tokens[4].lexeme, "\ny");
    assert_eq!(tokens[4].start_line, 2);
    assert_eq!(tokens[4].end_line, 3);
}

#[test]
fn digits_and_symbols_on_directive_line_are_passed_over() {
    let mut lexer = Lexer::new();
    let tokens = lexer.lex("# 42 ;region");
    assert_eq!(tokens.len(), 2);
    assert_eq!(tokens[0].token_kind, TokenKind::Hash);
    assert_eq!(tokens[1].token_kind, TokenKind::Keyword(Keyword::Region));
    assert_eq!(tokens[1].lexeme, "region");
}

#[test]
fn empty_source_gives_no_tokens() {
    let mut lexer = Lexer::new();
    let tokens = lexer.lex("");
    assert!(tokens.is_empty());
}

#[test]
fn lexemes_rebuild_text_without_passed_over_characters() {
    let source = "#region\nx = 1;\n#!run\n";
    let mut lexer = Lexer::new();
    let tokens = lexer.lex(source);
    let joined: String = tokens.iter().map(|t| t.lexeme.as_str()).collect();
    assert_eq!(joined, source);

    let mut lexer = Lexer::new();
    let tokens = lexer.lex("#region Name");
    let joined: String = tokens.iter().map(|t| t.lexeme.as_str()).collect();
    assert_eq!(joined, "#regionName");
}

#[test]
fn line_numbers_chain_and_end_after_last_break() {
    let source = "a\n#region R\nb\n\"x\n#\"\n#EndRegion";
    let mut lexer = Lexer::new();
    let tokens = lexer.lex(source);
    assert_eq!(tokens[0].start_line, 1);
    for pair in tokens.windows(2) {
        assert!(pair[0].start_line <= pair[0].end_line);
        assert_eq!(pair[0].end_line, pair[1].start_line);
    }
    let newlines = source.chars().filter(|c| *c == '\n').count();
    assert_eq!(tokens.last().unwrap().end_line, 1 + newlines);
}

#[test]
fn second_lex_continues_line_count() {
    let mut lexer = Lexer::new();
    let first = lexer.lex("a\nb\n");
    assert_eq!(first[0].end_line, 3);
    let second = lexer.lex("c");
    assert_eq!(second[0].start_line, 3);
    assert_eq!(second[0].end_line, 3);
}
