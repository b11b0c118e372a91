use vstd::prelude::*;
use vstd::string::StringExecFns;
use crate::lexer::{Lexer, scan_tokens};
use crate::token::{Token, TokenKind, TokenView, views};

verus! {

/// What a token leaves in the output: one space for a marker, its own
/// characters for plain text, nothing for the rest of a directive.
pub open spec fn blanked(t: TokenView) -> Seq<char> {
    match t.kind {
        TokenKind::Hash => seq![' '],
        TokenKind::Shebang => seq![' '],
        TokenKind::Text => t.lexeme,
        _ => seq![],
    }
}

/// The output left by a sequence of tokens, in order.
pub open spec fn stripped(ts: Seq<TokenView>) -> Seq<char>
    decreases ts.len(),
{
    if ts.len() == 0 {
        seq![]
    } else {
        stripped(ts.drop_last()) + blanked(ts.last())
    }
}

/// A text with its directives blanked out.
pub open spec fn strip_text(s: Seq<char>) -> Seq<char> {
    stripped(scan_tokens(s))
}

/// Blanks the directives out of source text.
pub struct Preprocessor {}

impl Preprocessor {
    /// A preprocessor.
    pub fn new() -> (r: Preprocessor) {
        Preprocessor {}
    }

    /// Scans `source` and rebuilds it: each `#` or `#!` marker becomes one
    /// space, plain text is copied unchanged, and keywords, identifiers and
    /// quoted literals of directive lines are dropped.
    pub fn preprocess(&self, source: &str) -> (r: String)
        requires
            1 + source@.len() < usize::MAX,
        ensures
            r@ == strip_text(source@),
    {
        let mut lexer = Lexer::new();
        let tokens = lexer.lex(source);
        let mut result: String = String::new();
        let mut i: usize = 0;
        proof {
            assert(views(tokens@).take(0) =~= Seq::<TokenView>::empty());
        }
        while i < tokens.len()
            invariant
                i <= tokens@.len(),
                views(tokens@) == scan_tokens(source@),
                result@ == stripped(views(tokens@).take(i as int)),
            decreases tokens@.len() - i,
        {
            let token: &Token = &tokens[i];
            match token.token_kind {
                TokenKind::Hash => result.append(" "),
                TokenKind::Shebang => result.append(" "),
                TokenKind::Text => result.append(token.lexeme.as_str()),
                TokenKind::Keyword(_) => {},
                TokenKind::Path => {},
                TokenKind::ShebangText => {},
                TokenKind::Identifier => {},
            }
            proof {
                let ts = views(tokens@);
                assert(ts.take(i + 1).drop_last() =~= ts.take(i as int));
                assert(ts.take(i + 1).last() == token@);
                reveal_strlit(" ");
                assert(" "@ =~= seq![' ']);
            }
            i += 1;
        }
        proof {
            assert(views(tokens@).take(i as int) =~= views(tokens@));
        }
        result
    }
}

} // verus!
