use vstd::prelude::*;
use crate::token::{KeywordTable, Token, TokenKind, TokenView, keyword_of, views};

verus! {

/// What `char::is_alphabetic` says of a character outside the ASCII range.
pub uninterp spec fn alphabetic_of(c: char) -> bool;

/// Whether `char::is_alphabetic` holds: on the ASCII range exactly for the
/// Latin letters.
pub open spec fn is_alphabetic(c: char) -> bool {
    if (c as u32) < 128 {
        ('a' <= c && c <= 'z') || ('A' <= c && c <= 'Z')
    } else {
        alphabetic_of(c)
    }
}

/// Relies on `char::is_alphabetic`, which answers ASCII characters by the
/// Latin letter ranges and other characters by the Unicode Alphabetic property.
#[verifier::external_body]
fn alphabetic(c: char) -> (r: bool)
    ensures
        r == (if (c as u32) < 128 {
            ('a' <= c && c <= 'z') || ('A' <= c && c <= 'Z')
        } else {
            alphabetic_of(c)
        }),
{
    c.is_alphabetic()
}

/// Relies on `String: FromIterator<char>`, which appends the characters in order.
#[verifier::external_body]
fn collect_string(chars: Vec<char>) -> (r: String)
    ensures
        r@ == chars@,
{
    chars.into_iter().collect()
}

/// Characters that make up a word of a directive line.
pub open spec fn is_word_char(c: char) -> bool {
    is_alphabetic(c) || c == '_'
}

/// Characters that open or close a quoted span of plain text.
pub open spec fn is_quote(c: char) -> bool {
    c == '"' || c == '\''
}

/// The number of line breaks in `t`.
pub open spec fn newlines(t: Seq<char>) -> nat
    decreases t.len(),
{
    if t.len() == 0 {
        0
    } else {
        newlines(t.drop_last()) + if t.last() == '\n' {
            1nat
        } else {
            0nat
        }
    }
}

/// The length of the plain-text run at `i`: it stops at a `#` outside a
/// quoted span; `quoted` tells whether a quote is open at `i`.
pub open spec fn text_len(s: Seq<char>, i: int, quoted: bool) -> nat
    decreases s.len() - i,
{
    if i >= s.len() || (s[i] == '#' && !quoted) {
        0
    } else {
        1 + text_len(s, i + 1, if is_quote(s[i]) { !quoted } else { quoted })
    }
}

/// The length of the run of word characters at `i`.
pub open spec fn word_len(s: Seq<char>, i: int) -> nat
    decreases s.len() - i,
{
    if i >= s.len() || !is_word_char(s[i]) {
        0
    } else {
        1 + word_len(s, i + 1)
    }
}

/// The number of characters from `i` to the next line break or the end.
pub open spec fn line_len(s: Seq<char>, i: int) -> nat
    decreases s.len() - i,
{
    if i >= s.len() || s[i] == '\n' {
        0
    } else {
        1 + line_len(s, i + 1)
    }
}

/// The number of characters from `i` up to and including the next `"`, or
/// to the end where none follows.
pub open spec fn closing_len(s: Seq<char>, i: int) -> nat
    decreases s.len() - i,
{
    if i >= s.len() {
        0
    } else if s[i] == '"' {
        1
    } else {
        1 + closing_len(s, i + 1)
    }
}

/// A token that starts on `line` and ends after the line breaks it holds.
pub open spec fn spanning(kind: TokenKind, t: Seq<char>, line: nat) -> TokenView {
    TokenView { kind, lexeme: t, start_line: line, end_line: line + newlines(t) }
}

/// The token of a directive word: a keyword where the table names one.
pub open spec fn word_token(w: Seq<char>, line: nat) -> TokenView {
    TokenView {
        kind: match keyword_of(w) {
            Some(k) => TokenKind::Keyword(k),
            None => TokenKind::Identifier,
        },
        lexeme: w,
        start_line: line,
        end_line: line,
    }
}

/// The body of a shebang line, as a token where it is not empty.
pub open spec fn shebang_body(t: Seq<char>, line: nat) -> Seq<TokenView> {
    if t.len() == 0 {
        seq![]
    } else {
        seq![TokenView { kind: TokenKind::Text, lexeme: t, start_line: line, end_line: line }]
    }
}

/// The tokens of `s` from position `i` on, with the line counter at `line`;
/// `directive` tells whether `i` lies on a directive line.
pub open spec fn tokens_from(s: Seq<char>, i: int, line: nat, directive: bool) -> Seq<TokenView>
    decreases s.len() - i, if directive { 1int } else { 0int } via tokens_from_decreases
{
    if i < 0 || i >= s.len() {
        seq![]
    } else if directive {
        if s[i] == '\n' {
            tokens_from(s, i, line, false)
        } else if is_word_char(s[i]) {
            let e = i + 1 + word_len(s, i + 1);
            seq![word_token(s.subrange(i, e), line)] + tokens_from(s, e, line, true)
        } else if s[i] == '"' {
            let t = s.subrange(i, i + 1 + closing_len(s, i + 1));
            seq![spanning(TokenKind::Path, t, line)] + tokens_from(
                s,
                i + 1 + closing_len(s, i + 1),
                line + newlines(t),
                true,
            )
        } else {
            tokens_from(s, i + 1, line, true)
        }
    } else if s[i] == '#' {
        if i + 1 < s.len() && s[i + 1] == '!' {
            let e = i + 2 + line_len(s, i + 2);
            seq![TokenView { kind: TokenKind::Shebang, lexeme: seq!['#', '!'], start_line: line, end_line: line }]
                + shebang_body(s.subrange(i + 2, e), line) + tokens_from(s, e, line, false)
        } else {
            seq![TokenView { kind: TokenKind::Hash, lexeme: seq!['#'], start_line: line, end_line: line }]
                + tokens_from(s, i + 1, line, true)
        }
    } else {
        let t = s.subrange(i, i + 1 + text_len(s, i + 1, is_quote(s[i])));
        seq![spanning(TokenKind::Text, t, line)] + tokens_from(
            s,
            i + 1 + text_len(s, i + 1, is_quote(s[i])),
            line + newlines(t),
            false,
        )
    }
}

/// Every run that `tokens_from` skips ends within the text.
#[via_fn]
proof fn tokens_from_decreases(s: Seq<char>, i: int, line: nat, directive: bool) {
    if 0 <= i < s.len() {
        lemma_run_lens(s, i + 1, false);
        lemma_run_lens(s, i + 1, true);
        if i + 1 < s.len() {
            lemma_run_lens(s, i + 2, false);
        }
    }
}

/// Each run ends within the text.
pub proof fn lemma_run_lens(s: Seq<char>, i: int, quoted: bool)
    requires
        0 <= i <= s.len(),
    ensures
        i + text_len(s, i, quoted) <= s.len(),
        i + word_len(s, i) <= s.len(),
        i + line_len(s, i) <= s.len(),
        i + closing_len(s, i) <= s.len(),
    decreases s.len() - i,
{
    if i < s.len() {
        lemma_run_lens(s, i + 1, !quoted);
        lemma_run_lens(s, i + 1, quoted);
    }
}

/// Where the directive line that reaches position `i` ends: at the first
/// line break from `i` on that lies outside a quoted literal, or at the end
/// of the text.
pub open spec fn directive_end(s: Seq<char>, i: int) -> int
    decreases s.len() - i via directive_end_decreases
{
    if i < 0 || i >= s.len() {
        s.len() as int
    } else if s[i] == '\n' {
        i
    } else if is_word_char(s[i]) {
        directive_end(s, i + 1 + word_len(s, i + 1))
    } else if s[i] == '"' {
        directive_end(s, i + 1 + closing_len(s, i + 1))
    } else {
        directive_end(s, i + 1)
    }
}

/// Every run that `directive_end` skips ends within the text.
#[via_fn]
proof fn directive_end_decreases(s: Seq<char>, i: int) {
    if 0 <= i < s.len() {
        lemma_run_lens(s, i + 1, false);
    }
}

/// The kinds of token that a directive line yields after its marker.
pub open spec fn is_directive_kind(kind: TokenKind) -> bool {
    kind is Identifier || kind is Keyword || kind is Path
}

/// The tokens of a whole text, lines counted from 1.
pub open spec fn scan_tokens(s: Seq<char>) -> Seq<TokenView> {
    tokens_from(s, 0, 1, false)
}

/// The line breaks of `t.push(c)`.
proof fn lemma_newlines_push(t: Seq<char>, c: char)
    ensures
        newlines(t.push(c)) == newlines(t) + if c == '\n' { 1nat } else { 0nat },
{
    assert(t.push(c).drop_last() =~= t);
}

/// A text of one character that is no line break holds none.
pub(crate) proof fn lemma_newlines_char(c: char)
    requires
        c != '\n',
    ensures
        newlines(seq![c]) == 0,
{
    assert(seq![c].drop_last() =~= Seq::<char>::empty());
    assert(newlines(Seq::<char>::empty()) == 0);
}

/// A text holds no more line breaks than characters.
proof fn lemma_newlines_bound(t: Seq<char>)
    ensures
        newlines(t) <= t.len(),
    decreases t.len(),
{
    if t.len() > 0 {
        lemma_newlines_bound(t.drop_last());
    }
}

/// Line breaks add up over a concatenation.
pub proof fn lemma_newlines_concat(a: Seq<char>, b: Seq<char>)
    ensures
        newlines(a + b) == newlines(a) + newlines(b),
    decreases b.len(),
{
    if b.len() > 0 {
        assert((a + b).drop_last() =~= a + b.drop_last());
        lemma_newlines_concat(a, b.drop_last());
    } else {
        assert(a + b =~= a);
    }
}

/// Line breaks add up over adjacent ranges of one text.
pub(crate) proof fn lemma_newlines_split(s: Seq<char>, a: int, b: int, c: int)
    requires
        0 <= a <= b <= c <= s.len(),
    ensures
        newlines(s.subrange(a, c)) == newlines(s.subrange(a, b)) + newlines(s.subrange(b, c)),
{
    assert(s.subrange(a, c) =~= s.subrange(a, b) + s.subrange(b, c));
    lemma_newlines_concat(s.subrange(a, b), s.subrange(b, c));
}

/// A text without a line break counts none.
proof fn lemma_newlines_none(t: Seq<char>)
    requires
        forall|k: int| 0 <= k < t.len() ==> t[k] != '\n',
    ensures
        newlines(t) == 0,
    decreases t.len(),
{
    if t.len() > 0 {
        lemma_newlines_none(t.drop_last());
    }
}

/// Neither a run of word characters nor the rest of a line holds a line break.
pub(crate) proof fn lemma_runs_single_line(s: Seq<char>, i: int)
    requires
        0 <= i <= s.len(),
    ensures
        newlines(s.subrange(i, i + word_len(s, i))) == 0,
        newlines(s.subrange(i, i + line_len(s, i))) == 0,
{
    lemma_run_lens(s, i, false);
    lemma_runs_no_break(s, i);
    lemma_newlines_none(s.subrange(i, i + word_len(s, i)));
    lemma_newlines_none(s.subrange(i, i + line_len(s, i)));
}

/// No character of a word run or of the rest of a line is a line break.
proof fn lemma_runs_no_break(s: Seq<char>, i: int)
    requires
        0 <= i <= s.len(),
    ensures
        forall|k: int| i <= k < i + word_len(s, i) ==> s[k] != '\n',
        forall|k: int| i <= k < i + line_len(s, i) ==> s[k] != '\n',
    decreases s.len() - i,
{
    if i < s.len() {
        lemma_runs_no_break(s, i + 1);
    }
}

/// Characters in the order `source.chars()` yields them.
fn chars_of(source: &str) -> (r: Vec<char>)
    ensures
        r@ == source@,
{
    let mut out: Vec<char> = Vec::new();
    for c in it: source.chars()
        invariant
            out@ == it.seq().take(it.index() as int),
    {
        out.push(c);
    }
    out
}

/// Appending a token, then the tokens after it.
proof fn lemma_append_one(a: Seq<TokenView>, x: TokenView, b: Seq<TokenView>)
    ensures
        a + (seq![x] + b) == a.push(x) + b,
{
    assert(a + (seq![x] + b) =~= a.push(x) + b);
}

/// A plain-text run, then what follows it.
proof fn lemma_text_step(s: Seq<char>, j: int, line: nat)
    requires
        0 <= j < s.len(),
        s[j] != '#',
    ensures
        ({
            let e = j + 1 + text_len(s, j + 1, is_quote(s[j]));
            tokens_from(s, j, line, false) == seq![spanning(TokenKind::Text, s.subrange(j, e), line)]
                + tokens_from(s, e, line + newlines(s.subrange(j, e)), false)
        }),
{
}

/// A `#` that opens a directive line.
proof fn lemma_hash_step(s: Seq<char>, j: int, line: nat)
    requires
        0 <= j < s.len(),
        s[j] == '#',
        !(j + 1 < s.len() && s[j + 1] == '!'),
    ensures
        tokens_from(s, j, line, false) == seq![
            TokenView { kind: TokenKind::Hash, lexeme: seq!['#'], start_line: line, end_line: line },
        ] + tokens_from(s, j + 1, line, true),
{
}

/// A `#!` that opens a shebang line.
proof fn lemma_shebang_step(s: Seq<char>, j: int, line: nat)
    requires
        0 <= j,
        j + 1 < s.len(),
        s[j] == '#',
        s[j + 1] == '!',
    ensures
        ({
            let e = j + 2 + line_len(s, j + 2);
            tokens_from(s, j, line, false) == seq![
                TokenView { kind: TokenKind::Shebang, lexeme: seq!['#', '!'], start_line: line, end_line: line },
            ] + shebang_body(s.subrange(j + 2, e), line) + tokens_from(s, e, line, false)
        }),
{
}

/// One step on a directive line.
proof fn lemma_directive_step(s: Seq<char>, j: int, line: nat)
    requires
        0 <= j < s.len(),
    ensures
        s[j] == '\n' ==> tokens_from(s, j, line, true) == tokens_from(s, j, line, false),
        s[j] != '\n' && is_word_char(s[j]) ==> ({
            let e = j + 1 + word_len(s, j + 1);
            tokens_from(s, j, line, true) == seq![word_token(s.subrange(j, e), line)] + tokens_from(s, e, line, true)
        }),
        s[j] != '\n' && !is_word_char(s[j]) && s[j] == '"' ==> ({
            let e = j + 1 + closing_len(s, j + 1);
            tokens_from(s, j, line, true) == seq![spanning(TokenKind::Path, s.subrange(j, e), line)]
                + tokens_from(s, e, line + newlines(s.subrange(j, e)), true)
        }),
        s[j] != '\n' && !is_word_char(s[j]) && s[j] != '"' ==> tokens_from(s, j, line, true)
            == tokens_from(s, j + 1, line, true),
{
}

/// Consumes the next character if it is `expected`.
fn match_char(expected: char, s: &Vec<char>, pos: &mut usize) -> (r: bool)
    requires
        *old(pos) <= s.len(),
    ensures
        r == (*old(pos) < s.len() && s@[*old(pos) as int] == expected),
        *final(pos) == if r { *old(pos) + 1 } else { *old(pos) as int },
{
    if *pos >= s.len() {
        return false;
    }
    if s[*pos] != expected {
        return false;
    }
    *pos += 1;
    true
}

/// Splits source text into tokens, counting lines as it goes.
pub struct Lexer {
    current_line: usize,
}

impl Lexer {
    /// The line that the next token starts on.
    pub closed spec fn line(&self) -> nat {
        self.current_line as nat
    }

    /// A lexer that counts lines from 1.
    pub fn new() -> (r: Lexer)
        ensures
            r.line() == 1,
    {
        Lexer { current_line: 1 }
    }

    /// Scans a plain-text run that starts at `pos` with a character other
    /// than `#`, and pushes it as one `Text` token.
    fn text(&mut self, tokens: &mut Vec<Token>, s: &Vec<char>, pos: &mut usize)
        requires
            *old(pos) < s.len(),
            s@[*old(pos) as int] != '#',
            old(self).line() + (s.len() - *old(pos)) < usize::MAX,
        ensures
            *final(pos) <= s.len(),
            *final(pos) == *old(pos) + 1 + text_len(s@, *old(pos) + 1, is_quote(s@[*old(pos) as int])),
            final(self).line() == old(self).line() + newlines(s@.subrange(*old(pos) as int, *final(pos) as int)),
            views(final(tokens)@) == views(old(tokens)@).push(
                spanning(TokenKind::Text, s@.subrange(*old(pos) as int, *final(pos) as int), old(self).line()),
            ),
    {
        let ghost p = *pos as int;
        let mut text_chars: Vec<char> = Vec::new();
        let mut string_or_date = false;
        let start_line = self.current_line;
        let mut end_line = self.current_line;
        while *pos < s.len()
            invariant_except_break
                p + text_len(s@, p, false) == *pos + text_len(s@, *pos as int, string_or_date),
            invariant
                0 <= p <= *pos <= s.len(),
                text_chars@ == s@.subrange(p, *pos as int),
                end_line == start_line + newlines(text_chars@),
                self.current_line == end_line,
                start_line + (s.len() - p) < usize::MAX,
            ensures
                *pos == p + text_len(s@, p, false),
            decreases s.len() - *pos,
        {
            let c = s[*pos];
            proof {
                lemma_newlines_push(text_chars@, c);
                lemma_newlines_bound(text_chars@);
                assert(s@.subrange(p, *pos + 1) =~= text_chars@.push(c));
            }
            if c == '#' {
                if !string_or_date {
                    break;
                }
            } else if c == '"' || c == '\'' {
                string_or_date = !string_or_date;
            } else if c == '\n' {
                self.current_line = self.current_line + 1;
                end_line = end_line + 1;
            }
            text_chars.push(c);
            *pos += 1;
        }
        let token = Token::new(TokenKind::Text, collect_string(text_chars), start_line, end_line);
        tokens.push(token);
        proof {
            assert(views(tokens@) =~= views(old(tokens)@).push(token@));
        }
    }

    /// Scans the rest of a shebang line, up to the line break, and pushes it
    /// as a `Text` token where it is not empty.
    fn shebang_text(&mut self, tokens: &mut Vec<Token>, s: &Vec<char>, pos: &mut usize)
        requires
            *old(pos) <= s.len(),
        ensures
            *final(pos) <= s.len(),
            *final(pos) == *old(pos) + line_len(s@, *old(pos) as int),
            final(self).line() == old(self).line(),
            views(final(tokens)@) == views(old(tokens)@) + shebang_body(
                s@.subrange(*old(pos) as int, *final(pos) as int),
                old(self).line(),
            ),
    {
        let ghost p = *pos as int;
        let mut text_chars: Vec<char> = Vec::new();
        let start_line = self.current_line;
        let end_line = self.current_line;
        while *pos < s.len()
            invariant_except_break
                p + line_len(s@, p) == *pos + line_len(s@, *pos as int),
            invariant
                0 <= p <= *pos <= s.len(),
                text_chars@ == s@.subrange(p, *pos as int),
            ensures
                *pos == p + line_len(s@, p),
            decreases s.len() - *pos,
        {
            let c = s[*pos];
            if c == '\n' {
                break;
            }
            proof {
                assert(s@.subrange(p, *pos + 1) =~= text_chars@.push(c));
            }
            text_chars.push(c);
            *pos += 1;
        }
        if text_chars.len() > 0 {
            let token = Token::new(TokenKind::Text, collect_string(text_chars), start_line, end_line);
            tokens.push(token);
            proof {
                assert(views(tokens@) =~= views(old(tokens)@) + shebang_body(text_chars@, start_line as nat));
            }
        } else {
            proof {
                assert(views(tokens@) =~= views(old(tokens)@) + shebang_body(text_chars@, start_line as nat));
            }
        }
    }

    /// Scans a word at `pos` and makes it a keyword token where the table
    /// names one, else an identifier token.
    fn identifier(&mut self, s: &Vec<char>, pos: &mut usize, keywords: &KeywordTable) -> (r: Token)
        requires
            *old(pos) < s.len(),
            is_word_char(s@[*old(pos) as int]),
            keywords.wf(),
        ensures
            *final(pos) <= s.len(),
            *final(pos) == *old(pos) + 1 + word_len(s@, *old(pos) + 1),
            final(self).line() == old(self).line(),
            r@ == word_token(s@.subrange(*old(pos) as int, *final(pos) as int), old(self).line()),
    {
        let ghost p = *pos as int;
        let mut text_chars: Vec<char> = Vec::new();
        while *pos < s.len()
            invariant_except_break
                p + word_len(s@, p) == *pos + word_len(s@, *pos as int),
            invariant
                0 <= p <= *pos <= s.len(),
                text_chars@ == s@.subrange(p, *pos as int),
            ensures
                *pos == p + word_len(s@, p),
            decreases s.len() - *pos,
        {
            let c = s[*pos];
            if alphabetic(c) || c == '_' {
                proof {
                    assert(s@.subrange(p, *pos + 1) =~= text_chars@.push(c));
                }
                text_chars.push(c);
                *pos += 1;
            } else {
                break;
            }
        }
        let identifier = collect_string(text_chars);
        match keywords.lookup(identifier.as_str()) {
            Some(keyword) => Token::new(TokenKind::Keyword(keyword), identifier, self.current_line, self.current_line),
            None => Token::new(TokenKind::Identifier, identifier, self.current_line, self.current_line),
        }
    }

    /// Scans a quoted literal that opens at `pos`, up to its closing quote or
    /// the end of the text, into a `Path` token.
    fn string(&mut self, s: &Vec<char>, pos: &mut usize) -> (r: Token)
        requires
            *old(pos) < s.len(),
            s@[*old(pos) as int] == '"',
            old(self).line() + (s.len() - *old(pos)) < usize::MAX,
        ensures
            *final(pos) <= s.len(),
            *final(pos) == *old(pos) + 1 + closing_len(s@, *old(pos) + 1),
            final(self).line() == old(self).line() + newlines(s@.subrange(*old(pos) as int, *final(pos) as int)),
            r@ == spanning(TokenKind::Path, s@.subrange(*old(pos) as int, *final(pos) as int), old(self).line()),
    {
        let ghost p = *pos as int;
        let mut text_chars: Vec<char> = Vec::new();
        text_chars.push(s[*pos]);
        *pos += 1;
        let start_line = self.current_line;
        let mut end_line = self.current_line;
        proof {
            assert(text_chars@ =~= s@.subrange(p, p + 1));
            lemma_newlines_char('"');
        }
        while *pos < s.len()
            invariant_except_break
                p + 1 + closing_len(s@, p + 1) == *pos + closing_len(s@, *pos as int),
            invariant
                0 <= p < *pos <= s.len(),
                text_chars@ == s@.subrange(p, *pos as int),
                end_line == start_line + newlines(text_chars@),
                self.current_line == end_line,
                start_line + (s.len() - p) < usize::MAX,
            ensures
                *pos == p + 1 + closing_len(s@, p + 1),
            decreases s.len() - *pos,
        {
            let c = s[*pos];
            proof {
                lemma_newlines_push(text_chars@, c);
                lemma_newlines_bound(text_chars@);
                assert(s@.subrange(p, *pos + 1) =~= text_chars@.push(c));
            }
            if c == '\n' {
                self.current_line = self.current_line + 1;
                end_line = end_line + 1;
            }
            text_chars.push(c);
            *pos += 1;
            if c == '"' {
                break;
            }
        }
        Token::new(TokenKind::Path, collect_string(text_chars), start_line, end_line)
    }

    /// Scans the rest of a directive line: words become keyword or
    /// identifier tokens, quoted literals `Path` tokens, and any other
    /// character is passed over. Stops before the line break.
    fn preprocessor_line(&mut self, tokens: &mut Vec<Token>, s: &Vec<char>, pos: &mut usize, keywords: &KeywordTable)
        requires
            *old(pos) <= s.len(),
            keywords.wf(),
            old(self).line() + (s.len() - *old(pos)) < usize::MAX,
        ensures
            *old(pos) <= *final(pos) <= s.len(),
            *final(pos) == directive_end(s@, *old(pos) as int),
            final(self).line() == old(self).line() + newlines(s@.subrange(*old(pos) as int, *final(pos) as int)),
            old(tokens)@.len() <= final(tokens)@.len(),
            final(tokens)@.subrange(0, old(tokens)@.len() as int) == old(tokens)@,
            forall|k: int|
                old(tokens)@.len() <= k < final(tokens)@.len() ==> is_directive_kind(
                    #[trigger] final(tokens)@[k].token_kind,
                ),
            views(final(tokens)@) + tokens_from(s@, *final(pos) as int, final(self).line(), false)
                == views(old(tokens)@) + tokens_from(s@, *old(pos) as int, old(self).line(), true),
    {
        let ghost p = *pos as int;
        let ghost kept = tokens@;
        let ghost line0 = self.line();
        let ghost before = views(tokens@) + tokens_from(s@, p, line0, true);
        proof {
            assert(s@.subrange(p, p) =~= Seq::<char>::empty());
        }
        while *pos < s.len()
            invariant_except_break
                views(tokens@) + tokens_from(s@, *pos as int, self.line(), true) == before,
            invariant
                0 <= p <= *pos <= s.len(),
                keywords.wf(),
                self.line() == line0 + newlines(s@.subrange(p, *pos as int)),
                line0 + (s.len() - p) < usize::MAX,
                directive_end(s@, *pos as int) == directive_end(s@, p),
                kept.len() <= tokens@.len(),
                tokens@.subrange(0, kept.len() as int) == kept,
                forall|k: int| kept.len() <= k < tokens@.len() ==> is_directive_kind(#[trigger] tokens@[k].token_kind),
            ensures
                views(tokens@) + tokens_from(s@, *pos as int, self.line(), false) == before,
                *pos == directive_end(s@, p),
            decreases s.len() - *pos,
        {
            let ghost j = *pos as int;
            let ghost seen = views(tokens@);
            let ghost prev = tokens@;
            let c = s[*pos];
            proof {
                lemma_newlines_bound(s@.subrange(p, j));
            }
            if c == '\n' {
                proof {
                    lemma_directive_step(s@, j, self.line());
                }
                break;
            } else if alphabetic(c) || c == '_' {
                let token = self.identifier(s, pos, keywords);
                tokens.push(token);
                proof {
                    lemma_runs_single_line(s@, j + 1);
                    lemma_newlines_char(c);
                    assert(s@.subrange(j, *pos as int) =~= seq![c] + s@.subrange(j + 1, *pos as int));
                    lemma_newlines_concat(seq![c], s@.subrange(j + 1, *pos as int));
                    lemma_newlines_split(s@, p, j, *pos as int);
                    assert(views(tokens@) =~= seen.push(token@));
                    lemma_directive_step(s@, j, self.line());
                    lemma_append_one(seen, token@, tokens_from(s@, *pos as int, self.line(), true));
                    assert(tokens@ == prev.push(token));
                    assert(tokens@.subrange(0, kept.len() as int) =~= prev.subrange(0, kept.len() as int));
                }
            } else if c == '"' {
                let token = self.string(s, pos);
                tokens.push(token);
                proof {
                    lemma_newlines_split(s@, p, j, *pos as int);
                    assert(views(tokens@) =~= seen.push(token@));
                    lemma_directive_step(s@, j, line0 + newlines(s@.subrange(p, j)));
                    lemma_append_one(seen, token@, tokens_from(s@, *pos as int, self.line(), true));
                    assert(tokens@ == prev.push(token));
                    assert(tokens@.subrange(0, kept.len() as int) =~= prev.subrange(0, kept.len() as int));
                }
            } else {
                *pos += 1;
                proof {
                    lemma_newlines_split(s@, p, j, j + 1);
                    assert(s@.subrange(j, j + 1) =~= seq![c]);
                    lemma_newlines_char(c);
                    lemma_directive_step(s@, j, self.line());
                }
            }
        }
    }

    /// Splits `source` into tokens: plain-text runs, and the markers,
    /// keywords, identifiers and quoted literals of directive lines. Line
    /// numbers continue from this lexer's counter, which ends past the
    /// last line break of `source`. The counter is a `usize`, wide enough
    /// for any text whose length leaves it room.
    pub fn lex(&mut self, source: &str) -> (r: Vec<Token>)
        requires
            old(self).line() + source@.len() < usize::MAX,
        ensures
            views(r@) == tokens_from(source@, 0, old(self).line(), false),
            final(self).line() == old(self).line() + newlines(source@),
    {
        let s = chars_of(source);
        let mut pos: usize = 0;
        let mut tokens: Vec<Token> = Vec::new();
        let keywords_table = KeywordTable::new();
        let ghost line0 = self.line();
        proof {
            assert(s@.subrange(0, 0) =~= Seq::<char>::empty());
            assert(views(tokens@) + tokens_from(s@, 0, line0, false) =~= tokens_from(s@, 0, line0, false));
        }
        while pos < s.len()
            invariant
                0 <= pos <= s.len(),
                s@ == source@,
                keywords_table.wf(),
                self.line() == line0 + newlines(s@.subrange(0, pos as int)),
                line0 + s.len() < usize::MAX,
                views(tokens@) + tokens_from(s@, pos as int, self.line(), false) == tokens_from(s@, 0, line0, false),
            decreases s.len() - pos,
        {
            let ghost j = pos as int;
            let ghost seen = views(tokens@);
            let ghost line = self.line();
            proof {
                lemma_newlines_bound(s@.subrange(0, j));
            }
            if s[pos] == '#' {
                pos += 1;
                if match_char('!', &s, &mut pos) {
                    let token = Token::new(TokenKind::Shebang, "#!".to_string(), self.current_line, self.current_line);
                    tokens.push(token);
                    self.shebang_text(&mut tokens, &s, &mut pos);
                    proof {
                        reveal_strlit("#!");
                        lemma_run_lens(s@, j + 2, false);
                        lemma_runs_single_line(s@, j + 2);
                        assert(s@.subrange(j, pos as int) =~= seq!['#'] + (seq!['!'] + s@.subrange(j + 2, pos as int)));
                        lemma_newlines_char('#');
                        lemma_newlines_char('!');
                        lemma_newlines_concat(seq!['!'], s@.subrange(j + 2, pos as int));
                        lemma_newlines_concat(seq!['#'], seq!['!'] + s@.subrange(j + 2, pos as int));
                        lemma_newlines_split(s@, 0, j, pos as int);
                        assert(views(tokens@) =~= seen.push(token@) + shebang_body(s@.subrange(j + 2, pos as int), line));
                        lemma_shebang_step(s@, j, line);
                        assert(token@.lexeme =~= seq!['#', '!']);
                        assert(token@ == TokenView { kind: TokenKind::Shebang, lexeme: seq!['#', '!'], start_line: line, end_line: line });
                        assert(seen + tokens_from(s@, j, line, false) =~= seen.push(token@) + shebang_body(s@.subrange(j + 2, pos as int), line) + tokens_from(s@, pos as int, line, false));
                        assert(seen + tokens_from(s@, j, line, false) =~= views(tokens@) + tokens_from(s@, pos as int, line, false));
                    }
                } else {
                    let token = Token::new(TokenKind::Hash, "#".to_string(), self.current_line, self.current_line);
                    tokens.push(token);
                    proof {
                        reveal_strlit("#");
                        lemma_newlines_split(s@, 0, j, j + 1);
                        assert(s@.subrange(j, j + 1) =~= seq!['#']);
                        lemma_newlines_char('#');
                        assert(views(tokens@) =~= seen.push(token@));
                        lemma_hash_step(s@, j, line);
                        lemma_append_one(seen, token@, tokens_from(s@, j + 1, line, true));
                        assert(token@.lexeme =~= seq!['#']);
                        assert(token@ == TokenView { kind: TokenKind::Hash, lexeme: seq!['#'], start_line: line, end_line: line });
                        assert(views(tokens@) + tokens_from(s@, j + 1, line, true) == seen + tokens_from(s@, j, line, false));
                    }
                    self.preprocessor_line(&mut tokens, &s, &mut pos, &keywords_table);
                    proof {
                        lemma_newlines_split(s@, 0, j + 1, pos as int);
                    }
                }
            } else {
                self.text(&mut tokens, &s, &mut pos);
                proof {
                    lemma_newlines_split(s@, 0, j, pos as int);
                    lemma_text_step(s@, j, line);
                    lemma_append_one(seen, views(tokens@).last(), tokens_from(s@, pos as int, self.line(), false));
                    assert(views(tokens@) == seen.push(views(tokens@).last()));
                }
            }
        }
        proof {
            assert(s@.subrange(0, pos as int) =~= s@);
            assert(views(tokens@) =~= views(tokens@) + tokens_from(s@, pos as int, self.line(), false));
        }
        tokens
    }
}

} // verus!
