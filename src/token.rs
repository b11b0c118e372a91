use vstd::prelude::*;

verus! {

/// Directive keywords, each spelled in English or in Russian.
#[derive(Debug, Clone, Copy, PartialEq, Eq, Structural)]
pub enum Keyword {
    /// `Use` / `Использовать`
    Use,
    /// `Region` / `Область`
    Region,
    /// `EndRegion` / `КонецОбласти`
    EndRegion,
}

/// What a token stands for.
#[derive(Debug, Clone, Copy, PartialEq, Eq, Structural)]
pub enum TokenKind {
    /// The marker `#` that opens a directive line.
    Hash,
    /// The marker `#!` that opens a shebang line.
    Shebang,
    /// A word of a directive line that is no keyword.
    Identifier,
    /// Plain source text, copied through unchanged.
    Text,
    /// A directive keyword.
    Keyword(Keyword),
    /// A quoted literal on a directive line.
    Path,
    /// Declared for the body of a shebang line; the lexer emits `Text` there.
    ShebangText,
}

/// The mathematical value of a token: its kind, its characters and the
/// lines on which it starts and ends.
pub struct TokenView {
    /// The kind of the token.
    pub kind: TokenKind,
    /// Its characters.
    pub lexeme: Seq<char>,
    /// The line it starts on.
    pub start_line: nat,
    /// The line it ends on.
    pub end_line: nat,
}

/// A token of the source text. It owns a copy of its characters.
#[derive(Debug)]
pub struct Token {
    /// The kind of the token.
    pub token_kind: TokenKind,
    /// The characters of the source that the token spans.
    pub lexeme: String,
    /// The line on which the token starts, counted from 1.
    pub start_line: usize,
    /// The line on which the token ends.
    pub end_line: usize,
}

impl View for Token {
    type V = TokenView;

    open spec fn view(&self) -> TokenView {
        TokenView {
            kind: self.token_kind,
            lexeme: self.lexeme@,
            start_line: self.start_line as nat,
            end_line: self.end_line as nat,
        }
    }
}

/// The views of a sequence of tokens.
pub open spec fn views(tokens: Seq<Token>) -> Seq<TokenView> {
    tokens.map_values(|t: Token| t@)
}

impl Token {
    /// Makes a token of the given kind, characters and lines.
    pub fn new(token_kind: TokenKind, lexeme: String, start_line: usize, end_line: usize) -> (r: Token)
        ensures
            r.token_kind == token_kind,
            r.lexeme@ == lexeme@,
            r.start_line == start_line,
            r.end_line == end_line,
    {
        Token { token_kind, lexeme, start_line, end_line }
    }
}

/// What `str::to_uppercase` makes of a text.
pub uninterp spec fn upper_of(s: Seq<char>) -> Seq<char>;

/// Relies on `str::to_uppercase`: its result depends on the characters alone.
#[verifier::external_body]
fn uppercase(s: &str) -> (r: String)
    ensures
        r@ == upper_of(s@),
{
    s.to_uppercase()
}

/// The spellings of the keywords, in upper case, with the keyword each names.
pub open spec fn keyword_entries() -> Seq<(Seq<char>, Keyword)> {
    seq![
        (seq!['R', 'E', 'G', 'I', 'O', 'N'], Keyword::Region),
        (seq!['E', 'N', 'D', 'R', 'E', 'G', 'I', 'O', 'N'], Keyword::EndRegion),
        (seq!['U', 'S', 'E'], Keyword::Use),
        (seq!['О', 'Б', 'Л', 'А', 'С', 'Т', 'Ь'], Keyword::Region),
        (seq!['К', 'О', 'Н', 'Е', 'Ц', 'О', 'Б', 'Л', 'А', 'С', 'Т', 'И'], Keyword::EndRegion),
        (seq!['И', 'С', 'П', 'О', 'Л', 'Ь', 'З', 'О', 'В', 'А', 'Т', 'Ь'], Keyword::Use),
    ]
}

/// The keyword of the first entry spelled `u`, if any.
pub open spec fn first_match(entries: Seq<(Seq<char>, Keyword)>, u: Seq<char>) -> Option<Keyword>
    decreases entries.len(),
{
    if entries.len() == 0 {
        None
    } else if entries[0].0 == u {
        Some(entries[0].1)
    } else {
        first_match(entries.drop_first(), u)
    }
}

/// The keyword spelled by an uppercased word, if any.
pub open spec fn keyword_spelled(u: Seq<char>) -> Option<Keyword> {
    first_match(keyword_entries(), u)
}

/// The keyword that a word names, whatever its letter case.
pub open spec fn keyword_of(word: Seq<char>) -> Option<Keyword> {
    keyword_spelled(upper_of(word))
}

/// The mapping from uppercased keyword spellings, English and Russian, to
/// the keyword each names.
pub struct KeywordTable {
    table: Vec<(String, Keyword)>,
}

impl KeywordTable {
    /// The spellings held, with their keywords.
    pub closed spec fn entries(&self) -> Seq<(Seq<char>, Keyword)> {
        self.table@.map_values(|e: (String, Keyword)| (e.0@, e.1))
    }

    /// The table holds every spelling of every keyword.
    pub open spec fn wf(&self) -> bool {
        self.entries() == keyword_entries()
    }

    /// Builds the table of all spellings.
    pub fn new() -> (r: KeywordTable)
        ensures
            r.wf(),
    {
        let mut table: Vec<(String, Keyword)> = Vec::new();
        table.push(("REGION".to_string(), Keyword::Region));
        table.push(("ENDREGION".to_string(), Keyword::EndRegion));
        table.push(("USE".to_string(), Keyword::Use));
        table.push(("ОБЛАСТЬ".to_string(), Keyword::Region));
        table.push(("КОНЕЦОБЛАСТИ".to_string(), Keyword::EndRegion));
        table.push(("ИСПОЛЬЗОВАТЬ".to_string(), Keyword::Use));
        let r = KeywordTable { table };
        proof {
            reveal_strlit("REGION");
            reveal_strlit("ENDREGION");
            reveal_strlit("USE");
            reveal_strlit("ОБЛАСТЬ");
            reveal_strlit("КОНЕЦОБЛАСТИ");
            reveal_strlit("ИСПОЛЬЗОВАТЬ");
            let e = keyword_entries();
            assert(r.entries()[0].0 =~= e[0].0);
            assert(r.entries()[1].0 =~= e[1].0);
            assert(r.entries()[2].0 =~= e[2].0);
            assert(r.entries()[3].0 =~= e[3].0);
            assert(r.entries()[4].0 =~= e[4].0);
            assert(r.entries()[5].0 =~= e[5].0);
            assert(r.entries() =~= e);
        }
        r
    }

    /// The keyword that `spelling` names, compared in upper case.
    pub fn lookup(&self, spelling: &str) -> (r: Option<Keyword>)
        requires
            self.wf(),
        ensures
            r == keyword_of(spelling@),
    {
        let upper = uppercase(spelling);
        self.lookup_upper(upper.as_str())
    }

    /// The keyword that an uppercased spelling names.
    pub fn lookup_upper(&self, upper: &str) -> (r: Option<Keyword>)
        requires
            self.wf(),
        ensures
            r == keyword_spelled(upper@),
    {
        let key = upper.to_string();
        let mut i: usize = 0;
        assert(self.entries().subrange(0, self.entries().len() as int) =~= keyword_entries());
        while i < self.table.len()
            invariant
                self.wf(),
                key@ == upper@,
                i <= self.table@.len(),
                self.table@.len() == self.entries().len(),
                first_match(self.entries().subrange(i as int, self.entries().len() as int), upper@)
                    == keyword_spelled(upper@),
            decreases self.table@.len() - i,
        {
            let ghost rest = self.entries().subrange(i as int, self.entries().len() as int);
            assert(self.entries()[i as int] == (self.table@[i as int].0@, self.table@[i as int].1));
            assert(rest.drop_first() =~= self.entries().subrange(i + 1, self.entries().len() as int));
            if self.table[i].0 == key {
                return Some(self.table[i].1);
            }
            i += 1;
        }
        None
    }
}

} // verus!
