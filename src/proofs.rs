use vstd::prelude::*;
use crate::lexer::{
    closing_len, is_quote, is_word_char, line_len, lemma_newlines_char, lemma_newlines_concat,
    lemma_newlines_split, lemma_run_lens, lemma_runs_single_line, newlines, scan_tokens, shebang_body,
    spanning, text_len, tokens_from, word_len, word_token,
};
use crate::preprocessor::{stripped, strip_text};
use crate::token::{TokenKind, TokenView};

verus! {

/// The lexemes of a token sequence, concatenated in order.
pub open spec fn lexemes(ts: Seq<TokenView>) -> Seq<char>
    decreases ts.len(),
{
    if ts.len() == 0 {
        seq![]
    } else {
        ts[0].lexeme + lexemes(ts.drop_first())
    }
}

/// The number of characters of `s` from `i` on that the lexer passes over
/// without putting them in a token: those on a directive line that start
/// neither a word nor a quoted literal.
pub open spec fn passed_over(s: Seq<char>, i: int, directive: bool) -> nat
    decreases s.len() - i, if directive { 1int } else { 0int } via passed_over_decreases
{
    if i < 0 || i >= s.len() {
        0
    } else if directive {
        if s[i] == '\n' {
            passed_over(s, i, false)
        } else if is_word_char(s[i]) {
            passed_over(s, i + 1 + word_len(s, i + 1), true)
        } else if s[i] == '"' {
            passed_over(s, i + 1 + closing_len(s, i + 1), true)
        } else {
            1 + passed_over(s, i + 1, true)
        }
    } else if s[i] == '#' {
        if i + 1 < s.len() && s[i + 1] == '!' {
            passed_over(s, i + 2 + line_len(s, i + 2), false)
        } else {
            passed_over(s, i + 1, true)
        }
    } else {
        passed_over(s, i + 1 + text_len(s, i + 1, is_quote(s[i])), false)
    }
}

/// Every run that `passed_over` skips ends within the text.
#[via_fn]
proof fn passed_over_decreases(s: Seq<char>, i: int, directive: bool) {
    if 0 <= i < s.len() {
        lemma_run_lens(s, i + 1, false);
        lemma_run_lens(s, i + 1, true);
        if i + 1 < s.len() {
            lemma_run_lens(s, i + 2, false);
        }
    }
}

proof fn lemma_lexemes_concat(a: Seq<TokenView>, b: Seq<TokenView>)
    ensures
        lexemes(a + b) == lexemes(a) + lexemes(b),
    decreases a.len(),
{
    if a.len() == 0 {
        assert(a + b =~= b);
        assert(lexemes(a) + lexemes(b) =~= lexemes(b));
    } else {
        assert((a + b).drop_first() =~= a.drop_first() + b);
        lemma_lexemes_concat(a.drop_first(), b);
        assert(lexemes(a + b) =~= lexemes(a) + lexemes(b));
    }
}

proof fn lemma_lexemes_one(x: TokenView)
    ensures
        lexemes(seq![x]) == x.lexeme,
{
    assert(seq![x].drop_first() =~= Seq::<TokenView>::empty());
    assert(lexemes(Seq::<TokenView>::empty()) == Seq::<char>::empty());
    assert(x.lexeme + Seq::<char>::empty() =~= x.lexeme);
    assert(lexemes(seq![x]) =~= x.lexeme);
}

/// The tokens from `i` on hold all characters from `i` on but those passed
/// over, in order.
#[verifier::rlimit(50)]
proof fn lemma_tokens_cover(s: Seq<char>, i: int, line: nat, directive: bool)
    requires
        0 <= i <= s.len(),
    ensures
        lexemes(tokens_from(s, i, line, directive)).len() + passed_over(s, i, directive) == s.len() - i,
        passed_over(s, i, directive) == 0 ==> lexemes(tokens_from(s, i, line, directive))
            == s.subrange(i, s.len() as int),
    decreases s.len() - i, if directive { 1int } else { 0int },
{
    let ts = tokens_from(s, i, line, directive);
    if i == s.len() {
        assert(s.subrange(i, s.len() as int) =~= Seq::<char>::empty());
    } else {
        lemma_run_lens(s, i + 1, false);
        lemma_run_lens(s, i + 1, true);
        if directive {
            if s[i] == '\n' {
                lemma_tokens_cover(s, i, line, false);
            } else if is_word_char(s[i]) {
                let e = i + 1 + word_len(s, i + 1);
                let first = seq![word_token(s.subrange(i, e), line)];
                lemma_tokens_cover(s, e, line, true);
                lemma_lexemes_concat(first, tokens_from(s, e, line, true));
                lemma_lexemes_one(first[0]);
                assert(s.subrange(i, s.len() as int) =~= s.subrange(i, e) + s.subrange(e, s.len() as int));
            } else if s[i] == '"' {
                let e = i + 1 + closing_len(s, i + 1);
                let t = s.subrange(i, e);
                let first = seq![spanning(TokenKind::Path, t, line)];
                lemma_tokens_cover(s, e, line + newlines(t), true);
                lemma_lexemes_concat(first, tokens_from(s, e, line + newlines(t), true));
                lemma_lexemes_one(first[0]);
                assert(s.subrange(i, s.len() as int) =~= t + s.subrange(e, s.len() as int));
            } else {
                lemma_tokens_cover(s, i + 1, line, true);
            }
        } else if s[i] == '#' {
            if i + 1 < s.len() && s[i + 1] == '!' {
                lemma_run_lens(s, i + 2, false);
                let e = i + 2 + line_len(s, i + 2);
                let body = s.subrange(i + 2, e);
                let first = seq![
                    TokenView { kind: TokenKind::Shebang, lexeme: seq!['#', '!'], start_line: line, end_line: line },
                ];
                let mid = shebang_body(body, line);
                lemma_tokens_cover(s, e, line, false);
                lemma_lexemes_concat(first, mid);
                lemma_lexemes_concat(first + mid, tokens_from(s, e, line, false));
                lemma_lexemes_one(first[0]);
                if body.len() > 0 {
                    lemma_lexemes_one(mid[0]);
                } else {
                    assert(lexemes(mid) =~= body);
                }
                assert(s.subrange(i, s.len() as int) =~= seq!['#', '!'] + body + s.subrange(e, s.len() as int));
            } else {
                let first = seq![
                    TokenView { kind: TokenKind::Hash, lexeme: seq!['#'], start_line: line, end_line: line },
                ];
                lemma_tokens_cover(s, i + 1, line, true);
                lemma_lexemes_concat(first, tokens_from(s, i + 1, line, true));
                lemma_lexemes_one(first[0]);
                assert(s.subrange(i, s.len() as int) =~= seq!['#'] + s.subrange(i + 1, s.len() as int));
            }
        } else {
            let e = i + 1 + text_len(s, i + 1, is_quote(s[i]));
            let t = s.subrange(i, e);
            let first = seq![spanning(TokenKind::Text, t, line)];
            lemma_tokens_cover(s, e, line + newlines(t), false);
            lemma_lexemes_concat(first, tokens_from(s, e, line + newlines(t), false));
            lemma_lexemes_one(first[0]);
            assert(s.subrange(i, s.len() as int) =~= t + s.subrange(e, s.len() as int));
        }
    }
}

/// The positions of `s` from `i` on that the lexer passes over without
/// putting them in a token.
pub open spec fn passed_positions(s: Seq<char>, i: int, directive: bool) -> Set<int>
    decreases s.len() - i, if directive { 1int } else { 0int } via passed_positions_decreases
{
    if i < 0 || i >= s.len() {
        Set::empty()
    } else if directive {
        if s[i] == '\n' {
            passed_positions(s, i, false)
        } else if is_word_char(s[i]) {
            passed_positions(s, i + 1 + word_len(s, i + 1), true)
        } else if s[i] == '"' {
            passed_positions(s, i + 1 + closing_len(s, i + 1), true)
        } else {
            passed_positions(s, i + 1, true).insert(i)
        }
    } else if s[i] == '#' {
        if i + 1 < s.len() && s[i + 1] == '!' {
            passed_positions(s, i + 2 + line_len(s, i + 2), false)
        } else {
            passed_positions(s, i + 1, true)
        }
    } else {
        passed_positions(s, i + 1 + text_len(s, i + 1, is_quote(s[i])), false)
    }
}

/// Every run that `passed_positions` skips ends within the text.
#[via_fn]
proof fn passed_positions_decreases(s: Seq<char>, i: int, directive: bool) {
    if 0 <= i < s.len() {
        lemma_run_lens(s, i + 1, false);
        lemma_run_lens(s, i + 1, true);
        if i + 1 < s.len() {
            lemma_run_lens(s, i + 2, false);
        }
    }
}

/// The characters of `s` from `i` on, in order, but those at positions in `drop`.
pub open spec fn without(s: Seq<char>, i: int, drop: Set<int>) -> Seq<char>
    decreases s.len() - i,
{
    if i < 0 || i >= s.len() {
        seq![]
    } else if drop.contains(i) {
        without(s, i + 1, drop)
    } else {
        seq![s[i]] + without(s, i + 1, drop)
    }
}

/// Passed-over positions lie from `i` on, within the text, and none holds a
/// line break.
proof fn lemma_passed_positions_range(s: Seq<char>, i: int, directive: bool)
    requires
        0 <= i <= s.len(),
    ensures
        forall|k: int| #[trigger] passed_positions(s, i, directive).contains(k) ==> i <= k < s.len() && s[k] != '\n',
    decreases s.len() - i, if directive { 1int } else { 0int },
{
    if i == s.len() {
        assert(passed_positions(s, i, directive) == Set::<int>::empty());
        assert forall|k: int| #[trigger] passed_positions(s, i, directive).contains(k) implies i <= k < s.len() && s[k] != '\n' by {
            assert(!Set::<int>::empty().contains(k));
        }
    } else {
        lemma_run_lens(s, i + 1, false);
        lemma_run_lens(s, i + 1, true);
        if directive {
            if s[i] == '\n' {
                lemma_passed_positions_range(s, i, false);
                assert forall|k: int| #[trigger] passed_positions(s, i, directive).contains(k) implies i <= k < s.len() && s[k] != '\n' by {
                    assert(passed_positions(s, i, false).contains(k));
                }
            } else if is_word_char(s[i]) {
                let e = i + 1 + word_len(s, i + 1);
                lemma_passed_positions_range(s, e, true);
                assert forall|k: int| #[trigger] passed_positions(s, i, directive).contains(k) implies i <= k < s.len() && s[k] != '\n' by {
                    assert(passed_positions(s, e, true).contains(k));
                }
            } else if s[i] == '"' {
                let e = i + 1 + closing_len(s, i + 1);
                lemma_passed_positions_range(s, e, true);
                assert forall|k: int| #[trigger] passed_positions(s, i, directive).contains(k) implies i <= k < s.len() && s[k] != '\n' by {
                    assert(passed_positions(s, e, true).contains(k));
                }
            } else {
                lemma_passed_positions_range(s, i + 1, true);
                assert(passed_positions(s, i, true) == passed_positions(s, i + 1, true).insert(i));
                assert forall|k: int| #[trigger] passed_positions(s, i, directive).contains(k) implies i <= k < s.len() && s[k] != '\n' by {
                    if k != i {
                        assert(passed_positions(s, i + 1, true).contains(k));
                    }
                }
            }
        } else if s[i] == '#' {
            if i + 1 < s.len() && s[i + 1] == '!' {
                lemma_run_lens(s, i + 2, false);
                let e = i + 2 + line_len(s, i + 2);
                lemma_passed_positions_range(s, e, false);
            assert forall|k: int| #[trigger] passed_positions(s, i, directive).contains(k) implies i <= k < s.len() && s[k] != '\n' by {
                assert(passed_positions(s, e, false).contains(k));
            }
                assert forall|k: int| #[trigger] passed_positions(s, i, directive).contains(k) implies i <= k < s.len() && s[k] != '\n' by {
                    assert(passed_positions(s, e, false).contains(k));
                }
            } else {
                lemma_passed_positions_range(s, i + 1, true);
                assert forall|k: int| #[trigger] passed_positions(s, i, directive).contains(k) implies i <= k < s.len() && s[k] != '\n' by {
                    assert(passed_positions(s, i + 1, true).contains(k));
                }
            }
        } else {
            let e = i + 1 + text_len(s, i + 1, is_quote(s[i]));
            lemma_passed_positions_range(s, e, false);
            assert forall|k: int| #[trigger] passed_positions(s, i, directive).contains(k) implies i <= k < s.len() && s[k] != '\n' by {
                assert(passed_positions(s, e, false).contains(k));
            }
        }
    }
}

/// Dropping a position before `i` changes nothing from `i` on.
proof fn lemma_without_below(s: Seq<char>, i: int, drop: Set<int>, x: int)
    requires
        x < i,
    ensures
        without(s, i, drop.insert(x)) == without(s, i, drop),
    decreases s.len() - i,
{
    if 0 <= i < s.len() {
        lemma_without_below(s, i + 1, drop, x);
    }
}

/// A run with no dropped position comes through whole.
proof fn lemma_without_run(s: Seq<char>, i: int, e: int, drop: Set<int>)
    requires
        0 <= i <= e <= s.len(),
        forall|k: int| i <= k < e ==> !drop.contains(k),
    ensures
        without(s, i, drop) == s.subrange(i, e) + without(s, e, drop),
    decreases e - i,
{
    if i == e {
        assert(s.subrange(i, e) + without(s, e, drop) =~= without(s, e, drop));
    } else {
        lemma_without_run(s, i + 1, e, drop);
        assert(s.subrange(i, e) =~= seq![s[i]] + s.subrange(i + 1, e));
        assert(seq![s[i]] + (s.subrange(i + 1, e) + without(s, e, drop)) =~= s.subrange(i, e) + without(s, e, drop));
    }
}

/// The lexemes from `i` on are the characters from `i` on but the passed-over ones.
#[verifier::rlimit(50)]
proof fn lemma_tokens_exact(s: Seq<char>, i: int, line: nat, directive: bool)
    requires
        0 <= i <= s.len(),
    ensures
        lexemes(tokens_from(s, i, line, directive)) == without(s, i, passed_positions(s, i, directive)),
    decreases s.len() - i, if directive { 1int } else { 0int },
{
    if i < s.len() {
        lemma_run_lens(s, i + 1, false);
        lemma_run_lens(s, i + 1, true);
        if directive {
            if s[i] == '\n' {
                lemma_tokens_exact(s, i, line, false);
            } else if is_word_char(s[i]) {
                let e = i + 1 + word_len(s, i + 1);
                let first = seq![word_token(s.subrange(i, e), line)];
                lemma_tokens_exact(s, e, line, true);
                lemma_passed_positions_range(s, e, true);
                lemma_without_run(s, i, e, passed_positions(s, e, true));
                lemma_lexemes_concat(first, tokens_from(s, e, line, true));
                lemma_lexemes_one(first[0]);
            } else if s[i] == '"' {
                let e = i + 1 + closing_len(s, i + 1);
                let t = s.subrange(i, e);
                let first = seq![spanning(TokenKind::Path, t, line)];
                lemma_tokens_exact(s, e, line + newlines(t), true);
                lemma_passed_positions_range(s, e, true);
                lemma_without_run(s, i, e, passed_positions(s, e, true));
                lemma_lexemes_concat(first, tokens_from(s, e, line + newlines(t), true));
                lemma_lexemes_one(first[0]);
            } else {
                lemma_tokens_exact(s, i + 1, line, true);
                lemma_without_below(s, i + 1, passed_positions(s, i + 1, true), i);
            }
        } else if s[i] == '#' {
            if i + 1 < s.len() && s[i + 1] == '!' {
                lemma_run_lens(s, i + 2, false);
                let e = i + 2 + line_len(s, i + 2);
                let body = s.subrange(i + 2, e);
                let first = seq![
                    TokenView { kind: TokenKind::Shebang, lexeme: seq!['#', '!'], start_line: line, end_line: line },
                ];
                let mid = shebang_body(body, line);
                lemma_tokens_exact(s, e, line, false);
                lemma_passed_positions_range(s, e, false);
                lemma_without_run(s, i, e, passed_positions(s, e, false));
                lemma_lexemes_concat(first, mid);
                lemma_lexemes_concat(first + mid, tokens_from(s, e, line, false));
                lemma_lexemes_one(first[0]);
                if body.len() > 0 {
                    lemma_lexemes_one(mid[0]);
                } else {
                    assert(lexemes(mid) =~= body);
                }
                assert(s.subrange(i, e) =~= seq!['#', '!'] + body);
            } else {
                let first = seq![
                    TokenView { kind: TokenKind::Hash, lexeme: seq!['#'], start_line: line, end_line: line },
                ];
                lemma_tokens_exact(s, i + 1, line, true);
                lemma_passed_positions_range(s, i + 1, true);
                lemma_without_run(s, i, i + 1, passed_positions(s, i + 1, true));
                lemma_lexemes_concat(first, tokens_from(s, i + 1, line, true));
                lemma_lexemes_one(first[0]);
                assert(s.subrange(i, i + 1) =~= seq!['#']);
            }
        } else {
            let e = i + 1 + text_len(s, i + 1, is_quote(s[i]));
            let t = s.subrange(i, e);
            let first = seq![spanning(TokenKind::Text, t, line)];
            lemma_tokens_exact(s, e, line + newlines(t), false);
            lemma_passed_positions_range(s, e, false);
            lemma_without_run(s, i, e, passed_positions(s, e, false));
            lemma_lexemes_concat(first, tokens_from(s, e, line + newlines(t), false));
            lemma_lexemes_one(first[0]);
        }
    }
}

/// The lexemes of the tokens of `s`, concatenated, are `s` with exactly the
/// passed-over characters removed, in order; none of those is a line break.
/// So they give back `s` exactly when the lexer passes over no character of
/// a directive line, and in any case they hold all characters of `s` but
/// the ones passed over.
pub proof fn lemma_scan_lossless(s: Seq<char>)
    ensures
        lexemes(scan_tokens(s)) == without(s, 0, passed_positions(s, 0, false)),
        forall|k: int| #[trigger] passed_positions(s, 0, false).contains(k) ==> 0 <= k < s.len() && s[k] != '\n',
        lexemes(scan_tokens(s)).len() + passed_over(s, 0, false) == s.len(),
        (lexemes(scan_tokens(s)) == s) <==> passed_over(s, 0, false) == 0,
{
    lemma_tokens_cover(s, 0, 1, false);
    lemma_tokens_exact(s, 0, 1, false);
    lemma_passed_positions_range(s, 0, false);
    assert(s.subrange(0, s.len() as int) =~= s);
}

/// Each token starts on the line where the one before it ended, the first
/// on `line`, and none ends before it starts.
pub open spec fn lines_chained(ts: Seq<TokenView>, line: nat) -> bool
    decreases ts.len(),
{
    ts.len() == 0 || (ts[0].start_line == line && ts[0].start_line <= ts[0].end_line
        && lines_chained(ts.drop_first(), ts[0].end_line))
}

/// The line on which the last token ends, or `line` where there is none.
pub open spec fn last_line(ts: Seq<TokenView>, line: nat) -> nat
    decreases ts.len(),
{
    if ts.len() == 0 {
        line
    } else {
        last_line(ts.drop_first(), ts[0].end_line)
    }
}

proof fn lemma_chained_concat(a: Seq<TokenView>, b: Seq<TokenView>, line: nat)
    requires
        lines_chained(a, line),
        lines_chained(b, last_line(a, line)),
    ensures
        lines_chained(a + b, line),
        last_line(a + b, line) == last_line(b, last_line(a, line)),
    decreases a.len(),
{
    if a.len() == 0 {
        assert(a + b =~= b);
    } else {
        assert((a + b).drop_first() =~= a.drop_first() + b);
        lemma_chained_concat(a.drop_first(), b, a[0].end_line);
    }
}

proof fn lemma_chained_one(x: TokenView, line: nat)
    requires
        x.start_line == line,
        x.start_line <= x.end_line,
    ensures
        lines_chained(seq![x], line),
        last_line(seq![x], line) == x.end_line,
{
    assert(seq![x].drop_first() =~= Seq::<TokenView>::empty());
    assert(lines_chained(Seq::<TokenView>::empty(), x.end_line));
    assert(last_line(Seq::<TokenView>::empty(), x.end_line) == x.end_line);
}

/// The tokens from `i` on are chained from `line`, and the last ends past
/// every line break from `i` on.
proof fn lemma_tokens_lines(s: Seq<char>, i: int, line: nat, directive: bool)
    requires
        0 <= i <= s.len(),
    ensures
        lines_chained(tokens_from(s, i, line, directive), line),
        last_line(tokens_from(s, i, line, directive), line) == line + newlines(s.subrange(i, s.len() as int)),
    decreases s.len() - i, if directive { 1int } else { 0int },
{
    let n = s.len() as int;
    if i == s.len() {
        assert(s.subrange(i, n) =~= Seq::<char>::empty());
    } else {
        lemma_run_lens(s, i + 1, false);
        lemma_run_lens(s, i + 1, true);
        if directive {
            if s[i] == '\n' {
                lemma_tokens_lines(s, i, line, false);
            } else if is_word_char(s[i]) {
                let e = i + 1 + word_len(s, i + 1);
                let first = seq![word_token(s.subrange(i, e), line)];
                lemma_tokens_lines(s, e, line, true);
                lemma_chained_one(first[0], line);
                lemma_chained_concat(first, tokens_from(s, e, line, true), line);
                lemma_runs_single_line(s, i + 1);
                lemma_newlines_char(s[i]);
                assert(s.subrange(i, e) =~= seq![s[i]] + s.subrange(i + 1, e));
                lemma_newlines_concat(seq![s[i]], s.subrange(i + 1, e));
                lemma_newlines_split(s, i, e, n);
            } else if s[i] == '"' {
                let e = i + 1 + closing_len(s, i + 1);
                let t = s.subrange(i, e);
                let first = seq![spanning(TokenKind::Path, t, line)];
                lemma_tokens_lines(s, e, line + newlines(t), true);
                lemma_chained_one(first[0], line);
                lemma_chained_concat(first, tokens_from(s, e, line + newlines(t), true), line);
                lemma_newlines_split(s, i, e, n);
            } else {
                lemma_tokens_lines(s, i + 1, line, true);
                lemma_newlines_char(s[i]);
                assert(s.subrange(i, i + 1) =~= seq![s[i]]);
                lemma_newlines_split(s, i, i + 1, n);
            }
        } else if s[i] == '#' {
            if i + 1 < s.len() && s[i + 1] == '!' {
                lemma_run_lens(s, i + 2, false);
                let e = i + 2 + line_len(s, i + 2);
                let body = s.subrange(i + 2, e);
                let first = seq![
                    TokenView { kind: TokenKind::Shebang, lexeme: seq!['#', '!'], start_line: line, end_line: line },
                ];
                let mid = shebang_body(body, line);
                lemma_tokens_lines(s, e, line, false);
                lemma_chained_one(first[0], line);
                if body.len() > 0 {
                    lemma_chained_one(mid[0], line);
                }
                lemma_chained_concat(first, mid, line);
                lemma_chained_concat(first + mid, tokens_from(s, e, line, false), line);
                lemma_runs_single_line(s, i + 2);
                lemma_newlines_char('#');
                lemma_newlines_char('!');
                assert(s.subrange(i, e) =~= seq!['#'] + (seq!['!'] + body));
                lemma_newlines_concat(seq!['!'], body);
                lemma_newlines_concat(seq!['#'], seq!['!'] + body);
                lemma_newlines_split(s, i, e, n);
            } else {
                let first = seq![
                    TokenView { kind: TokenKind::Hash, lexeme: seq!['#'], start_line: line, end_line: line },
                ];
                lemma_tokens_lines(s, i + 1, line, true);
                lemma_chained_one(first[0], line);
                lemma_chained_concat(first, tokens_from(s, i + 1, line, true), line);
                lemma_newlines_char('#');
                assert(s.subrange(i, i + 1) =~= seq!['#']);
                lemma_newlines_split(s, i, i + 1, n);
            }
        } else {
            let e = i + 1 + text_len(s, i + 1, is_quote(s[i]));
            let t = s.subrange(i, e);
            let first = seq![spanning(TokenKind::Text, t, line)];
            lemma_tokens_lines(s, e, line + newlines(t), false);
            lemma_chained_one(first[0], line);
            lemma_chained_concat(first, tokens_from(s, e, line + newlines(t), false), line);
            lemma_newlines_split(s, i, e, n);
        }
    }
}

proof fn lemma_chained_pairs(ts: Seq<TokenView>, line: nat)
    requires
        lines_chained(ts, line),
    ensures
        forall|k: int| 0 <= k < ts.len() ==> #[trigger] ts[k].start_line <= ts[k].end_line,
        forall|k: int| 0 <= k < ts.len() - 1 ==> #[trigger] ts[k].end_line == ts[k + 1].start_line,
        ts.len() > 0 ==> ts[0].start_line == line && ts.last().end_line == last_line(ts, line),
    decreases ts.len(),
{
    if ts.len() > 0 {
        let rest = ts.drop_first();
        lemma_chained_pairs(rest, ts[0].end_line);
        assert forall|k: int| 0 <= k < ts.len() implies #[trigger] ts[k].start_line <= ts[k].end_line by {
            if k > 0 {
                assert(ts[k] == rest[k - 1]);
            }
        }
        assert forall|k: int| 0 <= k < ts.len() - 1 implies #[trigger] ts[k].end_line == ts[k + 1].start_line by {
            assert(ts[k + 1] == rest[k]);
            if k > 0 {
                assert(ts[k] == rest[k - 1]);
            }
        }
        if rest.len() > 0 {
            assert(ts.last() == rest.last());
        } else {
            assert(last_line(rest, ts[0].end_line) == ts[0].end_line);
        }
    }
}

/// Line numbers never go back: each token ends no earlier than it starts,
/// the next starts where it ended, the first starts on line 1, and the
/// last of a non-empty text ends on 1 plus the number of its line breaks.
pub proof fn lemma_scan_lines(s: Seq<char>)
    ensures
        forall|k: int| 0 <= k < scan_tokens(s).len() ==> #[trigger] scan_tokens(s)[k].start_line
            <= scan_tokens(s)[k].end_line,
        forall|k: int| 0 <= k < scan_tokens(s).len() - 1 ==> #[trigger] scan_tokens(s)[k].end_line
            == scan_tokens(s)[k + 1].start_line,
        forall|k: int| 0 <= k < scan_tokens(s).len() - 1 ==> {
            &&& #[trigger] scan_tokens(s)[k].start_line <= scan_tokens(s)[k + 1].start_line
            &&& scan_tokens(s)[k].end_line <= scan_tokens(s)[k + 1].end_line
        },
        scan_tokens(s).len() > 0 ==> scan_tokens(s)[0].start_line == 1,
        s.len() > 0 ==> scan_tokens(s).len() > 0 && scan_tokens(s).last().end_line == 1 + newlines(s),
{
    let ts = scan_tokens(s);
    lemma_tokens_lines(s, 0, 1, false);
    lemma_chained_pairs(ts, 1);
    assert(s.subrange(0, s.len() as int) =~= s);
    assert forall|k: int| 0 <= k < ts.len() - 1 implies {
        &&& #[trigger] ts[k].start_line <= ts[k + 1].start_line
        &&& ts[k].end_line <= ts[k + 1].end_line
    } by {
        assert(ts[k].start_line <= ts[k].end_line);
        assert(ts[k + 1].start_line <= ts[k + 1].end_line);
    }
    if s.len() > 0 {
        lemma_run_lens(s, 1, false);
        lemma_run_lens(s, 1, true);
        assert(ts.len() > 0);
    }
}

/// Text that holds no `#` forms a single run: stripping it changes nothing.
pub proof fn lemma_strip_without_marker(s: Seq<char>)
    requires
        forall|k: int| 0 <= k < s.len() ==> s[k] != '#',
    ensures
        strip_text(s) == s,
{
    if s.len() > 0 {
        lemma_text_to_end(s, 1, is_quote(s[0]));
        let t = s.subrange(0, s.len() as int);
        let ts = scan_tokens(s);
        assert(t =~= s);
        assert(tokens_from(s, s.len() as int, 1 + newlines(t), false) == Seq::<TokenView>::empty());
        assert(ts =~= seq![spanning(TokenKind::Text, t, 1)]);
        assert(stripped(Seq::<TokenView>::empty()) == Seq::<char>::empty());
        assert(ts.drop_last() =~= Seq::<TokenView>::empty());
        assert(stripped(ts) =~= s);
    }
}

proof fn lemma_text_to_end(s: Seq<char>, i: int, quoted: bool)
    requires
        0 <= i <= s.len(),
        forall|k: int| 0 <= k < s.len() ==> s[k] != '#',
    ensures
        i + text_len(s, i, quoted) == s.len(),
    decreases s.len() - i,
{
    if i < s.len() {
        lemma_text_to_end(s, i + 1, if is_quote(s[i]) { !quoted } else { quoted });
    }
}

} // verus!
