//! Recursive-descent parser for the machine definition language:
//!
//! ```text
//! def       := "fn" ident alphaSet block
//! alphaSet  := "[" symbol ("," symbol)* "]"        (must contain "_")
//! block     := "{" stmt* "}"
//! stmt      := step ";" | "branch" step block | "cycle" block
//! step      := atomicStep ("or" atomicStep)* ("or" defaultOp)? | defaultOp
//! atomicStep:= symbol ("->" symbol)? (">>" | "<<")?
//! defaultOp := "break" | "halt" | ">>" | "<<"
//! ```
//!
//! Whitespace is skipped between tokens. Identifiers and alphabet symbols
//! that collide with a keyword are rejected with a keyword-specific error;
//! symbols used in the body must be declared in the alphabet of the `def`
//! header, which is threaded into the block parser as read-only context.

use vstd::prelude::*;

use crate::ast::merge_cases;
use crate::ast::AtomicTmStep;
use crate::ast::AtomicV;
use crate::ast::DefV;
use crate::ast::OpV;
use crate::ast::StepV;
use crate::ast::StmtV;
use crate::ast::TmBlock;
use crate::ast::TmDef;
use crate::ast::TmDir;
use crate::ast::TmOperation;
use crate::ast::TmStep;
use crate::ast::TmStmt;
use crate::tm::declares;
use crate::tm::blank;
use crate::tm::blank_symbol;
use crate::tm::contains_symbol;

verus! {

/// Why parsing failed.
#[derive(Clone, Copy, Debug, PartialEq, Eq, Structural)]
pub enum ParseErrorKind {
    /// A token was expected and the character cannot start one.
    UnexpectedCharacter,
    /// A keyword stands where an identifier or a symbol is required.
    UnexpectedKeyword,
    /// The declared alphabet does not contain the blank symbol.
    MissingBlank,
    /// A symbol in the body is not declared in the alphabet.
    UndeclaredSymbol,
    /// A fixed token (a bracket, brace, semicolon or `fn`) is missing.
    MissingToken,
}

/// A structured parse error: where, and why.
#[derive(Clone, Copy, Debug, PartialEq, Eq, Structural)]
pub struct ParseError {
    pub position: usize,
    pub kind: ParseErrorKind,
}

/// Whitespace skipped between tokens.
pub open spec fn is_ws_char(c: char) -> bool {
    c == ' ' || c == '\t' || c == '\r' || c == '\n'
}

/// An ASCII letter.
pub open spec fn is_letter(c: char) -> bool {
    (97 <= c as u32 && c as u32 <= 122) || (65 <= c as u32 && c as u32 <= 90)
}

/// An ASCII digit.
pub open spec fn is_digit_char(c: char) -> bool {
    48 <= c as u32 && c as u32 <= 57
}

/// A character that may start an identifier.
pub open spec fn is_ident_start(c: char) -> bool {
    is_letter(c) || c == '_'
}

/// A character that may continue an identifier.
pub open spec fn is_word_char(c: char) -> bool {
    is_letter(c) || is_digit_char(c) || c == '_'
}

/// A character of an alphabet symbol.
pub open spec fn is_symbol_char(c: char) -> bool {
    is_letter(c) || is_digit_char(c) || c == '_' || c == '\'' || c == '"' || c == '!' || c == '@'
        || c == '#' || c == '$' || c == '%' || c == '^' || c == '&'
}

/// The four reserved words of the language.
pub open spec fn is_keyword(t: Seq<char>) -> bool {
    t == "cycle"@ || t == "branch"@ || t == "break"@ || t == "halt"@
}

/// What remains of the input at a position; the termination measure of every
/// parsing function.
pub open spec fn rem(s: Seq<char>, pos: int) -> nat {
    if pos <= s.len() {
        (s.len() - pos) as nat
    } else {
        0nat
    }
}

/// The length of the whitespace run at `pos`.
pub open spec fn ws_len(s: Seq<char>, pos: int) -> nat
    decreases rem(s, pos),
{
    if 0 <= pos < s.len() && is_ws_char(s[pos]) {
        1 + ws_len(s, pos + 1)
    } else {
        0
    }
}

/// The length of the symbol-character run at `pos`.
pub open spec fn sym_len(s: Seq<char>, pos: int) -> nat
    decreases rem(s, pos),
{
    if 0 <= pos < s.len() && is_symbol_char(s[pos]) {
        1 + sym_len(s, pos + 1)
    } else {
        0
    }
}

/// The length of the identifier-character run at `pos`.
pub open spec fn word_len(s: Seq<char>, pos: int) -> nat
    decreases rem(s, pos),
{
    if 0 <= pos < s.len() && is_word_char(s[pos]) {
        1 + word_len(s, pos + 1)
    } else {
        0
    }
}

/// A run starting within the input ends within the input.
proof fn lemma_ws_len_le(s: Seq<char>, pos: int)
    requires
        0 <= pos <= s.len(),
    ensures
        pos + ws_len(s, pos) <= s.len(),
    decreases rem(s, pos),
{
    if pos < s.len() && is_ws_char(s[pos]) {
        lemma_ws_len_le(s, pos + 1);
    }
}

proof fn lemma_sym_len_le(s: Seq<char>, pos: int)
    requires
        0 <= pos <= s.len(),
    ensures
        pos + sym_len(s, pos) <= s.len(),
    decreases rem(s, pos),
{
    if pos < s.len() && is_symbol_char(s[pos]) {
        lemma_sym_len_le(s, pos + 1);
    }
}

proof fn lemma_word_len_le(s: Seq<char>, pos: int)
    requires
        0 <= pos <= s.len(),
    ensures
        pos + word_len(s, pos) <= s.len(),
    decreases rem(s, pos),
{
    if pos < s.len() && is_word_char(s[pos]) {
        lemma_word_len_le(s, pos + 1);
    }
}

/// Is this character whitespace?
fn ws_char(c: char) -> (r: bool)
    ensures
        r == is_ws_char(c),
{
    c == ' ' || c == '\t' || c == '\r' || c == '\n'
}

/// May this character stand in an alphabet symbol?
fn symbol_char(c: char) -> (r: bool)
    ensures
        r == is_symbol_char(c),
{
    let u = c as u32;
    (97 <= u && u <= 122) || (65 <= u && u <= 90) || (48 <= u && u <= 57) || c == '_' || c == '\''
        || c == '"' || c == '!' || c == '@' || c == '#' || c == '$' || c == '%' || c == '^'
        || c == '&'
}

/// May this character continue an identifier?
fn word_char(c: char) -> (r: bool)
    ensures
        r == is_word_char(c),
{
    let u = c as u32;
    (97 <= u && u <= 122) || (65 <= u && u <= 90) || (48 <= u && u <= 57) || c == '_'
}

/// Skip whitespace: the position after the whitespace run at `pos`.
fn skip_ws(s: &str, pos: usize) -> (r: usize)
    requires
        pos <= s@.len(),
    ensures
        r as int == pos + ws_len(s@, pos as int),
        pos <= r <= s@.len(),
{
    let n = s.unicode_len();
    let mut end = pos;
    while end < n && ws_char(s.get_char(end))
        invariant
            pos <= end <= n,
            n == s@.len(),
            ws_len(s@, pos as int) == end - pos + ws_len(s@, end as int),
        decreases n - end,
    {
        end += 1;
    }
    end
}

/// The end of the symbol-character run at `pos`.
fn scan_symbol(s: &str, pos: usize) -> (r: usize)
    requires
        pos <= s@.len(),
    ensures
        r as int == pos + sym_len(s@, pos as int),
        pos <= r <= s@.len(),
{
    let n = s.unicode_len();
    let mut end = pos;
    while end < n && symbol_char(s.get_char(end))
        invariant
            pos <= end <= n,
            n == s@.len(),
            sym_len(s@, pos as int) == end - pos + sym_len(s@, end as int),
        decreases n - end,
    {
        end += 1;
    }
    end
}

/// The end of the identifier-character run at `pos`.
fn scan_word(s: &str, pos: usize) -> (r: usize)
    requires
        pos <= s@.len(),
    ensures
        r as int == pos + word_len(s@, pos as int),
        pos <= r <= s@.len(),
{
    let n = s.unicode_len();
    let mut end = pos;
    while end < n && word_char(s.get_char(end))
        invariant
            pos <= end <= n,
            n == s@.len(),
            word_len(s@, pos as int) == end - pos + word_len(s@, end as int),
        decreases n - end,
    {
        end += 1;
    }
    end
}

/// The text of the input between two positions, as a fresh string.
fn extract(s: &str, from: usize, to: usize) -> (r: String)
    requires
        from <= to <= s@.len(),
    ensures
        r@ == s@.subrange(from as int, to as int),
{
    String::from_str(s.substring_char(from, to))
}

/// Is this token one of the four reserved words?
fn keyword_token(t: &String) -> (r: bool)
    ensures
        r == is_keyword(t@),
{
    t.eq(&String::from_str("cycle")) || t.eq(&String::from_str("branch"))
        || t.eq(&String::from_str("break")) || t.eq(&String::from_str("halt"))
}

/// The identifier at `pos`: a letter or underscore, then letters, digits and
/// underscores, read greedily; a keyword is rejected.
pub open spec fn spec_ident(s: Seq<char>, pos: int) -> Result<(Seq<char>, int), (
    int,
    ParseErrorKind,
)> {
    if !(0 <= pos < s.len()) || !is_ident_start(s[pos]) {
        Err((pos, ParseErrorKind::UnexpectedCharacter))
    } else {
        let end = pos + 1 + word_len(s, pos + 1);
        let t = s.subrange(pos, end);
        if is_keyword(t) {
            Err((pos, ParseErrorKind::UnexpectedKeyword))
        } else {
            Ok((t, end))
        }
    }
}

/// The alphabet symbol at `pos`: one or more symbol characters, read
/// greedily; a keyword is rejected.
pub open spec fn spec_symbol(s: Seq<char>, pos: int) -> Result<(Seq<char>, int), (
    int,
    ParseErrorKind,
)> {
    if sym_len(s, pos) == 0 {
        Err((pos, ParseErrorKind::UnexpectedCharacter))
    } else {
        let end = pos + sym_len(s, pos);
        let t = s.subrange(pos, end);
        if is_keyword(t) {
            Err((pos, ParseErrorKind::UnexpectedKeyword))
        } else {
            Ok((t, end))
        }
    }
}

/// Keyword rejection: where the greedy token at `pos` is exactly one of
/// `cycle`, `branch`, `break` or `halt`, parsing it as an identifier or as an
/// alphabet symbol fails with the keyword-specific error, never with the
/// generic character-class error.
pub proof fn lemma_keyword_rejected(s: Seq<char>, pos: int)
    requires
        0 <= pos <= s.len(),
    ensures
        is_keyword(s.subrange(pos, pos + sym_len(s, pos))) ==> spec_symbol(s, pos)
            == Err::<(Seq<char>, int), (int, ParseErrorKind)>((
            pos,
            ParseErrorKind::UnexpectedKeyword,
        )),
        0 <= pos < s.len() && is_ident_start(s[pos]) && is_keyword(
            s.subrange(pos, pos + 1 + word_len(s, pos + 1)),
        ) ==> spec_ident(s, pos) == Err::<(Seq<char>, int), (int, ParseErrorKind)>((
            pos,
            ParseErrorKind::UnexpectedKeyword,
        )),
{
    if is_keyword(s.subrange(pos, pos + sym_len(s, pos))) {
        reveal_strlit("cycle");
        reveal_strlit("branch");
        reveal_strlit("break");
        reveal_strlit("halt");
        assert(s.subrange(pos, pos + sym_len(s, pos)).len() > 0);
        assert(sym_len(s, pos) != 0);
    }
}

/// Parse an identifier; exactly [`spec_ident`].
pub fn tm_ident(s: &str, pos: usize) -> (r: Result<(String, usize), ParseError>)
    requires
        pos <= s@.len(),
    ensures
        match r {
            Ok(t_p) => spec_ident(s@, pos as int) == Ok::<(Seq<char>, int), (
                int,
                ParseErrorKind,
            )>((t_p.0@, t_p.1 as int)) && t_p.1 <= s@.len(),
            Err(e) => spec_ident(s@, pos as int) == Err::<(Seq<char>, int), (
                int,
                ParseErrorKind,
            )>((e.position as int, e.kind)),
        },
{
    let n = s.unicode_len();
    if pos >= n {
        return Err(ParseError { position: pos, kind: ParseErrorKind::UnexpectedCharacter });
    }
    let c = s.get_char(pos);
    let u = c as u32;
    if !((97 <= u && u <= 122) || (65 <= u && u <= 90) || c == '_') {
        return Err(ParseError { position: pos, kind: ParseErrorKind::UnexpectedCharacter });
    }
    let end = scan_word(s, pos + 1);
    let t = extract(s, pos, end);
    if keyword_token(&t) {
        return Err(ParseError { position: pos, kind: ParseErrorKind::UnexpectedKeyword });
    }
    Ok((t, end))
}

/// Parse an alphabet symbol; exactly [`spec_symbol`].
pub fn tm_alpha(s: &str, pos: usize) -> (r: Result<(String, usize), ParseError>)
    requires
        pos <= s@.len(),
    ensures
        match r {
            Ok(t_p) => spec_symbol(s@, pos as int) == Ok::<(Seq<char>, int), (
                int,
                ParseErrorKind,
            )>((t_p.0@, t_p.1 as int)) && pos < t_p.1 <= s@.len(),
            Err(e) => spec_symbol(s@, pos as int) == Err::<(Seq<char>, int), (
                int,
                ParseErrorKind,
            )>((e.position as int, e.kind)),
        },
{
    let end = scan_symbol(s, pos);
    if end == pos {
        return Err(ParseError { position: pos, kind: ParseErrorKind::UnexpectedCharacter });
    }
    let t = extract(s, pos, end);
    if keyword_token(&t) {
        return Err(ParseError { position: pos, kind: ParseErrorKind::UnexpectedKeyword });
    }
    Ok((t, end))
}

/// The comma-separated symbols after the opening bracket, ending at `]`;
/// whitespace is skipped after every token, including the closing bracket.
pub open spec fn spec_alpha_symbols(s: Seq<char>, pos: int) -> Result<(Seq<Seq<char>>, int), (
    int,
    ParseErrorKind,
)>
    decreases rem(s, pos),
{
    match spec_symbol(s, pos) {
        Err(e) => Err(e),
        Ok(t_p) => {
            let p2 = t_p.1 + ws_len(s, t_p.1);
            if 0 <= p2 < s.len() && s[p2] == ',' {
                match spec_alpha_symbols(s, p2 + 1 + ws_len(s, p2 + 1)) {
                    Err(e) => Err(e),
                    Ok(rest) => Ok((seq![t_p.0] + rest.0, rest.1)),
                }
            } else if 0 <= p2 < s.len() && s[p2] == ']' {
                Ok((seq![t_p.0], p2 + 1 + ws_len(s, p2 + 1)))
            } else {
                Err((p2, ParseErrorKind::MissingToken))
            }
        },
    }
}

/// The alphabet declaration at `pos`: `[` symbol (`,` symbol)* `]`, which
/// must declare the blank symbol.
pub open spec fn spec_alpha_set(s: Seq<char>, pos: int) -> Result<(Seq<Seq<char>>, int), (
    int,
    ParseErrorKind,
)> {
    if !(0 <= pos < s.len()) || s[pos] != '[' {
        Err((pos, ParseErrorKind::MissingToken))
    } else {
        match spec_alpha_symbols(s, pos + 1 + ws_len(s, pos + 1)) {
            Err(e) => Err(e),
            Ok(syms) => if declares(syms.0, blank()) {
                Ok(syms)
            } else {
                Err((pos, ParseErrorKind::MissingBlank))
            },
        }
    }
}

/// Parse an alphabet declaration; exactly [`spec_alpha_set`].
#[verifier::loop_isolation(false)]
pub fn tm_alpha_set(s: &str, pos: usize) -> (r: Result<(Vec<String>, usize), ParseError>)
    requires
        pos <= s@.len(),
    ensures
        match r {
            Ok(a_p) => spec_alpha_set(s@, pos as int) == Ok::<(Seq<Seq<char>>, int), (
                int,
                ParseErrorKind,
            )>((a_p.0.deep_view(), a_p.1 as int)) && a_p.1 <= s@.len(),
            Err(e) => spec_alpha_set(s@, pos as int) == Err::<(Seq<Seq<char>>, int), (
                int,
                ParseErrorKind,
            )>((e.position as int, e.kind)),
        },
{
    let n = s.unicode_len();
    if pos >= n || s.get_char(pos) != '[' {
        return Err(ParseError { position: pos, kind: ParseErrorKind::MissingToken });
    }
    let start = skip_ws(s, pos + 1);
    let mut syms: Vec<String> = Vec::new();
    let mut cur = start;
    let ghost target = spec_alpha_symbols(s@, start as int);
    loop
        invariant
            cur <= s@.len(),
            n == s@.len(),
            target == match spec_alpha_symbols(s@, cur as int) {
                Ok(rest) => Ok::<(Seq<Seq<char>>, int), (int, ParseErrorKind)>((
                    syms.deep_view() + rest.0,
                    rest.1,
                )),
                Err(e) => Err(e),
            },
        decreases s@.len() - cur,
    {
        let t = match tm_alpha(s, cur) {
            Ok(t_p) => {
                cur = t_p.1;
                t_p.0
            },
            Err(e) => {
                return Err(e);
            },
        };
        let ghost prev = syms.deep_view();
        syms.push(t);
        proof {
            assert(syms.deep_view() =~= prev.push(t@));
        }
        let p2 = skip_ws(s, cur);
        if p2 < n && s.get_char(p2) == ',' {
            let next = skip_ws(s, p2 + 1);
            proof {
                assert((prev + seq![t@]) =~= syms.deep_view());
                assert forall|rest0: Seq<Seq<char>>| true implies prev + (seq![t@] + rest0)
                    =~= syms.deep_view() + rest0 by {}
            }
            cur = next;
        } else if p2 < n && s.get_char(p2) == ']' {
            let fin = skip_ws(s, p2 + 1);
            proof {
                assert(prev + seq![t@] =~= syms.deep_view());
            }
            let blank_sym = blank_symbol();
            if !contains_symbol(&syms, &blank_sym) {
                return Err(ParseError { position: pos, kind: ParseErrorKind::MissingBlank });
            }
            return Ok((syms, fin));
        } else {
            return Err(ParseError { position: p2, kind: ParseErrorKind::MissingToken });
        }
    }
}

/// Do the two characters `a`, `b` stand at `pos`?
pub open spec fn at2(s: Seq<char>, pos: int, a: char, b: char) -> bool {
    0 <= pos && pos + 2 <= s.len() && s[pos] == a && s[pos + 1] == b
}

/// Exec twin of [`at2`].
fn two(s: &str, pos: usize, a: char, b: char) -> (r: bool)
    requires
        pos <= s@.len(),
    ensures
        r == at2(s@, pos as int, a, b),
{
    let n = s.unicode_len();
    pos < n && pos + 1 < n && s.get_char(pos) == a && s.get_char(pos + 1) == b
}

/// The alternatives of a step from `pos` on: each an atomic step (symbol,
/// optional replacement, optional direction), separated by `or`, with an
/// optional trailing default operation; symbols must be declared.
pub open spec fn spec_step_items(s: Seq<char>, pos: int, alphabet: Seq<Seq<char>>) -> Result<
    ((Seq<AtomicV>, Option<OpV>), int),
    (int, ParseErrorKind),
>
    decreases rem(s, pos), 1int,
{
    if at2(s, pos, '>', '>') {
        Ok(
            (
                (Seq::empty(), Some(OpV::Move { replace: None, direction: TmDir::Right })),
                pos + 2 + ws_len(s, pos + 2),
            ),
        )
    } else if at2(s, pos, '<', '<') {
        Ok(
            (
                (Seq::empty(), Some(OpV::Move { replace: None, direction: TmDir::Left })),
                pos + 2 + ws_len(s, pos + 2),
            ),
        )
    } else if sym_len(s, pos) == 0 {
        Err((pos, ParseErrorKind::UnexpectedCharacter))
    } else {
        let tok_end = pos + sym_len(s, pos);
        let tok = s.subrange(pos, tok_end);
        if tok == "break"@ {
            Ok(((Seq::empty(), Some(OpV::Break)), tok_end + ws_len(s, tok_end)))
        } else if tok == "halt"@ {
            Ok(((Seq::empty(), Some(OpV::Halt)), tok_end + ws_len(s, tok_end)))
        } else if is_keyword(tok) {
            Err((pos, ParseErrorKind::UnexpectedKeyword))
        } else if !declares(alphabet, tok) {
            Err((pos, ParseErrorKind::UndeclaredSymbol))
        } else {
            let p = tok_end + ws_len(s, tok_end);
            if at2(s, p, '-', '>') {
                let p2 = p + 2 + ws_len(s, p + 2);
                if sym_len(s, p2) == 0 {
                    Err((p2, ParseErrorKind::UnexpectedCharacter))
                } else {
                    let rep_end = p2 + sym_len(s, p2);
                    let rep = s.subrange(p2, rep_end);
                    if is_keyword(rep) {
                        Err((p2, ParseErrorKind::UnexpectedKeyword))
                    } else if !declares(alphabet, rep) {
                        Err((p2, ParseErrorKind::UndeclaredSymbol))
                    } else {
                        spec_step_tail(s, rep_end + ws_len(s, rep_end), alphabet, tok, Some(rep))
                    }
                }
            } else {
                spec_step_tail(s, p, alphabet, tok, None)
            }
        }
    }
}

/// After a pattern and its optional replacement: the optional direction, and
/// either an `or` leading to further alternatives or the end of the step.
pub open spec fn spec_step_tail(
    s: Seq<char>,
    pos: int,
    alphabet: Seq<Seq<char>>,
    pattern: Seq<char>,
    repl: Option<Seq<char>>,
) -> Result<((Seq<AtomicV>, Option<OpV>), int), (int, ParseErrorKind)>
    decreases rem(s, pos), 0int,
{
    let dir_p = if at2(s, pos, '>', '>') {
        (TmDir::Right, pos + 2 + ws_len(s, pos + 2))
    } else if at2(s, pos, '<', '<') {
        (TmDir::Left, pos + 2 + ws_len(s, pos + 2))
    } else {
        (TmDir::Stay, pos)
    };
    let atomic = AtomicV {
        patterns: seq![pattern],
        operation: OpV::Move { replace: repl, direction: dir_p.0 },
    };
    if at2(s, dir_p.1, 'o', 'r') {
        match spec_step_items(s, dir_p.1 + 2 + ws_len(s, dir_p.1 + 2), alphabet) {
            Err(e) => Err(e),
            Ok(rest) => Ok(((seq![atomic] + rest.0.0, rest.0.1), rest.1)),
        }
    } else {
        Ok(((seq![atomic], None), dir_p.1))
    }
}

/// A whole step: its alternatives merged into a case list — first
/// declaration wins — with the optional default.
pub open spec fn spec_step(s: Seq<char>, pos: int, alphabet: Seq<Seq<char>>) -> Result<
    (StepV, int),
    (int, ParseErrorKind),
> {
    match spec_step_items(s, pos, alphabet) {
        Err(e) => Err(e),
        Ok(r) => Ok((StepV { cases: merge_cases(r.0.0), default: r.0.1 }, r.1)),
    }
}

/// One statement: a step ended by `;`, or `branch` step block, or `cycle`
/// block. Whether a leading token is the `branch` or `cycle` keyword is
/// decided on the greedy symbol token, so `cycles` is an ordinary symbol.
pub open spec fn spec_stmt(s: Seq<char>, pos: int, alphabet: Seq<Seq<char>>) -> Result<
    (StmtV, int),
    (int, ParseErrorKind),
>
    decreases rem(s, pos), 1int,
{
    let tok_end = pos + sym_len(s, pos);
    let tok = s.subrange(pos, tok_end);
    if sym_len(s, pos) != 0 && tok == "branch"@ {
        match spec_step(s, tok_end + ws_len(s, tok_end), alphabet) {
            Err(e) => Err(e),
            Ok(st) => {
                // a parsed step always ends past `pos`; the clamp only keeps
                // the recursion well founded
                let p2 = if st.1 <= pos {
                    pos + 1
                } else {
                    st.1
                };
                match spec_block(s, p2, alphabet) {
                    Err(e) => Err(e),
                    Ok(b) => Ok((StmtV::Branch { condition: st.0, body: b.0 }, b.1)),
                }
            },
        }
    } else if sym_len(s, pos) != 0 && tok == "cycle"@ {
        match spec_block(s, tok_end + ws_len(s, tok_end), alphabet) {
            Err(e) => Err(e),
            Ok(b) => Ok((StmtV::Cycle(b.0), b.1)),
        }
    } else {
        match spec_step(s, pos, alphabet) {
            Err(e) => Err(e),
            Ok(st) => if 0 <= st.1 < s.len() && s[st.1] == ';' {
                Ok((StmtV::Step(st.0), st.1 + 1 + ws_len(s, st.1 + 1)))
            } else {
                Err((st.1, ParseErrorKind::MissingToken))
            },
        }
    }
}

/// The statements up to and including the closing `}`.
pub open spec fn spec_stmts(s: Seq<char>, pos: int, alphabet: Seq<Seq<char>>) -> Result<
    (Seq<StmtV>, int),
    (int, ParseErrorKind),
>
    decreases rem(s, pos), 2int,
{
    if !(0 <= pos < s.len()) {
        Err((pos, ParseErrorKind::MissingToken))
    } else if s[pos] == '}' {
        Ok((Seq::empty(), pos + 1 + ws_len(s, pos + 1)))
    } else {
        match spec_stmt(s, pos, alphabet) {
            Err(e) => Err(e),
            Ok(st) => {
                // a parsed statement always ends past `pos`; the clamp only
                // keeps the recursion well founded
                let p = if st.1 <= pos {
                    pos + 1
                } else {
                    st.1
                };
                match spec_stmts(s, p, alphabet) {
                    Err(e) => Err(e),
                    Ok(rest) => Ok((seq![st.0] + rest.0, rest.1)),
                }
            },
        }
    }
}

/// A block: `{` stmt* `}`.
pub open spec fn spec_block(s: Seq<char>, pos: int, alphabet: Seq<Seq<char>>) -> Result<
    (Seq<StmtV>, int),
    (int, ParseErrorKind),
>
    decreases rem(s, pos), 0int,
{
    if !(0 <= pos < s.len()) || s[pos] != '{' {
        Err((pos, ParseErrorKind::MissingToken))
    } else {
        spec_stmts(s, pos + 1 + ws_len(s, pos + 1), alphabet)
    }
}

/// A whole definition: `fn` ident alphaSet block, from the start of the
/// input; what follows the block is left unread.
pub open spec fn spec_def(s: Seq<char>) -> Result<(DefV, int), (int, ParseErrorKind)> {
    if !at2(s, 0, 'f', 'n') {
        Err((0, ParseErrorKind::MissingToken))
    } else {
        match spec_ident(s, (2 + ws_len(s, 2)) as int) {
            Err(e) => Err(e),
            Ok(id) => match spec_alpha_set(s, id.1 + ws_len(s, id.1)) {
                Err(e) => Err(e),
                Ok(al) => match spec_block(s, al.1, al.0) {
                    Err(e) => Err(e),
                    Ok(b) => Ok(
                        (DefV { identifier: id.0, alphabet: al.0, block: b.0 }, b.1),
                    ),
                },
            },
        }
    }
}

/// The parser for statement bodies: it carries the declared alphabet as
/// read-only context, so that body symbols are checked against it.
pub struct TmParser(pub Vec<String>);

impl TmParser {
    /// Parse a step; exactly [`spec_step`].
    #[verifier::loop_isolation(false)]
    pub fn tm_step(&self, s: &str, pos: usize) -> (r: Result<(TmStep, usize), ParseError>)
        requires
            pos <= s@.len(),
        ensures
            match r {
                Ok(t_p) => spec_step(s@, pos as int, self.0.deep_view()) == Ok::<(StepV, int), (
                    int,
                    ParseErrorKind,
                )>((t_p.0@, t_p.1 as int)) && pos < t_p.1 <= s@.len(),
                Err(e) => spec_step(s@, pos as int, self.0.deep_view()) == Err::<(StepV, int), (
                    int,
                    ParseErrorKind,
                )>((e.position as int, e.kind)),
            },
    {
        let ghost alpha = self.0.deep_view();
        let ghost target = spec_step_items(s@, pos as int, alpha);
        let n = s.unicode_len();
        let mut acc: Vec<AtomicTmStep> = Vec::new();
        let mut cur = pos;
        loop
            invariant
                pos <= cur <= s@.len(),
                target == match spec_step_items(s@, cur as int, alpha) {
                    Ok(r2) => Ok::<((Seq<AtomicV>, Option<OpV>), int), (int, ParseErrorKind)>(
                        ((acc.deep_view() + r2.0.0, r2.0.1), r2.1),
                    ),
                    Err(e) => Err(e),
                },
            decreases s@.len() - cur,
        {
            let ghost cur0 = cur as int;
            if two(s, cur, '>', '>') || two(s, cur, '<', '<') {
                let dir = if two(s, cur, '>', '>') {
                    TmDir::Right
                } else {
                    TmDir::Left
                };
                let fin = skip_ws(s, cur + 2);
                let ghost d = Some(OpV::Move { replace: None, direction: dir });
                proof {
                    assert(spec_step_items(s@, cur0, alpha) matches Ok(r2) && r2.0.0
                        == Seq::<AtomicV>::empty() && r2.0.1 == d && r2.1 == fin as int);
                    assert(acc.deep_view() + Seq::<AtomicV>::empty() =~= acc.deep_view());
                }
                let step = TmStep::new(acc, Some(TmOperation::Move { replace: None, direction: dir }));
                return Ok((step, fin));
            }
            let end = scan_symbol(s, cur);
            if end == cur {
                return Err(ParseError { position: cur, kind: ParseErrorKind::UnexpectedCharacter });
            }
            let tok = extract(s, cur, end);
            if tok.eq(&String::from_str("break")) || tok.eq(&String::from_str("halt")) {
                let op = if tok.eq(&String::from_str("break")) {
                    TmOperation::Break
                } else {
                    TmOperation::Halt
                };
                let fin = skip_ws(s, end);
                proof {
                    assert(spec_step_items(s@, cur0, alpha) matches Ok(r2) && r2.0.0
                        == Seq::<AtomicV>::empty() && r2.0.1 == Some(op@) && r2.1 == fin as int);
                    assert(acc.deep_view() + Seq::<AtomicV>::empty() =~= acc.deep_view());
                }
                let step = TmStep::new(acc, Some(op));
                return Ok((step, fin));
            }
            if keyword_token(&tok) {
                return Err(ParseError { position: cur, kind: ParseErrorKind::UnexpectedKeyword });
            }
            if !contains_symbol(&self.0, &tok) {
                return Err(ParseError { position: cur, kind: ParseErrorKind::UndeclaredSymbol });
            }
            let mut p = skip_ws(s, end);
            let repl: Option<String> = if two(s, p, '-', '>') {
                let p2 = skip_ws(s, p + 2);
                let end2 = scan_symbol(s, p2);
                if end2 == p2 {
                    return Err(
                        ParseError { position: p2, kind: ParseErrorKind::UnexpectedCharacter },
                    );
                }
                let rep = extract(s, p2, end2);
                if keyword_token(&rep) {
                    return Err(ParseError { position: p2, kind: ParseErrorKind::UnexpectedKeyword });
                }
                if !contains_symbol(&self.0, &rep) {
                    return Err(ParseError { position: p2, kind: ParseErrorKind::UndeclaredSymbol });
                }
                p = skip_ws(s, end2);
                Some(rep)
            } else {
                None
            };
            let ghost rv = repl.deep_view();
            let dir: TmDir;
            let p2: usize;
            if two(s, p, '>', '>') {
                dir = TmDir::Right;
                p2 = skip_ws(s, p + 2);
            } else if two(s, p, '<', '<') {
                dir = TmDir::Left;
                p2 = skip_ws(s, p + 2);
            } else {
                dir = TmDir::Stay;
                p2 = p;
            }
            let ghost av = AtomicV {
                patterns: seq![tok@],
                operation: OpV::Move { replace: rv, direction: dir },
            };
            proof {
                assert(spec_step_tail(s@, p as int, alpha, tok@, rv) == (match spec_step_items(
                    s@,
                    cur0,
                    alpha,
                ) {
                    Ok(r2) => Ok::<((Seq<AtomicV>, Option<OpV>), int), (int, ParseErrorKind)>(r2),
                    Err(e) => Err(e),
                }));
            }
            let pattern_list = vec![tok];
            let atomic = AtomicTmStep::new(pattern_list, repl, dir);
            proof {
                assert(atomic@.patterns =~= av.patterns);
                assert(atomic@ == av);
            }
            let ghost prev = acc.deep_view();
            acc.push(atomic);
            proof {
                assert(acc.deep_view() =~= prev.push(av));
            }
            if two(s, p2, 'o', 'r') {
                let next = skip_ws(s, p2 + 2);
                proof {
                    assert forall|xs: Seq<AtomicV>| #[trigger] (acc.deep_view() + xs)
                        == prev + (seq![av] + xs) by {
                        assert(acc.deep_view() + xs =~= prev + (seq![av] + xs));
                    }
                }
                cur = next;
            } else {
                proof {
                    assert(spec_step_items(s@, cur0, alpha) matches Ok(r2) && r2.0.0 == seq![av]
                        && r2.0.1 == None::<OpV> && r2.1 == p2 as int);
                    assert(prev + seq![av] =~= acc.deep_view());
                }
                let step = TmStep::new(acc, None);
                return Ok((step, p2));
            }
        }
    }

    /// Parse one statement; exactly [`spec_stmt`].
    pub fn tm_stmt(&self, s: &str, pos: usize) -> (r: Result<(TmStmt, usize), ParseError>)
        requires
            pos <= s@.len(),
        ensures
            match r {
                Ok(t_p) => spec_stmt(s@, pos as int, self.0.deep_view()) == Ok::<(StmtV, int), (
                    int,
                    ParseErrorKind,
                )>((t_p.0@, t_p.1 as int)) && pos < t_p.1 <= s@.len(),
                Err(e) => spec_stmt(s@, pos as int, self.0.deep_view()) == Err::<(StmtV, int), (
                    int,
                    ParseErrorKind,
                )>((e.position as int, e.kind)),
            },
        decreases rem(s@, pos as int), 1int,
    {
        let n = s.unicode_len();
        let end = scan_symbol(s, pos);
        if end > pos {
            let tok = extract(s, pos, end);
            if tok.eq(&String::from_str("branch")) {
                let p = skip_ws(s, end);
                let cond_p = match self.tm_step(s, p) {
                    Ok(c) => c,
                    Err(e) => {
                        return Err(e);
                    },
                };
                let body_p = match self.tm_block(s, cond_p.1) {
                    Ok(b) => b,
                    Err(e) => {
                        return Err(e);
                    },
                };
                return Ok((TmStmt::Branch { condition: cond_p.0, body: body_p.0 }, body_p.1));
            }
            if tok.eq(&String::from_str("cycle")) {
                let p = skip_ws(s, end);
                let body_p = match self.tm_block(s, p) {
                    Ok(b) => b,
                    Err(e) => {
                        return Err(e);
                    },
                };
                return Ok((TmStmt::Cycle(body_p.0), body_p.1));
            }
        }
        let step_p = match self.tm_step(s, pos) {
            Ok(st) => st,
            Err(e) => {
                return Err(e);
            },
        };
        if step_p.1 < n && s.get_char(step_p.1) == ';' {
            let fin = skip_ws(s, step_p.1 + 1);
            Ok((TmStmt::Step(step_p.0), fin))
        } else {
            Err(ParseError { position: step_p.1, kind: ParseErrorKind::MissingToken })
        }
    }

    /// Parse a block; exactly [`spec_block`].
    #[verifier::loop_isolation(false)]
    pub fn tm_block(&self, s: &str, pos: usize) -> (r: Result<(TmBlock, usize), ParseError>)
        requires
            pos <= s@.len(),
        ensures
            match r {
                Ok(b_p) => spec_block(s@, pos as int, self.0.deep_view()) == Ok::<(Seq<StmtV>, int), (
                    int,
                    ParseErrorKind,
                )>((b_p.0@, b_p.1 as int)) && pos < b_p.1 <= s@.len(),
                Err(e) => spec_block(s@, pos as int, self.0.deep_view()) == Err::<(Seq<StmtV>, int), (
                    int,
                    ParseErrorKind,
                )>((e.position as int, e.kind)),
            },
        decreases rem(s@, pos as int), 0int,
    {
        let ghost alpha = self.0.deep_view();
        let n = s.unicode_len();
        if pos >= n || s.get_char(pos) != '{' {
            return Err(ParseError { position: pos, kind: ParseErrorKind::MissingToken });
        }
        let start = skip_ws(s, pos + 1);
        let ghost target = spec_stmts(s@, start as int, alpha);
        let mut stmts: Vec<TmStmt> = Vec::new();
        let mut cur = start;
        loop
            invariant
                pos < cur <= s@.len(),
                target == match spec_stmts(s@, cur as int, alpha) {
                    Ok(rest) => Ok::<(Seq<StmtV>, int), (int, ParseErrorKind)>(
                        (stmts.deep_view() + rest.0, rest.1),
                    ),
                    Err(e) => Err(e),
                },
            decreases s@.len() - cur,
        {
            if cur >= n {
                return Err(ParseError { position: cur, kind: ParseErrorKind::MissingToken });
            }
            if s.get_char(cur) == '}' {
                let fin = skip_ws(s, cur + 1);
                proof {
                    assert(stmts.deep_view() + Seq::<StmtV>::empty() =~= stmts.deep_view());
                }
                let block = TmBlock::new(stmts);
                return Ok((block, fin));
            }
            let st_p = match self.tm_stmt(s, cur) {
                Ok(st) => st,
                Err(e) => {
                    return Err(e);
                },
            };
            let ghost prev = stmts.deep_view();
            let ghost sv = st_p.0@;
            stmts.push(st_p.0);
            proof {
                assert(stmts.deep_view() =~= prev.push(sv));
                assert forall|xs: Seq<StmtV>| #[trigger] (stmts.deep_view() + xs)
                    == prev + (seq![sv] + xs) by {
                    assert(stmts.deep_view() + xs =~= prev + (seq![sv] + xs));
                }
            }
            cur = st_p.1;
        }
    }

    /// Parse a whole machine definition from the start of the input; exactly
    /// [`spec_def`]. On success the position after the block is returned;
    /// trailing input is left unread.
    pub fn parse_def(s: &str) -> (r: Result<(TmDef, usize), ParseError>)
        ensures
            match r {
                Ok(d_p) => spec_def(s@) == Ok::<(DefV, int), (int, ParseErrorKind)>((
                    d_p.0@,
                    d_p.1 as int,
                )) && d_p.1 <= s@.len(),
                Err(e) => spec_def(s@) == Err::<(DefV, int), (int, ParseErrorKind)>((
                    e.position as int,
                    e.kind,
                )),
            },
    {
        if !two(s, 0, 'f', 'n') {
            return Err(ParseError { position: 0, kind: ParseErrorKind::MissingToken });
        }
        let p1 = skip_ws(s, 2);
        let id_p = match tm_ident(s, p1) {
            Ok(i) => i,
            Err(e) => {
                return Err(e);
            },
        };
        let p2 = skip_ws(s, id_p.1);
        let al_p = match tm_alpha_set(s, p2) {
            Ok(a) => a,
            Err(e) => {
                return Err(e);
            },
        };
        let parser = TmParser(al_p.0);
        let b_p = match parser.tm_block(s, al_p.1) {
            Ok(b) => b,
            Err(e) => {
                return Err(e);
            },
        };
        let def = TmDef::new(id_p.0, parser.0, b_p.0);
        Ok((def, b_p.1))
    }
}

} // verus!
