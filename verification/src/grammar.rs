//! The placeholder grammar, as functions on character sequences.
//!
//! A text is cut into tokens from left to right. `scan_at` says which token
//! starts at a position and where it ends; the functions before it say where
//! each construct closes. Indices count characters; positions reported in
//! errors count UTF-8 bytes.

use crate::error::ErrorView;
use crate::text::{byte_offset, decimal, fits, lemma_subrange_fits};
use vstd::prelude::*;

verus! {

/// A lexical unit of a text, holding the parts of the text it is made of.
pub enum TokenView {
    /// A run of plain characters.
    Literal(Seq<char>),
    /// A reference to a variable, `$NAME` or `${NAME}` with an optional
    /// modifier and the text that follows it.
    Variable { name: Seq<char>, default: Option<Seq<char>>, strict: bool, conditional: bool },
    /// What stands between `$(` and its `)`.
    Command(Seq<char>),
    /// What stands between two backticks.
    BacktickCommand(Seq<char>),
    /// An escaped `$` or backtick: the character that the escape stands for.
    Escape(char),
}

/// What a scan finds at a position.
pub enum Scan {
    /// The position is the end of the text.
    End,
    /// A token that starts at the position and ends before `end`.
    Token { token: TokenView, end: int },
    /// The construct that starts at the position is malformed.
    Fail(ErrorView),
}

/// A modifier inside `${...}`: where it starts and which one it is.
pub struct Modifier {
    /// Index of the modifier's first character in the content.
    pub at: int,
    /// With a colon (`:-`, `:+`): an empty value counts as unset.
    pub strict: bool,
    /// `+` rather than `-`: substitute when the variable is present.
    pub conditional: bool,
}

impl Modifier {
    /// Number of characters of the modifier.
    pub open spec fn width(self) -> int {
        if self.strict {
            2
        } else {
            1
        }
    }
}

/// How the scan of a command substitution ends.
pub enum CommandEnd {
    /// The closing parenthesis stands at this index.
    Closed(int),
    /// The quote opened at this index is never closed.
    OpenQuote(int),
    /// The text ends with the parenthesis still open.
    Open,
}

/// An ASCII letter or an underscore.
pub open spec fn is_name_start(c: char) -> bool {
    let v = c as u32;
    (0x41 <= v <= 0x5a) || (0x61 <= v <= 0x7a) || c == '_'
}

/// An ASCII letter, an ASCII digit or an underscore.
pub open spec fn is_name_char(c: char) -> bool {
    let v = c as u32;
    is_name_start(c) || (0x30 <= v <= 0x39)
}

/// A backslash at `i` followed by `$` or a backtick: an escape that becomes
/// a token of its own.
pub open spec fn is_deferred_escape(text: Seq<char>, i: int) -> bool {
    &&& 0 <= i
    &&& i + 1 < text.len()
    &&& text[i] == '\\'
    &&& (text[i + 1] == '$' || text[i + 1] == '`')
}

/// Index just past the backslash at `i` and the character it escapes. A
/// backslash that ends the text escapes nothing.
pub open spec fn after_escape(text: Seq<char>, i: int) -> int {
    if i + 1 < text.len() {
        i + 2
    } else {
        text.len() as int
    }
}

/// Index just past the single-quoted region whose content starts at `i`:
/// past the first `'` that no backslash precedes, or the end of the text if
/// the quote is never closed.
pub open spec fn quote_end(text: Seq<char>, i: int) -> int
    decreases text.len() - i,
{
    if i < 0 || i >= text.len() {
        text.len() as int
    } else if text[i] == '\\' {
        quote_end(text, after_escape(text, i))
    } else if text[i] == '\'' {
        i + 1
    } else {
        quote_end(text, i + 1)
    }
}

/// Where a run of plain text that has reached `i` stops: before the next
/// `$`, backtick or deferred escape, skipping escaped characters and
/// single-quoted regions; at the end of the text if there is none.
pub open spec fn literal_end(text: Seq<char>, i: int) -> int
    decreases text.len() - i,
{
    if i < 0 || i >= text.len() {
        text.len() as int
    } else if text[i] == '$' || text[i] == '`' {
        i
    } else if text[i] == '\\' {
        if is_deferred_escape(text, i) {
            i
        } else {
            literal_end(text, after_escape(text, i))
        }
    } else if text[i] == '\'' {
        proof {
            lemma_quote_end_bounds(text, i + 1);
        }
        literal_end(text, quote_end(text, i + 1))
    } else {
        literal_end(text, i + 1)
    }
}

/// Where the run of name characters that starts at `i` stops.
pub open spec fn name_end(text: Seq<char>, i: int) -> int
    decreases text.len() - i,
{
    if i < 0 || i >= text.len() || !is_name_char(text[i]) {
        i
    } else {
        name_end(text, i + 1)
    }
}

/// Index of the `}` that closes the brace around `i`, where `depth` braces
/// are open at `i`.
pub open spec fn closing_brace(text: Seq<char>, i: int, depth: nat) -> Option<int>
    decreases text.len() - i,
{
    if i < 0 || i >= text.len() {
        None
    } else if text[i] == '}' {
        if depth <= 1 {
            Some(i)
        } else {
            closing_brace(text, i + 1, (depth - 1) as nat)
        }
    } else if text[i] == '{' {
        closing_brace(text, i + 1, depth + 1)
    } else {
        closing_brace(text, i + 1, depth)
    }
}

/// The modifier that stands at index `i` of `content`, if one does. A colon
/// counts only together with the `-` or `+` behind it.
pub open spec fn modifier_at(content: Seq<char>, i: int) -> Option<Modifier> {
    if i < 0 || i >= content.len() {
        None
    } else if content[i] == ':' && i + 1 < content.len() && content[i + 1] == '-' {
        Some(Modifier { at: i, strict: true, conditional: false })
    } else if content[i] == ':' && i + 1 < content.len() && content[i + 1] == '+' {
        Some(Modifier { at: i, strict: true, conditional: true })
    } else if content[i] == '-' {
        Some(Modifier { at: i, strict: false, conditional: false })
    } else if content[i] == '+' {
        Some(Modifier { at: i, strict: false, conditional: true })
    } else {
        None
    }
}

/// The first modifier of `content` at or after index `i`.
pub open spec fn first_modifier(content: Seq<char>, i: int) -> Option<Modifier>
    decreases content.len() - i,
{
    if i < 0 || i >= content.len() {
        None
    } else if modifier_at(content, i) is Some {
        modifier_at(content, i)
    } else {
        first_modifier(content, i + 1)
    }
}

/// The variable token for what stands between `${` and `}`: the name is what
/// precedes the first modifier, the default is what follows it.
pub open spec fn braced_variable(content: Seq<char>) -> TokenView {
    match first_modifier(content, 0) {
        None => TokenView::Variable {
            name: content,
            default: None,
            strict: false,
            conditional: false,
        },
        Some(m) => TokenView::Variable {
            name: content.subrange(0, m.at),
            default: Some(content.subrange(m.at + m.width(), content.len() as int)),
            strict: m.strict,
            conditional: m.conditional,
        },
    }
}

/// Index of the first `'` at or after `i`.
pub open spec fn single_quote_close(text: Seq<char>, i: int) -> Option<int>
    decreases text.len() - i,
{
    if i < 0 || i >= text.len() {
        None
    } else if text[i] == '\'' {
        Some(i)
    } else {
        single_quote_close(text, i + 1)
    }
}

/// Index of the first `"` at or after `i` that no backslash precedes.
pub open spec fn double_quote_close(text: Seq<char>, i: int) -> Option<int>
    decreases text.len() - i,
{
    if i < 0 || i >= text.len() {
        None
    } else if text[i] == '"' {
        Some(i)
    } else if text[i] == '\\' {
        double_quote_close(text, after_escape(text, i))
    } else {
        double_quote_close(text, i + 1)
    }
}

/// How a command substitution ends, read from index `i` outside of quotes
/// with `depth` parentheses open. Quoted regions and escaped characters do
/// not count towards the depth.
pub open spec fn command_end(text: Seq<char>, i: int, depth: nat) -> CommandEnd
    decreases text.len() - i,
{
    if i < 0 || i >= text.len() {
        CommandEnd::Open
    } else if text[i] == '(' {
        command_end(text, i + 1, depth + 1)
    } else if text[i] == ')' {
        if depth <= 1 {
            CommandEnd::Closed(i)
        } else {
            command_end(text, i + 1, (depth - 1) as nat)
        }
    } else if text[i] == '\'' {
        match single_quote_close(text, i + 1) {
            None => CommandEnd::OpenQuote(i),
            Some(q) => {
                proof {
                    lemma_single_quote_close_bounds(text, i + 1);
                }
                command_end(text, q + 1, depth)
            },
        }
    } else if text[i] == '"' {
        match double_quote_close(text, i + 1) {
            None => CommandEnd::OpenQuote(i),
            Some(q) => {
                proof {
                    lemma_double_quote_close_bounds(text, i + 1);
                }
                command_end(text, q + 1, depth)
            },
        }
    } else if text[i] == '\\' {
        command_end(text, after_escape(text, i), depth)
    } else {
        command_end(text, i + 1, depth)
    }
}

/// Index of the backtick that closes a backtick command, read from `i`. Only
/// an escaped backtick and an escaped backslash are skipped.
pub open spec fn backtick_close(text: Seq<char>, i: int) -> Option<int>
    decreases text.len() - i,
{
    if i < 0 || i >= text.len() {
        None
    } else if text[i] == '\\' && i + 1 < text.len() && (text[i + 1] == '`' || text[i + 1]
        == '\\') {
        backtick_close(text, i + 2)
    } else if text[i] == '`' {
        Some(i)
    } else {
        backtick_close(text, i + 1)
    }
}

/// Message of the error for a `$(` that is never closed.
pub open spec fn unclosed_command_message(offset: nat) -> Seq<char> {
    "Unclosed command substitution starting at "@ + decimal(offset)
}

/// Message of the error for a backtick that is never closed.
pub open spec fn unclosed_backtick_message(offset: nat) -> Seq<char> {
    "Unclosed backtick command starting at "@ + decimal(offset)
}

/// The token for `${` at `pos`.
pub open spec fn scan_braced(text: Seq<char>, pos: int) -> Scan {
    match closing_brace(text, pos + 2, 1) {
        None => Scan::Fail(ErrorView::UnclosedBrace(byte_offset(text, pos))),
        Some(close) => Scan::Token {
            token: braced_variable(text.subrange(pos + 2, close)),
            end: close + 1,
        },
    }
}

/// The token for `$(` at `pos`.
pub open spec fn scan_command(text: Seq<char>, pos: int) -> Scan {
    match command_end(text, pos + 2, 1) {
        CommandEnd::Closed(close) => Scan::Token {
            token: TokenView::Command(text.subrange(pos + 2, close)),
            end: close + 1,
        },
        CommandEnd::OpenQuote(quote) => Scan::Fail(
            ErrorView::UnclosedQuote(byte_offset(text, quote)),
        ),
        CommandEnd::Open => Scan::Fail(
            ErrorView::SyntaxError(
                unclosed_command_message(byte_offset(text, pos)),
                byte_offset(text, pos),
            ),
        ),
    }
}

/// The token for a name right behind the `$` at `pos`.
pub open spec fn scan_simple(text: Seq<char>, pos: int) -> Scan {
    Scan::Token {
        token: TokenView::Variable {
            name: text.subrange(pos + 1, name_end(text, pos + 1)),
            default: None,
            strict: false,
            conditional: false,
        },
        end: name_end(text, pos + 1),
    }
}

/// The token for the `$` at `pos`, by the character behind it. A `$` that
/// starts nothing is a literal of one character.
pub open spec fn scan_dollar(text: Seq<char>, pos: int) -> Scan {
    if pos + 1 < text.len() && text[pos + 1] == '{' {
        scan_braced(text, pos)
    } else if pos + 1 < text.len() && text[pos + 1] == '(' {
        scan_command(text, pos)
    } else if pos + 1 < text.len() && is_name_start(text[pos + 1]) {
        scan_simple(text, pos)
    } else {
        Scan::Token { token: TokenView::Literal(text.subrange(pos, pos + 1)), end: pos + 1 }
    }
}

/// The token for the backtick at `pos`.
pub open spec fn scan_backtick(text: Seq<char>, pos: int) -> Scan {
    match backtick_close(text, pos + 1) {
        None => Scan::Fail(
            ErrorView::SyntaxError(
                unclosed_backtick_message(byte_offset(text, pos)),
                byte_offset(text, pos),
            ),
        ),
        Some(close) => Scan::Token {
            token: TokenView::BacktickCommand(text.subrange(pos + 1, close)),
            end: close + 1,
        },
    }
}

/// The token that starts at `pos`.
pub open spec fn scan_at(text: Seq<char>, pos: int) -> Scan {
    if pos < 0 || pos >= text.len() {
        Scan::End
    } else if text[pos] == '$' {
        scan_dollar(text, pos)
    } else if text[pos] == '`' {
        scan_backtick(text, pos)
    } else if is_deferred_escape(text, pos) {
        Scan::Token { token: TokenView::Escape(text[pos + 1]), end: pos + 2 }
    } else {
        Scan::Token {
            token: TokenView::Literal(text.subrange(pos, literal_end(text, pos))),
            end: literal_end(text, pos),
        }
    }
}

/// A quoted region ends behind its start and within the text.
pub proof fn lemma_quote_end_bounds(text: Seq<char>, i: int)
    requires
        0 <= i <= text.len(),
    ensures
        i <= quote_end(text, i) <= text.len(),
        i < text.len() ==> i < quote_end(text, i),
    decreases text.len() - i,
{
    if i < text.len() {
        if text[i] == '\\' {
            lemma_quote_end_bounds(text, after_escape(text, i));
        } else if text[i] != '\'' {
            lemma_quote_end_bounds(text, i + 1);
        }
    }
}

/// A literal run never ends before the index it has reached.
pub proof fn lemma_literal_end_bounds(text: Seq<char>, i: int)
    requires
        0 <= i <= text.len(),
    ensures
        i <= literal_end(text, i) <= text.len(),
    decreases text.len() - i,
{
    if i < text.len() {
        if text[i] == '$' || text[i] == '`' {
        } else if text[i] == '\\' {
            if !is_deferred_escape(text, i) {
                lemma_literal_end_bounds(text, after_escape(text, i));
            }
        } else if text[i] == '\'' {
            lemma_quote_end_bounds(text, i + 1);
            lemma_literal_end_bounds(text, quote_end(text, i + 1));
        } else {
            lemma_literal_end_bounds(text, i + 1);
        }
    }
}

/// A run of name characters ends within the text.
pub proof fn lemma_name_end_bounds(text: Seq<char>, i: int)
    requires
        0 <= i <= text.len(),
    ensures
        i <= name_end(text, i) <= text.len(),
        i < text.len() && is_name_char(text[i]) ==> i < name_end(text, i),
    decreases text.len() - i,
{
    if i < text.len() && is_name_char(text[i]) {
        lemma_name_end_bounds(text, i + 1);
    }
}

/// The name behind a `$` is the longest run of name characters: every
/// character of it is one, and the character behind it, if any, is none.
pub proof fn lemma_name_end_is_longest_run(text: Seq<char>, i: int)
    requires
        0 <= i <= text.len(),
    ensures
        forall|k: int| i <= k < name_end(text, i) ==> is_name_char(#[trigger] text[k]),
        name_end(text, i) < text.len() ==> !is_name_char(text[name_end(text, i)]),
    decreases text.len() - i,
{
    if i < text.len() && is_name_char(text[i]) {
        lemma_name_end_is_longest_run(text, i + 1);
    }
}

/// A closing brace, where there is one, stands at or after the index the
/// search started from, and is a `}`.
pub proof fn lemma_closing_brace_bounds(text: Seq<char>, i: int, depth: nat)
    requires
        0 <= i,
    ensures
        closing_brace(text, i, depth) matches Some(close) ==> i <= close < text.len()
            && text[close] == '}',
    decreases text.len() - i,
{
    if i < text.len() {
        if text[i] == '}' {
            if depth > 1 {
                lemma_closing_brace_bounds(text, i + 1, (depth - 1) as nat);
            }
        } else if text[i] == '{' {
            lemma_closing_brace_bounds(text, i + 1, depth + 1);
        } else {
            lemma_closing_brace_bounds(text, i + 1, depth);
        }
    }
}

/// The first modifier is a modifier, stands within the content, and none
/// stands between the start of the search and it.
pub proof fn lemma_first_modifier(content: Seq<char>, i: int)
    requires
        0 <= i,
    ensures
        match first_modifier(content, i) {
            Some(m) => {
                &&& i <= m.at
                &&& m.at + m.width() <= content.len()
                &&& modifier_at(content, m.at) == Some(m)
                &&& forall|k: int| i <= k < m.at ==> modifier_at(content, k) is None
            },
            None => forall|k: int| i <= k ==> modifier_at(content, k) is None,
        },
    decreases content.len() - i,
{
    if i < content.len() && modifier_at(content, i) is None {
        lemma_first_modifier(content, i + 1);
    }
}

/// A closing single quote stands at or after the start of the search.
pub proof fn lemma_single_quote_close_bounds(text: Seq<char>, i: int)
    requires
        0 <= i,
    ensures
        single_quote_close(text, i) matches Some(q) ==> i <= q < text.len() && text[q] == '\'',
    decreases text.len() - i,
{
    if i < text.len() && text[i] != '\'' {
        lemma_single_quote_close_bounds(text, i + 1);
    }
}

/// A closing double quote stands at or after the start of the search.
pub proof fn lemma_double_quote_close_bounds(text: Seq<char>, i: int)
    requires
        0 <= i,
    ensures
        double_quote_close(text, i) matches Some(q) ==> i <= q < text.len() && text[q] == '"',
    decreases text.len() - i,
{
    if i < text.len() && text[i] != '"' {
        if text[i] == '\\' {
            lemma_double_quote_close_bounds(text, after_escape(text, i));
        } else {
            lemma_double_quote_close_bounds(text, i + 1);
        }
    }
}

/// The parenthesis that closes a command, or the quote left open in it,
/// stands at or after the start of the search.
pub proof fn lemma_command_end_bounds(text: Seq<char>, i: int, depth: nat)
    requires
        0 <= i,
    ensures
        match command_end(text, i, depth) {
            CommandEnd::Closed(close) => i <= close < text.len() && text[close] == ')',
            CommandEnd::OpenQuote(quote) => i <= quote < text.len() && (text[quote] == '\''
                || text[quote] == '"'),
            CommandEnd::Open => true,
        },
    decreases text.len() - i,
{
    if i < text.len() {
        if text[i] == '(' {
            lemma_command_end_bounds(text, i + 1, depth + 1);
        } else if text[i] == ')' {
            if depth > 1 {
                lemma_command_end_bounds(text, i + 1, (depth - 1) as nat);
            }
        } else if text[i] == '\'' {
            lemma_single_quote_close_bounds(text, i + 1);
            if let Some(q) = single_quote_close(text, i + 1) {
                lemma_command_end_bounds(text, q + 1, depth);
            }
        } else if text[i] == '"' {
            lemma_double_quote_close_bounds(text, i + 1);
            if let Some(q) = double_quote_close(text, i + 1) {
                lemma_command_end_bounds(text, q + 1, depth);
            }
        } else if text[i] == '\\' {
            lemma_command_end_bounds(text, after_escape(text, i), depth);
        } else {
            lemma_command_end_bounds(text, i + 1, depth);
        }
    }
}

/// A closing backtick stands at or after the start of the search.
pub proof fn lemma_backtick_close_bounds(text: Seq<char>, i: int)
    requires
        0 <= i,
    ensures
        backtick_close(text, i) matches Some(close) ==> i <= close < text.len() && text[close]
            == '`',
    decreases text.len() - i,
{
    if i < text.len() {
        if text[i] == '\\' && i + 1 < text.len() && (text[i + 1] == '`' || text[i + 1] == '\\') {
            lemma_backtick_close_bounds(text, i + 2);
        } else if text[i] != '`' {
            lemma_backtick_close_bounds(text, i + 1);
        }
    }
}

/// The texts that a token holds are parts of the scanned text.
pub open spec fn token_within(token: TokenView, text: Seq<char>) -> bool {
    match token {
        TokenView::Literal(s) => is_part(s, text),
        TokenView::Variable { name, default, .. } => is_part(name, text) && (default matches Some(
            d,
        ) ==> is_part(d, text)),
        TokenView::Command(s) => is_part(s, text),
        TokenView::BacktickCommand(s) => is_part(s, text),
        TokenView::Escape(_) => true,
    }
}

/// True when `part` is a contiguous part of `text`.
pub open spec fn is_part(part: Seq<char>, text: Seq<char>) -> bool {
    exists|a: int, b: int| 0 <= a <= b <= text.len() && part == #[trigger] text.subrange(a, b)
}

/// A part of a part is a part.
pub proof fn lemma_part_of_part(text: Seq<char>, a: int, b: int, c: int, d: int)
    requires
        0 <= a <= b <= text.len(),
        0 <= c <= d <= b - a,
    ensures
        is_part(text.subrange(a, b).subrange(c, d), text),
{
    assert(text.subrange(a, b).subrange(c, d) =~= text.subrange(a + c, a + d));
}

/// A part of a text that fits the machine's word fits it too.
pub proof fn lemma_part_fits(part: Seq<char>, text: Seq<char>)
    requires
        is_part(part, text),
        fits(text),
    ensures
        fits(part),
{
    let (a, b) = choose|a: int, b: int|
        0 <= a <= b <= text.len() && part == #[trigger] text.subrange(a, b);
    lemma_subrange_fits(text, a, b);
}

/// Tokens borrow from the text: what a scanned token holds are parts of it.
pub proof fn lemma_scan_within(text: Seq<char>, pos: int)
    ensures
        scan_at(text, pos) matches Scan::Token { token, .. } ==> token_within(token, text),
{
    lemma_scan_progress(text, pos);
    if 0 <= pos < text.len() {
        if text[pos] == '$' {
            if pos + 1 < text.len() && text[pos + 1] == '{' {
                lemma_closing_brace_bounds(text, pos + 2, 1);
                if let Some(close) = closing_brace(text, pos + 2, 1) {
                    let content = text.subrange(pos + 2, close);
                    lemma_first_modifier(content, 0);
                    match first_modifier(content, 0) {
                        None => {
                            assert(is_part(content, text));
                        },
                        Some(m) => {
                            lemma_part_of_part(text, pos + 2, close, 0, m.at);
                            lemma_part_of_part(
                                text,
                                pos + 2,
                                close,
                                m.at + m.width(),
                                content.len() as int,
                            );
                        },
                    }
                }
            } else if pos + 1 < text.len() && text[pos + 1] == '(' {
                lemma_command_end_bounds(text, pos + 2, 1);
                if let CommandEnd::Closed(close) = command_end(text, pos + 2, 1) {
                    assert(is_part(text.subrange(pos + 2, close), text));
                }
            } else if pos + 1 < text.len() && is_name_start(text[pos + 1]) {
                lemma_name_end_bounds(text, pos + 1);
                assert(is_part(text.subrange(pos + 1, name_end(text, pos + 1)), text));
            } else {
                assert(is_part(text.subrange(pos, pos + 1), text));
            }
        } else if text[pos] == '`' {
            lemma_backtick_close_bounds(text, pos + 1);
            if let Some(close) = backtick_close(text, pos + 1) {
                assert(is_part(text.subrange(pos + 1, close), text));
            }
        } else if is_deferred_escape(text, pos) {
        } else {
            assert(is_part(text.subrange(pos, literal_end(text, pos)), text));
        }
    }
}

/// The text behind the modifier of a scanned variable fits the machine's
/// word if the scanned text does.
pub proof fn lemma_token_default_fits(text: Seq<char>, pos: int)
    requires
        fits(text),
    ensures
        scan_at(text, pos) matches Scan::Token {
            token: TokenView::Variable { default: Some(d), .. },
            ..
        } ==> fits(d),
{
    lemma_scan_within(text, pos);
    if let Scan::Token { token: TokenView::Variable { default: Some(d), .. }, .. } = scan_at(
        text,
        pos,
    ) {
        lemma_part_fits(d, text);
    }
}

/// Every token is non-empty and lies within the text: a scan that yields a
/// token moves forward, and never past the end.
pub proof fn lemma_scan_progress(text: Seq<char>, pos: int)
    ensures
        scan_at(text, pos) matches Scan::Token { end, .. } ==> 0 <= pos < end <= text.len(),
        scan_at(text, pos) is End <==> (pos < 0 || pos >= text.len()),
{
    if 0 <= pos < text.len() {
        if text[pos] == '$' {
            lemma_closing_brace_bounds(text, pos + 2, 1);
            lemma_command_end_bounds(text, pos + 2, 1);
            if pos + 1 < text.len() {
                lemma_name_end_bounds(text, pos + 1);
            }
        } else if text[pos] == '`' {
            lemma_backtick_close_bounds(text, pos + 1);
        } else if is_deferred_escape(text, pos) {
        } else {
            lemma_literal_end_bounds(text, pos);
            if text[pos] == '\\' {
                lemma_literal_end_bounds(text, after_escape(text, pos));
            } else if text[pos] == '\'' {
                lemma_quote_end_bounds(text, pos + 1);
                lemma_literal_end_bounds(text, quote_end(text, pos + 1));
            } else {
                lemma_literal_end_bounds(text, pos + 1);
            }
        }
    }
}

} // verus!
