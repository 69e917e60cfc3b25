//! The scanner: cuts a text into tokens, one per call.

use crate::error::Error;
use crate::grammar::{
    after_escape, backtick_close, braced_variable, closing_brace, command_end, double_quote_close,
    first_modifier, is_deferred_escape, is_name_char, is_name_start, lemma_quote_end_bounds,
    lemma_scan_progress, literal_end, modifier_at, name_end, quote_end, scan_at, scan_backtick,
    scan_braced, scan_command, scan_dollar, scan_simple, single_quote_close, CommandEnd, Modifier,
    Scan, TokenView,
};
use crate::text::{byte_offset, char_width, fits, lemma_byte_offset_monotonic, push_decimal};
use std::ops::Range;
use vstd::prelude::*;
use vstd::slice::slice_subrange;
use vstd::string::*;

verus! {

/// A lexical unit of a text. It borrows from the text and owns nothing.
#[derive(Debug, Clone, PartialEq, Eq)]
pub enum Token<'a> {
    /// A run of plain characters.
    Literal(&'a [char]),
    /// A reference to a variable.
    Variable {
        /// The name to look up.
        name: &'a [char],
        /// The text behind the modifier, not yet expanded.
        default: Option<&'a [char]>,
        /// The modifier has a colon (`:-`, `:+`): empty counts as unset.
        strict: bool,
        /// The modifier is `+` or `:+`: substitute when the variable is present.
        conditional: bool,
    },
    /// What stands between `$(` and its `)`.
    Command(&'a [char]),
    /// What stands between two backticks.
    BacktickCommand(&'a [char]),
    /// An escaped `$` or backtick: the character that the escape stands for.
    Escape(char),
}

impl<'a> View for Token<'a> {
    type V = TokenView;

    open spec fn view(&self) -> TokenView {
        match self {
            Token::Literal(s) => TokenView::Literal(s@),
            Token::Variable { name, default, strict, conditional } => TokenView::Variable {
                name: name@,
                default: match default {
                    Some(d) => Some(d@),
                    None => None,
                },
                strict: *strict,
                conditional: *conditional,
            },
            Token::Command(s) => TokenView::Command(s@),
            Token::BacktickCommand(s) => TokenView::BacktickCommand(s@),
            Token::Escape(c) => TokenView::Escape(*c),
        }
    }
}

/// Where a modifier stands inside `${...}` and which one it is.
pub struct ModifierAt {
    pub at: usize,
    pub strict: bool,
    pub conditional: bool,
}

impl View for ModifierAt {
    type V = Modifier;

    open spec fn view(&self) -> Modifier {
        Modifier { at: self.at as int, strict: self.strict, conditional: self.conditional }
    }
}

/// How the scan of a command substitution ended.
pub enum CommandClose {
    Closed(usize),
    OpenQuote(usize),
    Open,
}

impl View for CommandClose {
    type V = CommandEnd;

    open spec fn view(&self) -> CommandEnd {
        match self {
            CommandClose::Closed(i) => CommandEnd::Closed(*i as int),
            CommandClose::OpenQuote(i) => CommandEnd::OpenQuote(*i as int),
            CommandClose::Open => CommandEnd::Open,
        }
    }
}

/// True for an ASCII letter or an underscore.
pub fn name_start(c: char) -> (r: bool)
    ensures
        r == is_name_start(c),
{
    let v: u32 = c as u32;
    (0x41 <= v && v <= 0x5a) || (0x61 <= v && v <= 0x7a) || c == '_'
}

/// True for an ASCII letter, an ASCII digit or an underscore.
pub fn name_char(c: char) -> (r: bool)
    ensures
        r == is_name_char(c),
{
    let v: u32 = c as u32;
    name_start(c) || (0x30 <= v && v <= 0x39)
}

/// True when a backslash at `i` is followed by `$` or a backtick.
pub fn deferred_escape(text: &[char], i: usize) -> (r: bool)
    ensures
        r == is_deferred_escape(text@, i as int),
{
    i < text.len() && text.len() - i > 1 && text[i] == '\\' && (text[i + 1] == '$' || text[i + 1]
        == '`')
}

/// Index just past the backslash at `i` and the character it escapes.
fn skip_escape(text: &[char], i: usize) -> (r: usize)
    requires
        i < text@.len(),
    ensures
        r == after_escape(text@, i as int),
        i < r <= text@.len(),
{
    if text.len() - i > 1 {
        i + 2
    } else {
        text.len()
    }
}

/// Index just past the single-quoted region whose content starts at `start`.
pub fn find_quote_end(text: &[char], start: usize) -> (r: usize)
    requires
        start <= text@.len(),
    ensures
        r == quote_end(text@, start as int),
        start <= r <= text@.len(),
{
    let mut i: usize = start;
    while i < text.len()
        invariant
            start <= i <= text@.len(),
            quote_end(text@, start as int) == quote_end(text@, i as int),
        decreases text@.len() - i,
    {
        let c = text[i];
        if c == '\\' {
            i = skip_escape(text, i);
        } else if c == '\'' {
            return i + 1;
        } else {
            i += 1;
        }
    }
    text.len()
}

/// Where the run of plain text that has reached `start` stops.
pub fn find_literal_end(text: &[char], start: usize) -> (r: usize)
    requires
        start <= text@.len(),
    ensures
        r == literal_end(text@, start as int),
        start <= r <= text@.len(),
{
    let mut i: usize = start;
    while i < text.len()
        invariant
            start <= i <= text@.len(),
            literal_end(text@, start as int) == literal_end(text@, i as int),
        decreases text@.len() - i,
    {
        let c = text[i];
        if c == '$' || c == '`' {
            return i;
        } else if c == '\\' {
            if deferred_escape(text, i) {
                return i;
            }
            i = skip_escape(text, i);
        } else if c == '\'' {
            proof {
                lemma_quote_end_bounds(text@, i + 1);
            }
            i = find_quote_end(text, i + 1);
        } else {
            i += 1;
        }
    }
    text.len()
}

/// Where the run of name characters that starts at `start` stops.
pub fn find_name_end(text: &[char], start: usize) -> (r: usize)
    requires
        start <= text@.len(),
    ensures
        r == name_end(text@, start as int),
        start <= r <= text@.len(),
{
    let mut i: usize = start;
    while i < text.len() && name_char(text[i])
        invariant
            start <= i <= text@.len(),
            name_end(text@, start as int) == name_end(text@, i as int),
        decreases text@.len() - i,
    {
        i += 1;
    }
    i
}

/// Index of the `}` that closes a brace whose content starts at `start`.
fn find_closing_brace(text: &[char], start: usize) -> (r: Option<usize>)
    requires
        0 < start <= text@.len(),
    ensures
        match r {
            Some(close) => closing_brace(text@, start as int, 1) == Some(close as int) && start
                <= close < text@.len(),
            None => closing_brace(text@, start as int, 1) is None,
        },
{
    let mut i: usize = start;
    let mut depth: usize = 1;
    while i < text.len()
        invariant
            0 < start <= i <= text@.len(),
            1 <= depth <= i - start + 1,
            closing_brace(text@, start as int, 1) == closing_brace(text@, i as int, depth as nat),
        decreases text@.len() - i,
    {
        let c = text[i];
        if c == '}' {
            if depth <= 1 {
                return Some(i);
            }
            depth -= 1;
        } else if c == '{' {
            depth += 1;
        }
        i += 1;
    }
    None
}

/// The modifier that stands at index `i` of `content`, if one does.
pub fn modifier_here(content: &[char], i: usize) -> (r: Option<ModifierAt>)
    ensures
        match r {
            Some(m) => modifier_at(content@, i as int) == Some(m@),
            None => modifier_at(content@, i as int) is None,
        },
{
    if i >= content.len() {
        return None;
    }
    let c = content[i];
    if c == ':' {
        if content.len() - i > 1 {
            let next = content[i + 1];
            if next == '-' {
                return Some(ModifierAt { at: i, strict: true, conditional: false });
            } else if next == '+' {
                return Some(ModifierAt { at: i, strict: true, conditional: true });
            }
        }
        None
    } else if c == '-' {
        Some(ModifierAt { at: i, strict: false, conditional: false })
    } else if c == '+' {
        Some(ModifierAt { at: i, strict: false, conditional: true })
    } else {
        None
    }
}

/// The first modifier of `content`.
pub fn find_modifier(content: &[char]) -> (r: Option<ModifierAt>)
    ensures
        match r {
            Some(m) => first_modifier(content@, 0) == Some(m@) && m.at + m@.width()
                <= content@.len(),
            None => first_modifier(content@, 0) is None,
        },
{
    let mut i: usize = 0;
    while i < content.len()
        invariant
            i <= content@.len(),
            first_modifier(content@, 0) == first_modifier(content@, i as int),
        decreases content@.len() - i,
    {
        match modifier_here(content, i) {
            Some(m) => {
                return Some(m);
            },
            None => {},
        }
        i += 1;
    }
    None
}

/// Splits what stands between `${` and `}` into name, modifier and default.
pub fn split_braced<'a>(content: &'a [char]) -> (r: Token<'a>)
    ensures
        r@ == braced_variable(content@),
{
    match find_modifier(content) {
        None => Token::Variable { name: content, default: None, strict: false, conditional: false },
        Some(m) => {
            let len = content.len();
            let width: usize = if m.strict {
                2
            } else {
                1
            };
            Token::Variable {
                name: slice_subrange(content, 0, m.at),
                default: Some(slice_subrange(content, m.at + width, len)),
                strict: m.strict,
                conditional: m.conditional,
            }
        },
    }
}

/// Index of the first `'` at or after `start`.
fn find_single_quote_close(text: &[char], start: usize) -> (r: Option<usize>)
    requires
        start <= text@.len(),
    ensures
        match r {
            Some(q) => single_quote_close(text@, start as int) == Some(q as int) && start <= q
                < text@.len(),
            None => single_quote_close(text@, start as int) is None,
        },
{
    let mut i: usize = start;
    while i < text.len()
        invariant
            start <= i <= text@.len(),
            single_quote_close(text@, start as int) == single_quote_close(text@, i as int),
        decreases text@.len() - i,
    {
        if text[i] == '\'' {
            return Some(i);
        }
        i += 1;
    }
    None
}

/// Index of the first `"` at or after `start` that no backslash precedes.
fn find_double_quote_close(text: &[char], start: usize) -> (r: Option<usize>)
    requires
        start <= text@.len(),
    ensures
        match r {
            Some(q) => double_quote_close(text@, start as int) == Some(q as int) && start <= q
                < text@.len(),
            None => double_quote_close(text@, start as int) is None,
        },
{
    let mut i: usize = start;
    while i < text.len()
        invariant
            start <= i <= text@.len(),
            double_quote_close(text@, start as int) == double_quote_close(text@, i as int),
        decreases text@.len() - i,
    {
        let c = text[i];
        if c == '"' {
            return Some(i);
        } else if c == '\\' {
            i = skip_escape(text, i);
        } else {
            i += 1;
        }
    }
    None
}

/// How the command substitution whose content starts at `start` ends.
fn find_command_end(text: &[char], start: usize) -> (r: CommandClose)
    requires
        0 < start <= text@.len(),
    ensures
        r@ == command_end(text@, start as int, 1),
        r matches CommandClose::Closed(close) ==> start <= close < text@.len(),
        r matches CommandClose::OpenQuote(quote) ==> start <= quote < text@.len(),
{
    let mut i: usize = start;
    let mut depth: usize = 1;
    while i < text.len()
        invariant
            0 < start <= i <= text@.len(),
            1 <= depth <= i - start + 1,
            command_end(text@, start as int, 1) == command_end(text@, i as int, depth as nat),
        decreases text@.len() - i,
    {
        let c = text[i];
        if c == '(' {
            depth += 1;
            i += 1;
        } else if c == ')' {
            if depth <= 1 {
                return CommandClose::Closed(i);
            }
            depth -= 1;
            i += 1;
        } else if c == '\'' {
            match find_single_quote_close(text, i + 1) {
                None => {
                    return CommandClose::OpenQuote(i);
                },
                Some(q) => {
                    i = q + 1;
                },
            }
        } else if c == '"' {
            match find_double_quote_close(text, i + 1) {
                None => {
                    return CommandClose::OpenQuote(i);
                },
                Some(q) => {
                    i = q + 1;
                },
            }
        } else if c == '\\' {
            i = skip_escape(text, i);
        } else {
            i += 1;
        }
    }
    CommandClose::Open
}

/// Index of the backtick that closes a backtick command whose content starts
/// at `start`.
pub fn find_backtick_close(text: &[char], start: usize) -> (r: Option<usize>)
    requires
        start <= text@.len(),
    ensures
        match r {
            Some(close) => backtick_close(text@, start as int) == Some(close as int) && start
                <= close < text@.len(),
            None => backtick_close(text@, start as int) is None,
        },
{
    let mut i: usize = start;
    while i < text.len()
        invariant
            start <= i <= text@.len(),
            backtick_close(text@, start as int) == backtick_close(text@, i as int),
        decreases text@.len() - i,
    {
        let c = text[i];
        if c == '\\' && text.len() - i > 1 && (text[i + 1] == '`' || text[i + 1] == '\\') {
            i += 2;
        } else if c == '`' {
            return Some(i);
        } else {
            i += 1;
        }
    }
    None
}

/// The byte offset of index `to`, given the byte offset of index `from`.
pub fn byte_offset_from(text: &[char], from: usize, from_bytes: usize, to: usize) -> (r: usize)
    requires
        from <= to <= text@.len(),
        from_bytes == byte_offset(text@, from as int),
        fits(text@),
    ensures
        r == byte_offset(text@, to as int),
{
    let mut i: usize = from;
    let mut bytes: usize = from_bytes;
    while i < to
        invariant
            from <= i <= to <= text@.len(),
            bytes == byte_offset(text@, i as int),
            fits(text@),
        decreases to - i,
    {
        proof {
            lemma_byte_offset_monotonic(text@, i + 1, text@.len() as int);
        }
        bytes += char_width(text[i]);
        i += 1;
    }
    bytes
}

/// A cursor over a text that yields one token per call.
#[derive(Debug)]
pub struct Scanner<'a> {
    source: &'a [char],
    char_idx: usize,
    byte_idx: usize,
}

impl<'a> Scanner<'a> {
    /// The text being scanned.
    pub closed spec fn text(&self) -> Seq<char> {
        self.source@
    }

    /// The cursor: index of the next character to read.
    pub closed spec fn cursor(&self) -> int {
        self.char_idx as int
    }

    /// The cursor lies within the text, its byte offset is known, and every
    /// byte offset of the text fits the machine's word.
    #[verifier::type_invariant]
    spec fn wf(&self) -> bool {
        &&& self.char_idx <= self.source@.len() <= usize::MAX
        &&& self.byte_idx == byte_offset(self.source@, self.char_idx as int)
        &&& fits(self.source@)
    }

    /// A scanner at the start of `source`.
    pub fn new(source: &'a [char]) -> (s: Self)
        requires
            fits(source@),
        ensures
            s.text() == source@,
            s.cursor() == 0,
    {
        let _ = source.len();
        Scanner { source, char_idx: 0, byte_idx: 0 }
    }

    /// A scanner that goes on at index `position` of `source`, whose byte
    /// offset is `byte_position`.
    pub fn resume(source: &'a [char], position: usize, byte_position: usize) -> (s: Self)
        requires
            fits(source@),
            position <= source@.len(),
            byte_position == byte_offset(source@, position as int),
        ensures
            s.text() == source@,
            s.cursor() == position,
    {
        let _ = source.len();
        Scanner { source, char_idx: position, byte_idx: byte_position }
    }

    /// Index of the next character to read.
    pub fn position(&self) -> (r: usize)
        ensures
            r == self.cursor(),
            r <= self.text().len(),
    {
        proof {
            use_type_invariant(&*self);
        }
        self.char_idx
    }

    /// Byte offset of the next character to read.
    pub fn byte_position(&self) -> (r: usize)
        ensures
            r == byte_offset(self.text(), self.cursor()),
    {
        proof {
            use_type_invariant(&*self);
        }
        self.byte_idx
    }

    /// What is left to scan.
    pub fn remaining(&self) -> (r: &'a [char])
        ensures
            r@ == self.text().subrange(self.cursor(), self.text().len() as int),
    {
        proof {
            use_type_invariant(&*self);
        }
        slice_subrange(self.source, self.char_idx, self.source.len())
    }

    /// Moves the cursor to `end`.
    fn advance(&mut self, end: usize)
        requires
            old(self).cursor() <= end <= old(self).text().len(),
        ensures
            final(self).text() == old(self).text(),
            final(self).cursor() == end,
    {
        proof {
            use_type_invariant(&*self);
        }
        let byte_idx = byte_offset_from(self.source, self.char_idx, self.byte_idx, end);
        *self = Scanner { source: self.source, char_idx: end, byte_idx };
    }

    /// The next token and the bytes it covers, or `None` at the end of the
    /// text. A token starts where the one before it ended, so the tokens of a
    /// text cover it without gap or overlap. After an error the cursor stays
    /// where it was.
    pub fn scan_next(&mut self) -> (r: Result<Option<(Token<'a>, Range<usize>)>, Error>)
        ensures
            final(self).text() == old(self).text(),
            old(self).cursor() <= final(self).cursor() <= old(self).text().len(),
            match scan_at(old(self).text(), old(self).cursor()) {
                Scan::End => r == Ok::<Option<(Token<'a>, Range<usize>)>, Error>(None)
                    && final(self).cursor() == old(self).cursor(),
                Scan::Token { token, end } => {
                    &&& r matches Ok(Some((found, range)))
                    &&& found@ == token
                    &&& final(self).cursor() == end
                    &&& old(self).cursor() < end
                    &&& range.start == byte_offset(old(self).text(), old(self).cursor())
                    &&& range.end == byte_offset(old(self).text(), end)
                },
                Scan::Fail(e) => {
                    &&& r matches Err(err)
                    &&& err@ == e
                    &&& final(self).cursor() == old(self).cursor()
                },
            },
    {
        proof {
            use_type_invariant(&*self);
        }
        let start = self.char_idx;
        let byte_start = self.byte_idx;
        if start >= self.source.len() {
            return Ok(None);
        }
        proof {
            lemma_scan_progress(self.source@, start as int);
        }
        let c = self.source[start];
        let token = if c == '$' {
            self.parse_variable(start)?
        } else if c == '`' {
            self.parse_backtick_command(start)?
        } else if deferred_escape(self.source, start) {
            let escaped = self.source[start + 1];
            self.advance(start + 2);
            Token::Escape(escaped)
        } else {
            let end = find_literal_end(self.source, start);
            let text = slice_subrange(self.source, start, end);
            self.advance(end);
            Token::Literal(text)
        };
        proof {
            use_type_invariant(&*self);
        }
        Ok(Some((token, byte_start..self.byte_idx)))
    }

    /// The token for the `$` at `start`, where the cursor stands.
    fn parse_variable(&mut self, start: usize) -> (r: Result<Token<'a>, Error>)
        requires
            start == old(self).cursor(),
            start < old(self).text().len(),
            old(self).text()[start as int] == '$',
        ensures
            final(self).text() == old(self).text(),
            match scan_dollar(old(self).text(), start as int) {
                Scan::End => false,
                Scan::Token { token, end } => {
                    &&& r matches Ok(found)
                    &&& found@ == token
                    &&& final(self).cursor() == end
                },
                Scan::Fail(e) => {
                    &&& r matches Err(err)
                    &&& err@ == e
                    &&& final(self).cursor() == old(self).cursor()
                },
            },
    {
        proof {
            use_type_invariant(&*self);
        }
        proof {
            lemma_scan_progress(self.source@, start as int);
        }
        if self.source.len() - start > 1 {
            let next = self.source[start + 1];
            if next == '{' {
                return self.parse_braced_variable(start);
            } else if next == '(' {
                return self.parse_command_substitution(start);
            } else if name_start(next) {
                return self.parse_simple_variable(start);
            }
        }
        let text = slice_subrange(self.source, start, start + 1);
        self.advance(start + 1);
        Ok(Token::Literal(text))
    }

    /// The token for `$(` at `start`.
    fn parse_command_substitution(&mut self, start: usize) -> (r: Result<Token<'a>, Error>)
        requires
            start == old(self).cursor(),
            start + 1 < old(self).text().len(),
        ensures
            final(self).text() == old(self).text(),
            match scan_command(old(self).text(), start as int) {
                Scan::End => false,
                Scan::Token { token, end } => {
                    &&& r matches Ok(found)
                    &&& found@ == token
                    &&& final(self).cursor() == end
                },
                Scan::Fail(e) => {
                    &&& r matches Err(err)
                    &&& err@ == e
                    &&& final(self).cursor() == old(self).cursor()
                },
            },
    {
        proof {
            use_type_invariant(&*self);
        }
        let inner_start = start + 2;
        match find_command_end(self.source, inner_start) {
            CommandClose::Closed(close) => {
                let cmd = slice_subrange(self.source, inner_start, close);
                self.advance(close + 1);
                Ok(Token::Command(cmd))
            },
            CommandClose::OpenQuote(quote) => {
                let offset = byte_offset_from(self.source, start, self.byte_idx, quote);
                Err(Error::UnclosedQuote(offset))
            },
            CommandClose::Open => {
                let mut message = String::from_str("Unclosed command substitution starting at ");
                push_decimal(&mut message, self.byte_idx);
                Err(Error::SyntaxError(message, self.byte_idx))
            },
        }
    }

    /// The token for a name right behind the `$` at `start`.
    fn parse_simple_variable(&mut self, start: usize) -> (r: Result<Token<'a>, Error>)
        requires
            start == old(self).cursor(),
            start + 1 < old(self).text().len(),
        ensures
            final(self).text() == old(self).text(),
            r matches Ok(found) && scan_simple(old(self).text(), start as int) == (Scan::Token {
                token: found@,
                end: final(self).cursor(),
            }),
    {
        proof {
            use_type_invariant(&*self);
        }
        let end = find_name_end(self.source, start + 1);
        let name = slice_subrange(self.source, start + 1, end);
        self.advance(end);
        Ok(Token::Variable { name, default: None, strict: false, conditional: false })
    }

    /// The token for `${` at `start`.
    fn parse_braced_variable(&mut self, start: usize) -> (r: Result<Token<'a>, Error>)
        requires
            start == old(self).cursor(),
            start + 1 < old(self).text().len(),
        ensures
            final(self).text() == old(self).text(),
            match scan_braced(old(self).text(), start as int) {
                Scan::End => false,
                Scan::Token { token, end } => {
                    &&& r matches Ok(found)
                    &&& found@ == token
                    &&& final(self).cursor() == end
                },
                Scan::Fail(e) => {
                    &&& r matches Err(err)
                    &&& err@ == e
                    &&& final(self).cursor() == old(self).cursor()
                },
            },
    {
        proof {
            use_type_invariant(&*self);
        }
        let inner_start = start + 2;
        match find_closing_brace(self.source, inner_start) {
            None => Err(Error::UnclosedBrace(self.byte_idx)),
            Some(close) => {
                let content = slice_subrange(self.source, inner_start, close);
                self.advance(close + 1);
                Ok(split_braced(content))
            },
        }
    }

    /// The token for the backtick at `start`.
    fn parse_backtick_command(&mut self, start: usize) -> (r: Result<Token<'a>, Error>)
        requires
            start == old(self).cursor(),
            start < old(self).text().len(),
        ensures
            final(self).text() == old(self).text(),
            match scan_backtick(old(self).text(), start as int) {
                Scan::End => false,
                Scan::Token { token, end } => {
                    &&& r matches Ok(found)
                    &&& found@ == token
                    &&& final(self).cursor() == end
                },
                Scan::Fail(e) => {
                    &&& r matches Err(err)
                    &&& err@ == e
                    &&& final(self).cursor() == old(self).cursor()
                },
            },
    {
        proof {
            use_type_invariant(&*self);
        }
        match find_backtick_close(self.source, start + 1) {
            None => {
                let mut message = String::from_str("Unclosed backtick command starting at ");
                push_decimal(&mut message, self.byte_idx);
                Err(Error::SyntaxError(message, self.byte_idx))
            },
            Some(close) => {
                let cmd = slice_subrange(self.source, start + 1, close);
                self.advance(close + 1);
                Ok(Token::BacktickCommand(cmd))
            },
        }
    }
}

} // verus!
