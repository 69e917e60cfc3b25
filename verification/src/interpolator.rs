//! The resolver: expands the tokens of a text against a variable provider.

use crate::config::{Config, FeatureConfig};
use crate::context::{overlaid, OverlayProvider, SimpleContext, VariableProvider};
use crate::error::{Error, ErrorView};
use crate::grammar::{lemma_scan_progress, lemma_token_default_fits, TokenView};
use crate::laws::{is_plain, is_special, lemma_plain_text_is_unchanged};
use crate::scanner::{Scanner, Token};
use crate::semantics::{
    escape_value, expand, expand_from, expand_nested, expand_token, expand_variable,
    lemma_prepend_twice, lemma_unescape_plain, lemma_unrewritten_token, prepend, rewrites,
    token_rewritten, unescape_from, unescaped,
};
use crate::text::{
    contains_char, fits, from_chars, has_code, lemma_ascii_byte_is_char,
    lemma_char_code_injective, push_chars, to_chars,
};
use std::borrow::Cow;
use vstd::prelude::*;
use vstd::slice::slice_subrange;
use vstd::string::*;
use vstd::utf8::encode_utf8;

verus! {

/// True when `r` is the outcome `expected`: the same text, or the same error.
pub open spec fn yields<'b>(
    r: Result<Cow<'b, str>, Error>,
    expected: Result<Seq<char>, ErrorView>,
) -> bool {
    match expected {
        Ok(s) => r matches Ok(c) && c@ == s,
        Err(e) => r matches Err(x) && x@ == e,
    }
}

/// True when `r` reports that `expected` was appended to `before`, giving
/// `after`; or the failure `expected`.
pub open spec fn appended<T>(
    r: Result<T, Error>,
    before: Seq<char>,
    after: Seq<char>,
    expected: Result<Seq<char>, ErrorView>,
) -> bool {
    match expected {
        Ok(s) => r is Ok && after == before + s,
        Err(e) => r matches Err(x) && x@ == e,
    }
}

/// True when `input` holds none of `$`, backslash, single quote and
/// backtick. The bytes of `input` are read in place; nothing is allocated.
pub fn is_plain_str(input: &str) -> (r: bool)
    ensures
        r == is_plain(input@),
{
    let bytes = input.as_bytes();
    proof {
        lemma_ascii_byte_is_char(input@, 0x24);
        lemma_ascii_byte_is_char(input@, 0x5c);
        lemma_ascii_byte_is_char(input@, 0x27);
        lemma_ascii_byte_is_char(input@, 0x60);
    }
    let mut i: usize = 0;
    while i < bytes.len()
        invariant
            i <= bytes@.len(),
            bytes@ == encode_utf8(input@),
            encode_utf8(input@).contains(0x24u8) <==> has_code(input@, 0x24),
            encode_utf8(input@).contains(0x5cu8) <==> has_code(input@, 0x5c),
            encode_utf8(input@).contains(0x27u8) <==> has_code(input@, 0x27),
            encode_utf8(input@).contains(0x60u8) <==> has_code(input@, 0x60),
            forall|k: int|
                0 <= k < i ==> bytes@[k] != 0x24 && bytes@[k] != 0x5c && bytes@[k] != 0x27
                    && bytes@[k] != 0x60,
        decreases bytes@.len() - i,
    {
        let b = bytes[i];
        if b == 0x24 || b == 0x5c || b == 0x27 || b == 0x60 {
            proof {
                assert(encode_utf8(input@).contains(b));
                let at = choose|at: int|
                    0 <= at < input@.len() && (#[trigger] input@[at]) as u32 == b as u32;
                lemma_char_code_injective(input@[at], '$');
                lemma_char_code_injective(input@[at], '\\');
                lemma_char_code_injective(input@[at], '\'');
                lemma_char_code_injective(input@[at], '`');
                assert(is_special(input@[at]));
            }
            return false;
        }
        i += 1;
    }
    proof {
        assert forall|at: int| 0 <= at < input@.len() implies !is_special(
            #[trigger] input@[at],
        ) by {
            let c = input@[at];
            if is_special(c) {
                assert(has_code(input@, c as u32 as u8));
            }
        }
    }
    true
}

/// Expands placeholders against a variable provider, as a configuration
/// says.
pub struct Interpolator<'a, P: VariableProvider + ?Sized> {
    context: &'a P,
    config: &'a Config,
}

impl<'a, P: VariableProvider + ?Sized> Interpolator<'a, P> {
    /// The bindings that variables are resolved against.
    pub closed spec fn env(&self) -> Map<Seq<char>, Seq<char>> {
        self.context.bindings()
    }

    /// The configuration in force.
    pub closed spec fn cfg(&self) -> Config {
        *self.config
    }

    /// An interpolator that reads variables from `context`.
    pub fn new(context: &'a P, config: &'a Config) -> (r: Self)
        ensures
            r.env() == context.bindings(),
            r.cfg() == *config,
    {
        Interpolator { context, config }
    }

    /// The feature switches in force.
    pub fn features(&self) -> (r: FeatureConfig)
        ensures
            r == self.cfg().features,
    {
        self.config.features
    }

    /// Interpolates `input`: variables and escapes are resolved, commands
    /// stay as written. The input itself is handed back, borrowed, exactly
    /// when no token of it had to be rewritten.
    pub fn interpolate<'b>(&self, input: &'b str) -> (r: Result<Cow<'b, str>, Error>)
        ensures
            yields(r, expand(self.env(), self.cfg(), false, input@, 0)),
            r matches Ok(c) ==> (c is Borrowed <==> !rewrites(self.cfg(), false, input@, 0)),
            r matches Ok(Cow::Borrowed(s)) ==> s == input,
            is_plain(input@) ==> (r matches Ok(c) && c is Borrowed && c@ == input@),
    {
        if is_plain_str(input) {
            proof {
                lemma_plain_text_is_unchanged(self.env(), self.cfg(), false, input@, 0);
            }
            return Ok(Cow::Borrowed(input));
        }
        let chars = to_chars(input);
        let mut out = String::new();
        let rewritten = self.resolve(chars.as_slice(), 0, false, &mut out)?;
        if rewritten {
            Ok(Cow::Owned(out))
        } else {
            Ok(Cow::Borrowed(input))
        }
    }

    /// Interpolates `input` with `extra_vars` laid over the provider for
    /// this call: where both bind a name, the value in `extra_vars` counts.
    pub fn interpolate_with<'b>(&self, input: &'b str, extra_vars: &SimpleContext) -> (r: Result<
        Cow<'b, str>,
        Error,
    >)
        ensures
            yields(
                r,
                expand(
                    overlaid(self.env(), extra_vars.bindings()),
                    self.cfg(),
                    false,
                    input@,
                    0,
                ),
            ),
            r matches Ok(c) ==> (c is Borrowed <==> !rewrites(self.cfg(), false, input@, 0)),
            r matches Ok(Cow::Borrowed(s)) ==> s == input,
            is_plain(input@) ==> (r matches Ok(c) && c is Borrowed && c@ == input@),
    {
        let overlay = OverlayProvider { base: self.context, overlay: extra_vars };
        let temp = Interpolator { context: &overlay, config: self.config };
        temp.interpolate(input)
    }

    /// Appends to `buf` the text `s` with its escape sequences replaced.
    pub fn unescape_into(buf: &mut String, s: &[char])
        ensures
            final(buf)@ == old(buf)@ + unescaped(s@),
    {
        let mut i: usize = 0;
        while i < s.len()
            invariant
                i <= s@.len(),
                old(buf)@ + unescaped(s@) == buf@ + unescape_from(s@, i as int),
            decreases s@.len() - i,
        {
            let c = s[i];
            let ghost before = buf@;
            if c == '\\' {
                if s.len() - i > 1 {
                    let next = s[i + 1];
                    let value = if next == 'n' {
                        '\n'
                    } else if next == 'r' {
                        '\r'
                    } else if next == 't' {
                        '\t'
                    } else {
                        next
                    };
                    buf.push(value);
                    proof {
                        assert(before + (seq![escape_value(s@[i + 1])] + unescape_from(
                            s@,
                            i + 2,
                        )) =~= before.push(value) + unescape_from(s@, i + 2));
                    }
                    i += 2;
                } else {
                    buf.push('\\');
                    proof {
                        assert(before + seq!['\\'] =~= before.push('\\') + unescape_from(
                            s@,
                            i + 1,
                        ));
                    }
                    i += 1;
                }
            } else {
                buf.push(c);
                proof {
                    assert(before + (seq![c] + unescape_from(s@, i + 1)) =~= before.push(c)
                        + unescape_from(s@, i + 1));
                }
                i += 1;
            }
        }
        proof {
            assert(buf@ + unescape_from(s@, i as int) =~= buf@);
        }
    }

    /// Appends to `out` the expansion of `input` at nesting depth `depth`,
    /// and says whether a token was rewritten. With `preserve`, an escaped
    /// `$` or backtick stays as written.
    pub fn resolve(&self, input: &[char], depth: usize, preserve: bool, out: &mut String) -> (r:
        Result<bool, Error>)
        requires
            fits(input@),
        ensures
            appended(
                r,
                old(out)@,
                final(out)@,
                expand(self.env(), self.cfg(), preserve, input@, depth as nat),
            ),
            r matches Ok(rewritten) ==> {
                &&& rewritten == rewrites(self.cfg(), preserve, input@, 0)
                &&& !rewritten ==> final(out)@ == old(out)@ + input@
            },
        decreases self.cfg().max_depth - depth, 3nat,
    {
        if depth > self.config.max_depth {
            return Err(Error::RecursiveLookup(from_chars(input)));
        }
        let mut scanner = Scanner::new(input);
        let mut rewritten = false;
        let ghost mut acc: Seq<char> = Seq::empty();
        proof {
            assert(old(out)@ + acc =~= old(out)@);
            assert(input@.subrange(0, 0) =~= acc);
        }
        loop
            invariant
                scanner.text() == input@,
                depth <= self.config.max_depth,
                fits(input@),
                out@ == old(out)@ + acc,
                expand_from(self.env(), self.cfg(), preserve, input@, 0, depth as nat) == prepend(
                    acc,
                    expand_from(
                        self.env(),
                        self.cfg(),
                        preserve,
                        input@,
                        scanner.cursor(),
                        depth as nat,
                    ),
                ),
                rewrites(self.cfg(), preserve, input@, 0) == (rewritten || rewrites(
                    self.cfg(),
                    preserve,
                    input@,
                    scanner.cursor(),
                )),
                !rewritten ==> acc == input@.subrange(0, scanner.cursor()),
            decreases input@.len() - scanner.cursor(),
        {
            let start = scanner.position();
            proof {
                lemma_scan_progress(input@, start as int);
            }
            let (token, _range) = match scanner.scan_next()? {
                None => {
                    proof {
                        assert(acc + Seq::<char>::empty() =~= acc);
                        assert(input@.subrange(0, start as int) =~= input@);
                    }
                    return Ok(rewritten);
                },
                Some(found) => found,
            };
            let end = scanner.position();
            let source = slice_subrange(input, start, end);
            proof {
                lemma_unrewritten_token(
                    self.env(),
                    self.cfg(),
                    preserve,
                    input@,
                    start as int,
                    depth as nat,
                );
                lemma_token_default_fits(input@, start as int);
            }
            let changed = self.resolve_token(token, source, depth, preserve, out)?;
            proof {
                let rest = expand_from(
                    self.env(),
                    self.cfg(),
                    preserve,
                    input@,
                    end as int,
                    depth as nat,
                );
                let head = expand_token(
                    self.env(),
                    self.cfg(),
                    preserve,
                    source@,
                    token@,
                    depth as nat,
                )->Ok_0;
                assert(expand_from(
                    self.env(),
                    self.cfg(),
                    preserve,
                    input@,
                    start as int,
                    depth as nat,
                ) == prepend(head, rest));
                lemma_prepend_twice(acc, head, rest);
                assert(old(out)@ + (acc + head) =~= out@);
                if !rewritten && !changed {
                    assert(input@.subrange(0, start as int) + input@.subrange(
                        start as int,
                        end as int,
                    ) =~= input@.subrange(0, end as int));
                }
                acc = acc + head;
            }
            rewritten = rewritten || changed;
        }
    }

    /// Appends to `out` what `token`, read from `source`, is replaced by,
    /// and says whether the token counts as rewritten.
    pub fn resolve_token(
        &self,
        token: Token<'_>,
        source: &[char],
        depth: usize,
        preserve: bool,
        out: &mut String,
    ) -> (r: Result<bool, Error>)
        requires
            token@ matches TokenView::Variable { default: Some(d), .. } ==> fits(d),
        ensures
            appended(
                r,
                old(out)@,
                final(out)@,
                expand_token(self.env(), self.cfg(), preserve, source@, token@, depth as nat),
            ),
            r matches Ok(changed) ==> changed == token_rewritten(self.cfg(), preserve, token@),
        decreases self.cfg().max_depth - depth, 2nat,
    {
        let ghost before = out@;
        match token {
            Token::Literal(s) => {
                if self.config.features.escapes && contains_char(s, '\\') {
                    Self::unescape_into(out, s);
                    Ok(true)
                } else {
                    push_chars(out, s);
                    proof {
                        if self.config.features.escapes {
                            lemma_unescape_plain(s@, 0);
                            assert(s@.subrange(0, s@.len() as int) =~= s@);
                        }
                    }
                    Ok(false)
                }
            },
            Token::Variable { name, default, strict, conditional } => {
                if self.config.features.variables {
                    self.resolve_variable(name, default, strict, conditional, depth, preserve, out)?;
                    Ok(true)
                } else {
                    push_chars(out, source);
                    Ok(false)
                }
            },
            Token::Command(_) => {
                push_chars(out, source);
                Ok(false)
            },
            Token::BacktickCommand(_) => {
                push_chars(out, source);
                Ok(false)
            },
            Token::Escape(c) => {
                if preserve {
                    push_chars(out, source);
                    Ok(false)
                } else {
                    out.push(c);
                    proof {
                        assert(before.push(c) =~= before + seq![c]);
                    }
                    Ok(true)
                }
            },
        }
    }

    /// Appends to `out` what a reference to the variable `name` is replaced
    /// by.
    pub fn resolve_variable(
        &self,
        name: &[char],
        default: Option<&[char]>,
        strict: bool,
        conditional: bool,
        depth: usize,
        preserve: bool,
        out: &mut String,
    ) -> (r: Result<(), Error>)
        requires
            default matches Some(d) ==> fits(d@),
        ensures
            appended(
                r,
                old(out)@,
                final(out)@,
                expand_variable(
                    self.env(),
                    self.cfg(),
                    preserve,
                    name@,
                    match default {
                        Some(d) => Some(d@),
                        None => None,
                    },
                    strict,
                    conditional,
                    depth as nat,
                ),
            ),
        decreases self.cfg().max_depth - depth, 1nat,
    {
        let key = from_chars(name);
        let value = self.context.get_value(key.as_str());
        let features = self.config.features;
        let applies = default.is_some() && (if conditional {
            features.conditionals
        } else if strict {
            features.defaults
        } else {
            features.alternates
        });
        proof {
            assert(out@ + Seq::<char>::empty() =~= out@);
        }
        match (applies, default) {
            (true, Some(d)) => {
                if conditional {
                    let present = match value {
                        Some(v) => !strict || !v.is_empty(),
                        None => false,
                    };
                    if present {
                        self.resolve_nested(d, depth, preserve, out)
                    } else {
                        Ok(())
                    }
                } else {
                    match value {
                        Some(v) => {
                            if strict && v.is_empty() {
                                self.resolve_nested(d, depth, preserve, out)
                            } else {
                                let chars = to_chars(v);
                                self.resolve_nested(chars.as_slice(), depth, preserve, out)
                            }
                        },
                        None => self.resolve_nested(d, depth, preserve, out),
                    }
                }
            },
            _ => {
                match value {
                    Some(v) => {
                        let chars = to_chars(v);
                        self.resolve_nested(chars.as_slice(), depth, preserve, out)
                    },
                    None => Err(Error::MissingVar(key)),
                }
            },
        }
    }

    /// Appends to `out` the expansion of `text` one level below `depth`.
    fn resolve_nested(&self, text: &[char], depth: usize, preserve: bool, out: &mut String) -> (r:
        Result<(), Error>)
        requires
            fits(text@),
        ensures
            appended(
                r,
                old(out)@,
                final(out)@,
                expand_nested(self.env(), self.cfg(), preserve, text@, depth as nat),
            ),
        decreases self.cfg().max_depth - depth, 0nat,
    {
        if depth >= self.config.max_depth {
            Err(Error::RecursiveLookup(from_chars(text)))
        } else {
            match self.resolve(text, depth + 1, preserve, out) {
                Ok(_) => Ok(()),
                Err(e) => Err(e),
            }
        }
    }
}

} // verus!
