//! What an interpolation yields, as functions on character sequences.
//!
//! `expand` gives the result of interpolating a text against a set of
//! bindings: the tokens of the text from left to right, each replaced by what
//! it stands for. The first failure, in that order, is the result.

use crate::config::{Config, FeatureConfig};
use crate::error::ErrorView;
use crate::grammar::{lemma_scan_progress, scan_at, Scan, TokenView};
use vstd::prelude::*;

verus! {

/// The value bound to `name`, if there is one.
pub open spec fn lookup(env: Map<Seq<char>, Seq<char>>, name: Seq<char>) -> Option<Seq<char>> {
    if env.contains_key(name) {
        Some(env[name])
    } else {
        None
    }
}

/// The character that `\c` stands for: `\n`, `\r` and `\t` are the control
/// characters, any other character stands for itself.
pub open spec fn escape_value(c: char) -> char {
    if c == 'n' {
        '\n'
    } else if c == 'r' {
        '\r'
    } else if c == 't' {
        '\t'
    } else {
        c
    }
}

/// `s` from index `i` on with its escape sequences replaced. A backslash
/// that ends the text stays.
pub open spec fn unescape_from(s: Seq<char>, i: int) -> Seq<char>
    decreases s.len() - i,
{
    if i < 0 || i >= s.len() {
        Seq::empty()
    } else if s[i] == '\\' {
        if i + 1 < s.len() {
            seq![escape_value(s[i + 1])] + unescape_from(s, i + 2)
        } else {
            seq!['\\']
        }
    } else {
        seq![s[i]] + unescape_from(s, i + 1)
    }
}

/// `s` with its escape sequences replaced.
pub open spec fn unescaped(s: Seq<char>) -> Seq<char> {
    unescape_from(s, 0)
}

/// What a variable reference is replaced by.
pub enum Choice {
    /// The expansion of the variable's value.
    Value(Seq<char>),
    /// The expansion of the text behind the modifier.
    Replacement(Seq<char>),
    /// Nothing.
    Empty,
    /// Nothing can replace it: the variable is unset and no default applies.
    Missing,
}

/// True when the modifier of a reference is to be honoured: there is one, and
/// the feature that governs it is switched on.
pub open spec fn modifier_applies(
    features: FeatureConfig,
    default: Option<Seq<char>>,
    strict: bool,
    conditional: bool,
) -> bool {
    default is Some && (if conditional {
        features.conditionals
    } else if strict {
        features.defaults
    } else {
        features.alternates
    })
}

/// What replaces a reference whose variable has the value `value`.
///
/// Without a modifier that applies, the value, which must exist. With `-` the
/// default stands in for an unset variable, with `:-` also for an empty one.
/// With `+` the replacement stands in for a variable that is set, with `:+`
/// only if it is not empty; otherwise nothing does.
pub open spec fn choice(
    features: FeatureConfig,
    value: Option<Seq<char>>,
    default: Option<Seq<char>>,
    strict: bool,
    conditional: bool,
) -> Choice {
    if !modifier_applies(features, default, strict, conditional) {
        match value {
            Some(v) => Choice::Value(v),
            None => Choice::Missing,
        }
    } else if conditional {
        if value is Some && (!strict || value->0.len() > 0) {
            Choice::Replacement(default->0)
        } else {
            Choice::Empty
        }
    } else {
        if value is None || (strict && value->0.len() == 0) {
            Choice::Replacement(default->0)
        } else {
            Choice::Value(value->0)
        }
    }
}

/// `r` with `acc` put in front of its text.
pub open spec fn prepend(acc: Seq<char>, r: Result<Seq<char>, ErrorView>) -> Result<
    Seq<char>,
    ErrorView,
> {
    match r {
        Ok(s) => Ok(acc + s),
        Err(e) => Err(e),
    }
}

/// The expansion of `text` from the token at `pos` on, at nesting depth
/// `depth`.
pub open spec fn expand_from(
    env: Map<Seq<char>, Seq<char>>,
    cfg: Config,
    preserve: bool,
    text: Seq<char>,
    pos: int,
    depth: nat,
) -> Result<Seq<char>, ErrorView>
    decreases cfg.max_depth - depth, 3nat, text.len() - pos,
{
    match scan_at(text, pos) {
        Scan::End => Ok(Seq::empty()),
        Scan::Fail(e) => Err(e),
        Scan::Token { token, end } => {
            proof {
                lemma_scan_progress(text, pos);
            }
            match expand_token(env, cfg, preserve, text.subrange(pos, end), token, depth) {
                Err(e) => Err(e),
                Ok(head) => prepend(head, expand_from(env, cfg, preserve, text, end, depth)),
            }
        },
    }
}

/// What `token`, read from `source`, is replaced by.
///
/// A literal has its escape sequences replaced if escapes are switched on. A
/// variable is resolved if variables are switched on, and stays as written
/// otherwise. A command stays as written. An escaped `$` or backtick becomes
/// that character, or stays as written where escapes are to be preserved for
/// a later pass.
pub open spec fn expand_token(
    env: Map<Seq<char>, Seq<char>>,
    cfg: Config,
    preserve: bool,
    source: Seq<char>,
    token: TokenView,
    depth: nat,
) -> Result<Seq<char>, ErrorView>
    decreases cfg.max_depth - depth, 2nat, 0int,
{
    match token {
        TokenView::Literal(s) => Ok(
            if cfg.features.escapes {
                unescaped(s)
            } else {
                s
            },
        ),
        TokenView::Variable { name, default, strict, conditional } => {
            if cfg.features.variables {
                expand_variable(env, cfg, preserve, name, default, strict, conditional, depth)
            } else {
                Ok(source)
            }
        },
        TokenView::Command(_) => Ok(source),
        TokenView::BacktickCommand(_) => Ok(source),
        TokenView::Escape(c) => Ok(
            if preserve {
                source
            } else {
                seq![c]
            },
        ),
    }
}

/// What a reference to the variable `name` is replaced by: the expansion,
/// one level down, of the text that `choice` picks. The text behind the
/// modifier is expanded only where it is picked.
pub open spec fn expand_variable(
    env: Map<Seq<char>, Seq<char>>,
    cfg: Config,
    preserve: bool,
    name: Seq<char>,
    default: Option<Seq<char>>,
    strict: bool,
    conditional: bool,
    depth: nat,
) -> Result<Seq<char>, ErrorView>
    decreases cfg.max_depth - depth, 1nat, 0int,
{
    match choice(cfg.features, lookup(env, name), default, strict, conditional) {
        Choice::Value(v) => expand_nested(env, cfg, preserve, v, depth),
        Choice::Replacement(d) => expand_nested(env, cfg, preserve, d, depth),
        Choice::Empty => Ok(Seq::empty()),
        Choice::Missing => Err(ErrorView::MissingVar(name)),
    }
}

/// The expansion of `text` one level below `depth`. It fails where that
/// level lies beyond the configured limit.
pub open spec fn expand_nested(
    env: Map<Seq<char>, Seq<char>>,
    cfg: Config,
    preserve: bool,
    text: Seq<char>,
    depth: nat,
) -> Result<Seq<char>, ErrorView>
    decreases cfg.max_depth - depth, 0nat, 0int,
{
    if depth >= cfg.max_depth {
        Err(ErrorView::RecursiveLookup(text))
    } else {
        expand_from(env, cfg, preserve, text, 0, depth + 1)
    }
}

/// The expansion of `text` at nesting depth `depth`: a failure beyond the
/// configured limit, else the expansion of its tokens.
pub open spec fn expand(
    env: Map<Seq<char>, Seq<char>>,
    cfg: Config,
    preserve: bool,
    text: Seq<char>,
    depth: nat,
) -> Result<Seq<char>, ErrorView> {
    if depth > cfg.max_depth {
        Err(ErrorView::RecursiveLookup(text))
    } else {
        expand_from(env, cfg, preserve, text, 0, depth)
    }
}

/// True when the replacement of `token` can differ from how it is written.
pub open spec fn token_rewritten(cfg: Config, preserve: bool, token: TokenView) -> bool {
    match token {
        TokenView::Literal(s) => cfg.features.escapes && s.contains('\\'),
        TokenView::Variable { .. } => cfg.features.variables,
        TokenView::Command(_) => false,
        TokenView::BacktickCommand(_) => false,
        TokenView::Escape(_) => !preserve,
    }
}

/// True when some token of `text` at or after `pos` is rewritten.
pub open spec fn rewrites(cfg: Config, preserve: bool, text: Seq<char>, pos: int) -> bool
    decreases text.len() - pos,
{
    match scan_at(text, pos) {
        Scan::End => false,
        Scan::Fail(_) => false,
        Scan::Token { token, end } => {
            proof {
                lemma_scan_progress(text, pos);
            }
            token_rewritten(cfg, preserve, token) || rewrites(cfg, preserve, text, end)
        },
    }
}

/// A token that is not rewritten is replaced by its own source text.
pub proof fn lemma_unrewritten_token(
    env: Map<Seq<char>, Seq<char>>,
    cfg: Config,
    preserve: bool,
    text: Seq<char>,
    pos: int,
    depth: nat,
)
    ensures
        scan_at(text, pos) matches Scan::Token { token, end } ==> (!token_rewritten(
            cfg,
            preserve,
            token,
        ) ==> expand_token(env, cfg, preserve, text.subrange(pos, end), token, depth) == Ok::<
            Seq<char>,
            ErrorView,
        >(text.subrange(pos, end))),
{
    if let Scan::Token { token, end } = scan_at(text, pos) {
        if let TokenView::Literal(s) = token {
            if cfg.features.escapes && !s.contains('\\') {
                lemma_unescape_plain(s, 0);
                assert(s.subrange(0, s.len() as int) =~= s);
            }
        }
    }
}

/// Putting two texts in front, one after the other, is putting their
/// concatenation in front.
pub proof fn lemma_prepend_twice(a: Seq<char>, b: Seq<char>, r: Result<Seq<char>, ErrorView>)
    ensures
        prepend(a, prepend(b, r)) == prepend(a + b, r),
{
    match r {
        Ok(s) => {
            assert(a + (b + s) =~= (a + b) + s);
        },
        Err(_) => {},
    }
}

/// A text without a backslash from `i` on is its own unescaped form.
pub proof fn lemma_unescape_plain(s: Seq<char>, i: int)
    requires
        0 <= i <= s.len(),
        forall|k: int| i <= k < s.len() ==> s[k] != '\\',
    ensures
        unescape_from(s, i) == s.subrange(i, s.len() as int),
    decreases s.len() - i,
{
    if i < s.len() {
        lemma_unescape_plain(s, i + 1);
        assert(seq![s[i]] + s.subrange(i + 1, s.len() as int) =~= s.subrange(i, s.len() as int));
    } else {
        assert(s.subrange(i, s.len() as int) =~= Seq::<char>::empty());
    }
}

} // verus!
