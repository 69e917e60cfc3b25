//! Laws of the grammar and of interpolation.

use crate::commands::{next_segment, Segment};
use crate::config::{Config, FeatureConfig};
use crate::error::ErrorView;
use crate::grammar::{
    backtick_close, closing_brace, command_end, first_modifier, lemma_scan_progress, literal_end,
    modifier_at, quote_end, scan_at, CommandEnd, Scan, TokenView,
};
use crate::semantics::{
    expand, expand_from, expand_nested, expand_token, expand_variable, lemma_unescape_plain,
    lemma_unrewritten_token, modifier_applies, prepend, rewrites, token_rewritten,
};
use vstd::prelude::*;

verus! {

/// One of the characters at which plain text can end: `$`, backslash,
/// single quote, backtick.
pub open spec fn is_special(c: char) -> bool {
    c == '$' || c == '\\' || c == '\'' || c == '`'
}

/// No special character occurs in `text`.
pub open spec fn is_plain(text: Seq<char>) -> bool {
    forall|i: int| 0 <= i < text.len() ==> !is_special(#[trigger] text[i])
}

/// The source texts of the tokens of `text` from `pos` on, one after the
/// other, up to the end or to the first malformed construct.
pub open spec fn token_sources(text: Seq<char>, pos: int) -> Seq<char>
    decreases text.len() - pos,
{
    match scan_at(text, pos) {
        Scan::End => Seq::empty(),
        Scan::Fail(_) => Seq::empty(),
        Scan::Token { end, .. } => {
            proof {
                lemma_scan_progress(text, pos);
            }
            text.subrange(pos, end) + token_sources(text, end)
        },
    }
}

/// True when every construct of `text` from `pos` on is well formed.
pub open spec fn scans_cleanly(text: Seq<char>, pos: int) -> bool
    decreases text.len() - pos,
{
    match scan_at(text, pos) {
        Scan::End => true,
        Scan::Fail(_) => false,
        Scan::Token { end, .. } => {
            proof {
                lemma_scan_progress(text, pos);
            }
            scans_cleanly(text, end)
        },
    }
}

/// The tokens of a well-formed text cover it without gap or overlap: their
/// source texts, one after the other, are the text.
pub proof fn lemma_tokens_cover_text(text: Seq<char>, pos: int)
    requires
        0 <= pos <= text.len(),
        scans_cleanly(text, pos),
    ensures
        token_sources(text, pos) == text.subrange(pos, text.len() as int),
    decreases text.len() - pos,
{
    lemma_scan_progress(text, pos);
    match scan_at(text, pos) {
        Scan::Token { end, .. } => {
            lemma_tokens_cover_text(text, end);
            assert(text.subrange(pos, end) + text.subrange(end, text.len() as int)
                =~= text.subrange(pos, text.len() as int));
        },
        _ => {
            assert(text.subrange(pos, text.len() as int) =~= Seq::<char>::empty());
        },
    }
}

/// Handing the input back is sound: a well-formed text of which no token is
/// rewritten is its own expansion.
pub proof fn lemma_unrewritten_text_is_unchanged(
    env: Map<Seq<char>, Seq<char>>,
    cfg: Config,
    preserve: bool,
    text: Seq<char>,
    pos: int,
    depth: nat,
)
    requires
        0 <= pos <= text.len(),
        scans_cleanly(text, pos),
        !rewrites(cfg, preserve, text, pos),
    ensures
        expand_from(env, cfg, preserve, text, pos, depth) == Ok::<Seq<char>, ErrorView>(
            text.subrange(pos, text.len() as int),
        ),
    decreases text.len() - pos,
{
    lemma_scan_progress(text, pos);
    match scan_at(text, pos) {
        Scan::Token { token, end } => {
            lemma_unrewritten_token(env, cfg, preserve, text, pos, depth);
            lemma_unrewritten_text_is_unchanged(env, cfg, preserve, text, end, depth);
            assert(text.subrange(pos, end) + text.subrange(end, text.len() as int)
                =~= text.subrange(pos, text.len() as int));
        },
        _ => {
            assert(text.subrange(pos, text.len() as int) =~= Seq::<char>::empty());
        },
    }
}

/// A modifier whose feature is switched off is ignored: the reference is
/// resolved as if it were written without modifier.
pub proof fn lemma_disabled_modifier_is_ignored(
    env: Map<Seq<char>, Seq<char>>,
    cfg: Config,
    preserve: bool,
    name: Seq<char>,
    default: Option<Seq<char>>,
    strict: bool,
    conditional: bool,
    depth: nat,
)
    requires
        !modifier_applies(cfg.features, default, strict, conditional),
    ensures
        expand_variable(env, cfg, preserve, name, default, strict, conditional, depth)
            == expand_variable(env, cfg, preserve, name, None, false, false, depth),
{
}

/// Plain text from `i` on is one literal run up to the end of the text.
proof fn lemma_plain_literal_end(text: Seq<char>, i: int)
    requires
        0 <= i <= text.len(),
        forall|k: int| i <= k < text.len() ==> !is_special(#[trigger] text[k]),
    ensures
        literal_end(text, i) == text.len(),
    decreases text.len() - i,
{
    if i < text.len() {
        assert(!is_special(text[i]));
        lemma_plain_literal_end(text, i + 1);
    }
}

/// A text that is one literal token without a backslash is its own
/// expansion.
proof fn lemma_single_literal(
    env: Map<Seq<char>, Seq<char>>,
    cfg: Config,
    preserve: bool,
    text: Seq<char>,
    depth: nat,
)
    requires
        scan_at(text, 0) == (Scan::Token {
            token: TokenView::Literal(text),
            end: text.len() as int,
        }),
        !text.contains('\\'),
        depth <= cfg.max_depth,
    ensures
        expand(env, cfg, preserve, text, depth) == Ok::<Seq<char>, ErrorView>(text),
        !rewrites(cfg, preserve, text, 0),
{
    let end = text.len() as int;
    let token = TokenView::Literal(text);
    lemma_unescape_plain(text, 0);
    assert(text.subrange(0, end) =~= text);
    assert(expand_token(env, cfg, preserve, text, token, depth) == Ok::<Seq<char>, ErrorView>(
        text,
    ));
    assert(scan_at(text, end) is End);
    assert(expand_from(env, cfg, preserve, text, end, depth) == Ok::<Seq<char>, ErrorView>(
        Seq::empty(),
    ));
    assert(text + Seq::<char>::empty() =~= text);
    assert(expand_from(env, cfg, preserve, text, 0, depth) == prepend(
        text,
        expand_from(env, cfg, preserve, text, end, depth),
    ));
    assert(!rewrites(cfg, preserve, text, end));
    assert(rewrites(cfg, preserve, text, 0) == (token_rewritten(cfg, preserve, token) || rewrites(
        cfg,
        preserve,
        text,
        end,
    )));
}

/// Identity: a text without `$`, backslash, single quote or backtick is its
/// own interpolation, whatever the variables and the configuration, and no
/// token of it is rewritten.
pub proof fn lemma_plain_text_is_unchanged(
    env: Map<Seq<char>, Seq<char>>,
    cfg: Config,
    preserve: bool,
    text: Seq<char>,
    depth: nat,
)
    requires
        is_plain(text),
        depth <= cfg.max_depth,
    ensures
        expand(env, cfg, preserve, text, depth) == Ok::<Seq<char>, ErrorView>(text),
        !rewrites(cfg, preserve, text, 0),
{
    if text.len() == 0 {
        assert(text =~= Seq::<char>::empty());
    } else {
        assert(!is_special(text[0]));
        lemma_plain_literal_end(text, 0);
        let end = text.len() as int;
        assert(text.subrange(0, end) =~= text);
        assert(scan_at(text, 0) == Scan::Token { token: TokenView::Literal(text), end });
        assert(!text.contains('\\')) by {
            if text.contains('\\') {
                let k = choose|k: int| 0 <= k < text.len() && text[k] == '\\';
                assert(is_special(text[k]));
            }
        }
        lemma_unescape_plain(text, 0);
        assert(expand_token(env, cfg, preserve, text, TokenView::Literal(text), depth) == Ok::<
            Seq<char>,
            ErrorView,
        >(text));
        lemma_single_literal(env, cfg, preserve, text, depth);
    }
}

/// A quoted region without quote or backslash inside ends behind the quote
/// that closes it.
proof fn lemma_quote_end_of_plain(text: Seq<char>, i: int, close: int)
    requires
        0 <= i <= close < text.len(),
        text[close] == '\'',
        forall|k: int| i <= k < close ==> text[k] != '\'' && text[k] != '\\',
    ensures
        quote_end(text, i) == close + 1,
    decreases close - i,
{
    if i < close {
        lemma_quote_end_of_plain(text, i + 1, close);
    }
}

/// Single-quoted text is never interpolated: a text in single quotes, with
/// neither quote nor backslash inside, is its own interpolation, whatever
/// else it holds, and no token of it is rewritten.
pub proof fn lemma_single_quoted_is_unchanged(
    env: Map<Seq<char>, Seq<char>>,
    cfg: Config,
    preserve: bool,
    inner: Seq<char>,
    depth: nat,
)
    requires
        forall|k: int| 0 <= k < inner.len() ==> inner[k] != '\'' && inner[k] != '\\',
        depth <= cfg.max_depth,
    ensures
        expand(env, cfg, preserve, seq!['\''] + inner + seq!['\''], depth) == Ok::<
            Seq<char>,
            ErrorView,
        >(seq!['\''] + inner + seq!['\'']),
        !rewrites(cfg, preserve, seq!['\''] + inner + seq!['\''], 0),
{
    let text = seq!['\''] + inner + seq!['\''];
    let end = text.len() as int;
    assert(text[0] == '\'');
    assert(text[end - 1] == '\'');
    assert forall|k: int| 1 <= k < end - 1 implies text[k] != '\'' && text[k] != '\\' by {
        assert(text[k] == inner[k - 1]);
    }
    lemma_quote_end_of_plain(text, 1, end - 1);
    assert(literal_end(text, 0) == literal_end(text, end));
    assert(text.subrange(0, end) =~= text);
    assert(scan_at(text, 0) == Scan::Token { token: TokenView::Literal(text), end });
    assert(!text.contains('\\')) by {
        if text.contains('\\') {
            let k = choose|k: int| 0 <= k < text.len() && text[k] == '\\';
            if 1 <= k < end - 1 {
                assert(text[k] == inner[k - 1]);
            }
        }
    }
    lemma_unescape_plain(text, 0);
    assert(expand_token(env, cfg, preserve, text, TokenView::Literal(text), depth) == Ok::<
        Seq<char>,
        ErrorView,
    >(text));
    lemma_single_literal(env, cfg, preserve, text, depth);
}

/// True when `name` can stand between `${` and `}` as a name and nothing
/// else: it holds no brace and no `-` or `+`.
pub open spec fn is_bare_name(name: Seq<char>) -> bool {
    forall|k: int|
        0 <= k < name.len() ==> {
            let c = #[trigger] name[k];
            c != '{' && c != '}' && c != '-' && c != '+'
        }
}

/// `${name}`.
pub open spec fn braced(name: Seq<char>) -> Seq<char> {
    seq!['$', '{'] + name + seq!['}']
}

/// The brace around a bare name closes right behind the name.
proof fn lemma_closing_brace_of_bare(text: Seq<char>, i: int, close: int)
    requires
        0 <= i <= close < text.len(),
        text[close] == '}',
        forall|k: int| i <= k < close ==> text[k] != '{' && text[k] != '}',
    ensures
        closing_brace(text, i, 1) == Some(close),
    decreases close - i,
{
    if i < close {
        lemma_closing_brace_of_bare(text, i + 1, close);
    }
}

/// A bare name holds no modifier.
proof fn lemma_no_modifier_in_bare(name: Seq<char>, i: int)
    requires
        0 <= i,
        is_bare_name(name),
    ensures
        first_modifier(name, i) is None,
    decreases name.len() - i,
{
    if i < name.len() {
        let c = name[i];
        if i + 1 < name.len() {
            let d = name[i + 1];
        }
        assert(modifier_at(name, i) is None);
        lemma_no_modifier_in_bare(name, i + 1);
    }
}

/// `${name}` with a bare name is one token: a reference to `name` without
/// modifier.
pub proof fn lemma_scan_braced_bare(name: Seq<char>)
    requires
        is_bare_name(name),
    ensures
        scan_at(braced(name), 0) == (Scan::Token {
            token: TokenView::Variable {
                name,
                default: None,
                strict: false,
                conditional: false,
            },
            end: braced(name).len() as int,
        }),
{
    let text = braced(name);
    let close = text.len() - 1;
    assert(text[0] == '$' && text[1] == '{' && text[close] == '}');
    assert forall|k: int| 2 <= k < close implies text[k] != '{' && text[k] != '}' by {
        assert(text[k] == name[k - 2]);
    }
    lemma_closing_brace_of_bare(text, 2, close);
    assert(text.subrange(2, close) =~= name);
    lemma_no_modifier_in_bare(name, 0);
}

/// A variable bound to a reference to itself cannot be resolved: with
/// variables switched on, interpolating `${name}` where `name` is bound to
/// `${name}` fails with a recursive lookup, at every depth and for every
/// limit on the depth.
pub proof fn lemma_self_reference_fails(
    env: Map<Seq<char>, Seq<char>>,
    cfg: Config,
    preserve: bool,
    name: Seq<char>,
    depth: nat,
)
    requires
        is_bare_name(name),
        env.contains_key(name),
        env[name] == braced(name),
        cfg.features.variables,
    ensures
        expand(env, cfg, preserve, braced(name), depth) == Err::<Seq<char>, ErrorView>(
            ErrorView::RecursiveLookup(braced(name)),
        ),
    decreases cfg.max_depth - depth,
{
    let text = braced(name);
    if depth <= cfg.max_depth {
        lemma_scan_braced_bare(name);
        let token = TokenView::Variable { name, default: None, strict: false, conditional: false };
        assert(expand_variable(env, cfg, preserve, name, None, false, false, depth)
            == expand_nested(env, cfg, preserve, text, depth));
        if depth < cfg.max_depth {
            lemma_self_reference_fails(env, cfg, preserve, name, depth + 1);
        }
        assert(expand_token(env, cfg, preserve, text.subrange(0, text.len() as int), token, depth)
            == Err::<Seq<char>, ErrorView>(ErrorView::RecursiveLookup(text)));
    }
}

/// True when `command` holds none of the characters that matter to where a
/// command ends: parenthesis, quote, backtick, backslash.
pub open spec fn is_bare_command(command: Seq<char>) -> bool {
    forall|k: int|
        0 <= k < command.len() ==> {
            let c = #[trigger] command[k];
            c != '(' && c != ')' && c != '\'' && c != '"' && c != '`' && c != '\\'
        }
}

/// A backtick command without special characters ends at the next backtick.
proof fn lemma_backtick_close_of_bare(text: Seq<char>, i: int, close: int)
    requires
        0 <= i <= close < text.len(),
        text[close] == '`',
        forall|k: int| i <= k < close ==> text[k] != '`' && text[k] != '\\',
    ensures
        backtick_close(text, i) == Some(close),
    decreases close - i,
{
    if i < close {
        lemma_backtick_close_of_bare(text, i + 1, close);
    }
}

/// A command without special characters ends at the next parenthesis.
proof fn lemma_command_end_of_bare(text: Seq<char>, i: int, close: int)
    requires
        0 <= i <= close < text.len(),
        text[close] == ')',
        forall|k: int|
            i <= k < close ==> text[k] != '(' && text[k] != ')' && text[k] != '\'' && text[k]
                != '"' && text[k] != '\\',
    ensures
        command_end(text, i, 1) == CommandEnd::Closed(close),
    decreases close - i,
{
    if i < close {
        lemma_command_end_of_bare(text, i + 1, close);
    }
}

/// The two forms of command substitution agree: `` `command` `` and
/// `$(command)` are each one command with the text `command`, so that, where
/// both kinds are switched on, the same command line is handed out for both.
pub proof fn lemma_command_forms_agree(features: FeatureConfig, command: Seq<char>)
    requires
        is_bare_command(command),
        features.commands,
        features.backtick_commands,
    ensures
        next_segment(features, seq!['`'] + command + seq!['`'], 0) == (Segment::Command {
            emitted: Seq::empty(),
            command,
            end: command.len() as int + 2,
        }),
        next_segment(features, seq!['$', '('] + command + seq![')'], 0) == (Segment::Command {
            emitted: Seq::empty(),
            command,
            end: command.len() as int + 3,
        }),
{
    let n = command.len() as int;
    let ticks = seq!['`'] + command + seq!['`'];
    assert(ticks[0] == '`' && ticks[n + 1] == '`');
    assert forall|k: int| 1 <= k < n + 1 implies ticks[k] != '`' && ticks[k]
        != '\\' by {
        assert(ticks[k] == command[k - 1]);
    }
    lemma_backtick_close_of_bare(ticks, 1, n + 1);
    assert(ticks.subrange(1, n + 1) =~= command);

    let parens = seq!['$', '('] + command + seq![')'];
    assert(parens[0] == '$' && parens[1] == '(' && parens[n + 2] == ')');
    assert forall|k: int| 2 <= k < n + 2 implies parens[k] != '(' && parens[k] != ')'
        && parens[k] != '\'' && parens[k] != '"' && parens[k] != '\\' by {
        assert(parens[k] == command[k - 2]);
    }
    lemma_command_end_of_bare(parens, 2, n + 2);
    assert(parens.subrange(2, n + 2) =~= command);
}

/// The text behind a conditional modifier is looked at only where it is
/// used: a reference with `+` or `:+` to a variable that is unset is
/// replaced by nothing, whatever that text holds.
pub proof fn lemma_unset_conditional_is_empty(
    env: Map<Seq<char>, Seq<char>>,
    cfg: Config,
    preserve: bool,
    name: Seq<char>,
    replacement: Seq<char>,
    strict: bool,
    depth: nat,
)
    requires
        !env.contains_key(name),
        cfg.features.conditionals,
    ensures
        expand_variable(env, cfg, preserve, name, Some(replacement), strict, true, depth) == Ok::<
            Seq<char>,
            ErrorView,
        >(Seq::empty()),
{
}

} // verus!
