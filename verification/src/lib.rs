//! Shell-style placeholder expansion: `$NAME`, `${NAME}` with default,
//! alternate and conditional modifiers, escape sequences, single-quoted
//! literal text, and command substitution.
//!
//! Names in the `$NAME` form are an ASCII letter or underscore followed by
//! ASCII letters, digits and underscores. In the `${NAME}` form the name is
//! whatever stands before the first modifier, spaces included.

pub mod commands;
pub mod config;
pub mod context;
pub mod error;
pub mod grammar;
pub mod interpolator;
pub mod laws;
pub mod references;
pub mod scanner;
pub mod semantics;
pub mod text;

pub use crate::config::{Config, FeatureConfig};
pub use crate::context::{SimpleContext, VariableProvider};
pub use crate::error::Error;

use crate::commands::{next_segment, CommandPass, Segment};
use crate::context::overlaid;
use crate::interpolator::{yields, Interpolator};
use crate::laws::is_plain;
use crate::references::{insert_sorted, referenced_names, strictly_sorted, texts};
use crate::scanner::{Scanner, Token};
use crate::semantics::{expand, rewrites};
use crate::text::{from_chars, to_chars};
use std::borrow::Cow;
use vstd::prelude::*;

verus! {

/// The interpolation engine: a configuration and the variables it knows.
pub struct Germi {
    config: Config,
    context: SimpleContext,
}

impl Germi {
    /// The variables the engine knows.
    pub closed spec fn bindings(&self) -> Map<Seq<char>, Seq<char>> {
        self.context.bindings()
    }

    /// The configuration of the engine.
    pub closed spec fn settings(&self) -> Config {
        self.config
    }

    /// An engine with the standard configuration and no variables.
    pub fn new() -> (r: Self)
        ensures
            r.settings() == Config::standard(),
            r.bindings() == Map::<Seq<char>, Seq<char>>::empty(),
    {
        Germi { config: Config::default(), context: SimpleContext::new() }
    }

    /// An engine with the configuration `config` and no variables.
    pub fn with_config(config: Config) -> (r: Self)
        ensures
            r.settings() == config,
            r.bindings() == Map::<Seq<char>, Seq<char>>::empty(),
    {
        Germi { config, context: SimpleContext::new() }
    }

    /// Binds the variable `key` to `value`; an earlier value is replaced.
    pub fn add_variable(&mut self, key: &str, value: &str)
        ensures
            final(self).bindings() == old(self).bindings().insert(key@, value@),
            final(self).settings() == old(self).settings(),
    {
        self.context.insert(key, value);
    }

    /// Interpolates `input` against the engine's variables. Commands stay as
    /// written. The input itself is handed back, borrowed, exactly when no
    /// token of it had to be rewritten.
    pub fn interpolate<'b>(&self, input: &'b str) -> (r: Result<Cow<'b, str>, Error>)
        ensures
            yields(r, expand(self.bindings(), self.settings(), false, input@, 0)),
            r matches Ok(c) ==> (c is Borrowed <==> !rewrites(self.settings(), false, input@, 0)),
            r matches Ok(Cow::Borrowed(s)) ==> s == input,
            is_plain(input@) ==> (r matches Ok(c) && c is Borrowed && c@ == input@),
    {
        let interpolator = Interpolator::new(&self.context, &self.config);
        interpolator.interpolate(input)
    }

    /// Interpolates `input` with `extra_vars` laid over the engine's
    /// variables for this call: where both bind a name, the value in
    /// `extra_vars` counts.
    pub fn interpolate_with<'b>(&self, input: &'b str, extra_vars: &SimpleContext) -> (r: Result<
        Cow<'b, str>,
        Error,
    >)
        ensures
            yields(
                r,
                expand(
                    overlaid(self.bindings(), extra_vars.bindings()),
                    self.settings(),
                    false,
                    input@,
                    0,
                ),
            ),
            r matches Ok(c) ==> (c is Borrowed <==> !rewrites(self.settings(), false, input@, 0)),
            r matches Ok(Cow::Borrowed(s)) ==> s == input,
            is_plain(input@) ==> (r matches Ok(c) && c is Borrowed && c@ == input@),
    {
        let interpolator = Interpolator::new(&self.context, &self.config);
        interpolator.interpolate_with(input, extra_vars)
    }

    /// Starts a command substitution on `input`: resolves its variables and
    /// escapes, but leaves an escaped `$` or backtick as written, so that
    /// what it escapes is not taken for a command afterwards.
    pub fn begin_commands(&self, input: &str) -> (r: Result<CommandPass, Error>)
        ensures
            match expand(self.bindings(), self.settings(), true, input@, 0) {
                Ok(s) => r matches Ok(pass) && pass.text() == s && pass.cursor() == 0
                    && pass.output() == Seq::<char>::empty(),
                Err(e) => r matches Err(x) && x@ == e,
            },
    {
        let interpolator = Interpolator::new(&self.context, &self.config);
        interpolator.begin_commands(input)
    }

    /// Reads on to the next command that is to be run and returns its
    /// command line: the text of the command with its variables and escapes
    /// resolved. What is read on the way is copied to the result. Returns
    /// `None` at the end of the text.
    pub fn next_command(&self, pass: &mut CommandPass) -> (r: Result<Option<String>, Error>)
        ensures
            final(pass).text() == old(pass).text(),
            match next_segment(self.settings().features, old(pass).text(), old(pass).cursor()) {
                Segment::End { emitted } => {
                    &&& r matches Ok(None)
                    &&& final(pass).output() == old(pass).output() + emitted
                    &&& final(pass).cursor() == old(pass).text().len()
                },
                Segment::Command { emitted, command, end } => match expand(
                    self.bindings(),
                    self.settings(),
                    false,
                    command,
                    0,
                ) {
                    Ok(line) => {
                        &&& r matches Ok(Some(found))
                        &&& found@ == line
                        &&& final(pass).output() == old(pass).output() + emitted
                        &&& final(pass).cursor() == end
                    },
                    Err(e) => r matches Err(x) && x@ == e,
                },
                Segment::Broken(e) => r matches Err(x) && x@ == e,
            },
    {
        let interpolator = Interpolator::new(&self.context, &self.config);
        interpolator.next_command(pass)
    }
}

impl Default for Germi {
    fn default() -> (r: Self)
        ensures
            r.settings() == Config::standard(),
            r.bindings() == Map::<Seq<char>, Seq<char>>::empty(),
    {
        Germi::new()
    }
}

/// The texts of `names`, in order.
pub open spec fn string_texts(names: Seq<String>) -> Seq<Seq<char>> {
    names.map_values(|n: String| n@)
}

/// The names of the variables that `input` refers to, each once, in
/// lexicographic order. Only the tokens of `input` itself count: names
/// inside commands, inside single-quoted text and inside the text behind a
/// modifier are not reported. Scanning stops at the first malformed
/// construct; what was found before it is reported.
pub fn find_variable_references(input: &str) -> (r: Vec<String>)
    ensures
        strictly_sorted(string_texts(r@)),
        string_texts(r@).to_set() == referenced_names(input@, 0),
{
    let chars = to_chars(input);
    let mut scanner = Scanner::new(chars.as_slice());
    let mut names: Vec<Vec<char>> = Vec::new();
    proof {
        assert(texts(names@).to_set() =~= Set::<Seq<char>>::empty());
    }
    loop
        invariant
            scanner.text() == input@,
            strictly_sorted(texts(names@)),
            referenced_names(input@, 0) == texts(names@).to_set().union(
                referenced_names(input@, scanner.cursor()),
            ),
        ensures
            strictly_sorted(texts(names@)),
            referenced_names(input@, 0) == texts(names@).to_set(),
        decreases input@.len() - scanner.cursor(),
    {
        let ghost found_before = texts(names@).to_set();
        let ghost start = scanner.cursor();
        match scanner.scan_next() {
            Ok(Some((token, _))) => {
                if let Token::Variable { name, .. } = token {
                    insert_sorted(&mut names, name);
                    proof {
                        let end = scanner.cursor();
                        assert(found_before.union(referenced_names(input@, end).insert(name@))
                            =~= found_before.insert(name@).union(referenced_names(input@, end)));
                    }
                }
            },
            _ => {
                proof {
                    assert(found_before.union(Set::<Seq<char>>::empty()) =~= found_before);
                }
                break ;
            },
        }
    }
    let mut result: Vec<String> = Vec::new();
    let mut i: usize = 0;
    while i < names.len()
        invariant
            i <= names@.len(),
            string_texts(result@) == texts(names@).take(i as int),
        decreases names@.len() - i,
    {
        let ghost done = result@;
        let name = from_chars(names[i].as_slice());
        result.push(name);
        i += 1;
        proof {
            let want = texts(names@).take(i as int);
            assert(string_texts(done) == texts(names@).take(i - 1));
            assert forall|k: int| 0 <= k < i implies string_texts(result@)[k] == want[k] by {
                if k < i - 1 {
                    assert(string_texts(done)[k] == texts(names@).take(i - 1)[k]);
                    assert(result@[k] == done[k]);
                }
            }
            assert(string_texts(result@) =~= want);
        }
    }
    proof {
        assert(texts(names@).take(names@.len() as int) =~= texts(names@));
    }
    result
}

} // verus!
