//! Command substitution, step by step.
//!
//! Running a command is the caller's business. The engine says which command
//! is due and takes what came of it: `begin_commands` resolves variables,
//! `next_command` copies text up to the next command and hands out its
//! command line, `supply` splices the outcome in, and `finish` gives the
//! result. Commands are thereby run one after the other, in the order in
//! which they stand in the text.
//!
//! The text that `begin_commands` yields is scanned anew for commands, so a
//! command that the value of a variable holds is run as well.

use crate::config::FeatureConfig;
use crate::context::VariableProvider;
use crate::error::{Error, ErrorView};
use crate::grammar::{
    lemma_part_fits, lemma_scan_progress, lemma_scan_within, scan_at, Scan, TokenView,
};
use crate::interpolator::Interpolator;
use crate::scanner::{Scanner, Token};
use crate::semantics::expand;
use crate::text::{byte_offset, fits, push_chars, to_chars};
use vstd::prelude::*;
use vstd::slice::slice_subrange;
use vstd::string::*;

verus! {

/// What came of running a command.
#[derive(Debug, Clone, PartialEq, Eq)]
pub enum CommandOutcome {
    /// The command ran and succeeded. Holds what it wrote to standard output.
    Output(String),
    /// The command ran and failed. Holds what it wrote to standard error.
    Failed(String),
    /// The command could not be started. Holds the reason.
    NotStarted(String),
}

/// True when `token` is a command whose kind is switched on.
pub open spec fn runs(features: FeatureConfig, token: TokenView) -> bool {
    match token {
        TokenView::Command(_) => features.commands,
        TokenView::BacktickCommand(_) => features.backtick_commands,
        _ => false,
    }
}

/// What a token that is not run leaves in the result: an escaped `$` or
/// backtick leaves that character, anything else stays as written.
pub open spec fn kept(token: TokenView, source: Seq<char>) -> Seq<char> {
    match token {
        TokenView::Escape(c) => seq![c],
        _ => source,
    }
}

/// The text of a command token.
pub open spec fn command_text(token: TokenView) -> Seq<char> {
    match token {
        TokenView::Command(cmd) => cmd,
        TokenView::BacktickCommand(cmd) => cmd,
        _ => Seq::empty(),
    }
}

/// What lies between a position and the next command to run.
pub enum Segment {
    /// No command is left. `emitted` is what the rest of the text leaves in
    /// the result.
    End { emitted: Seq<char> },
    /// A command is due. `emitted` is what the text before it leaves in the
    /// result, `command` is its text, and the command ends before `end`.
    Command { emitted: Seq<char>, command: Seq<char>, end: int },
    /// A construct before the next command is malformed.
    Broken(ErrorView),
}

/// `segment` with `prefix` put in front of what it emits.
pub open spec fn put_before(prefix: Seq<char>, segment: Segment) -> Segment {
    match segment {
        Segment::End { emitted } => Segment::End { emitted: prefix + emitted },
        Segment::Command { emitted, command, end } => Segment::Command {
            emitted: prefix + emitted,
            command,
            end,
        },
        Segment::Broken(e) => Segment::Broken(e),
    }
}

/// What lies between `pos` and the next command to run.
pub open spec fn next_segment(features: FeatureConfig, text: Seq<char>, pos: int) -> Segment
    decreases text.len() - pos,
{
    match scan_at(text, pos) {
        Scan::End => Segment::End { emitted: Seq::empty() },
        Scan::Fail(e) => Segment::Broken(e),
        Scan::Token { token, end } => {
            proof {
                lemma_scan_progress(text, pos);
            }
            if runs(features, token) {
                Segment::Command { emitted: Seq::empty(), command: command_text(token), end }
            } else {
                put_before(
                    kept(token, text.subrange(pos, end)),
                    next_segment(features, text, end),
                )
            }
        },
    }
}

/// `s` without the newlines at its end.
pub open spec fn strip_trailing_newlines(s: Seq<char>) -> Seq<char>
    decreases s.len(),
{
    if s.len() > 0 && s.last() == '\n' {
        strip_trailing_newlines(s.drop_last())
    } else {
        s
    }
}

/// What stripping leaves is the start of the text, does not end in a
/// newline, and is followed by newlines only.
pub proof fn lemma_strip_trailing_newlines(s: Seq<char>)
    ensures
        strip_trailing_newlines(s).len() <= s.len(),
        strip_trailing_newlines(s) == s.subrange(0, strip_trailing_newlines(s).len() as int),
        strip_trailing_newlines(s).len() > 0 ==> strip_trailing_newlines(s).last() != '\n',
        forall|k: int| strip_trailing_newlines(s).len() <= k < s.len() ==> s[k] == '\n',
    decreases s.len(),
{
    if s.len() > 0 && s.last() == '\n' {
        lemma_strip_trailing_newlines(s.drop_last());
        let kept = strip_trailing_newlines(s);
        assert(s.drop_last().subrange(0, kept.len() as int) =~= s.subrange(0, kept.len() as int));
        assert forall|k: int| kept.len() <= k < s.len() implies s[k] == '\n' by {
            if k < s.len() - 1 {
                assert(s.drop_last()[k] == s[k]);
            }
        }
    } else {
        assert(s.subrange(0, s.len() as int) =~= s);
    }
}

/// Appends `s` without the newlines at its end to `out`.
pub fn push_stripped(out: &mut String, s: &[char])
    ensures
        final(out)@ == old(out)@ + strip_trailing_newlines(s@),
{
    let mut end: usize = s.len();
    proof {
        assert(s@.subrange(0, end as int) =~= s@);
    }
    while end > 0 && s[end - 1] == '\n'
        invariant
            end <= s@.len(),
            strip_trailing_newlines(s@) == strip_trailing_newlines(s@.subrange(0, end as int)),
        decreases end,
    {
        proof {
            assert(s@.subrange(0, end as int).drop_last() =~= s@.subrange(0, end as int - 1));
        }
        end -= 1;
    }
    push_chars(out, slice_subrange(s, 0, end));
}

/// A command substitution under way: the text whose commands are run, how
/// far it has been read, and the result so far.
pub struct CommandPass {
    text: Vec<char>,
    /// Index up to which the text has been read, and its byte offset.
    mark: (usize, usize),
    out: String,
}

impl CommandPass {
    /// The text whose commands are run.
    pub closed spec fn text(&self) -> Seq<char> {
        self.text@
    }

    /// Index up to which the text has been read.
    pub closed spec fn cursor(&self) -> int {
        self.mark.0 as int
    }

    /// The result so far.
    pub closed spec fn output(&self) -> Seq<char> {
        self.out@
    }

    /// The cursor lies within the text and its byte offset is known.
    #[verifier::type_invariant]
    spec fn wf(&self) -> bool {
        &&& fits(self.text@)
        &&& self.mark.0 <= self.text@.len()
        &&& self.mark.1 == byte_offset(self.text@, self.mark.0 as int)
    }

    /// Splices the outcome of the command that was handed out last into the
    /// result: the output of a command that succeeded, without the newlines
    /// at its end. A command that failed gives a command error with what it
    /// wrote to standard error; one that could not be started gives an I/O
    /// error with the reason.
    pub fn supply(&mut self, outcome: CommandOutcome) -> (r: Result<(), Error>)
        ensures
            final(self).text() == old(self).text(),
            final(self).cursor() == old(self).cursor(),
            match outcome {
                CommandOutcome::Output(stdout) => r is Ok && final(self).output() == old(
                    self,
                ).output() + strip_trailing_newlines(stdout@),
                CommandOutcome::Failed(stderr) => r matches Err(e) && e@
                    == ErrorView::CommandError(stderr@) && final(self).output() == old(
                    self,
                ).output(),
                CommandOutcome::NotStarted(reason) => r matches Err(e) && e@ == ErrorView::IoError(
                    reason@,
                ) && final(self).output() == old(self).output(),
            },
    {
        proof {
            use_type_invariant(&*self);
        }
        match outcome {
            CommandOutcome::Output(stdout) => {
                let chars = to_chars(stdout.as_str());
                let mut out = String::new();
                std::mem::swap(&mut self.out, &mut out);
                push_stripped(&mut out, chars.as_slice());
                self.out = out;
                Ok(())
            },
            CommandOutcome::Failed(stderr) => Err(Error::CommandError(stderr)),
            CommandOutcome::NotStarted(reason) => Err(Error::IoError(reason)),
        }
    }

    /// The result. It is complete once `next_command` has returned `None`.
    pub fn finish(self) -> (r: String)
        ensures
            r@ == self.output(),
    {
        self.out
    }
}

impl<'a, P: VariableProvider + ?Sized> Interpolator<'a, P> {
    /// Starts a command substitution on `input`: resolves its variables and
    /// escapes, but leaves an escaped `$` or backtick as written, so that
    /// what it escapes is not taken for a command afterwards.
    pub fn begin_commands(&self, input: &str) -> (r: Result<CommandPass, Error>)
        ensures
            match expand(self.env(), self.cfg(), true, input@, 0) {
                Ok(s) => r matches Ok(pass) && pass.text() == s && pass.cursor() == 0
                    && pass.output() == Seq::<char>::empty(),
                Err(e) => r matches Err(x) && x@ == e,
            },
    {
        let chars = to_chars(input);
        let mut first = String::new();
        self.resolve(chars.as_slice(), 0, true, &mut first)?;
        let text = to_chars(first.as_str());
        Ok(CommandPass { text, mark: (0, 0), out: String::new() })
    }

    /// Reads on to the next command that is to be run and returns its
    /// command line: the text of the command with its variables and escapes
    /// resolved. What is read on the way is copied to the result, where an
    /// escaped `$` or backtick leaves that character and a command whose kind
    /// is switched off stays as written. Returns `None` at the end of the
    /// text.
    pub fn next_command(&self, pass: &mut CommandPass) -> (r: Result<Option<String>, Error>)
        ensures
            final(pass).text() == old(pass).text(),
            match next_segment(self.cfg().features, old(pass).text(), old(pass).cursor()) {
                Segment::End { emitted } => {
                    &&& r matches Ok(None)
                    &&& final(pass).output() == old(pass).output() + emitted
                    &&& final(pass).cursor() == old(pass).text().len()
                },
                Segment::Command { emitted, command, end } => match expand(
                    self.env(),
                    self.cfg(),
                    false,
                    command,
                    0,
                ) {
                    Ok(line) => {
                        &&& r matches Ok(Some(found))
                        &&& found@ == line
                        &&& final(pass).output() == old(pass).output() + emitted
                        &&& final(pass).cursor() == end
                    },
                    Err(e) => r matches Err(x) && x@ == e,
                },
                Segment::Broken(e) => r matches Err(x) && x@ == e,
            },
    {
        proof {
            use_type_invariant(&*pass);
        }
        let features = self.features();
        let ghost start_output = pass.out@;
        let ghost start_cursor = pass.mark.0 as int;
        let ghost mut acc: Seq<char> = Seq::empty();
        let (mut position, mut byte_position) = pass.mark;
        let mut out = String::new();
        std::mem::swap(&mut pass.out, &mut out);
        proof {
            assert(start_output + acc =~= start_output);
            lemma_put_before_empty(next_segment(features, pass.text@, start_cursor));
        }
        loop
            invariant
                pass.text@ == old(pass).text(),
                fits(pass.text@),
                features == self.cfg().features,
                position <= pass.text@.len(),
                byte_position == byte_offset(pass.text@, position as int),
                out@ == start_output + acc,
                start_output == old(pass).output(),
                start_cursor == old(pass).cursor(),
                next_segment(features, pass.text@, start_cursor) == put_before(
                    acc,
                    next_segment(features, pass.text@, position as int),
                ),
            decreases pass.text@.len() - position,
        {
            let mut scanner = Scanner::resume(pass.text.as_slice(), position, byte_position);
            let start = position;
            proof {
                lemma_scan_progress(pass.text@, start as int);
            }
            let scanned = scanner.scan_next();
            let end = scanner.position();
            let byte_end = scanner.byte_position();
            let (token, _range) = match scanned {
                Err(e) => {
                    return Err(e);
                },
                Ok(None) => {
                    pass.mark = (position, byte_position);
                    pass.out = out;
                    proof {
                        assert(acc + Seq::<char>::empty() =~= acc);
                    }
                    return Ok(None);
                },
                Ok(Some(found)) => found,
            };
            let ghost rest = next_segment(features, pass.text@, end as int);
            let ghost before = out@;
            match token {
                Token::Command(cmd) => {
                    if features.commands {
                        proof {
                            lemma_scan_within(pass.text@, start as int);
                            lemma_part_fits(cmd@, pass.text@);
                        }
                        let line = self.command_line(cmd)?;
                        pass.mark = (end, byte_end);
                        pass.out = out;
                        proof {
                            assert(acc + Seq::<char>::empty() =~= acc);
                        }
                        return Ok(Some(line));
                    }
                    push_chars(&mut out, slice_subrange(pass.text.as_slice(), start, end));
                },
                Token::BacktickCommand(cmd) => {
                    if features.backtick_commands {
                        proof {
                            lemma_scan_within(pass.text@, start as int);
                            lemma_part_fits(cmd@, pass.text@);
                        }
                        let line = self.command_line(cmd)?;
                        pass.mark = (end, byte_end);
                        pass.out = out;
                        proof {
                            assert(acc + Seq::<char>::empty() =~= acc);
                        }
                        return Ok(Some(line));
                    }
                    push_chars(&mut out, slice_subrange(pass.text.as_slice(), start, end));
                },
                Token::Escape(c) => {
                    out.push(c);
                    proof {
                        assert(before.push(c) =~= before + seq![c]);
                    }
                },
                _ => {
                    push_chars(&mut out, slice_subrange(pass.text.as_slice(), start, end));
                },
            }
            proof {
                let piece = kept(token@, pass.text@.subrange(start as int, end as int));
                assert(out@ == before + piece);
                lemma_put_before_twice(acc, piece, rest);
                assert(start_output + (acc + piece) =~= out@);
                acc = acc + piece;
            }
            position = end;
            byte_position = byte_end;
        }
    }

    /// The command line for the command text `cmd`: the text with its
    /// variables and escapes resolved.
    fn command_line(&self, cmd: &[char]) -> (r: Result<String, Error>)
        requires
            fits(cmd@),
        ensures
            match expand(self.env(), self.cfg(), false, cmd@, 0) {
                Ok(line) => r matches Ok(found) && found@ == line,
                Err(e) => r matches Err(x) && x@ == e,
            },
    {
        let mut line = String::new();
        self.resolve(cmd, 0, false, &mut line)?;
        Ok(line)
    }
}

/// Putting nothing in front changes nothing.
pub proof fn lemma_put_before_empty(segment: Segment)
    ensures
        put_before(Seq::empty(), segment) == segment,
{
    match segment {
        Segment::End { emitted } => {
            assert(Seq::<char>::empty() + emitted =~= emitted);
        },
        Segment::Command { emitted, .. } => {
            assert(Seq::<char>::empty() + emitted =~= emitted);
        },
        Segment::Broken(_) => {},
    }
}

/// Putting two texts in front, one after the other, is putting their
/// concatenation in front.
pub proof fn lemma_put_before_twice(a: Seq<char>, b: Seq<char>, segment: Segment)
    ensures
        put_before(a, put_before(b, segment)) == put_before(a + b, segment),
{
    match segment {
        Segment::End { emitted } => {
            assert(a + (b + emitted) =~= (a + b) + emitted);
        },
        Segment::Command { emitted, .. } => {
            assert(a + (b + emitted) =~= (a + b) + emitted);
        },
        Segment::Broken(_) => {},
    }
}

} // verus!
