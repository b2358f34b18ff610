//! The match-case state machine: classification of a line as a structural
//! event, the transition table over the five states, and the line-by-line
//! run that the public entry point is proved against.

use vstd::prelude::*;

use crate::text::{
    find, find_pattern, join_lines, join_nl, lemma_find_from, split_ws, split_whitespace_exec,
    views_of,
};

verus! {

/// The machine's state while scanning lines.
#[derive(Clone, Copy, Debug, PartialEq, Eq, Structural)]
pub enum State {
    /// No match block is open; lines pass through.
    Normal,
    /// Inside a block, before any case label: lines are buffered as the
    /// candidate default output.
    Default,
    /// Inside the one selected case: lines pass through.
    Matched,
    /// Inside a non-selected case: lines are discarded.
    Other,
    /// A decision was made for this block: lines are discarded until the
    /// block is closed.
    Done,
}

/// A structural event found on a line.
pub enum NewState {
    /// Start of a new match block.
    Enter,
    /// A case label line, with its whitespace-separated tokens.
    Switch(Vec<String>),
    /// End of the match block.
    Exit,
}

/// The specification-level counterpart of [`NewState`].
pub enum Event {
    Enter,
    Switch(Seq<Seq<char>>),
    Exit,
}

pub open spec fn event_of(ns: NewState) -> Event {
    match ns {
        NewState::Enter => Event::Enter,
        NewState::Switch(names) => Event::Switch(views_of(names@)),
        NewState::Exit => Event::Exit,
    }
}

pub open spec fn opt_event_of(r: Option<NewState>) -> Option<Event> {
    match r {
        Some(ns) => Some(event_of(ns)),
        None => None,
    }
}

/// One error per invalid `(state, event)` pair of the transition table.
#[derive(Clone, Copy, Debug, PartialEq, Eq, Structural)]
pub enum TransitionError {
    /// A case label line while no block is open.
    SwitchInNormal,
    /// A block end while no block is open.
    ExitInNormal,
    /// A block start while buffering the default case.
    EnterInDefault,
    /// A block end while still buffering the default case.
    ExitInDefault,
    /// A block start inside a non-selected case.
    EnterInOther,
    /// A block start inside the selected case.
    EnterInMatched,
    /// A block start after a decision, before the block end.
    EnterInDone,
}

pub open spec fn message_spec(e: TransitionError) -> Seq<char> {
    match e {
        TransitionError::SwitchInNormal => "cannot start new case: need default first"@,
        TransitionError::ExitInNormal => "cannot end match: not in match"@,
        TransitionError::EnterInDefault => "cannot start new match: in default of previous match"@,
        TransitionError::ExitInDefault => "ended match without alternatives"@,
        TransitionError::EnterInOther => "cannot start new match: switching previous match"@,
        TransitionError::EnterInMatched => (
        "cannot start new match: in matched case of previous match"@),
        TransitionError::EnterInDone => "cannot start new match: no exit of previous match"@,
    }
}

impl TransitionError {
    /// The fixed descriptive message of this error.
    pub fn message(&self) -> (r: &'static str)
        ensures
            r@ == message_spec(*self),
    {
        match self {
            TransitionError::SwitchInNormal => "cannot start new case: need default first",
            TransitionError::ExitInNormal => "cannot end match: not in match",
            TransitionError::EnterInDefault => "cannot start new match: in default of previous match",
            TransitionError::ExitInDefault => "ended match without alternatives",
            TransitionError::EnterInOther => "cannot start new match: switching previous match",
            TransitionError::EnterInMatched => "cannot start new match: in matched case of previous match",
            TransitionError::EnterInDone => "cannot start new match: no exit of previous match",
        }
    }
}

/// The failure of a whole `process` call: the 1-based number of the input
/// line whose transition was invalid, and the specific error.
#[derive(Clone, Copy, Debug, PartialEq, Eq, Structural)]
pub struct MatchError {
    pub line: usize,
    pub kind: TransitionError,
}

/// The patterns and targets a machine was built with, as plain sequences.
pub struct Config {
    pub enter: Seq<char>,
    pub exit: Seq<char>,
    pub ignore: Option<Seq<char>>,
    pub targets: Seq<Seq<char>>,
}

pub open spec fn view_opt(o: Option<String>) -> Option<Seq<char>> {
    match o {
        Some(s) => Some(s@),
        None => None,
    }
}

/// Some requested target equals some label token.
pub open spec fn intersects(targets: Seq<Seq<char>>, names: Seq<Seq<char>>) -> bool {
    exists|i: int| 0 <= i < targets.len() && names.contains(targets[i])
}

/// Classification of one line, without any state: `None` for a content
/// line, or the structural event it carries.
///
/// A line containing the ignore pattern is never structural. Otherwise the
/// enter pattern is looked for first: everything after its first occurrence
/// is the label remainder, and the line is an `Enter` when the remainder
/// holds no token, a `Switch` with the tokens otherwise. A line containing
/// the exit pattern, but not the enter pattern, is an `Exit`.
pub open spec fn classify(cfg: Config, line: Seq<char>) -> Option<Event> {
    if ignore_hit(cfg, line) {
        None
    } else {
        match find(line, cfg.enter) {
            Some(p) => {
                let toks = split_ws(line.subrange(p + cfg.enter.len() as int, line.len() as int));
                if toks.len() == 0 {
                    Some(Event::Enter)
                } else {
                    Some(Event::Switch(toks))
                }
            },
            None => if find(line, cfg.exit) is Some {
                Some(Event::Exit)
            } else {
                None
            },
        }
    }
}

pub open spec fn ignore_hit(cfg: Config, line: Seq<char>) -> bool {
    match cfg.ignore {
        Some(p) => find(line, p) is Some,
        None => false,
    }
}

/// The transition table: next state, next default buffer, and the block
/// emitted by the step, or the error of an invalid transition.
pub open spec fn transition(
    targets: Seq<Seq<char>>,
    st: State,
    buf: Seq<Seq<char>>,
    ev: Event,
) -> Result<(State, Seq<Seq<char>>, Option<Seq<char>>), TransitionError> {
    match (st, ev) {
        (State::Normal, Event::Enter) => Ok((State::Default, buf, None)),
        (State::Default, Event::Switch(names)) => switch_step(targets, buf, names),
        (State::Other, Event::Switch(names)) => switch_step(targets, buf, names),
        (State::Matched, Event::Switch(_)) => Ok((State::Done, buf, None)),
        (State::Done, Event::Switch(_)) => Ok((State::Done, buf, None)),
        (State::Matched, Event::Exit) => Ok((State::Normal, Seq::empty(), None)),
        (State::Done, Event::Exit) => Ok((State::Normal, Seq::empty(), None)),
        (State::Other, Event::Exit) => Ok((State::Normal, Seq::empty(), Some(join_nl(buf)))),
        (State::Normal, Event::Switch(_)) => Err(TransitionError::SwitchInNormal),
        (State::Normal, Event::Exit) => Err(TransitionError::ExitInNormal),
        (State::Default, Event::Enter) => Err(TransitionError::EnterInDefault),
        (State::Default, Event::Exit) => Err(TransitionError::ExitInDefault),
        (State::Other, Event::Enter) => Err(TransitionError::EnterInOther),
        (State::Matched, Event::Enter) => Err(TransitionError::EnterInMatched),
        (State::Done, Event::Enter) => Err(TransitionError::EnterInDone),
    }
}

/// The decision at a case label: the selected case when some target matches
/// a token, another case otherwise; with no targets at all the default case
/// is wanted, so the buffer is emitted and the block is decided.
pub open spec fn switch_step(
    targets: Seq<Seq<char>>,
    buf: Seq<Seq<char>>,
    names: Seq<Seq<char>>,
) -> Result<(State, Seq<Seq<char>>, Option<Seq<char>>), TransitionError> {
    if targets.len() == 0 {
        Ok((State::Done, buf, Some(join_nl(buf))))
    } else if intersects(targets, names) {
        Ok((State::Matched, buf, None))
    } else {
        Ok((State::Other, buf, None))
    }
}

/// What one content line does, by state: passed through, buffered, or
/// discarded.
pub open spec fn normal_line(st: State, buf: Seq<Seq<char>>, line: Seq<char>) -> (
    State,
    Seq<Seq<char>>,
    Option<Seq<char>>,
) {
    match st {
        State::Normal => (st, buf, Some(line)),
        State::Matched => (st, buf, Some(line)),
        State::Default => (st, buf.push(line), None),
        State::Other => (st, buf, None),
        State::Done => (st, buf, None),
    }
}

/// One full step of the machine on one line.
pub open spec fn step(cfg: Config, st: State, buf: Seq<Seq<char>>, line: Seq<char>) -> Result<
    (State, Seq<Seq<char>>, Option<Seq<char>>),
    TransitionError,
> {
    match classify(cfg, line) {
        Some(ev) => transition(cfg.targets, st, buf, ev),
        None => Ok(normal_line(st, buf, line)),
    }
}

/// The run of the machine over `lines` from index `k` on: the emitted
/// output lines in order, or the first error with its 1-based line number.
pub open spec fn run_from(
    cfg: Config,
    st: State,
    buf: Seq<Seq<char>>,
    lines: Seq<Seq<char>>,
    k: int,
) -> Result<Seq<Seq<char>>, (int, TransitionError)>
    decreases lines.len() - k
        when 0 <= k <= lines.len()
{
    if k >= lines.len() {
        Ok(Seq::empty())
    } else {
        match step(cfg, st, buf, lines[k]) {
            Err(e) => Err((k + 1, e)),
            Ok((st2, buf2, em)) => match run_from(cfg, st2, buf2, lines, k + 1) {
                Err(err) => Err(err),
                Ok(rest) => Ok(
                    match em {
                        Some(b) => seq![b] + rest,
                        None => rest,
                    },
                ),
            },
        }
    }
}

/// Whether any requested target occurs among the label tokens.
pub fn intersects_exec(targets: &Vec<String>, names: &Vec<String>) -> (r: bool)
    ensures
        r == intersects(views_of(targets@), views_of(names@)),
{
    let mut i: usize = 0;
    while i < targets.len()
        invariant
            i <= targets@.len(),
            forall|k: int|
                0 <= k < i ==> !views_of(names@).contains(#[trigger] views_of(targets@)[k]),
        decreases targets@.len() - i,
    {
        if contains_string(names, &targets[i]) {
            proof {
                assert(views_of(targets@)[i as int] == targets@[i as int]@);
            }
            return true;
        }
        i += 1;
    }
    false
}

/// Whether `x` occurs in `v`.
pub fn contains_string(v: &Vec<String>, x: &String) -> (r: bool)
    ensures
        r == views_of(v@).contains(x@),
{
    let mut i: usize = 0;
    while i < v.len()
        invariant
            i <= v@.len(),
            forall|k: int| 0 <= k < i ==> #[trigger] views_of(v@)[k] != x@,
        decreases v@.len() - i,
    {
        if v[i] == *x {
            proof {
                assert(views_of(v@)[i as int] == x@);
            }
            return true;
        }
        i += 1;
    }
    false
}

/// The state machine of one `process` invocation: the patterns and targets
/// it was built with, the buffered default case, and the current state.
pub struct MultilineMatch {
    pub enter_pattern: String,
    pub exit_pattern: String,
    pub ignore_pattern: Option<String>,
    pub match_against: Vec<String>,
    pub default_case_buffer: Vec<String>,
    pub state: State,
}

impl MultilineMatch {
    /// The machine's configuration as plain sequences.
    pub open spec fn cfg(self) -> Config {
        Config {
            enter: self.enter_pattern@,
            exit: self.exit_pattern@,
            ignore: view_opt(self.ignore_pattern),
            targets: views_of(self.match_against@),
        }
    }

    /// The buffered default-case lines as plain sequences.
    pub open spec fn buf(self) -> Seq<Seq<char>> {
        views_of(self.default_case_buffer@)
    }

    /// A fresh machine: no block open, nothing buffered.
    pub fn new(
        match_against: Vec<String>,
        enter_pattern: String,
        exit_pattern: String,
        ignore_pattern: Option<String>,
    ) -> (r: Self)
        ensures
            r.cfg() == (Config {
                enter: enter_pattern@,
                exit: exit_pattern@,
                ignore: view_opt(ignore_pattern),
                targets: views_of(match_against@),
            }),
            r.state == State::Normal,
            r.buf() == Seq::<Seq<char>>::empty(),
    {
        let r = Self {
            enter_pattern,
            exit_pattern,
            ignore_pattern,
            match_against,
            default_case_buffer: Vec::new(),
            state: State::Normal,
        };
        proof {
            assert(r.buf() =~= Seq::<Seq<char>>::empty());
        }
        r
    }

    /// The patterns and targets are untouched by a step.
    pub open spec fn same_config(self, o: Self) -> bool {
        self.cfg() == o.cfg()
    }

    /// Classify one line against the machine's patterns, without mutating
    /// any state.
    pub fn check_new_state(&self, line: &str) -> (r: Option<NewState>)
        ensures
            opt_event_of(r) == classify(self.cfg(), line@),
    {
        if let Some(ignore_pattern) = &self.ignore_pattern {
            if find_pattern(line, ignore_pattern.as_str()).is_some() {
                return None;
            }
        }
        match find_pattern(line, self.enter_pattern.as_str()) {
            Some(p) => {
                proof {
                    lemma_find_from(line@, self.enter_pattern@, 0);
                }
                let llen = line.unicode_len();
                let elen = self.enter_pattern.unicode_len();
                let rest = line.substring_char(p + elen, llen);
                let names = split_whitespace_exec(rest);
                if names.len() == 0 {
                    Some(NewState::Enter)
                } else {
                    Some(NewState::Switch(names))
                }
            },
            None => {
                if find_pattern(line, self.exit_pattern.as_str()).is_some() {
                    Some(NewState::Exit)
                } else {
                    None
                }
            },
        }
    }

    /// Pass one content line through, buffer it, or discard it, by state.
    pub fn handle_normal_line(&mut self, line: &str) -> (r: Option<String>)
        ensures
            final (self).same_config(*old(self)),
            ({
                let t = normal_line(old(self).state, old(self).buf(), line@);
                final (self).state == t.0 && final (self).buf() == t.1 && view_opt(r) == t.2
            }),
    {
        match self.state {
            State::Normal => Some(line.to_owned()),
            State::Matched => Some(line.to_owned()),
            State::Default => {
                let owned = line.to_owned();
                proof {
                    assert(views_of(self.default_case_buffer@.push(owned)) =~= self.buf().push(
                        line@,
                    ));
                }
                self.default_case_buffer.push(owned);
                None
            },
            State::Other => None,
            State::Done => None,
        }
    }

    /// Apply one structural event to the machine: the transition table.
    pub fn handle_new_state(&mut self, new_state: NewState) -> (r: Result<
        Option<String>,
        TransitionError,
    >)
        ensures
            final (self).same_config(*old(self)),
            ({
                let t = transition(
                    old(self).cfg().targets,
                    old(self).state,
                    old(self).buf(),
                    event_of(new_state),
                );
                match r {
                    Ok(out) => t is Ok && final (self).state == t->Ok_0.0 && final (self).buf()
                        == t->Ok_0.1 && view_opt(out) == t->Ok_0.2,
                    Err(e) => t == Err::<(State, Seq<Seq<char>>, Option<Seq<char>>),
                        TransitionError,
                    >(e) && *final (self) == *old(self),
                }
            }),
    {
        let mut result_value: Option<String> = None;
        self.state = match (self.state, new_state) {
            // Enter matching
            (State::Normal, NewState::Enter) => State::Default,
            // Entering a new switch case: decide it
            (State::Default, NewState::Switch(names)) => self.decide_case(
                &names,
                &mut result_value,
            ),
            (State::Other, NewState::Switch(names)) => self.decide_case(&names, &mut result_value),
            // Leaving the matched case for another: the decision stands
            (State::Matched, NewState::Switch(_)) => State::Done,
            // Leaving a later case: already decided
            (State::Done, NewState::Switch(_)) => State::Done,
            // Exiting normally
            (State::Matched, NewState::Exit) => {
                self.clear_buffer();
                State::Normal
            },
            (State::Done, NewState::Exit) => {
                self.clear_buffer();
                State::Normal
            },
            // Exiting without a match: the default case is the output
            (State::Other, NewState::Exit) => {
                result_value = Some(join_lines(&self.default_case_buffer));
                self.clear_buffer();
                State::Normal
            },
            // Invalid state changes
            (State::Normal, NewState::Switch(_)) => {
                return Err(TransitionError::SwitchInNormal);
            },
            (State::Normal, NewState::Exit) => {
                return Err(TransitionError::ExitInNormal);
            },
            (State::Default, NewState::Enter) => {
                return Err(TransitionError::EnterInDefault);
            },
            (State::Default, NewState::Exit) => {
                return Err(TransitionError::ExitInDefault);
            },
            (State::Other, NewState::Enter) => {
                return Err(TransitionError::EnterInOther);
            },
            (State::Matched, NewState::Enter) => {
                return Err(TransitionError::EnterInMatched);
            },
            (State::Done, NewState::Enter) => {
                return Err(TransitionError::EnterInDone);
            },
        };
        Ok(result_value)
    }

    /// Empty the default-case buffer on leaving a block.
    fn clear_buffer(&mut self)
        ensures
            final (self).buf() == Seq::<Seq<char>>::empty(),
            final (self).state == old(self).state,
            final (self).same_config(*old(self)),
    {
        self.default_case_buffer.clear();
        proof {
            assert(self.buf() =~= Seq::<Seq<char>>::empty());
        }
    }

    /// Decide a case label against the requested targets; with no targets
    /// the buffered default case becomes the output.
    fn decide_case(&mut self, names: &Vec<String>, result_value: &mut Option<String>) -> (st:
        State)
        ensures
            final (self).same_config(*old(self)),
            final (self).state == old(self).state,
            final (self).buf() == old(self).buf(),
            ({
                let t = switch_step(
                    old(self).cfg().targets,
                    old(self).buf(),
                    views_of(names@),
                );
                t is Ok && st == t->Ok_0.0 && view_opt(*final (result_value)) == t->Ok_0.2
            }),
    {
        if self.match_against.len() == 0 {
            *result_value = Some(join_lines(&self.default_case_buffer));
            State::Done
        } else if intersects_exec(&self.match_against, names) {
            *result_value = None;
            State::Matched
        } else {
            *result_value = None;
            State::Other
        }
    }

    /// Feed one line to the machine: at most one output line or block comes
    /// back, or the error of an invalid transition, which leaves the
    /// machine as it was.
    pub fn check_line(&mut self, line: &str) -> (r: Result<Option<String>, TransitionError>)
        ensures
            final (self).same_config(*old(self)),
            ({
                let s = step(old(self).cfg(), old(self).state, old(self).buf(), line@);
                match r {
                    Ok(out) => s is Ok && final (self).state == s->Ok_0.0 && final (self).buf()
                        == s->Ok_0.1 && view_opt(out) == s->Ok_0.2,
                    Err(e) => s == Err::<(State, Seq<Seq<char>>, Option<Seq<char>>),
                        TransitionError,
                    >(e) && *final (self) == *old(self),
                }
            }),
    {
        match self.check_new_state(line) {
            Some(new_state) => self.handle_new_state(new_state),
            None => Ok(self.handle_normal_line(line)),
        }
    }
}

} // verus!
