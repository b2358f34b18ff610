//! A line-oriented, stateful match-case text filter.
//!
//! Input text may contain delimited blocks resembling a switch/case
//! construct. [`process`] selects and emits exactly one case's body (or the
//! default case) per block while stripping all delimiter and case-label
//! lines, so that a single source text holding several variant renderings
//! can be deterministically reduced to one variant.

pub mod machine;
pub mod props;
pub mod scan;
pub mod text;

use vstd::prelude::*;

use machine::{run_from, view_opt, Config, MatchError, MultilineMatch, State, TransitionError};
use text::{join_lines, join_nl, split_lines, split_lines_exec, views_of};

verus! {

/// What `process` returns, as a function of the input text and of the
/// patterns and targets: the run of a fresh machine over the input's lines,
/// its outputs joined with single line feeds, or the first invalid
/// transition with its 1-based line number.
pub open spec fn process_spec(
    input: Seq<char>,
    targets: Seq<Seq<char>>,
    enter: Seq<char>,
    exit: Seq<char>,
    ignore: Option<Seq<char>>,
) -> Result<Seq<char>, (int, TransitionError)> {
    let cfg = Config { enter, exit, ignore, targets };
    match run_from(cfg, State::Normal, Seq::empty(), split_lines(input), 0) {
        Ok(outs) => Ok(join_nl(outs)),
        Err(e) => Err(e),
    }
}

/// Reduce `utf8_data` to a single variant: feed its lines one by one to a
/// fresh match-case machine and join the surviving lines with single line
/// feeds, no trailing one. An empty `match_against` requests the default
/// case of each block. The first invalid transition aborts the whole call
/// with its 1-based line number and the specific error.
pub fn process(
    utf8_data: &str,
    match_against: Vec<String>,
    enter_pattern: &str,
    exit_pattern: &str,
    ignore_pattern: Option<String>,
) -> (r: Result<String, MatchError>)
    ensures
        ({
            let s = process_spec(
                utf8_data@,
                views_of(match_against@),
                enter_pattern@,
                exit_pattern@,
                view_opt(ignore_pattern),
            );
            match r {
                Ok(out) => s is Ok && out@ == s->Ok_0,
                Err(e) => s is Err && s->Err_0 == (e.line as int, e.kind),
            }
        }),
{
    let mut matcher = MultilineMatch::new(
        match_against,
        enter_pattern.to_owned(),
        exit_pattern.to_owned(),
        ignore_pattern,
    );
    let ghost cfg = matcher.cfg();
    let lines = split_lines_exec(utf8_data);
    let ghost ls = views_of(lines@);
    let mut outputs: Vec<String> = Vec::new();
    let mut i: usize = 0;
    proof {
        assert(views_of(outputs@) =~= Seq::<Seq<char>>::empty());
    }
    while i < lines.len()
        invariant
            i <= lines@.len(),
            ls == views_of(lines@),
            ls == split_lines(utf8_data@),
            matcher.cfg() == cfg,
            cfg == (Config {
                enter: enter_pattern@,
                exit: exit_pattern@,
                ignore: view_opt(ignore_pattern),
                targets: views_of(match_against@),
            }),
            run_from(cfg, State::Normal, Seq::empty(), ls, 0) == (match run_from(
                cfg,
                matcher.state,
                matcher.buf(),
                ls,
                i as int,
            ) {
                Ok(rest) => Ok::<Seq<Seq<char>>, (int, TransitionError)>(views_of(outputs@) + rest),
                Err(e) => Err(e),
            }),
        decreases lines@.len() - i,
    {
        let line: &String = &lines[i];
        proof {
            assert(ls[i as int] == line@);
        }
        match matcher.check_line(line.as_str()) {
            Ok(out) => {
                if let Some(o) = out {
                    proof {
                        let rest0 = run_from(cfg, matcher.state, matcher.buf(), ls, i + 1);
                        if rest0 is Ok {
                            assert(views_of(outputs@.push(o)) =~= views_of(outputs@).push(o@));
                            assert(views_of(outputs@) + (seq![o@] + rest0->Ok_0) =~= views_of(
                                outputs@.push(o),
                            ) + rest0->Ok_0);
                        }
                    }
                    outputs.push(o);
                }
                i += 1;
            },
            Err(e) => {
                proof {
                    assert(run_from(cfg, matcher.state, matcher.buf(), ls, i as int) == Err::<
                        Seq<Seq<char>>,
                        (int, TransitionError),
                    >((i as int + 1, e)));
                    assert(run_from(cfg, State::Normal, Seq::empty(), ls, 0) == Err::<
                        Seq<Seq<char>>,
                        (int, TransitionError),
                    >((i as int + 1, e)));
                }
                return Err(MatchError { line: i + 1, kind: e });
            },
        }
    }
    proof {
        assert(views_of(outputs@) + Seq::<Seq<char>>::empty() =~= views_of(outputs@));
    }
    Ok(join_lines(&outputs))
}

} // verus!
