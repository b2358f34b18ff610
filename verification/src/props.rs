//! Laws of the match-case machine, proved once and for all over the run
//! specification that [`crate::process`] is verified against.

use vstd::prelude::*;

use crate::machine::{classify, intersects, run_from, Config, Event, State, TransitionError};
use crate::process_spec;
use crate::scan::{lemma_nl_pos, nl_pos};
use crate::text::{join_nl, split_lines, split_lines_from};

verus! {

/// Every line of `lines` at or after `k` is a content line: none carries a
/// structural event.
pub open spec fn all_content(cfg: Config, lines: Seq<Seq<char>>, k: int) -> bool {
    forall|i: int| k <= i < lines.len() ==> #[trigger] classify(cfg, lines[i]) is None
}

/// Content lines pass through verbatim while no block is open and while
/// inside the selected case: running from `k` up to `m` over content lines
/// emits exactly those lines, in order, before whatever the rest of the run
/// emits, and neither the state nor the buffer moves meanwhile.
pub proof fn lemma_run_passthrough(
    cfg: Config,
    st: State,
    buf: Seq<Seq<char>>,
    lines: Seq<Seq<char>>,
    k: int,
    m: int,
)
    requires
        0 <= k <= m <= lines.len(),
        st is Normal || st is Matched,
        forall|i: int| k <= i < m ==> #[trigger] classify(cfg, lines[i]) is None,
    ensures
        run_from(cfg, st, buf, lines, k) == (match run_from(cfg, st, buf, lines, m) {
            Ok(rest) => Ok::<Seq<Seq<char>>, (int, TransitionError)>(lines.subrange(k, m) + rest),
            Err(e) => Err(e),
        }),
    decreases m - k,
{
    if k == m {
        match run_from(cfg, st, buf, lines, m) {
            Ok(rest) => {
                assert(lines.subrange(k, m) + rest =~= rest);
            },
            Err(e) => {},
        }
    } else {
        assert(classify(cfg, lines[k]) is None);
        lemma_run_passthrough(cfg, st, buf, lines, k + 1, m);
        match run_from(cfg, st, buf, lines, m) {
            Ok(rest) => {
                assert(seq![lines[k]] + (lines.subrange(k + 1, m) + rest) =~= lines.subrange(k, m)
                    + rest);
            },
            Err(e) => {},
        }
    }
}

/// Content lines are consumed silently while the machine buffers the
/// default case, sits in a non-selected case, or has already decided the
/// block: running them to the end emits nothing and raises no error.
pub proof fn lemma_run_silent(
    cfg: Config,
    st: State,
    buf: Seq<Seq<char>>,
    lines: Seq<Seq<char>>,
    k: int,
)
    requires
        0 <= k <= lines.len(),
        st is Default || st is Other || st is Done,
        all_content(cfg, lines, k),
    ensures
        run_from(cfg, st, buf, lines, k) == Ok::<Seq<Seq<char>>, (int, TransitionError)>(
            Seq::empty(),
        ),
    decreases lines.len() - k,
{
    if k < lines.len() {
        assert(classify(cfg, lines[k]) is None);
        match st {
            State::Default => lemma_run_silent(cfg, st, buf.push(lines[k]), lines, k + 1),
            _ => lemma_run_silent(cfg, st, buf, lines, k + 1),
        }
    }
}

/// Idempotence: over text whose lines carry no structural event at all —
/// for instance text that a previous run has already reduced, so that no
/// enter or exit pattern remains — the machine stays out of any block and
/// every line survives: the output is the input's lines, rejoined.
pub proof fn lemma_process_idempotent(
    input: Seq<char>,
    targets: Seq<Seq<char>>,
    enter: Seq<char>,
    exit: Seq<char>,
    ignore: Option<Seq<char>>,
)
    requires
        all_content(Config { enter, exit, ignore, targets }, split_lines(input), 0),
    ensures
        process_spec(input, targets, enter, exit, ignore) == Ok::<Seq<char>, (
            int,
            TransitionError,
        )>(join_nl(split_lines(input))),
{
    let cfg = Config { enter, exit, ignore, targets };
    let lines = split_lines(input);
    lemma_run_passthrough(cfg, State::Normal, Seq::empty(), lines, 0, lines.len() as int);
    assert(lines.subrange(0, lines.len() as int) + Seq::<Seq<char>>::empty() =~= lines);
}

/// Idempotence, exactly: over already-reduced text in joined form — no
/// structural lines, no carriage return before a line feed, no trailing
/// line feed — the run is a no-op: the output equals the input.
pub proof fn lemma_process_idempotent_exact(
    input: Seq<char>,
    targets: Seq<Seq<char>>,
    enter: Seq<char>,
    exit: Seq<char>,
    ignore: Option<Seq<char>>,
)
    requires
        all_content(Config { enter, exit, ignore, targets }, split_lines(input), 0),
        forall|i: int| 0 <= i < input.len() - 1 ==> !(#[trigger] input[i] == '\r' && input[i + 1]
            == '\n'),
        input.len() > 0 ==> input[input.len() - 1] != '\n',
    ensures
        process_spec(input, targets, enter, exit, ignore) == Ok::<Seq<char>, (
            int,
            TransitionError,
        )>(input),
{
    lemma_process_idempotent(input, targets, enter, exit, ignore);
    lemma_join_split_identity(input);
}

/// Splitting and rejoining is the identity on text that is already in
/// joined form: no carriage return directly before a line feed, and no
/// line feed at the very end.
pub proof fn lemma_join_split_identity(s: Seq<char>)
    requires
        forall|i: int| 0 <= i < s.len() - 1 ==> !(#[trigger] s[i] == '\r' && s[i + 1] == '\n'),
        s.len() > 0 ==> s[s.len() - 1] != '\n',
    ensures
        join_nl(split_lines(s)) == s,
{
    lemma_join_split_identity_from(s, 0);
    assert(s.subrange(0, s.len() as int) =~= s);
}

proof fn lemma_join_split_identity_from(s: Seq<char>, k: int)
    requires
        0 <= k <= s.len(),
        forall|i: int| 0 <= i < s.len() - 1 ==> !(#[trigger] s[i] == '\r' && s[i + 1] == '\n'),
        s.len() > 0 ==> s[s.len() - 1] != '\n',
    ensures
        join_nl(split_lines_from(s, k)) == s.subrange(k, s.len() as int),
    decreases s.len() - k,
{
    lemma_nl_pos(s, k);
    if k >= s.len() {
        assert(s.subrange(k, s.len() as int) =~= Seq::<char>::empty());
    } else {
        let j = nl_pos(s, k);
        if j >= s.len() {
        } else {
            // no carriage return stands before this line feed, and the line
            // feed is not the last character
            assert(s[j] == '\n');
            assert(j > k ==> !(s[j - 1] == '\r' && s[j - 1 + 1] == '\n'));
            assert(j < s.len() - 1);
            lemma_join_split_identity_from(s, j + 1);
            let rest = split_lines_from(s, j + 1);
            assert(rest.len() > 0);
            let whole = seq![s.subrange(k, j)] + rest;
            assert(whole[0] == s.subrange(k, j));
            assert(whole.drop_first() =~= rest);
            assert(s.subrange(k, j) + seq!['\n'] + s.subrange(j + 1, s.len() as int) =~= s.subrange(
                k,
                s.len() as int,
            ));
        }
    }
}

/// Content lines are discarded one by one inside a non-selected case or
/// after a decision, without touching state or buffer.
pub proof fn lemma_run_discard_prefix(
    cfg: Config,
    st: State,
    buf: Seq<Seq<char>>,
    lines: Seq<Seq<char>>,
    k: int,
    m: int,
)
    requires
        0 <= k <= m <= lines.len(),
        st is Other || st is Done,
        forall|i: int| k <= i < m ==> #[trigger] classify(cfg, lines[i]) is None,
    ensures
        run_from(cfg, st, buf, lines, k) == run_from(cfg, st, buf, lines, m),
    decreases m - k,
{
    if k < m {
        assert(classify(cfg, lines[k]) is None);
        lemma_run_discard_prefix(cfg, st, buf, lines, k + 1, m);
    }
}

/// Content lines are appended one by one to the default buffer while the
/// machine buffers the default case.
pub proof fn lemma_run_buffer_prefix(
    cfg: Config,
    buf: Seq<Seq<char>>,
    lines: Seq<Seq<char>>,
    k: int,
    m: int,
)
    requires
        0 <= k <= m <= lines.len(),
        forall|i: int| k <= i < m ==> #[trigger] classify(cfg, lines[i]) is None,
    ensures
        run_from(cfg, State::Default, buf, lines, k) == run_from(
            cfg,
            State::Default,
            buf + lines.subrange(k, m),
            lines,
            m,
        ),
    decreases m - k,
{
    if k == m {
        assert(buf + lines.subrange(k, m) =~= buf);
    } else {
        assert(classify(cfg, lines[k]) is None);
        lemma_run_buffer_prefix(cfg, buf.push(lines[k]), lines, k + 1, m);
        assert(buf.push(lines[k]) + lines.subrange(k + 1, m) =~= buf + lines.subrange(k, m));
    }
}

/// One labeled alternative of a match block: its case-label line and its
/// body of content lines.
pub struct Case {
    pub header: Seq<char>,
    pub body: Seq<Seq<char>>,
}

/// A whole match block: the enter line, the default body, at least one
/// labeled case, and the exit line.
pub struct Block {
    pub enter_line: Seq<char>,
    pub default_body: Seq<Seq<char>>,
    pub cases: Seq<Case>,
    pub exit_line: Seq<char>,
}

/// The label tokens of a case-label line.
pub open spec fn switch_tokens(cfg: Config, line: Seq<char>) -> Seq<Seq<char>> {
    match classify(cfg, line) {
        Some(Event::Switch(toks)) => toks,
        _ => Seq::empty(),
    }
}

pub open spec fn case_wf(cfg: Config, c: Case) -> bool {
    &&& classify(cfg, c.header) matches Some(ev) && ev is Switch
    &&& forall|i: int| 0 <= i < c.body.len() ==> #[trigger] classify(cfg, c.body[i]) is None
}

pub open spec fn block_wf(cfg: Config, b: Block) -> bool {
    &&& classify(cfg, b.enter_line) == Some(Event::Enter)
    &&& forall|i: int|
        0 <= i < b.default_body.len() ==> #[trigger] classify(cfg, b.default_body[i]) is None
    &&& b.cases.len() > 0
    &&& forall|i: int| 0 <= i < b.cases.len() ==> case_wf(cfg, #[trigger] b.cases[i])
    &&& classify(cfg, b.exit_line) == Some(Event::Exit)
}

/// The lines a sequence of cases occupies.
pub open spec fn cases_lines(cs: Seq<Case>) -> Seq<Seq<char>>
    decreases cs.len(),
{
    if cs.len() == 0 {
        Seq::empty()
    } else {
        seq![cs[0].header] + cs[0].body + cases_lines(cs.drop_first())
    }
}

/// The lines a whole block occupies.
pub open spec fn block_lines(b: Block) -> Seq<Seq<char>> {
    seq![b.enter_line] + b.default_body + cases_lines(b.cases) + seq![b.exit_line]
}

/// The body of the first case whose label tokens meet the targets, if any.
pub open spec fn cases_selection(cfg: Config, cs: Seq<Case>) -> Option<Seq<Seq<char>>>
    decreases cs.len(),
{
    if cs.len() == 0 {
        None
    } else if intersects(cfg.targets, switch_tokens(cfg, cs[0].header)) {
        Some(cs[0].body)
    } else {
        cases_selection(cfg, cs.drop_first())
    }
}

/// What a whole block contributes to the output: the selected case's body
/// verbatim when some case label meets the targets, else the default body
/// as one joined piece — also when no target was requested at all.
pub open spec fn block_output(cfg: Config, b: Block) -> Seq<Seq<char>> {
    if cfg.targets.len() == 0 {
        seq![join_nl(b.default_body)]
    } else {
        match cases_selection(cfg, b.cases) {
            Some(body) => body,
            None => seq![join_nl(b.default_body)],
        }
    }
}

/// After the block is decided — the machine inside the selected case or
/// past it — the remaining case-label lines and bodies contribute nothing,
/// and the exit line closes the block: state `Normal`, buffer empty.
pub proof fn lemma_cases_closing(
    cfg: Config,
    cs: Seq<Case>,
    lines: Seq<Seq<char>>,
    k: int,
    st: State,
    buf: Seq<Seq<char>>,
)
    requires
        0 <= k,
        k + cases_lines(cs).len() < lines.len(),
        lines.subrange(k, k + cases_lines(cs).len() as int) == cases_lines(cs),
        forall|i: int| 0 <= i < cs.len() ==> #[trigger] case_wf(cfg, cs[i]),
        classify(cfg, lines[k + cases_lines(cs).len()]) == Some(Event::Exit),
        st is Matched || st is Done,
    ensures
        run_from(cfg, st, buf, lines, k) == (match run_from(
            cfg,
            State::Normal,
            Seq::empty(),
            lines,
            k + cases_lines(cs).len() + 1,
        ) {
            Ok(rest) => Ok::<Seq<Seq<char>>, (int, TransitionError)>(rest),
            Err(e) => Err(e),
        }),
    decreases cs.len(),
{
    let cl = cases_lines(cs);
    assert(forall|j: int| 0 <= j < cl.len() ==> lines[k + j] == #[trigger] cl[j]) by {
        assert(forall|j: int|
            0 <= j < cl.len() ==> lines.subrange(k, k + cl.len() as int)[j] == #[trigger] cl[j]);
    }
    if cs.len() == 0 {
        // the next line is the exit line and closes the block
    } else {
        let c = cs[0];
        assert(case_wf(cfg, c));
        let bl = c.body.len() as int;
        let tail = cases_lines(cs.drop_first());
        assert(cl == seq![c.header] + c.body + tail);
        assert(cl[0] == c.header);
        assert(lines[k + 0] == cl[0]);
        // the case label only confirms the decision
        assert(classify(cfg, lines[k]) matches Some(ev) && ev is Switch);
        // the case body is discarded
        assert forall|i: int| k + 1 <= i < k + 1 + bl implies classify(
            cfg,
            #[trigger] lines[i],
        ) is None by {
            let j = i - k;
            assert(cl[j] == c.body[j - 1]);
            assert(lines[k + j] == cl[j]);
        }
        lemma_run_discard_prefix(cfg, State::Done, buf, lines, k + 1, k + 1 + bl);
        // and the rest of the cases follow, already in the decided state
        let k1 = k + 1 + bl;
        assert(lines.subrange(k1, k1 + tail.len() as int) =~= tail) by {
            assert forall|j: int| 0 <= j < tail.len() implies lines[k1 + j] == #[trigger] tail[j] by {
                assert(cl[1 + bl + j] == tail[j]);
                assert(lines[k + (1 + bl + j)] == cl[1 + bl + j]);
            }
        }
        assert(forall|i: int| 0 <= i < cs.drop_first().len() ==> #[trigger] case_wf(
            cfg,
            cs.drop_first()[i],
        )) by {
            assert(forall|i: int|
                0 <= i < cs.drop_first().len() ==> #[trigger] cs.drop_first()[i] == cs[i + 1]);
        }
        lemma_cases_closing(cfg, cs.drop_first(), lines, k1, State::Done, buf);
    }
}

/// While the block is still undecided — buffering the default case or
/// inside a non-selected case with the default body `d` buffered — the
/// remaining cases and the exit line emit exactly the block's selection:
/// the first case whose label meets the targets, verbatim, or the buffered
/// default body as one joined piece.
pub proof fn lemma_cases_deciding(
    cfg: Config,
    d: Seq<Seq<char>>,
    cs: Seq<Case>,
    lines: Seq<Seq<char>>,
    k: int,
    st: State,
)
    requires
        0 <= k,
        k + cases_lines(cs).len() < lines.len(),
        lines.subrange(k, k + cases_lines(cs).len() as int) == cases_lines(cs),
        forall|i: int| 0 <= i < cs.len() ==> #[trigger] case_wf(cfg, cs[i]),
        classify(cfg, lines[k + cases_lines(cs).len()]) == Some(Event::Exit),
        st is Default || st is Other,
        cs.len() == 0 ==> st is Other,
    ensures
        run_from(cfg, st, d, lines, k) == (match run_from(
            cfg,
            State::Normal,
            Seq::empty(),
            lines,
            k + cases_lines(cs).len() + 1,
        ) {
            Ok(rest) => Ok::<Seq<Seq<char>>, (int, TransitionError)>(
                (if cfg.targets.len() == 0 {
                    seq![join_nl(d)]
                } else {
                    match cases_selection(cfg, cs) {
                        Some(body) => body,
                        None => seq![join_nl(d)],
                    }
                }) + rest,
            ),
            Err(e) => Err(e),
        }),
    decreases cs.len(),
{
    let cl = cases_lines(cs);
    assert(forall|j: int| 0 <= j < cl.len() ==> lines[k + j] == #[trigger] cl[j]) by {
        assert(forall|j: int|
            0 <= j < cl.len() ==> lines.subrange(k, k + cl.len() as int)[j] == #[trigger] cl[j]);
    }
    if cs.len() == 0 {
        // the exit line, from a non-selected case: the default body is the
        // output of the block
    } else {
        let c = cs[0];
        assert(case_wf(cfg, c));
        let bl = c.body.len() as int;
        let tail = cases_lines(cs.drop_first());
        assert(cl == seq![c.header] + c.body + tail);
        assert(cl[0] == c.header);
        assert(lines[k + 0] == cl[0]);
        let toks = switch_tokens(cfg, lines[k]);
        assert(classify(cfg, lines[k]) == Some(Event::Switch(toks)));
        assert forall|i: int| k + 1 <= i < k + 1 + bl implies classify(
            cfg,
            #[trigger] lines[i],
        ) is None by {
            let j = i - k;
            assert(cl[j] == c.body[j - 1]);
            assert(lines[k + j] == cl[j]);
        }
        let k1 = k + 1 + bl;
        assert(lines.subrange(k1, k1 + tail.len() as int) =~= tail) by {
            assert forall|j: int| 0 <= j < tail.len() implies lines[k1 + j] == #[trigger] tail[j] by {
                assert(cl[1 + bl + j] == tail[j]);
                assert(lines[k + (1 + bl + j)] == cl[1 + bl + j]);
            }
        }
        assert(forall|i: int| 0 <= i < cs.drop_first().len() ==> #[trigger] case_wf(
            cfg,
            cs.drop_first()[i],
        )) by {
            assert(forall|i: int|
                0 <= i < cs.drop_first().len() ==> #[trigger] cs.drop_first()[i] == cs[i + 1]);
        }
        if cfg.targets.len() == 0 {
            // the default case was requested: it is emitted here and the
            // block is decided
            lemma_run_discard_prefix(cfg, State::Done, d, lines, k + 1, k1);
            lemma_cases_closing(cfg, cs.drop_first(), lines, k1, State::Done, d);
        } else if intersects(cfg.targets, toks) {
            // this case is selected: its body passes through and the
            // decision stands for the rest of the block
            lemma_run_passthrough(cfg, State::Matched, d, lines, k + 1, k1);
            lemma_cases_closing(cfg, cs.drop_first(), lines, k1, State::Matched, d);
            assert(lines.subrange(k + 1, k1) =~= c.body) by {
                assert forall|j: int| 0 <= j < bl implies lines[k + 1 + j] == #[trigger] c.body[j] by {
                    assert(cl[1 + j] == c.body[j]);
                    assert(lines[k + (1 + j)] == cl[1 + j]);
                }
            }
            assert(cases_selection(cfg, cs) == Some(c.body));
            match run_from(cfg, State::Normal, Seq::empty(), lines, k + cl.len() + 1) {
                Ok(rest) => {
                    assert(c.body + rest =~= lines.subrange(k + 1, k1) + rest);
                },
                Err(e) => {},
            }
        } else {
            // this case is not selected: its body is discarded and the
            // block stays undecided
            lemma_run_discard_prefix(cfg, State::Other, d, lines, k + 1, k1);
            lemma_cases_deciding(cfg, d, cs.drop_first(), lines, k1, State::Other);
            assert(cases_selection(cfg, cs) == cases_selection(cfg, cs.drop_first()));
        }
    }
}

/// A whole well-formed block, met while no block is open, contributes
/// exactly its selection to the output — the first case whose label meets
/// the targets, verbatim, or the default body joined as one piece — and
/// leaves the machine as it found it: state `Normal`, buffer empty.
pub proof fn lemma_block_run(cfg: Config, b: Block, lines: Seq<Seq<char>>, k: int)
    requires
        0 <= k,
        k + block_lines(b).len() <= lines.len(),
        lines.subrange(k, k + block_lines(b).len() as int) == block_lines(b),
        block_wf(cfg, b),
    ensures
        run_from(cfg, State::Normal, Seq::empty(), lines, k) == (match run_from(
            cfg,
            State::Normal,
            Seq::empty(),
            lines,
            k + block_lines(b).len(),
        ) {
            Ok(rest) => Ok::<Seq<Seq<char>>, (int, TransitionError)>(block_output(cfg, b) + rest),
            Err(e) => Err(e),
        }),
{
    let bls = block_lines(b);
    let dl = b.default_body.len() as int;
    let cl = cases_lines(b.cases);
    assert(forall|j: int| 0 <= j < bls.len() ==> lines[k + j] == #[trigger] bls[j]) by {
        assert(forall|j: int|
            0 <= j < bls.len() ==> lines.subrange(k, k + bls.len() as int)[j] == #[trigger] bls[j]);
    }
    assert(bls.len() == 1 + dl + cl.len() + 1);
    // the enter line opens the block
    assert(bls[0] == b.enter_line);
    assert(lines[k + 0] == bls[0]);
    // the default body is buffered
    assert forall|i: int| k + 1 <= i < k + 1 + dl implies classify(
        cfg,
        #[trigger] lines[i],
    ) is None by {
        let j = i - k;
        assert(bls[j] == b.default_body[j - 1]);
        assert(lines[k + j] == bls[j]);
    }
    lemma_run_buffer_prefix(cfg, Seq::empty(), lines, k + 1, k + 1 + dl);
    let kd = k + 1 + dl;
    assert(Seq::<Seq<char>>::empty() + lines.subrange(k + 1, kd) =~= b.default_body) by {
        assert forall|j: int| 0 <= j < dl implies lines[k + 1 + j] == #[trigger] b.default_body[j] by {
            assert(bls[1 + j] == b.default_body[j]);
            assert(lines[k + (1 + j)] == bls[1 + j]);
        }
    }
    // then the cases decide the block
    assert(lines.subrange(kd, kd + cl.len() as int) =~= cl) by {
        assert forall|j: int| 0 <= j < cl.len() implies lines[kd + j] == #[trigger] cl[j] by {
            assert(bls[1 + dl + j] == cl[j]);
            assert(lines[k + (1 + dl + j)] == bls[1 + dl + j]);
        }
    }
    assert(bls[1 + dl + cl.len()] == b.exit_line);
    assert(lines[k + (1 + dl + cl.len() as int)] == bls[1 + dl + cl.len()]);
    lemma_cases_deciding(cfg, b.default_body, b.cases, lines, kd, State::Default);
    assert(kd + cl.len() + 1 == k + bls.len());
}

/// One stretch of a well-formed input: a single content line outside any
/// block, or a whole match block.
pub enum Piece {
    Content(Seq<char>),
    Blk(Block),
}

pub open spec fn piece_wf(cfg: Config, p: Piece) -> bool {
    match p {
        Piece::Content(l) => classify(cfg, l) is None,
        Piece::Blk(b) => block_wf(cfg, b),
    }
}

pub open spec fn piece_lines(p: Piece) -> Seq<Seq<char>> {
    match p {
        Piece::Content(l) => seq![l],
        Piece::Blk(b) => block_lines(b),
    }
}

pub open spec fn piece_output(cfg: Config, p: Piece) -> Seq<Seq<char>> {
    match p {
        Piece::Content(l) => seq![l],
        Piece::Blk(b) => block_output(cfg, b),
    }
}

/// The lines a well-formed input consists of.
pub open spec fn pieces_lines(ps: Seq<Piece>) -> Seq<Seq<char>>
    decreases ps.len(),
{
    if ps.len() == 0 {
        Seq::empty()
    } else {
        piece_lines(ps[0]) + pieces_lines(ps.drop_first())
    }
}

/// The output a well-formed input owes: each content line verbatim, each
/// block reduced to its selection.
pub open spec fn pieces_output(cfg: Config, ps: Seq<Piece>) -> Seq<Seq<char>>
    decreases ps.len(),
{
    if ps.len() == 0 {
        Seq::empty()
    } else {
        piece_output(cfg, ps[0]) + pieces_output(cfg, ps.drop_first())
    }
}

/// Over a well-formed tail of the input, the run raises no error and emits
/// each content line verbatim and each block's selection, in input order.
pub proof fn lemma_run_pieces(cfg: Config, ps: Seq<Piece>, lines: Seq<Seq<char>>, k: int)
    requires
        0 <= k <= lines.len(),
        k + pieces_lines(ps).len() == lines.len(),
        lines.subrange(k, lines.len() as int) == pieces_lines(ps),
        forall|i: int| 0 <= i < ps.len() ==> piece_wf(cfg, #[trigger] ps[i]),
    ensures
        run_from(cfg, State::Normal, Seq::empty(), lines, k) == Ok::<Seq<Seq<char>>, (
            int,
            TransitionError,
        )>(pieces_output(cfg, ps)),
    decreases ps.len(),
{
    let pl = pieces_lines(ps);
    assert(forall|j: int| 0 <= j < pl.len() ==> lines[k + j] == #[trigger] pl[j]) by {
        assert(forall|j: int|
            0 <= j < pl.len() ==> lines.subrange(k, lines.len() as int)[j] == #[trigger] pl[j]);
    }
    if ps.len() == 0 {
    } else {
        let p = ps[0];
        assert(piece_wf(cfg, p));
        let hl = piece_lines(p);
        let tail = pieces_lines(ps.drop_first());
        assert(pl == hl + tail);
        let k1 = k + hl.len() as int;
        assert(lines.subrange(k1, lines.len() as int) =~= tail) by {
            assert forall|j: int| 0 <= j < tail.len() implies lines[k1 + j] == #[trigger] tail[j] by {
                assert(pl[hl.len() + j] == tail[j]);
                assert(lines[k + (hl.len() + j)] == pl[hl.len() + j]);
            }
        }
        assert(forall|i: int| 0 <= i < ps.drop_first().len() ==> piece_wf(
            cfg,
            #[trigger] ps.drop_first()[i],
        )) by {
            assert(forall|i: int|
                0 <= i < ps.drop_first().len() ==> #[trigger] ps.drop_first()[i] == ps[i + 1]);
        }
        lemma_run_pieces(cfg, ps.drop_first(), lines, k1);
        match p {
            Piece::Content(l) => {
                assert(pl[0] == l);
                assert(lines[k + 0] == pl[0]);
                assert(seq![l] + pieces_output(cfg, ps.drop_first()) =~= pieces_output(cfg, ps));
            },
            Piece::Blk(b) => {
                assert(lines.subrange(k, k + block_lines(b).len() as int) =~= block_lines(b)) by {
                    assert forall|j: int|
                        0 <= j < block_lines(b).len() implies lines[k + j] == #[trigger] block_lines(
                        b,
                    )[j] by {
                        assert(pl[j] == block_lines(b)[j]);
                    }
                }
                lemma_block_run(cfg, b, lines, k);
                assert(block_output(cfg, b) + pieces_output(cfg, ps.drop_first()) =~= pieces_output(
                    cfg,
                    ps,
                ));
            },
        }
    }
}

/// The library's main law: over well-formed input — any alternation of
/// content lines and whole match blocks — `process` succeeds, and its
/// output is, in input order, every line outside any block, and for each
/// block either the first case whose label meets the targets, verbatim, or
/// the block's default body joined as one piece, when no case matches or no
/// target was requested.
pub proof fn lemma_process_well_formed(
    input: Seq<char>,
    targets: Seq<Seq<char>>,
    enter: Seq<char>,
    exit: Seq<char>,
    ignore: Option<Seq<char>>,
    ps: Seq<Piece>,
)
    requires
        split_lines(input) == pieces_lines(ps),
        forall|i: int|
            0 <= i < ps.len() ==> piece_wf(
                Config { enter, exit, ignore, targets },
                #[trigger] ps[i],
            ),
    ensures
        process_spec(input, targets, enter, exit, ignore) == Ok::<Seq<char>, (
            int,
            TransitionError,
        )>(join_nl(pieces_output(Config { enter, exit, ignore, targets }, ps))),
{
    let cfg = Config { enter, exit, ignore, targets };
    let lines = split_lines(input);
    assert(lines.subrange(0, lines.len() as int) =~= pieces_lines(ps));
    lemma_run_pieces(cfg, ps, lines, 0);
}

/// First match wins, at the block level: when the case at index `i` is the
/// first whose label tokens meet the targets, the block's selection is that
/// case's body — even when a later case at index `j` also meets the
/// targets, its body is not the one emitted.
pub proof fn lemma_first_match_selected(cfg: Config, cs: Seq<Case>, i: int, j: int)
    requires
        0 <= i < cs.len(),
        i < j < cs.len(),
        intersects(cfg.targets, switch_tokens(cfg, cs[i].header)),
        intersects(cfg.targets, switch_tokens(cfg, cs[j].header)),
        forall|k: int|
            0 <= k < i ==> !intersects(cfg.targets, switch_tokens(cfg, #[trigger] cs[k].header)),
    ensures
        cases_selection(cfg, cs) == Some(cs[i].body),
    decreases i,
{
    if i == 0 {
    } else {
        assert(!intersects(cfg.targets, switch_tokens(cfg, cs[0].header)));
        assert(forall|k: int|
            0 <= k < i - 1 ==> #[trigger] cs.drop_first()[k] == cs[k + 1]);
        assert(cs.drop_first()[i - 1] == cs[i]);
        assert(cs.drop_first()[j - 1] == cs[j]);
        lemma_first_match_selected(cfg, cs.drop_first(), i - 1, j - 1);
    }
}

/// First match wins: with the machine inside the already selected case, a
/// later case label — even one whose tokens also meet the targets — only
/// closes the selection. The lines before it pass through; the second
/// matching case's own body is discarded.
pub proof fn lemma_first_match_wins(
    cfg: Config,
    buf: Seq<Seq<char>>,
    lines: Seq<Seq<char>>,
    j: int,
)
    requires
        0 <= j < lines.len(),
        forall|i: int| 0 <= i < j ==> #[trigger] classify(cfg, lines[i]) is None,
        forall|i: int| j < i < lines.len() ==> #[trigger] classify(cfg, lines[i]) is None,
        classify(cfg, lines[j]) matches Some(ev) && ev is Switch,
    ensures
        run_from(cfg, State::Matched, buf, lines, 0) == Ok::<Seq<Seq<char>>, (
            int,
            TransitionError,
        )>(lines.subrange(0, j)),
{
    lemma_run_passthrough(cfg, State::Matched, buf, lines, 0, j);
    lemma_run_silent(cfg, State::Done, buf, lines, j + 1);
    assert(run_from(cfg, State::Matched, buf, lines, j) == Ok::<Seq<Seq<char>>, (
        int,
        TransitionError,
    )>(Seq::empty()));
    assert(lines.subrange(0, j) + Seq::<Seq<char>>::empty() =~= lines.subrange(0, j));
}

} // verus!
