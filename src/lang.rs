//! What a fragment line does: the meaning of the directive language, as spec functions.
use vstd::prelude::*;

use crate::text::{starts_with, strip_all, text_lines, trim, words};
use crate::types::HostView;

verus! {

/// Where a fragment pass stands: before its first line, outside any block, inside one.
#[derive(Debug, Clone, Copy, PartialEq, Eq, Structural)]
pub enum ParseState {
    Normal,
    Conditional,
    Waiting,
}

/// A problem met in one line; the line is then read as far as it makes sense.
pub enum ProblemView {
    UnresolvedVariable(Seq<char>),
    InvalidConditional,
    InvalidOperator(Seq<char>),
    InvalidTry,
    UnknownProbe(Seq<char>),
    InvalidAssignment,
    MissingHostname,
}

/// The state of one fragment pass: its scope, its hosts so far, the visibility stack
/// (bottom entry always `true`), the parse state, the warnings the fragment raised and
/// the problems met in its lines.
pub struct Frag {
    pub vars: Map<Seq<char>, Seq<char>>,
    pub hosts: Seq<HostView>,
    pub stack: Seq<bool>,
    pub state: ParseState,
    pub warnings: Seq<Seq<char>>,
    pub problems: Seq<ProblemView>,
}

/// The running state of a directory pass: the scope and the hosts gathered so far.
pub struct DirAcc {
    pub vars: Map<Seq<char>, Seq<char>>,
    pub hosts: Seq<HostView>,
}

pub open spec fn warn_mark() -> Seq<char> {
    seq!['#', '=', '>']
}

pub open spec fn comment_mark() -> Seq<char> {
    seq!['#']
}

pub open spec fn if_word() -> Seq<char> {
    seq!['i', 'f', ' ']
}

pub open spec fn try_word() -> Seq<char> {
    seq!['t', 'r', 'y', ' ']
}

pub open spec fn set_word() -> Seq<char> {
    seq!['s', 'e', 't', ' ']
}

pub open spec fn unset_word() -> Seq<char> {
    seq!['u', 'n', 's', 'e', 't', ' ']
}

pub open spec fn else_word() -> Seq<char> {
    seq!['e', 'l', 's', 'e']
}

pub open spec fn end_word() -> Seq<char> {
    seq!['e', 'n', 'd']
}

pub open spec fn sigil() -> Seq<char> {
    seq!['$']
}

/// A token as the line reads it: `$name` (any number of leading `$`) is the value bound
/// to `name`, empty when unbound; any other token stands for itself.
pub open spec fn subst(vars: Map<Seq<char>, Seq<char>>, tok: Seq<char>) -> Seq<char> {
    if tok.len() > 0 && tok[0] == '$' {
        let name = strip_all(tok, sigil());
        if vars.contains_key(name) {
            vars[name]
        } else {
            seq![]
        }
    } else {
        tok
    }
}

/// The problem of reading a token: a `$name` whose name is unbound.
pub open spec fn subst_problems(vars: Map<Seq<char>, Seq<char>>, tok: Seq<char>) -> Seq<
    ProblemView,
> {
    if tok.len() > 0 && tok[0] == '$' && !vars.contains_key(strip_all(tok, sigil())) {
        seq![ProblemView::UnresolvedVariable(strip_all(tok, sigil()))]
    } else {
        seq![]
    }
}

/// `a == b` and `a != b` on the substituted operands; any other operator is false.
pub open spec fn compare(
    vars: Map<Seq<char>, Seq<char>>,
    a: Seq<char>,
    op: Seq<char>,
    b: Seq<char>,
) -> bool {
    if op == seq!['=', '='] {
        subst(vars, a) == subst(vars, b)
    } else if op == seq!['!', '='] {
        subst(vars, a) != subst(vars, b)
    } else {
        false
    }
}

/// The value of the condition after `if `: its first three words; fewer are false.
pub open spec fn cond_holds(vars: Map<Seq<char>, Seq<char>>, body: Seq<char>) -> bool {
    let w = words(body);
    w.len() >= 3 && compare(vars, w[0], w[1], w[2])
}

/// The problems of a condition: too few words; else its operands read in order, then
/// an operator other than `==` and `!=`.
pub open spec fn cond_problems(vars: Map<Seq<char>, Seq<char>>, body: Seq<char>) -> Seq<
    ProblemView,
> {
    let w = words(body);
    if w.len() < 3 {
        seq![ProblemView::InvalidConditional]
    } else {
        subst_problems(vars, w[0]) + subst_problems(vars, w[2]) + if w[1] == seq!['=', '=']
            || w[1] == seq!['!', '='] {
            Seq::<ProblemView>::empty()
        } else {
            seq![ProblemView::InvalidOperator(w[1])]
        }
    }
}

/// The problems of a probe: too few words, or a kind other than `file`, `ping`, `var`,
/// `has`.
pub open spec fn probe_problems(body: Seq<char>) -> Seq<ProblemView> {
    let w = words(body);
    if w.len() < 2 {
        seq![ProblemView::InvalidTry]
    } else if w[0] == file_word() || w[0] == ping_word() || w[0] == seq!['v', 'a', 'r'] || w[0] == seq![
        'h',
        'a',
        's',
    ] {
        seq![]
    } else {
        seq![ProblemView::UnknownProbe(w[0])]
    }
}

pub open spec fn has_hostname(hosts: Seq<HostView>, name: Seq<char>) -> bool {
    exists|i: int| 0 <= i < hosts.len() && #[trigger] hosts[i].hostname == name
}

pub open spec fn file_word() -> Seq<char> {
    seq!['f', 'i', 'l', 'e']
}

pub open spec fn ping_word() -> Seq<char> {
    seq!['p', 'i', 'n', 'g']
}

/// The value of the probe after `try `. `file` and `ping` take `found`, the outside
/// world's answer (the path exists; the address answered); `var` asks the scope, `has`
/// the hosts of this fragment; other kinds are false.
pub open spec fn probe_holds(
    vars: Map<Seq<char>, Seq<char>>,
    hosts: Seq<HostView>,
    body: Seq<char>,
    found: bool,
) -> bool {
    let w = words(body);
    if w.len() < 2 {
        false
    } else if w[0] == file_word() || w[0] == ping_word() {
        found
    } else if w[0] == seq!['v', 'a', 'r'] {
        vars.contains_key(w[1])
    } else if w[0] == seq!['h', 'a', 's'] {
        has_hostname(hosts, w[1])
    } else {
        false
    }
}

/// Where the first `=` stands, or the length when there is none.
pub open spec fn eq_pos(s: Seq<char>) -> nat
    decreases s.len(),
{
    if s.len() == 0 {
        0
    } else if s[0] == '=' {
        0
    } else {
        1 + eq_pos(s.drop_first())
    }
}

/// The key and value of `<key> = <value>`, both trimmed; `None` without `=`.
pub open spec fn assignment(body: Seq<char>) -> Option<(Seq<char>, Seq<char>)> {
    let e = eq_pos(body) as int;
    if e < body.len() {
        Some((trim(body.take(e)), trim(body.skip(e + 1))))
    } else {
        None
    }
}

/// The effect of a visible (trimmed) line.
pub open spec fn apply(f: Frag, line: Seq<char>, found: bool) -> Frag {
    if starts_with(line, warn_mark()) {
        Frag { warnings: f.warnings.push(strip_all(line, warn_mark())), ..f }
    } else if starts_with(line, comment_mark()) {
        f
    } else if starts_with(line, if_word()) {
        Frag {
            stack: f.stack.push(cond_holds(f.vars, strip_all(line, if_word()))),
            state: ParseState::Conditional,
            problems: f.problems + cond_problems(f.vars, strip_all(line, if_word())),
            ..f
        }
    } else if starts_with(line, try_word()) {
        Frag {
            stack: f.stack.push(probe_holds(f.vars, f.hosts, strip_all(line, try_word()), found)),
            state: ParseState::Conditional,
            problems: f.problems + probe_problems(strip_all(line, try_word())),
            ..f
        }
    } else if starts_with(line, set_word()) {
        match assignment(strip_all(line, set_word())) {
            Some((k, v)) => Frag { vars: f.vars.insert(k, v), ..f },
            None => Frag { problems: f.problems.push(ProblemView::InvalidAssignment), ..f },
        }
    } else if starts_with(line, unset_word()) {
        Frag { vars: f.vars.remove(strip_all(line, unset_word())), ..f }
    } else {
        let w = words(line);
        if w.len() >= 2 {
            Frag {
                hosts: f.hosts.push(
                    HostView { ip: subst(f.vars, w[0]), hostname: subst(f.vars, w[1]) },
                ),
                problems: f.problems + subst_problems(f.vars, w[1]) + subst_problems(f.vars, w[0]),
                ..f
            }
        } else if w.len() == 1 {
            Frag { problems: f.problems.push(ProblemView::MissingHostname), ..f }
        } else {
            f
        }
    }
}

/// The effect of one line of a fragment, as read from the file.
pub open spec fn step(f: Frag, raw: Seq<char>, found: bool) -> Frag {
    let line = trim(raw);
    match f.state {
        ParseState::Conditional => {
            if line == else_word() {
                Frag { stack: f.stack.update(f.stack.len() - 1, !f.stack.last()), ..f }
            } else if line == end_word() {
                let s = f.stack.drop_last();
                Frag {
                    stack: s,
                    state: if s.len() > 1 {
                        ParseState::Conditional
                    } else {
                        ParseState::Normal
                    },
                    ..f
                }
            } else if f.stack.last() {
                apply(f, line, found)
            } else {
                f
            }
        },
        _ => apply(Frag { state: ParseState::Normal, ..f }, line, found),
    }
}

/// The probe kind (`file` or `ping`) and the value that the line asks the outside world
/// about, if it does.
pub open spec fn outside_query(f: Frag, raw: Seq<char>) -> Option<(Seq<char>, Seq<char>)> {
    let line = trim(raw);
    let active = match f.state {
        ParseState::Conditional => line != else_word() && line != end_word() && f.stack.last(),
        _ => true,
    };
    let w = words(strip_all(line, try_word()));
    if active && !starts_with(line, comment_mark()) && !starts_with(line, if_word())
        && starts_with(line, try_word()) && w.len() >= 2 && (w[0] == file_word() || w[0]
        == ping_word()) {
        Some((w[0], w[1]))
    } else {
        None
    }
}

/// The fragment state before its first line.
pub open spec fn start(vars: Map<Seq<char>, Seq<char>>) -> Frag {
    Frag {
        vars,
        hosts: seq![],
        stack: seq![true],
        state: ParseState::Waiting,
        warnings: seq![],
        problems: seq![],
    }
}

/// The outside answer for line `i`: `found[i]`, and "no" past its end.
pub open spec fn answer(found: Seq<bool>, i: int) -> bool {
    0 <= i < found.len() && found[i]
}

/// The lines read in order, line `i` answered `answer(found, i)` where it asks the
/// outside world.
pub open spec fn run(f: Frag, lines: Seq<Seq<char>>, found: Seq<bool>) -> Frag
    decreases lines.len(),
{
    if lines.len() == 0 {
        f
    } else {
        step(run(f, lines.drop_last(), found), lines.last(), answer(found, lines.len() - 1))
    }
}

/// The lines of a fragment: those of its text, none where it could not be read.
pub open spec fn fragment_lines(text: Option<Seq<char>>) -> Seq<Seq<char>> {
    match text {
        Some(t) => text_lines(t),
        None => seq![],
    }
}

/// One fragment's pass, from the running scope, merged into the running state: its
/// hosts are appended, its bindings overlaid.
pub open spec fn dir_step(acc: DirAcc, lines: Seq<Seq<char>>, found: Seq<bool>) -> DirAcc {
    let f = run(start(acc.vars), lines, found);
    DirAcc { vars: acc.vars.union_prefer_right(f.vars), hosts: acc.hosts + f.hosts }
}

/// The outside answers for fragment `i`: `found[i]`, and none past its end.
pub open spec fn answers(found: Seq<Seq<bool>>, i: int) -> Seq<bool> {
    if 0 <= i < found.len() {
        found[i]
    } else {
        seq![]
    }
}

/// The fragments processed in order, fragment `i` with the answers `answers(found, i)`.
pub open spec fn dir_run(
    acc: DirAcc,
    frags: Seq<Seq<Seq<char>>>,
    found: Seq<Seq<bool>>,
) -> DirAcc
    decreases frags.len(),
{
    if frags.len() == 0 {
        acc
    } else {
        dir_step(dir_run(acc, frags.drop_last(), found), frags.last(), answers(found, frags.len() - 1))
    }
}

/// The shape every state of a pass has.
pub open spec fn frag_ok(f: Frag) -> bool {
    &&& f.stack.len() >= 1
    &&& f.stack[0]
    &&& (f.state == ParseState::Conditional <==> f.stack.len() > 1)
}

pub proof fn lemma_step_keeps_shape(f: Frag, raw: Seq<char>, found: bool)
    requires
        frag_ok(f),
    ensures
        frag_ok(step(f, raw, found)),
{
}

pub proof fn lemma_step_ignores_answer(f: Frag, raw: Seq<char>, found: bool)
    requires
        outside_query(f, raw) is None,
    ensures
        step(f, raw, found) == step(f, raw, false),
{
}

/// A run reads no answer past its last line.
pub proof fn lemma_run_prefix(f: Frag, lines: Seq<Seq<char>>, p: Seq<bool>, q: Seq<bool>)
    requires
        forall|i: int| 0 <= i < lines.len() ==> answer(p, i) == answer(q, i),
    ensures
        run(f, lines, p) == run(f, lines, q),
    decreases lines.len(),
{
    if lines.len() > 0 {
        lemma_run_prefix(f, lines.drop_last(), p, q);
        assert(answer(p, lines.len() - 1) == answer(q, lines.len() - 1));
    }
}

pub proof fn lemma_run_push(f: Frag, lines: Seq<Seq<char>>, found: Seq<bool>, l: Seq<char>, b: bool)
    requires
        found.len() == lines.len(),
    ensures
        run(f, lines.push(l), found.push(b)) == step(run(f, lines, found), l, b),
{
    assert(lines.push(l).drop_last() =~= lines);
    assert forall|i: int| 0 <= i < lines.len() implies answer(found.push(b), i) == answer(found, i) by {
        assert(found.push(b)[i] == found[i]);
    }
    lemma_run_prefix(f, lines, found.push(b), found);
    assert(answer(found.push(b), lines.len() as int) == b);
}

/// A directory run reads no answer list past its last fragment.
pub proof fn lemma_dir_run_prefix(
    acc: DirAcc,
    frags: Seq<Seq<Seq<char>>>,
    p: Seq<Seq<bool>>,
    q: Seq<Seq<bool>>,
)
    requires
        forall|i: int| 0 <= i < frags.len() ==> answers(p, i) == answers(q, i),
    ensures
        dir_run(acc, frags, p) == dir_run(acc, frags, q),
    decreases frags.len(),
{
    if frags.len() > 0 {
        lemma_dir_run_prefix(acc, frags.drop_last(), p, q);
        assert(answers(p, frags.len() - 1) == answers(q, frags.len() - 1));
    }
}

pub proof fn lemma_dir_run_push(
    acc: DirAcc,
    frags: Seq<Seq<Seq<char>>>,
    found: Seq<Seq<bool>>,
    l: Seq<Seq<char>>,
    b: Seq<bool>,
)
    requires
        found.len() == frags.len(),
    ensures
        dir_run(acc, frags.push(l), found.push(b)) == dir_step(dir_run(acc, frags, found), l, b),
{
    assert(frags.push(l).drop_last() =~= frags);
    assert forall|i: int| 0 <= i < frags.len() implies answers(found.push(b), i) == answers(found, i) by {
        assert(found.push(b)[i] == found[i]);
    }
    lemma_dir_run_prefix(acc, frags, found.push(b), found);
    assert(answers(found.push(b), frags.len() as int) == b);
}

} // verus!
