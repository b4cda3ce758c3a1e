//! The readers: one fragment line by line, and a directory of fragments in name order.
use vstd::prelude::*;

use crate::lang::{
    cond_problems, probe_problems, subst_problems, ProblemView, sigil, apply, assignment, comment_mark, cond_holds, outside_query, file_word, ping_word, else_word, end_word, eq_pos,
    frag_ok, fragment_lines, has_hostname, if_word, lemma_run_push, lemma_step_ignores_answer,
    lemma_dir_run_push, lemma_step_keeps_shape, probe_holds, run, set_word, start, step,
    subst, try_word, unset_word, warn_mark, dir_run, DirAcc, Frag,
};
use crate::order::{names_sorted, sort_by_name};
pub use crate::lang::ParseState;
use crate::scope::{env_name, Scope};
use crate::text::{
    chars_of, has_prefix, slice_chars, split_lines, split_words, string_of, strip_all,
    strip_prefix_all, text_lines,
    trim_chars,
};
use crate::types::{Host, HostView, Hosts};

verus! {

/// Relies on `std::path::Path::exists`: whether the path names something on disk.
/// The answer depends on the disk, so nothing is promised of it.
#[verifier::external_body]
fn path_exists(p: &String) -> (r: bool) {
    std::path::Path::new(p.as_str()).exists()
}

fn eq_chars(a: &Vec<char>, b: &Vec<char>) -> (r: bool)
    ensures
        r == (a@ == b@),
{
    if a.len() != b.len() {
        return false;
    }
    let r = has_prefix(a, b);
    assert(a@.take(b@.len() as int) =~= a@);
    r
}

fn lit_warn() -> (r: Vec<char>)
    ensures
        r@ == warn_mark(),
{
    vec!['#', '=', '>']
}

fn lit_comment() -> (r: Vec<char>)
    ensures
        r@ == comment_mark(),
{
    vec!['#']
}

fn lit_if() -> (r: Vec<char>)
    ensures
        r@ == if_word(),
{
    vec!['i', 'f', ' ']
}

fn lit_try() -> (r: Vec<char>)
    ensures
        r@ == try_word(),
{
    vec!['t', 'r', 'y', ' ']
}

fn lit_set() -> (r: Vec<char>)
    ensures
        r@ == set_word(),
{
    vec!['s', 'e', 't', ' ']
}

fn lit_unset() -> (r: Vec<char>)
    ensures
        r@ == unset_word(),
{
    vec!['u', 'n', 's', 'e', 't', ' ']
}

fn lit_else() -> (r: Vec<char>)
    ensures
        r@ == else_word(),
{
    vec!['e', 'l', 's', 'e']
}

fn lit_end() -> (r: Vec<char>)
    ensures
        r@ == end_word(),
{
    vec!['e', 'n', 'd']
}

fn lit_sigil() -> (r: Vec<char>)
    ensures
        r@ == sigil(),
{
    vec!['$']
}

fn lit_file() -> (r: Vec<char>)
    ensures
        r@ == file_word(),
{
    vec!['f', 'i', 'l', 'e']
}

fn lit_ping() -> (r: Vec<char>)
    ensures
        r@ == ping_word(),
{
    vec!['p', 'i', 'n', 'g']
}

/// Splits `<key> = <value>` at its first `=`.
pub fn split_assignment(body: &Vec<char>) -> (r: Option<(Vec<char>, Vec<char>)>)
    ensures
        r is Some <==> assignment(body@) is Some,
        r matches Some((k, v)) ==> assignment(body@) == Some((k@, v@)),
{
    let n = body.len();
    let mut i: usize = 0;
    assert(body@.skip(0) =~= body@);
    while i < n && body[i] != '='
        invariant
            i <= n == body@.len(),
            eq_pos(body@) == i + eq_pos(body@.skip(i as int)),
        decreases n - i,
    {
        assert(body@.skip(i as int).drop_first() =~= body@.skip(i + 1));
        i = i + 1;
    }
    if i == n {
        assert(body@.skip(i as int).len() == 0);
        return None;
    }
    assert(body@.skip(i as int)[0] == '=');
    let key = trim_chars(&slice_chars(body, 0, i));
    let value = trim_chars(&slice_chars(body, i + 1, n));
    assert(body@.subrange(0, i as int) =~= body@.take(i as int));
    assert(body@.subrange(i + 1, n as int) =~= body@.skip(i + 1));
    Some((key, value))
}

/// A problem met in one line of a fragment.
#[derive(Debug, Clone)]
pub enum Problem {
    /// A `$name` token whose name is unbound; it reads as the empty text.
    UnresolvedVariable(String),
    /// An `if` with fewer than three words; it is false.
    InvalidConditional,
    /// An `if` whose operator is neither `==` nor `!=`; it is false.
    InvalidOperator(String),
    /// A `try` with fewer than two words; it is false.
    InvalidTry,
    /// A `try` of a kind other than `file`, `var` and `has`; it is false.
    UnknownProbe(String),
    /// A `set` without `=`; it binds nothing.
    InvalidAssignment,
    /// A host line with a single word; it adds no host.
    MissingHostname,
}

impl View for Problem {
    type V = ProblemView;

    open spec fn view(&self) -> ProblemView {
        match self {
            Problem::UnresolvedVariable(n) => ProblemView::UnresolvedVariable(n@),
            Problem::InvalidConditional => ProblemView::InvalidConditional,
            Problem::InvalidOperator(o) => ProblemView::InvalidOperator(o@),
            Problem::InvalidTry => ProblemView::InvalidTry,
            Problem::UnknownProbe(k) => ProblemView::UnknownProbe(k@),
            Problem::InvalidAssignment => ProblemView::InvalidAssignment,
            Problem::MissingHostname => ProblemView::MissingHostname,
        }
    }
}

/// One fragment, read line by line.
pub struct FileReader {
    pub path: String,
    pub hosts: Hosts,
    pub parse_state: ParseState,
    pub lines: Vec<String>,
    /// How many lines have been read.
    pub line_index: usize,
    pub vars: Scope,
    pub cond_stack: Vec<bool>,
    /// The texts of the `#=>` lines met so far.
    pub warnings: Vec<String>,
    /// The problems met in the lines read so far, in order.
    pub problems: Vec<Problem>,
    /// Whether the fragment's text could be read.
    pub readable: bool,
}

impl FileReader {
    /// The state of the pass, as the spec functions of the language speak of it.
    pub open spec fn model(&self) -> Frag {
        Frag {
            vars: self.vars@,
            hosts: self.hosts@,
            stack: self.cond_stack@,
            state: self.parse_state,
            warnings: self.warnings@.map_values(|w: String| w@),
            problems: self.problems@.map_values(|p: Problem| p@),
        }
    }

    /// `o` is `self` but for the problems recorded.
    pub open spec fn same_but_problems(&self, o: &Self) -> bool {
        &&& o.path == self.path
        &&& o.hosts == self.hosts
        &&& o.parse_state == self.parse_state
        &&& o.lines == self.lines
        &&& o.line_index == self.line_index
        &&& o.vars == self.vars
        &&& o.cond_stack == self.cond_stack
        &&& o.warnings == self.warnings
        &&& o.readable == self.readable
    }

    pub open spec fn lines_view(&self) -> Seq<Seq<char>> {
        self.lines@.map_values(|l: String| l@)
    }

    pub open spec fn wf(&self) -> bool {
        &&& self.vars.wf()
        &&& frag_ok(self.model())
    }

    /// A reader of the text `contents` (`None`: it could not be read), starting from
    /// the scope `vars`.
    pub fn new(path: String, contents: Option<String>, vars: Scope) -> (r: Self)
        requires
            vars.wf(),
        ensures
            r.wf(),
            r.path@ == path@,
            r.readable == (contents is Some),
            r.lines_view() == fragment_lines(
                match contents {
                    Some(t) => Some(t@),
                    None => None,
                },
            ),
            r.line_index == 0,
            r.model() == start(vars@),
    {
        let mut lines: Vec<String> = Vec::new();
        let readable = contents.is_some();
        match contents {
            Some(text) => {
                let parts = split_lines(&chars_of(text.as_str()));
                let mut i: usize = 0;
                while i < parts.len()
                    invariant
                        i <= parts@.len(),
                        parts@.len() == text_lines(text@).len(),
                        forall|k: int| 0 <= k < parts@.len() ==> (#[trigger] parts@[k])@ == text_lines(text@)[k],
                        lines@.len() == i,
                        forall|k: int| 0 <= k < i ==> (#[trigger] lines@[k])@ == text_lines(text@)[k],
                    decreases parts@.len() - i,
                {
                    lines.push(string_of(&parts[i]));
                    i = i + 1;
                }
                assert(lines@.map_values(|l: String| l@) =~= text_lines(text@));
            },
            None => {
                assert(lines@.map_values(|l: String| l@) =~= Seq::<Seq<char>>::empty());
            },
        }
        let mut stack: Vec<bool> = Vec::new();
        stack.push(true);
        let r = FileReader {
            path,
            hosts: Hosts::new(),
            parse_state: ParseState::Waiting,
            lines,
            line_index: 0,
            vars,
            cond_stack: stack,
            warnings: Vec::new(),
            problems: Vec::new(),
            readable,
        };
        assert(r.warnings@.map_values(|w: String| w@) =~= Seq::<Seq<char>>::empty());
        assert(r.problems@.map_values(|p: Problem| p@) =~= Seq::<ProblemView>::empty());
        assert(r.cond_stack@ =~= seq![true]);
        r
    }

    fn note(&mut self, p: Problem)
        ensures
            old(self).same_but_problems(final(self)),
            final(self).model().problems == old(self).model().problems.push(p@),
    {
        let ghost before = self.model().problems;
        self.problems.push(p);
        assert(self.model().problems =~= before.push(p@));
    }

    /// A token with `$name` replaced by the value bound to `name` (empty when unbound, a
    /// problem then recorded).
    pub fn parse_var_or_literal(&mut self, input: &str) -> (r: String)
        requires
            old(self).vars.wf(),
        ensures
            r@ == subst(old(self).vars@, input@),
            old(self).same_but_problems(final(self)),
            final(self).model().problems == old(self).model().problems + subst_problems(
                old(self).vars@,
                input@,
            ),
    {
        let ghost before = self.model().problems;
        let c = chars_of(input);
        if c.len() > 0 && c[0] == '$' {
            let name = string_of(&strip_prefix_all(&c, &lit_sigil()));
            match self.vars.get(&name) {
                Some(v) => {
                    assert(before + subst_problems(self.vars@, input@) =~= before);
                    v
                },
                None => {
                    self.note(Problem::UnresolvedVariable(name));
                    assert(before + subst_problems(old(self).vars@, input@) =~= self.model().problems);
                    String::new()
                },
            }
        } else {
            assert(before + subst_problems(self.vars@, input@) =~= before);
            string_of(&c)
        }
    }

    /// The value of the condition of an `if` line, given without its `if `; its problems
    /// are recorded.
    pub fn parse_conditional(&mut self, cond: &str) -> (r: bool)
        requires
            old(self).vars.wf(),
        ensures
            r == cond_holds(old(self).vars@, cond@),
            old(self).same_but_problems(final(self)),
            final(self).model().problems == old(self).model().problems + cond_problems(
                old(self).vars@,
                cond@,
            ),
    {
        let ghost before = self.model().problems;
        let w = split_words(&chars_of(cond));
        if w.len() < 3 {
            self.note(Problem::InvalidConditional);
            assert(before + cond_problems(old(self).vars@, cond@) =~= self.model().problems);
            return false;
        }
        let a = self.parse_var_or_literal(string_of(&w[0]).as_str());
        let b = self.parse_var_or_literal(string_of(&w[2]).as_str());
        let ghost mid = self.model().problems;
        let op = &w[1];
        if op.len() == 2 && op[0] == '=' && op[1] == '=' {
            assert(op@ =~= seq!['=', '=']);
            assert(before + cond_problems(old(self).vars@, cond@) =~= mid);
            a == b
        } else if op.len() == 2 && op[0] == '!' && op[1] == '=' {
            assert(op@ =~= seq!['!', '=']);
            assert(before + cond_problems(old(self).vars@, cond@) =~= mid);
            a != b
        } else {
            assert(op@ != seq!['=', '='] && op@ != seq!['!', '=']) by {
                if op@.len() == 2 {
                    assert(op@[0] == seq!['=', '='][0] ==> op@[1] != seq!['=', '='][1]);
                }
            }
            self.note(Problem::InvalidOperator(string_of(op)));
            assert(before + cond_problems(old(self).vars@, cond@) =~= self.model().problems);
            false
        }
    }

    /// Whether a host named `name` has been gathered in this fragment.
    fn has_host(&self, name: &String) -> (r: bool)
        ensures
            r == has_hostname(self.hosts@, name@),
    {
        let mut i: usize = 0;
        while i < self.hosts.hosts.len()
            invariant
                i <= self.hosts@.len(),
                forall|j: int| 0 <= j < i ==> (#[trigger] self.hosts@[j]).hostname != name@,
            decreases self.hosts@.len() - i,
        {
            if self.hosts.hosts[i].hostname == *name {
                assert(self.hosts@[i as int].hostname == name@);
                return true;
            }
            i = i + 1;
        }
        false
    }

    /// The value of the probe of a `try` line, given without its `try `; `found` is the
    /// outside world's answer for a `file` or `ping` probe. Its problems are recorded.
    pub fn parse_try(&mut self, attempt: &str, found: bool) -> (r: bool)
        requires
            old(self).vars.wf(),
        ensures
            r == probe_holds(old(self).vars@, old(self).hosts@, attempt@, found),
            old(self).same_but_problems(final(self)),
            final(self).model().problems == old(self).model().problems + probe_problems(
                attempt@,
            ),
    {
        let ghost before = self.model().problems;
        let w = split_words(&chars_of(attempt));
        if w.len() < 2 {
            self.note(Problem::InvalidTry);
            assert(before + probe_problems(attempt@) =~= self.model().problems);
            return false;
        }
        let kind = &w[0];
        let value = string_of(&w[1]);
        if eq_chars(kind, &lit_file()) || eq_chars(kind, &lit_ping()) {
            assert(before + probe_problems(attempt@) =~= before);
            found
        } else if eq_chars(kind, &vec!['v', 'a', 'r']) {
            assert(before + probe_problems(attempt@) =~= before);
            self.vars.contains_key(&value)
        } else if eq_chars(kind, &vec!['h', 'a', 's']) {
            assert(before + probe_problems(attempt@) =~= before);
            self.has_host(&value)
        } else {
            self.note(Problem::UnknownProbe(string_of(kind)));
            assert(before + probe_problems(attempt@) =~= self.model().problems);
            false
        }
    }

    /// The effect of a visible line, already trimmed.
    fn parse(&mut self, line: &Vec<char>, found: bool)
        requires
            old(self).vars.wf(),
        ensures
            final(self).vars.wf(),
            final(self).model() == apply(old(self).model(), line@, found),
            final(self).lines == old(self).lines,
            final(self).line_index == old(self).line_index,
            final(self).path == old(self).path,
            final(self).readable == old(self).readable,
    {
        let n = line.len();
        if has_prefix(line, &lit_warn()) {
            let note = string_of(&strip_prefix_all(line, &lit_warn()));
            let ghost w0 = self.warnings@;
            self.warnings.push(note);
            assert(self.warnings@.map_values(|w: String| w@) =~= w0.map_values(|w: String| w@).push(
                strip_all(line@, warn_mark()),
            ));
            return;
        }
        if has_prefix(line, &lit_comment()) {
            return;
        }
        if has_prefix(line, &lit_if()) {
            let body = string_of(&strip_prefix_all(line, &lit_if()));
            let c = self.parse_conditional(body.as_str());
            self.cond_stack.push(c);
            self.parse_state = ParseState::Conditional;
            return;
        }
        if has_prefix(line, &lit_try()) {
            let body = string_of(&strip_prefix_all(line, &lit_try()));
            let c = self.parse_try(body.as_str(), found);
            self.cond_stack.push(c);
            self.parse_state = ParseState::Conditional;
            return;
        }
        if has_prefix(line, &lit_set()) {
            let body = strip_prefix_all(line, &lit_set());
            match split_assignment(&body) {
                Some((k, v)) => {
                    self.vars.insert(string_of(&k), string_of(&v));
                },
                None => {
                    self.note(Problem::InvalidAssignment);
                },
            }
            return;
        }
        if has_prefix(line, &lit_unset()) {
            let key = string_of(&strip_prefix_all(line, &lit_unset()));
            self.vars.remove(&key);
            return;
        }
        let w = split_words(line);
        if w.len() >= 2 {
            let ghost before = self.model().problems;
            let hostname = self.parse_var_or_literal(string_of(&w[1]).as_str());
            let ip = self.parse_var_or_literal(string_of(&w[0]).as_str());
            self.hosts.add(Host::new(hostname, ip));
            assert(self.model().problems =~= before + subst_problems(old(self).vars@, w@[1]@)
                + subst_problems(old(self).vars@, w@[0]@));
        } else if w.len() == 1 {
            self.note(Problem::MissingHostname);
        }
    }

    /// The probe kind (`file` or `ping`) and the value that the current line asks the
    /// outside world about, if it asks.
    pub fn outside_probe(&self) -> (r: Option<(String, String)>)
        requires
            self.wf(),
            1 <= self.line_index <= self.lines@.len(),
        ensures
            r is Some <==> outside_query(self.model(), self.lines_view()[self.line_index - 1]) is Some,
            r matches Some((k, v)) ==> outside_query(self.model(), self.lines_view()[self.line_index - 1])
                == Some((k@, v@)),
    {
        let raw = chars_of(self.lines[self.line_index - 1].as_str());
        assert(raw@ == self.lines_view()[self.line_index - 1]);
        let line = trim_chars(&raw);
        let top = self.cond_stack[self.cond_stack.len() - 1];
        let active = match self.parse_state {
            ParseState::Conditional => !eq_chars(&line, &lit_else()) && !eq_chars(&line, &lit_end()) && top,
            _ => true,
        };
        if !active || has_prefix(&line, &lit_comment()) || has_prefix(&line, &lit_if())
            || !has_prefix(&line, &lit_try()) {
            return None;
        }
        let w = split_words(&strip_prefix_all(&line, &lit_try()));
        if w.len() >= 2 && (eq_chars(&w[0], &lit_file()) || eq_chars(&w[0], &lit_ping())) {
            Some((string_of(&w[0]), string_of(&w[1])))
        } else {
            None
        }
    }

    /// Applies the current line, `found` being the outside world's answer where the line
    /// asks it (see `outside_probe`).
    pub fn apply_line(&mut self, found: bool)
        requires
            old(self).wf(),
            1 <= old(self).line_index <= old(self).lines@.len(),
        ensures
            final(self).wf(),
            final(self).model() == step(
                old(self).model(),
                old(self).lines_view()[old(self).line_index - 1],
                found,
            ),
            final(self).lines == old(self).lines,
            final(self).line_index == old(self).line_index,
            final(self).path == old(self).path,
            final(self).readable == old(self).readable,
    {
        let raw = chars_of(self.lines[self.line_index - 1].as_str());
        assert(raw@ == self.lines_view()[self.line_index - 1]);
        let line = trim_chars(&raw);
        proof {
            lemma_step_keeps_shape(self.model(), raw@, found);
        }
        let n = self.cond_stack.len();
        match self.parse_state {
            ParseState::Conditional => {
                if eq_chars(&line, &lit_else()) {
                    let top = self.cond_stack[n - 1];
                    self.cond_stack.set(n - 1, !top);
                } else if eq_chars(&line, &lit_end()) {
                    self.cond_stack.pop();
                    if self.cond_stack.len() > 1 {
                        self.parse_state = ParseState::Conditional;
                    } else {
                        self.parse_state = ParseState::Normal;
                    }
                } else if self.cond_stack[n - 1] {
                    self.parse(&line, found);
                }
            },
            _ => {
                self.parse_state = ParseState::Normal;
                self.parse(&line, found);
            },
        }
    }

    /// Reads the current line (the `line_index`-th); false when there is none. A `file`
    /// probe is answered by the disk; a `ping` probe, having no reachability check here,
    /// by "not reachable" (callers with one answer it through `apply_line`).
    pub fn parse_current_line(&mut self) -> (r: bool)
        requires
            old(self).wf(),
        ensures
            final(self).wf(),
            r == (1 <= old(self).line_index <= old(self).lines@.len()),
            final(self).lines == old(self).lines,
            final(self).line_index == old(self).line_index,
            final(self).path == old(self).path,
            final(self).readable == old(self).readable,
            !r ==> final(self).model() == old(self).model(),
            r ==> exists|b: bool|
                final(self).model() == #[trigger] step(
                    old(self).model(),
                    old(self).lines_view()[old(self).line_index - 1],
                    b,
                ),
            r && !(outside_query(old(self).model(), old(self).lines_view()[old(self).line_index - 1])
                matches Some((k, _)) && k == file_word()) ==> final(self).model() == step(
                old(self).model(),
                old(self).lines_view()[old(self).line_index - 1],
                false,
            ),
    {
        if self.line_index == 0 || self.line_index > self.lines.len() {
            return false;
        }
        let found = match self.outside_probe() {
            Some((kind, value)) => {
                if eq_chars(&chars_of(kind.as_str()), &lit_file()) {
                    path_exists(&value)
                } else {
                    false
                }
            },
            None => false,
        };
        proof {
            if outside_query(self.model(), self.lines_view()[self.line_index - 1]) is None {
                lemma_step_ignores_answer(self.model(), self.lines_view()[self.line_index - 1], found);
            }
        }
        self.apply_line(found);
        true
    }

    /// Moves to the next line and reads it; false when every line has been read.
    pub fn next(&mut self) -> (r: bool)
        requires
            old(self).wf(),
        ensures
            final(self).wf(),
            r == (old(self).line_index < old(self).lines@.len()),
            final(self).lines == old(self).lines,
            final(self).path == old(self).path,
            final(self).readable == old(self).readable,
            !r ==> final(self).model() == old(self).model() && final(self).line_index == old(self).line_index,
            r ==> final(self).line_index == old(self).line_index + 1 && exists|b: bool|
                final(self).model() == #[trigger] step(
                    old(self).model(),
                    old(self).lines_view()[old(self).line_index as int],
                    b,
                ),
    {
        if self.line_index >= self.lines.len() {
            return false;
        }
        let ghost m0 = self.model();
        let ghost l0 = self.lines_view()[self.line_index as int];
        self.line_index = self.line_index + 1;
        assert(self.model() == m0);
        assert(self.lines_view()[self.line_index - 1] == l0);
        let r = self.parse_current_line();
        proof {
            let b = choose|b: bool| self.model() == #[trigger] step(m0, l0, b);
            assert(self.model() == step(m0, l0, b));
        }
        r
    }

    /// Reads every remaining line. Each `try file`/`try ping` line has had an outside
    /// answer; the rest follows the language exactly.
    pub fn parse_all(&mut self)
        requires
            old(self).wf(),
        ensures
            final(self).wf(),
            final(self).lines == old(self).lines,
            final(self).path == old(self).path,
            final(self).readable == old(self).readable,
            old(self).line_index > old(self).lines@.len() ==> final(self).line_index
                == old(self).line_index && final(self).model() == old(self).model(),
            old(self).line_index <= old(self).lines@.len() ==> final(self).line_index
                == old(self).lines@.len() && exists|found: Seq<bool>|
                found.len() == old(self).lines@.len() - old(self).line_index
                    && final(self).model() == #[trigger] run(
                    old(self).model(),
                    old(self).lines_view().skip(old(self).line_index as int),
                    found,
                ),
    {
        if self.line_index > self.lines.len() {
            return;
        }
        let ghost i0 = self.line_index as int;
        let ghost m0 = self.model();
        let ghost all = self.lines_view();
        let ghost mut found: Seq<bool> = seq![];
        while self.line_index < self.lines.len()
            invariant
                self.wf(),
                self.line_index <= self.lines@.len(),
                i0 == old(self).line_index as int,
                m0 == old(self).model(),
                all == old(self).lines_view(),
                i0 <= self.line_index,
                self.lines_view() == all,
                self.lines == old(self).lines,
                self.path == old(self).path,
                self.readable == old(self).readable,
                found.len() == self.line_index - i0,
                self.model() == run(m0, all.subrange(i0, self.line_index as int), found),
            decreases self.lines@.len() - self.line_index,
        {
            let ghost before = self.model();
            let ghost k = self.line_index as int;
            self.next();
            proof {
                let b = choose|b: bool| self.model() == #[trigger] step(before, all[k], b);
                lemma_run_push(m0, all.subrange(i0, k), found, all[k], b);
                assert(all.subrange(i0, k).push(all[k]) =~= all.subrange(i0, k + 1));
                found = found.push(b);
            }
        }
        assert(all.subrange(i0, all.len() as int) =~= all.skip(i0));
    }
}

/// The text of a fragment as the spec functions see it.
pub open spec fn text_view(t: Option<String>) -> Option<Seq<char>> {
    match t {
        Some(s) => Some(s@),
        None => None,
    }
}

/// A directory of fragments, processed in name order, each from the scope that the
/// fragments before it left.
pub struct DirReader {
    pub dir_path: String,
    pub hosts: Hosts,
    pub vars: Scope,
    /// Each fragment's path and text (`None` where it could not be read), by name.
    pub files: Vec<(String, Option<String>)>,
    /// How many fragments have been handed out.
    pub file_index: usize,
}

impl DirReader {
    /// The running state of the pass.
    pub open spec fn acc(&self) -> DirAcc {
        DirAcc { vars: self.vars@, hosts: self.hosts@ }
    }

    /// The lines of each fragment, in processing order.
    pub open spec fn fragments(&self) -> Seq<Seq<Seq<char>>> {
        self.files@.map_values(|f: (String, Option<String>)| fragment_lines(text_view(f.1)))
    }

    pub open spec fn wf(&self) -> bool {
        &&& self.vars.wf()
        &&& self.file_index <= self.files@.len()
    }

    /// A pass over `entries` (path and text of each fragment), sorted by path, from a
    /// scope holding each environment variable `(name, value)` of `env` as `env_<name>`.
    pub fn new(
        dir_path: String,
        entries: Vec<(String, Option<String>)>,
        env: Vec<(String, String)>,
    ) -> (r: Self)
        ensures
            r.wf(),
            r.dir_path@ == dir_path@,
            r.file_index == 0,
            r.hosts@ == Seq::<HostView>::empty(),
            names_sorted(r.files@),
            r.files@.to_multiset() == entries@.to_multiset(),
            forall|k: Seq<char>|
                #![trigger r.vars@.contains_key(k)]
                r.vars@.contains_key(k) <==> exists|i: int|
                    0 <= i < env@.len() && env_name(#[trigger] env@[i].0@) == k,
            forall|i: int|
                0 <= i < env@.len() && (forall|j: int|
                    i < j < env@.len() ==> #[trigger] env@[j].0@ != env@[i].0@) ==> r.vars@[env_name(
                    env@[i].0@,
                )] == env@[i].1@,
    {
        let files = sort_by_name(entries);
        let vars = Scope::from_env(&env);
        DirReader { dir_path, hosts: Hosts::new(), vars, files, file_index: 0 }
    }

    /// The reader of the next fragment, starting from the running scope; `None` after
    /// the last one.
    pub fn next(&mut self) -> (r: Option<FileReader>)
        requires
            old(self).wf(),
        ensures
            final(self).wf(),
            final(self).files == old(self).files,
            final(self).hosts == old(self).hosts,
            final(self).vars == old(self).vars,
            r is Some <==> old(self).file_index < old(self).files@.len(),
            r is None ==> final(self).file_index == old(self).file_index,
            r matches Some(f) ==> {
                &&& final(self).file_index == old(self).file_index + 1
                &&& f.wf()
                &&& f.line_index == 0
                &&& f.path@ == old(self).files@[old(self).file_index as int].0@
                &&& f.lines_view() == old(self).fragments()[old(self).file_index as int]
                &&& f.model() == start(old(self).vars@)
            },
    {
        if self.file_index >= self.files.len() {
            return None;
        }
        let i = self.file_index;
        let path = self.files[i].0.clone();
        let text = match &self.files[i].1 {
            Some(t) => Some(t.clone()),
            None => None,
        };
        assert(text_view(text) == text_view(self.files@[i as int].1));
        let vars = self.vars.duplicate();
        self.file_index = i + 1;
        Some(FileReader::new(path, text, vars))
    }

    /// Merges a fragment's pass into the running state: its hosts are appended, its
    /// bindings overlaid on the running scope.
    pub fn absorb(&mut self, file: &FileReader)
        requires
            old(self).wf(),
            file.vars.wf(),
        ensures
            final(self).wf(),
            final(self).files == old(self).files,
            final(self).file_index == old(self).file_index,
            final(self).acc() == (DirAcc {
                vars: old(self).vars@.union_prefer_right(file.vars@),
                hosts: old(self).hosts@ + file.hosts@,
            }),
    {
        self.hosts.extend(&file.hosts);
        self.vars.overlay(&file.vars);
    }

    pub fn get_hosts(&self) -> (r: &Hosts)
        ensures
            r@ == self.hosts@,
    {
        &self.hosts
    }

    /// Processes every remaining fragment in order: each one's hosts are appended and
    /// its scope overlaid on the running one. Each `try file`/`try ping` line has had an outside
    /// answer; the rest follows the language exactly.
    pub fn parse_all(&mut self)
        requires
            old(self).wf(),
        ensures
            final(self).wf(),
            final(self).file_index == old(self).files@.len(),
            final(self).files == old(self).files,
            exists|found: Seq<Seq<bool>>|
                found.len() == old(self).files@.len() - old(self).file_index
                    && final(self).acc() == #[trigger] dir_run(
                    old(self).acc(),
                    old(self).fragments().skip(old(self).file_index as int),
                    found,
                ),
    {
        let ghost i0 = self.file_index as int;
        let ghost a0 = self.acc();
        let ghost all = self.fragments();
        let ghost mut found: Seq<Seq<bool>> = seq![];
        while self.file_index < self.files.len()
            invariant
                self.wf(),
                i0 == old(self).file_index as int,
                a0 == old(self).acc(),
                all == old(self).fragments(),
                self.files == old(self).files,
                i0 <= self.file_index,
                found.len() == self.file_index - i0,
                self.acc() == dir_run(a0, all.subrange(i0, self.file_index as int), found),
            decreases self.files@.len() - self.file_index,
        {
            let ghost before = self.acc();
            let ghost k = self.file_index as int;
            match self.next() {
                Some(mut file) => {
                    let ghost f0 = file.model();
                    file.parse_all();
                    proof {
                        let p = choose|p: Seq<bool>|
                            p.len() == all[k].len() && file.model() == #[trigger] run(
                                f0,
                                all[k].skip(0),
                                p,
                            );
                        assert(all[k].skip(0) =~= all[k]);
                        lemma_dir_run_push(a0, all.subrange(i0, k), found, all[k], p);
                        assert(all.subrange(i0, k).push(all[k]) =~= all.subrange(i0, k + 1));
                        found = found.push(p);
                    }
                    self.absorb(&file);
                },
                None => {},
            }
        }
        assert(all.subrange(i0, all.len() as int) =~= all.skip(i0));
    }
}

} // verus!
