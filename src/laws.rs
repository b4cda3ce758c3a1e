//! Properties of the language that hold of every input, proved from its definition.
use vstd::prelude::*;

use crate::lang::{
    apply, assignment, comment_mark, compare, dir_run, dir_step, else_word, end_word,
    frag_ok, if_word, run, set_word, start, step, subst, try_word, unset_word, DirAcc, Frag,
    ParseState,
};
use crate::text::{starts_with, trim, words};
use crate::types::HostView;

verus! {

/// A line that only lists a host: no directive, at least two words.
pub open spec fn plain_host(l: Seq<char>) -> bool {
    let t = trim(l);
    &&& !starts_with(t, comment_mark())
    &&& !starts_with(t, if_word())
    &&& !starts_with(t, try_word())
    &&& !starts_with(t, set_word())
    &&& !starts_with(t, unset_word())
    &&& t != else_word()
    &&& t != end_word()
    &&& words(t).len() >= 2
}

proof fn lemma_warn_is_comment(t: Seq<char>)
    ensures
        starts_with(t, crate::lang::warn_mark()) ==> starts_with(t, comment_mark()),
{
    if starts_with(t, crate::lang::warn_mark()) {
        assert(t[0] == t.take(3)[0]);
        assert(t.take(1) =~= comment_mark());
    }
}

/// The host that a plain host line gives under the scope `vars`.
pub open spec fn host_of(vars: Map<Seq<char>, Seq<char>>, l: Seq<char>) -> HostView {
    let w = words(trim(l));
    HostView { ip: subst(vars, w[0]), hostname: subst(vars, w[1]) }
}

/// The hosts that plain host lines give, fragment after fragment, line after line.
pub open spec fn listed_hosts(
    vars: Map<Seq<char>, Seq<char>>,
    frags: Seq<Seq<Seq<char>>>,
) -> Seq<HostView>
    decreases frags.len(),
{
    if frags.len() == 0 {
        seq![]
    } else {
        listed_hosts(vars, frags.drop_last()) + frags.last().map_values(
            |l: Seq<char>| host_of(vars, l),
        )
    }
}

/// Two fragments in a row: a binding that the first leaves is what the second starts
/// with, and a binding that the second leaves is the one in effect after both, whatever
/// the first did with that name.
pub proof fn law_last_write_wins(
    acc: DirAcc,
    first: Seq<Seq<char>>,
    found1: Seq<bool>,
    second: Seq<Seq<char>>,
    found2: Seq<bool>,
    name: Seq<char>,
)
    ensures
        ({
            let after1 = dir_step(acc, first, found1);
            let f1 = run(start(acc.vars), first, found1);
            let f2 = run(start(after1.vars), second, found2);
            let both = dir_run(acc, seq![first, second], seq![found1, found2]);
            &&& f1.vars.contains_key(name) ==> start(after1.vars).vars[name] == f1.vars[name]
            &&& f2.vars.contains_key(name) ==> both.vars.contains_key(name) && both.vars[name]
                == f2.vars[name]
        }),
{
    let frags = seq![first, second];
    let found = seq![found1, found2];
    assert(frags.drop_last() =~= seq![first]);
    assert(seq![first].drop_last() =~= Seq::<Seq<Seq<char>>>::empty());
    assert(crate::lang::answers(found, 0) == found1);
    assert(crate::lang::answers(found, 1) == found2);
    assert(dir_run(acc, Seq::<Seq<Seq<char>>>::empty(), found) == acc);
    assert(dir_run(acc, seq![first], found) == dir_step(acc, first, found1));
    assert(frags.last() == second);
    assert(dir_run(acc, frags, found) == dir_step(dir_step(acc, first, found1), second, found2));
}

/// A host line reads its tokens against the scope as it stood before the line: the
/// same token, read twice in one line, gives the same value both times.
pub proof fn law_one_scope_per_line(f: Frag, raw: Seq<char>, found: bool)
    requires
        frag_ok(f),
        f.state != ParseState::Conditional || f.stack.last(),
        plain_host(raw),
        words(trim(raw))[0] == words(trim(raw))[1],
    ensures
        ({
            let v = subst(f.vars, words(trim(raw))[0]);
            &&& step(f, raw, found).hosts == f.hosts.push(HostView { ip: v, hostname: v })
            &&& step(f, raw, found).vars == f.vars
        }),
{
    lemma_warn_is_comment(trim(raw));
}

proof fn lemma_scan_no_space(s: Seq<char>)
    requires
        forall|i: int| 0 <= i < s.len() ==> !crate::text::is_ws(#[trigger] s[i]),
    ensures
        crate::text::words_scan(s) == (Seq::<Seq<char>>::empty(), s),
    decreases s.len(),
{
    if s.len() > 0 {
        let init = s.drop_last();
        assert forall|i: int| 0 <= i < init.len() implies !crate::text::is_ws(#[trigger] init[i]) by {
            assert(init[i] == s[i]);
        }
        lemma_scan_no_space(init);
        assert(!crate::text::is_ws(s[s.len() - 1]));
        assert(init.push(s.last()) =~= s);
    } else {
        assert(s =~= Seq::<char>::empty());
    }
}

/// A keyword line is one word, never a host line.
proof fn lemma_keywords_one_word()
    ensures
        words(else_word()).len() == 1,
        words(end_word()).len() == 1,
{
    let e = else_word();
    assert forall|i: int| 0 <= i < e.len() implies !crate::text::is_ws(#[trigger] e[i]) by {
        assert(e[i] == 'e' || e[i] == 'l' || e[i] == 's');
    }
    lemma_scan_no_space(e);
    let d = end_word();
    assert forall|i: int| 0 <= i < d.len() implies !crate::text::is_ws(#[trigger] d[i]) by {
        assert(d[i] == 'e' || d[i] == 'n' || d[i] == 'd');
    }
    lemma_scan_no_space(d);
}

/// Each line adds exactly one host when it is a host line outside a false branch, and
/// none otherwise; hosts already gathered stay as they are.
pub proof fn law_one_host_per_visible_line(f: Frag, raw: Seq<char>, found: bool)
    requires
        frag_ok(f),
    ensures
        step(f, raw, found).hosts == if (f.state != ParseState::Conditional || f.stack.last())
            && plain_host(raw) {
            f.hosts.push(host_of(f.vars, raw))
        } else {
            f.hosts
        },
{
    lemma_warn_is_comment(trim(raw));
    lemma_keywords_one_word();
}

/// Whether the state shows its next line: outside any block, or in a true branch.
pub open spec fn visible(f: Frag) -> bool {
    f.state != ParseState::Conditional || f.stack.last()
}

/// The hosts that the host lines read outside false branches give, in line order.
pub open spec fn gathered(f: Frag, lines: Seq<Seq<char>>, found: Seq<bool>) -> Seq<HostView>
    decreases lines.len(),
{
    if lines.len() == 0 {
        seq![]
    } else {
        let g = run(f, lines.drop_last(), found);
        gathered(f, lines.drop_last(), found) + if visible(g) && plain_host(lines.last()) {
            seq![host_of(g.vars, lines.last())]
        } else {
            Seq::<HostView>::empty()
        }
    }
}

/// How many host lines are read outside false branches.
pub open spec fn visible_host_lines(f: Frag, lines: Seq<Seq<char>>, found: Seq<bool>) -> nat
    decreases lines.len(),
{
    if lines.len() == 0 {
        0
    } else {
        let g = run(f, lines.drop_last(), found);
        visible_host_lines(f, lines.drop_last(), found) + if visible(g) && plain_host(
            lines.last(),
        ) {
            1nat
        } else {
            0nat
        }
    }
}

/// A fragment's pass appends exactly one host per host line read outside a false
/// branch, in line order, and no other; equal lines give equal hosts, all kept.
pub proof fn law_fragment_hosts(f: Frag, lines: Seq<Seq<char>>, found: Seq<bool>)
    requires
        frag_ok(f),
    ensures
        run(f, lines, found).hosts == f.hosts + gathered(f, lines, found),
        gathered(f, lines, found).len() == visible_host_lines(f, lines, found),
        frag_ok(run(f, lines, found)),
    decreases lines.len(),
{
    if lines.len() == 0 {
        assert(f.hosts + gathered(f, lines, found) =~= f.hosts);
    } else {
        let init = lines.drop_last();
        law_fragment_hosts(f, init, found);
        let g = run(f, init, found);
        let b = crate::lang::answer(found, lines.len() - 1);
        law_one_host_per_visible_line(g, lines.last(), b);
        crate::lang::lemma_step_keeps_shape(g, lines.last(), b);
        if visible(g) && plain_host(lines.last()) {
            assert(f.hosts + gathered(f, lines, found) =~= (f.hosts + gathered(f, init, found)).push(
                host_of(g.vars, lines.last()),
            ));
        } else {
            assert(f.hosts + gathered(f, lines, found) =~= f.hosts + gathered(f, init, found));
        }
    }
}

proof fn lemma_plain_lines(f: Frag, lines: Seq<Seq<char>>, found: Seq<bool>)
    requires
        frag_ok(f),
        f.stack.last(),
        forall|i: int| 0 <= i < lines.len() ==> plain_host(#[trigger] lines[i]),
    ensures
        run(f, lines, found).hosts == f.hosts + lines.map_values(|l: Seq<char>| host_of(f.vars, l)),
        run(f, lines, found).vars == f.vars,
        run(f, lines, found).stack == f.stack,
        frag_ok(run(f, lines, found)),
    decreases lines.len(),
{
    if lines.len() == 0 {
        assert(f.hosts + lines.map_values(|l: Seq<char>| host_of(f.vars, l)) =~= f.hosts);
    } else {
        let init = lines.drop_last();
        assert forall|i: int| 0 <= i < init.len() implies plain_host(#[trigger] init[i]) by {
            assert(init[i] == lines[i]);
        }
        lemma_plain_lines(f, init, found);
        let g = run(f, init, found);
        crate::lang::lemma_step_keeps_shape(g, lines.last(), crate::lang::answer(found, lines.len() - 1));
        lemma_warn_is_comment(trim(lines.last()));
        assert(plain_host(lines[lines.len() - 1]));
        assert(f.hosts + lines.map_values(|l: Seq<char>| host_of(f.vars, l)) =~= (f.hosts
            + init.map_values(|l: Seq<char>| host_of(f.vars, l))).push(host_of(f.vars, lines.last())));
    }
}

/// Host lines outside false branches each give one host, in fragment order and then line
/// order; nothing is merged or dropped.
pub proof fn law_hosts_in_order(acc: DirAcc, frags: Seq<Seq<Seq<char>>>, found: Seq<Seq<bool>>)
    requires
        forall|i: int, j: int|
            0 <= i < frags.len() && 0 <= j < frags[i].len() ==> plain_host(#[trigger] frags[i][j]),
    ensures
        dir_run(acc, frags, found).hosts == acc.hosts + listed_hosts(acc.vars, frags),
        dir_run(acc, frags, found).vars == acc.vars,
    decreases frags.len(),
{
    if frags.len() == 0 {
        assert(acc.hosts + listed_hosts(acc.vars, frags) =~= acc.hosts);
    } else {
        let init = frags.drop_last();
        assert forall|i: int, j: int| 0 <= i < init.len() && 0 <= j < init[i].len() implies plain_host(#[trigger] init[i][j]) by {
            assert(init[i] == frags[i]);
        }
        law_hosts_in_order(acc, init, found);
        let a = dir_run(acc, init, found);
        let last = frags.last();
        assert forall|j: int| 0 <= j < last.len() implies plain_host(#[trigger] last[j]) by {
            assert(plain_host(frags[frags.len() - 1][j]));
        }
        lemma_plain_lines(start(a.vars), last, crate::lang::answers(found, frags.len() - 1));
        assert(a.vars.union_prefer_right(a.vars) =~= a.vars);
        assert(acc.hosts + listed_hosts(acc.vars, frags) =~= (acc.hosts + listed_hosts(acc.vars, init)) + last.map_values(|l: Seq<char>| host_of(acc.vars, l)));
        assert(seq![] + last.map_values(|l: Seq<char>| host_of(acc.vars, l)) =~= last.map_values(|l: Seq<char>| host_of(acc.vars, l)));
    }
}

/// `if A == A` holds and `if A != A` does not, whatever `A` stands for, an unbound
/// variable (the empty text) included.
pub proof fn law_equal_operands(vars: Map<Seq<char>, Seq<char>>, a: Seq<char>)
    ensures
        compare(vars, a, seq!['=', '='], a),
        !compare(vars, a, seq!['!', '='], a),
{
    assert(seq!['!', '='] != seq!['=', '=']) by {
        assert(seq!['!', '='][0] != seq!['=', '='][0]);
    }
}

/// In a false branch a line other than `else` and `end` changes nothing.
pub proof fn law_false_branch_inert(f: Frag, raw: Seq<char>, found: bool)
    requires
        frag_ok(f),
        f.state == ParseState::Conditional,
        !f.stack.last(),
        trim(raw) != else_word(),
        trim(raw) != end_word(),
    ensures
        step(f, raw, found) == f,
{
}

/// After the `end` of the only open block, a line takes its full effect: a `set` line
/// binds its name.
pub proof fn law_line_after_end(
    f: Frag,
    raw: Seq<char>,
    found: bool,
    end_found: bool,
    key: Seq<char>,
    value: Seq<char>,
)
    requires
        frag_ok(f),
        f.state == ParseState::Conditional,
        f.stack.len() == 2,
    ensures
        ({
            let g = step(f, end_word(), end_found);
            &&& g.state == ParseState::Normal
            &&& g.stack == seq![true]
            &&& g.vars == f.vars
            &&& g.hosts == f.hosts
            &&& step(g, raw, found) == apply(g, trim(raw), found)
            &&& starts_with(trim(raw), set_word()) && assignment(crate::text::strip_all(trim(raw), set_word())) == Some(
                (key, value),
            ) ==> step(g, raw, found).vars == f.vars.insert(key, value)
        }),
{
    let e = end_word();
    assert(trim(e) == e) by {
        assert(!crate::text::is_ws(e[0]));
        assert(!crate::text::is_ws(e.last()));
    }
    assert(f.stack.drop_last() =~= seq![true]);
    let t = trim(raw);
    if starts_with(t, set_word()) {
        assert(t[0] == t.take(4)[0]);
        assert(!starts_with(t, comment_mark())) by {
            assert(t.take(1)[0] == t[0]);
        }
        assert(!starts_with(t, seq!['#', '=', '>'])) by {
            assert(t.take(3)[0] == t[0]);
        }
        assert(!starts_with(t, if_word())) by {
            assert(t.take(3)[0] == t[0]);
        }
        assert(!starts_with(t, try_word())) by {
            assert(t.take(4)[0] == t[0]);
        }
    }
}

} // verus!
