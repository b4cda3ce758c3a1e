//! The order of fragments: their names compared character by character.
use vstd::multiset::Multiset;
use vstd::prelude::*;

verus! {

broadcast use vstd::seq_lib::group_to_multiset_ensures;

/// `a` comes no later than `b`: lexicographic order of code points, a prefix first.
pub open spec fn lex_le(a: Seq<char>, b: Seq<char>) -> bool
    decreases a.len(),
{
    if a.len() == 0 {
        true
    } else if b.len() == 0 {
        false
    } else if a[0] != b[0] {
        a[0] < b[0]
    } else {
        lex_le(a.drop_first(), b.drop_first())
    }
}

/// Every name comes no later than the names after it.
pub open spec fn names_sorted(s: Seq<(String, Option<String>)>) -> bool {
    forall|i: int, j: int| 0 <= i < j < s.len() ==> lex_le(#[trigger] s[i].0@, #[trigger] s[j].0@)
}

pub proof fn lemma_lex_total(a: Seq<char>, b: Seq<char>)
    ensures
        lex_le(a, b) || lex_le(b, a),
    decreases a.len(),
{
    if a.len() > 0 && b.len() > 0 && a[0] == b[0] {
        lemma_lex_total(a.drop_first(), b.drop_first());
    }
    if a.len() > 0 && b.len() > 0 && a[0] != b[0] {
        assert(a[0] < b[0] || b[0] < a[0]);
    }
}

pub proof fn lemma_lex_trans(a: Seq<char>, b: Seq<char>, c: Seq<char>)
    requires
        lex_le(a, b),
        lex_le(b, c),
    ensures
        lex_le(a, c),
    decreases a.len(),
{
    if a.len() > 0 && b.len() > 0 && c.len() > 0 && a[0] == b[0] && b[0] == c[0] {
        lemma_lex_trans(a.drop_first(), b.drop_first(), c.drop_first());
    }
    if a.len() > 0 && b.len() > 0 && c.len() > 0 && a[0] == c[0] && a[0] != b[0] {
        assert(!(a[0] < b[0] && b[0] < c[0]));
    }
}

/// Whether `a` comes no later than `b`.
pub fn name_le(a: &String, b: &String) -> (r: bool)
    ensures
        r == lex_le(a@, b@),
{
    let x = crate::text::chars_of(a.as_str());
    let y = crate::text::chars_of(b.as_str());
    let mut i: usize = 0;
    assert(x@.skip(0) =~= x@);
    assert(y@.skip(0) =~= y@);
    while i < x.len() && i < y.len() && x[i] == y[i]
        invariant
            i <= x@.len(),
            i <= y@.len(),
            lex_le(x@, y@) == lex_le(x@.skip(i as int), y@.skip(i as int)),
        decreases x@.len() - i,
    {
        assert(x@.skip(i as int).drop_first() =~= x@.skip(i + 1));
        assert(y@.skip(i as int).drop_first() =~= y@.skip(i + 1));
        i = i + 1;
    }
    if i == x.len() {
        true
    } else if i == y.len() {
        false
    } else {
        assert(x@.skip(i as int)[0] == x@[i as int]);
        assert(y@.skip(i as int)[0] == y@[i as int]);
        x[i] < y[i]
    }
}

/// The entries ordered by name; the same entries, each as often.
pub fn sort_by_name(entries: Vec<(String, Option<String>)>) -> (r: Vec<(String, Option<String>)>)
    ensures
        names_sorted(r@),
        r@.to_multiset() == entries@.to_multiset(),
{
    let mut rest = entries;
    let mut sorted: Vec<(String, Option<String>)> = Vec::new();
    while rest.len() > 0
        invariant
            names_sorted(sorted@),
            sorted@.to_multiset().add(rest@.to_multiset()) == entries@.to_multiset(),
        decreases rest@.len(),
    {
        let ghost before = rest@;
        let e = rest.pop().unwrap();
        assert(before =~= rest@.push(e));
        let mut pos: usize = 0;
        while pos < sorted.len() && name_le(&sorted[pos].0, &e.0)
            invariant
                pos <= sorted@.len(),
                forall|k: int| 0 <= k < pos ==> lex_le(#[trigger] sorted@[k].0@, e.0@),
            decreases sorted@.len() - pos,
        {
            pos = pos + 1;
        }
        proof {
            if pos < sorted@.len() {
                lemma_lex_total(sorted@[pos as int].0@, e.0@);
            }
        }
        let ghost old_sorted = sorted@;
        sorted.insert(pos, e);
        proof {
            assert(sorted@ == old_sorted.insert(pos as int, e));
            assert forall|i: int, j: int| 0 <= i < j < sorted@.len() implies lex_le(
                #[trigger] sorted@[i].0@,
                #[trigger] sorted@[j].0@,
            ) by {
                if j == pos {
                    assert(sorted@[i] == old_sorted[i]);
                } else if i == pos {
                    assert(sorted@[j] == old_sorted[j - 1]);
                    if j - 1 > pos {
                        lemma_lex_trans(e.0@, old_sorted[pos as int].0@, old_sorted[j - 1].0@);
                    }
                } else {
                    let i0 = if i < pos { i } else { i - 1 };
                    let j0 = if j < pos { j } else { j - 1 };
                    assert(sorted@[i] == old_sorted[i0]);
                    assert(sorted@[j] == old_sorted[j0]);
                }
            }
            assert(sorted@.to_multiset() == old_sorted.to_multiset().insert(e));
            assert(sorted@.to_multiset().add(rest@.to_multiset()) =~= entries@.to_multiset());
        }
    }
    assert(rest@.to_multiset() =~= Multiset::empty());
    assert(sorted@.to_multiset().add(rest@.to_multiset()) =~= sorted@.to_multiset());
    sorted
}

} // verus!
