//! The order of names, and sorting by it.

use crate::text::{chars_of, texts};
use vstd::prelude::*;
use vstd::relations::{sorted_by, total_ordering};
use vstd::seq_lib::{lemma_sorted_unique, to_multiset_build, to_multiset_insert};

verus! {

/// `a` comes no later than `b`: character by character, and what is shorter
/// first.
pub open spec fn no_later(a: Seq<char>, b: Seq<char>) -> bool
    decreases a.len(),
{
    if a.len() == 0 {
        true
    } else if b.len() == 0 {
        false
    } else if a[0] != b[0] {
        a[0] < b[0]
    } else {
        no_later(a.drop_first(), b.drop_first())
    }
}

/// In order: nothing comes before something that precedes it.
pub open spec fn in_order(s: Seq<Seq<char>>) -> bool {
    sorted_by(s, |a: Seq<char>, b: Seq<char>| no_later(a, b))
}

proof fn lemma_reflexive(a: Seq<char>)
    ensures
        no_later(a, a),
    decreases a.len(),
{
    if a.len() > 0 {
        lemma_reflexive(a.drop_first());
    }
}

proof fn lemma_total(a: Seq<char>, b: Seq<char>)
    ensures
        no_later(a, b) || no_later(b, a),
    decreases a.len(),
{
    if a.len() > 0 && b.len() > 0 {
        lemma_total(a.drop_first(), b.drop_first());
    }
}

proof fn lemma_transitive(a: Seq<char>, b: Seq<char>, c: Seq<char>)
    requires
        no_later(a, b),
        no_later(b, c),
    ensures
        no_later(a, c),
    decreases a.len(),
{
    if a.len() > 0 && a[0] == b[0] && b[0] == c[0] {
        lemma_transitive(a.drop_first(), b.drop_first(), c.drop_first());
    }
}

proof fn lemma_antisymmetric(a: Seq<char>, b: Seq<char>)
    requires
        no_later(a, b),
        no_later(b, a),
    ensures
        a == b,
    decreases a.len(),
{
    if a.len() > 0 && b.len() > 0 {
        lemma_antisymmetric(a.drop_first(), b.drop_first());
        assert(a =~= seq![a[0]] + a.drop_first());
        assert(b =~= seq![b[0]] + b.drop_first());
    } else {
        assert(a =~= b);
    }
}

/// There is one way to put names in order.
pub proof fn law_one_order(a: Seq<Seq<char>>, b: Seq<Seq<char>>)
    requires
        in_order(a),
        in_order(b),
        a.to_multiset() == b.to_multiset(),
    ensures
        a == b,
{
    let leq = |x: Seq<char>, y: Seq<char>| no_later(x, y);
    assert(total_ordering(leq)) by {
        assert forall|x: Seq<char>| #[trigger] leq(x, x) by {
            lemma_reflexive(x);
        }
        assert forall|x: Seq<char>, y: Seq<char>| #[trigger] leq(x, y) && #[trigger] leq(
            y,
            x,
        ) implies x == y by {
            lemma_antisymmetric(x, y);
        }
        assert forall|x: Seq<char>, y: Seq<char>, z: Seq<char>| #[trigger] leq(x, y) && #[trigger] leq(
            y,
            z,
        ) implies leq(x, z) by {
            lemma_transitive(x, y, z);
        }
        assert forall|x: Seq<char>, y: Seq<char>| #[trigger] leq(x, y) || #[trigger] leq(y, x) by {
            lemma_total(x, y);
        }
    }
    lemma_sorted_unique(a, b, leq);
}

fn comes_no_later(a: &str, b: &str) -> (res: bool)
    ensures
        res == no_later(a@, b@),
{
    let x = chars_of(a);
    let y = chars_of(b);
    let mut i: usize = 0;
    assert(x@.skip(0) =~= a@);
    assert(y@.skip(0) =~= b@);
    while i < x.len() && i < y.len() && x[i] == y[i]
        invariant
            i <= x@.len(),
            i <= y@.len(),
            no_later(a@, b@) == no_later(x@.skip(i as int), y@.skip(i as int)),
        decreases x@.len() - i,
    {
        assert(x@.skip(i as int).drop_first() =~= x@.skip(i + 1));
        assert(y@.skip(i as int).drop_first() =~= y@.skip(i + 1));
        i = i + 1;
    }
    if i == x.len() {
        true
    } else if i == y.len() {
        false
    } else {
        x[i] < y[i]
    }
}

/// The names in order.
pub fn sort(names: &Vec<String>) -> (res: Vec<String>)
    ensures
        in_order(texts(res@)),
        texts(res@).to_multiset() == texts(names@).to_multiset(),
{
    let mut out: Vec<String> = Vec::new();
    let ghost all = texts(names@);
    assert(all.take(0) =~= texts(out@));
    for n in 0..names.len()
        invariant
            all == texts(names@),
            in_order(texts(out@)),
            texts(out@).to_multiset() == all.take(n as int).to_multiset(),
    {
        let name = &names[n];
        let ghost before = texts(out@);
        let mut i: usize = out.len();
        while i > 0 && !comes_no_later(out[i - 1].as_str(), name.as_str())
            invariant
                i <= out@.len(),
                before == texts(out@),
                in_order(before),
                forall|j: int|
                    i <= j < out@.len() ==> no_later(name@, #[trigger] before[j]),
            decreases i,
        {
            proof {
                lemma_total(name@, before[i - 1]);
            }
            i = i - 1;
        }
        out.insert(i, name.clone());
        proof {
            let after = texts(out@);
            assert(after =~= before.insert(i as int, name@));
            let leq = |a: Seq<char>, b: Seq<char>| no_later(a, b);
            assert forall|j: int, k: int| 0 <= j < k < after.len() implies #[trigger] leq(
                after[j],
                after[k],
            ) by {
                let jj = if j < i { j } else { j - 1 };
                let kk = if k < i { k } else { k - 1 };
                if j != i && k != i {
                    assert(after[j] == before[jj]);
                    assert(after[k] == before[kk]);
                    assert(leq(before[jj], before[kk]));
                } else if k == i {
                    assert(after[j] == before[j]);
                    if j < i - 1 {
                        assert(leq(before[j], before[i - 1]));
                        lemma_transitive(before[j], before[i - 1], name@);
                    }
                } else {
                    assert(after[k] == before[k - 1]);
                }
            }
            to_multiset_insert(before, i as int, name@);
            to_multiset_build(all.take(n as int), name@);
            assert(all.take(n + 1) =~= all.take(n as int).push(name@));
        }
    }
    assert(all.take(names@.len() as int) =~= all);
    out
}

/// Names are in order character by character: what begins another comes
/// before it, and otherwise the first character that differs decides.
pub proof fn law_the_first_difference_decides(
    p: Seq<char>,
    c: char,
    a: Seq<char>,
    d: char,
    b: Seq<char>,
)
    ensures
        no_later(p, p + a),
        a.len() > 0 ==> !no_later(p + a, p),
        c != d ==> (no_later(p.push(c) + a, p.push(d) + b) <==> c < d),
    decreases p.len(),
{
    let x = p.push(c) + a;
    let y = p.push(d) + b;
    if p.len() > 0 {
        let q = p.drop_first();
        law_the_first_difference_decides(q, c, a, d, b);
        assert((p + a).drop_first() =~= q + a);
        assert(x.drop_first() =~= q.push(c) + a);
        assert(y.drop_first() =~= q.push(d) + b);
        assert((p + a)[0] == p[0] && x[0] == p[0] && y[0] == p[0]);
    } else {
        assert(p + a =~= a);
        assert(x[0] == c && y[0] == d);
    }
}

/// Names in order: what precedes another comes no later, and before it unless
/// they are the same.
pub proof fn law_what_precedes_comes_before(s: Seq<Seq<char>>, i: int, j: int)
    requires
        in_order(s),
        0 <= i < j < s.len(),
    ensures
        no_later(s[i], s[j]),
        s[i] != s[j] ==> !no_later(s[j], s[i]),
{
    let leq = |a: Seq<char>, b: Seq<char>| no_later(a, b);
    assert(leq(s[i], s[j]));
    if no_later(s[j], s[i]) {
        lemma_antisymmetric(s[i], s[j]);
    }
}

} // verus!
