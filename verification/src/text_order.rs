//! The order of `str` values: lexicographic by Unicode scalar value, which
//! is the order of their UTF-8 bytes.

use vstd::prelude::*;
use vstd::relations::{strict_total_ordering, total_ordering, sorted_by};
use vstd::string::StrSliceExecFns;

verus! {

/// `a` sorts strictly before `b`.
pub open spec fn text_less(a: Seq<char>, b: Seq<char>) -> bool
    decreases a.len(),
{
    if a.len() == 0 {
        b.len() > 0
    } else if b.len() == 0 {
        false
    } else if a[0] != b[0] {
        (a[0] as int) < (b[0] as int)
    } else {
        text_less(a.drop_first(), b.drop_first())
    }
}

/// Pairs sort by their first component, then by their second.
pub open spec fn pair_less(p: (Seq<char>, Seq<char>), q: (Seq<char>, Seq<char>)) -> bool {
    text_less(p.0, q.0) || (p.0 == q.0 && text_less(p.1, q.1))
}

/// Every two distinct elements of `s` appear in increasing order.
pub open spec fn strictly_sorted(s: Seq<Seq<char>>) -> bool {
    forall|i: int, j: int| 0 <= i < j < s.len() ==> text_less(#[trigger] s[i], #[trigger] s[j])
}

pub open spec fn pairs_strictly_sorted(s: Seq<(Seq<char>, Seq<char>)>) -> bool {
    forall|i: int, j: int| 0 <= i < j < s.len() ==> pair_less(#[trigger] s[i], #[trigger] s[j])
}

pub proof fn lemma_text_less_irreflexive(a: Seq<char>)
    ensures
        !text_less(a, a),
    decreases a.len(),
{
    if a.len() > 0 {
        lemma_text_less_irreflexive(a.drop_first());
    }
}

pub proof fn lemma_text_less_asymmetric(a: Seq<char>, b: Seq<char>)
    ensures
        !(text_less(a, b) && text_less(b, a)),
    decreases a.len(),
{
    if a.len() > 0 && b.len() > 0 && a[0] == b[0] {
        lemma_text_less_asymmetric(a.drop_first(), b.drop_first());
    }
}

pub proof fn lemma_text_less_transitive(a: Seq<char>, b: Seq<char>, c: Seq<char>)
    requires
        text_less(a, b),
        text_less(b, c),
    ensures
        text_less(a, c),
    decreases a.len(),
{
    if a.len() > 0 && b.len() > 0 && c.len() > 0 && a[0] == b[0] && b[0] == c[0] {
        lemma_text_less_transitive(a.drop_first(), b.drop_first(), c.drop_first());
    }
}

pub proof fn lemma_text_less_total(a: Seq<char>, b: Seq<char>)
    ensures
        a == b || text_less(a, b) || text_less(b, a),
    decreases a.len(),
{
    if a.len() > 0 && b.len() > 0 && a[0] == b[0] {
        lemma_text_less_total(a.drop_first(), b.drop_first());
        if a.drop_first() == b.drop_first() {
            assert(a =~= seq![a[0]] + a.drop_first());
            assert(b =~= seq![b[0]] + b.drop_first());
        }
    } else if a.len() > 0 && b.len() > 0 {
        assert((a[0] as int) != (b[0] as int));
    } else if a.len() == 0 && b.len() == 0 {
        assert(a =~= b);
    }
}

pub proof fn lemma_pair_less_facts(p: (Seq<char>, Seq<char>), q: (Seq<char>, Seq<char>), r: (Seq<char>, Seq<char>))
    ensures
        !pair_less(p, p),
        !(pair_less(p, q) && pair_less(q, p)),
        pair_less(p, q) && pair_less(q, r) ==> pair_less(p, r),
        p == q || pair_less(p, q) || pair_less(q, p),
{
    lemma_text_less_irreflexive(p.0);
    lemma_text_less_irreflexive(p.1);
    lemma_text_less_asymmetric(p.0, q.0);
    lemma_text_less_asymmetric(p.1, q.1);
    lemma_text_less_total(p.0, q.0);
    lemma_text_less_total(p.1, q.1);
    if pair_less(p, q) && pair_less(q, r) {
        if text_less(p.0, q.0) && text_less(q.0, r.0) {
            lemma_text_less_transitive(p.0, q.0, r.0);
        }
        if text_less(p.1, q.1) && text_less(q.1, r.1) {
            lemma_text_less_transitive(p.1, q.1, r.1);
        }
    }
}

/// Two sequences, each strictly ascending in the same asymmetric order and
/// holding the same elements, are the same sequence.
pub proof fn lemma_sorted_sequences_agree<A>(s: Seq<A>, t: Seq<A>, less: spec_fn(A, A) -> bool)
    requires
        forall|a: A, b: A| #[trigger] less(a, b) ==> !less(b, a),
        forall|i: int, j: int| 0 <= i < j < s.len() ==> less(#[trigger] s[i], #[trigger] s[j]),
        forall|i: int, j: int| 0 <= i < j < t.len() ==> less(#[trigger] t[i], #[trigger] t[j]),
        s.to_set() == t.to_set(),
    ensures
        s == t,
    decreases s.len(),
{
    if s.len() == 0 {
        if t.len() > 0 {
            assert(t.to_set().contains(t[0]));
        }
        assert(s =~= t);
    } else {
        assert(s.to_set().contains(s[0]));
        assert(t.to_set().contains(t[0]));
        let k = choose|k: int| 0 <= k < s.len() && s[k] == t[0];
        let m = choose|m: int| 0 <= m < t.len() && t[m] == s[0];
        if k > 0 && m > 0 {
            assert(less(s[0], s[k]));
            assert(less(t[0], t[m]));
        }
        assert(s[0] == t[0]);
        let s1 = s.drop_first();
        let t1 = t.drop_first();
        assert forall|x: A| s1.to_set().contains(x) implies t1.to_set().contains(x) by {
            let i = choose|i: int| 0 <= i < s1.len() && s1[i] == x;
            assert(s.to_set().contains(s[i + 1]));
            let j = choose|j: int| 0 <= j < t.len() && t[j] == x;
            if j == 0 {
                assert(less(s[0], s[i + 1]));
            }
            assert(t1[j - 1] == x);
        }
        assert forall|x: A| t1.to_set().contains(x) implies s1.to_set().contains(x) by {
            let j = choose|j: int| 0 <= j < t1.len() && t1[j] == x;
            assert(t.to_set().contains(t[j + 1]));
            let i = choose|i: int| 0 <= i < s.len() && s[i] == x;
            if i == 0 {
                assert(less(t[0], t[j + 1]));
            }
            assert(s1[i - 1] == x);
        }
        assert(s1.to_set() =~= t1.to_set());
        lemma_sorted_sequences_agree(s1, t1, less);
        assert(s =~= t) by {
            assert forall|i: int| 0 <= i < s.len() implies s[i] == t[i] by {
                if i > 0 {
                    assert(s[i] == s1[i - 1]);
                    assert(t[i] == t1[i - 1]);
                }
            }
        }
    }
}

/// The strict order of texts, as a relation.
pub open spec fn text_order() -> spec_fn(Seq<char>, Seq<char>) -> bool {
    |a: Seq<char>, b: Seq<char>| text_less(a, b)
}

/// The strict order of pairs of texts, as a relation.
pub open spec fn pair_order() -> spec_fn((Seq<char>, Seq<char>), (Seq<char>, Seq<char>)) -> bool {
    |p: (Seq<char>, Seq<char>), q: (Seq<char>, Seq<char>)| pair_less(p, q)
}

/// The elements of `s` in ascending order of the strict order `less`.
pub open spec fn sorted_listing<A>(s: Set<A>, less: spec_fn(A, A) -> bool) -> Seq<A> {
    s.to_sorted_seq(|a: A, b: A| a == b || less(a, b))
}

pub proof fn lemma_text_order_is_strict_total()
    ensures
        strict_total_ordering(text_order()),
{
    let less = text_order();
    assert forall|a: Seq<char>| #[trigger] less(a, a) == false by {
        lemma_text_less_irreflexive(a);
    }
    assert forall|a: Seq<char>, b: Seq<char>| #[trigger] less(a, b) && #[trigger] less(b, a) implies a == b by {
        lemma_text_less_asymmetric(a, b);
    }
    assert forall|a: Seq<char>, b: Seq<char>, c: Seq<char>| #[trigger] less(a, b) && #[trigger] less(b, c) implies less(a, c) by {
        lemma_text_less_transitive(a, b, c);
    }
    assert forall|a: Seq<char>, b: Seq<char>| a != b implies #[trigger] less(a, b) || #[trigger] less(b, a) by {
        lemma_text_less_total(a, b);
    }
}

pub proof fn lemma_pair_order_is_strict_total()
    ensures
        strict_total_ordering(pair_order()),
{
    let less = pair_order();
    assert forall|p: (Seq<char>, Seq<char>)| #[trigger] less(p, p) == false by {
        lemma_pair_less_facts(p, p, p);
    }
    assert forall|p: (Seq<char>, Seq<char>), q: (Seq<char>, Seq<char>)| #[trigger] less(p, q) && #[trigger] less(q, p) implies p == q by {
        lemma_pair_less_facts(p, q, p);
    }
    assert forall|p: (Seq<char>, Seq<char>), q: (Seq<char>, Seq<char>), r: (Seq<char>, Seq<char>)|
        #[trigger] less(p, q) && #[trigger] less(q, r) implies less(p, r) by {
        lemma_pair_less_facts(p, q, r);
    }
    assert forall|p: (Seq<char>, Seq<char>), q: (Seq<char>, Seq<char>)| p != q implies #[trigger] less(p, q) || #[trigger] less(q, p) by {
        lemma_pair_less_facts(p, q, q);
    }
}

proof fn lemma_to_seq_distinct<A>(s: Set<A>)
    requires
        s.finite(),
    ensures
        s.to_seq().no_duplicates(),
    decreases s.len(),
{
    if s.len() > 0 {
        let x = s.choose();
        let rest = s.remove(x);
        lemma_to_seq_distinct(rest);
        rest.lemma_to_seq_to_set_id();
        let tail = rest.to_seq();
        assert(s.to_seq() == Seq::<A>::empty().push(x) + tail);
        assert forall|i: int, j: int| 0 <= i < s.to_seq().len() && 0 <= j < s.to_seq().len() && i != j
            implies s.to_seq()[i] != s.to_seq()[j] by {
            if i == 0 && j > 0 {
                assert(tail.to_set().contains(tail[j - 1]));
            } else if j == 0 && i > 0 {
                assert(tail.to_set().contains(tail[i - 1]));
            } else if i > 0 && j > 0 {
                assert(s.to_seq()[i] == tail[i - 1]);
                assert(s.to_seq()[j] == tail[j - 1]);
            }
        }
    }
}

/// A finite set listed in a strict total order: the listing holds exactly the
/// set's elements, in strictly ascending order.
pub proof fn lemma_sorted_listing<A>(s: Set<A>, less: spec_fn(A, A) -> bool)
    requires
        s.finite(),
        strict_total_ordering(less),
    ensures
        sorted_listing(s, less).to_set() == s,
        forall|i: int, j: int|
            0 <= i < j < sorted_listing(s, less).len() ==> less(
                #[trigger] sorted_listing(s, less)[i],
                #[trigger] sorted_listing(s, less)[j],
            ),
{
    broadcast use vstd::seq_lib::to_multiset_contains;
    let leq = |a: A, b: A| a == b || less(a, b);
    assert(total_ordering(leq)) by {
        assert forall|a: A, b: A| #[trigger] leq(a, b) && #[trigger] leq(b, a) implies a == b by {
            if a != b {
                assert(less(a, b) && less(b, a));
            }
        }
        assert forall|a: A, b: A, c: A| #[trigger] leq(a, b) && #[trigger] leq(b, c) implies leq(a, c) by {
            if a != b && b != c {
                assert(less(a, b) && less(b, c));
            }
        }
        assert forall|a: A, b: A| #[trigger] leq(a, b) || #[trigger] leq(b, a) by {
            if a != b {
                assert(less(a, b) || less(b, a));
            }
        }
    }
    let listed = s.to_seq();
    s.lemma_to_seq_to_set_id();
    lemma_to_seq_distinct(s);
    listed.lemma_sort_by_ensures(leq);
    let sorted = listed.sort_by(leq);
    assert(sorted == sorted_listing(s, less));
    listed.lemma_multiset_has_no_duplicates();
    sorted.lemma_multiset_has_no_duplicates_conv();
    assert forall|x: A| sorted.to_set().contains(x) <==> s.contains(x) by {
        listed.to_multiset_ensures();
        sorted.to_multiset_ensures();
        assert(listed.to_multiset().count(x) == sorted.to_multiset().count(x));
        if s.contains(x) {
            assert(listed.to_set().contains(x));
            assert(listed.contains(x));
            assert(sorted.contains(x));
            let i = choose|i: int| 0 <= i < sorted.len() && sorted[i] == x;
            assert(sorted.to_set().contains(sorted[i]));
        }
        if sorted.to_set().contains(x) {
            assert(sorted.contains(x));
            assert(listed.contains(x));
            let i = choose|i: int| 0 <= i < listed.len() && listed[i] == x;
            assert(listed.to_set().contains(listed[i]));
        }
    }
    assert(sorted.to_set() =~= s);
    assert forall|i: int, j: int| 0 <= i < j < sorted.len() implies less(#[trigger] sorted[i], #[trigger] sorted[j]) by {
        assert(leq(sorted[i], sorted[j]));
    }
}

/// Whether `a` sorts strictly before `b`.
pub fn text_precedes(a: &str, b: &str) -> (result: bool)
    ensures
        result == text_less(a@, b@),
{
    let la = a.unicode_len();
    let lb = b.unicode_len();
    let mut i: usize = 0;
    assert(a@.skip(0) =~= a@);
    assert(b@.skip(0) =~= b@);
    while i < la && i < lb
        invariant
            la == a@.len(),
            lb == b@.len(),
            i <= la,
            i <= lb,
            text_less(a@, b@) == text_less(a@.skip(i as int), b@.skip(i as int)),
        decreases la - i,
    {
        let x = a.get_char(i);
        let y = b.get_char(i);
        assert(a@.skip(i as int)[0] == x && b@.skip(i as int)[0] == y);
        if x != y {
            return x < y;
        }
        assert(a@.skip(i as int).drop_first() =~= a@.skip(i + 1));
        assert(b@.skip(i as int).drop_first() =~= b@.skip(i + 1));
        i = i + 1;
    }
    la - i == 0 && lb - i > 0
}


pub open spec fn pairs_view(v: Seq<(String, String)>) -> Seq<(Seq<char>, Seq<char>)> {
    v.map_values(|p: (String, String)| (p.0@, p.1@))
}

/// Adds `x` to the strictly sorted `v`, keeping it strictly sorted; does
/// nothing when `x` is already present.
pub fn insert_sorted(v: &mut Vec<String>, x: String)
    requires
        strictly_sorted(old(v).deep_view()),
    ensures
        strictly_sorted(final(v).deep_view()),
        final(v).deep_view().to_set() == old(v).deep_view().to_set().insert(x@),
{
    let n = v.len();
    let mut p: usize = 0;
    while p < n && text_precedes(v[p].as_str(), x.as_str())
        invariant
            n == v@.len(),
            p <= n,
            forall|i: int| 0 <= i < p ==> text_less(#[trigger] v.deep_view()[i], x@),
        decreases n - p,
    {
        p = p + 1;
    }
    let ghost old_v = v.deep_view();
    if p < n && v[p] == x {
        assert(old_v[p as int] == x@);
        assert(old_v.to_set() =~= old_v.to_set().insert(x@));
        return;
    }
    proof {
        if p < n {
            lemma_text_less_total(old_v[p as int], x@);
        }
    }
    v.insert(p, x);
    proof {
        let nv = v.deep_view();
        assert(nv =~= old_v.insert(p as int, x@));
        assert forall|i: int, j: int| 0 <= i < j < nv.len() implies text_less(#[trigger] nv[i], #[trigger] nv[j]) by {
            if j < p {
                assert(nv[i] == old_v[i] && nv[j] == old_v[j]);
            } else if j == p {
                assert(nv[i] == old_v[i]);
            } else if i > p {
                assert(nv[i] == old_v[i - 1] && nv[j] == old_v[j - 1]);
            } else if i == p {
                assert(nv[j] == old_v[j - 1]);
                if j - 1 > p {
                    lemma_text_less_transitive(x@, old_v[p as int], old_v[j - 1]);
                }
            } else {
                assert(nv[i] == old_v[i] && nv[j] == old_v[j - 1]);
                assert(text_less(old_v[i], old_v[j - 1]));
            }
        }
        assert(nv.to_set() =~= old_v.to_set().insert(x@)) by {
            assert(nv[p as int] == x@);
            assert forall|y: Seq<char>| old_v.to_set().contains(y) implies nv.to_set().contains(y) by {
                let k = choose|k: int| 0 <= k < old_v.len() && old_v[k] == y;
                if k < p {
                    assert(nv[k] == y);
                } else {
                    assert(nv[k + 1] == y);
                }
            }
            assert forall|y: Seq<char>| nv.to_set().contains(y) implies old_v.to_set().insert(x@).contains(y) by {
                let k = choose|k: int| 0 <= k < nv.len() && nv[k] == y;
                if k < p {
                    assert(old_v[k] == y);
                } else if k > p {
                    assert(old_v[k - 1] == y);
                }
            }
        }
    }
}

/// Whether pair `a` sorts strictly before pair `b`.
pub fn pair_precedes(a: &(String, String), b: &(String, String)) -> (result: bool)
    ensures
        result == pair_less((a.0@, a.1@), (b.0@, b.1@)),
{
    text_precedes(a.0.as_str(), b.0.as_str()) || (a.0 == b.0 && text_precedes(a.1.as_str(), b.1.as_str()))
}

/// Adds `x` to the strictly sorted `v`, keeping it strictly sorted; does
/// nothing when `x` is already present.
pub fn insert_sorted_pair(v: &mut Vec<(String, String)>, x: (String, String))
    requires
        pairs_strictly_sorted(pairs_view(old(v)@)),
    ensures
        pairs_strictly_sorted(pairs_view(final(v)@)),
        pairs_view(final(v)@).to_set() == pairs_view(old(v)@).to_set().insert((x.0@, x.1@)),
{
    let ghost xv = (x.0@, x.1@);
    let n = v.len();
    let mut p: usize = 0;
    while p < n && pair_precedes(&v[p], &x)
        invariant
            n == v@.len(),
            p <= n,
            xv == (x.0@, x.1@),
            forall|i: int| 0 <= i < p ==> pair_less(#[trigger] pairs_view(v@)[i], xv),
        decreases n - p,
    {
        p = p + 1;
    }
    let ghost old_v = pairs_view(v@);
    if p < n && v[p].0 == x.0 && v[p].1 == x.1 {
        assert(old_v[p as int] == xv);
        assert(old_v.to_set() =~= old_v.to_set().insert(xv));
        return;
    }
    proof {
        if p < n {
            lemma_pair_less_facts(old_v[p as int], xv, xv);
        }
    }
    v.insert(p, x);
    proof {
        let nv = pairs_view(v@);
        assert(nv =~= old_v.insert(p as int, xv));
        assert forall|i: int, j: int| 0 <= i < j < nv.len() implies pair_less(#[trigger] nv[i], #[trigger] nv[j]) by {
            if j < p {
                assert(nv[i] == old_v[i] && nv[j] == old_v[j]);
            } else if j == p {
                assert(nv[i] == old_v[i]);
            } else if i > p {
                assert(nv[i] == old_v[i - 1] && nv[j] == old_v[j - 1]);
            } else if i == p {
                assert(nv[j] == old_v[j - 1]);
                if j - 1 > p {
                    lemma_pair_less_facts(xv, old_v[p as int], old_v[j - 1]);
                }
            } else {
                assert(nv[i] == old_v[i] && nv[j] == old_v[j - 1]);
                assert(pair_less(old_v[i], old_v[j - 1]));
            }
        }
        assert(nv.to_set() =~= old_v.to_set().insert(xv)) by {
            assert(nv[p as int] == xv);
            assert forall|y: (Seq<char>, Seq<char>)| old_v.to_set().contains(y) implies nv.to_set().contains(y) by {
                let k = choose|k: int| 0 <= k < old_v.len() && old_v[k] == y;
                if k < p {
                    assert(nv[k] == y);
                } else {
                    assert(nv[k + 1] == y);
                }
            }
            assert forall|y: (Seq<char>, Seq<char>)| nv.to_set().contains(y) implies old_v.to_set().insert(xv).contains(y) by {
                let k = choose|k: int| 0 <= k < nv.len() && nv[k] == y;
                if k < p {
                    assert(old_v[k] == y);
                } else if k > p {
                    assert(old_v[k - 1] == y);
                }
            }
        }
    }
}

} // verus!
