//! A stable insertion sort over any type that carries a total preorder.
//! Every sort of the toolkit (player rows, crew skills, mod categories,
//! hull part groups, achievements, ship statistics) goes through it.

use vstd::prelude::*;

verus! {

broadcast use vstd::seq_lib::group_to_multiset_ensures;

/// A total preorder: `precedes_or_ties` is total and transitive, and `ranks_before_or_with`
/// decides it at run time.
pub trait Ranked: Sized {
    spec fn precedes_or_ties(self, other: Self) -> bool;

    proof fn lemma_total(a: Self, b: Self)
        ensures
            a.precedes_or_ties(b) || b.precedes_or_ties(a),
    ;

    proof fn lemma_transitive(a: Self, b: Self, c: Self)
        requires
            a.precedes_or_ties(b),
            b.precedes_or_ties(c),
        ensures
            a.precedes_or_ties(c),
    ;

    fn ranks_before_or_with(&self, other: &Self) -> (r: bool)
        ensures
            r == self.precedes_or_ties(*other),
    ;
}

/// The two values tie: each precedes or ties the other.
pub open spec fn ties<T: Ranked>(a: T, b: T) -> bool {
    a.precedes_or_ties(b) && b.precedes_or_ties(a)
}

/// Every element precedes or ties every later one.
pub open spec fn is_sorted<T: Ranked>(s: Seq<T>) -> bool {
    forall|i: int, j: int| 0 <= i < j < s.len() ==> #[trigger] s[i].precedes_or_ties(#[trigger] s[j])
}

/// The elements that tie with `e`, in their order in `s`.
pub open spec fn tie_class<T: Ranked>(s: Seq<T>, e: T) -> Seq<T> {
    s.filter(|y: T| ties(y, e))
}

/// `b` holds the same elements as `a`, and elements that tie keep their
/// relative order: the defining property of a stable reordering.
pub open spec fn stable_reordering<T: Ranked>(a: Seq<T>, b: Seq<T>) -> bool {
    &&& a.to_multiset() == b.to_multiset()
    &&& forall|e: T| #[trigger] tie_class(a, e) == tie_class(b, e)
}

proof fn lemma_tie_symmetric_transitive<T: Ranked>(a: T, b: T, c: T)
    requires
        ties(a, b),
        ties(b, c),
    ensures
        ties(a, c),
        ties(c, a),
{
    T::lemma_transitive(a, b, c);
    T::lemma_transitive(c, b, a);
}

/// Inserting `x` after every element that precedes or ties it keeps the
/// sequence sorted and extends exactly the tie class of `x`.
proof fn lemma_insert_after_ties<T: Ranked>(res: Seq<T>, prefix: Seq<T>, x: T, p: int)
    requires
        0 <= p <= res.len(),
        is_sorted(res),
        forall|i: int| 0 <= i < p ==> (#[trigger] res[i]).precedes_or_ties(x),
        p < res.len() ==> !res[p].precedes_or_ties(x),
        forall|e: T| #[trigger] tie_class(prefix, e) == tie_class(res, e),
    ensures
        is_sorted(res.insert(p, x)),
        forall|e: T| #[trigger] tie_class(prefix.push(x), e) == tie_class(res.insert(p, x), e),
{
    let r2 = res.insert(p, x);
    assert forall|i: int| p <= i < res.len() implies x.precedes_or_ties(#[trigger] res[i])
        && !res[i].precedes_or_ties(x) by {
        T::lemma_total(res[p], x);
        if i > p {
            T::lemma_transitive(x, res[p], res[i]);
            if res[i].precedes_or_ties(x) {
                T::lemma_transitive(res[p], res[i], x);
            }
        }
    }
    assert forall|i: int, j: int| 0 <= i < j < r2.len() implies #[trigger] r2[i].precedes_or_ties(
        #[trigger] r2[j],
    ) by {
        if j < p {
        } else if j == p {
        } else if i < p {
            T::lemma_transitive(res[i], x, res[j - 1]);
        } else if i == p {
        } else {
        }
    }
    let left = res.subrange(0, p);
    let right = res.subrange(p, res.len() as int);
    assert(res =~= left + right);
    assert(r2 =~= left + seq![x] + right);
    assert forall|e: T| #[trigger] tie_class(prefix.push(x), e) == tie_class(r2, e) by {
        let f = |y: T| ties(y, e);
        Seq::filter_distributes_over_add(left, right, f);
        Seq::filter_distributes_over_add(left + seq![x], right, f);
        Seq::filter_distributes_over_add(left, seq![x], f);
        prefix.lemma_filter_push(x, f);
        reveal_with_fuel(Seq::filter, 2);
        if ties(x, e) {
            assert(right.filter(f) =~= Seq::<T>::empty()) by {
                assert forall|k: int| 0 <= k < right.len() implies !f(right[k]) by {
                    assert(right[k] == res[p + k]);
                    if ties(right[k], e) {
                        lemma_tie_symmetric_transitive(right[k], e, x);
                    }
                }
                right.lemma_all_neg_filter_empty(f);
            }
        } else {
            assert(seq![x].filter(f) =~= Seq::<T>::empty());
        }
        assert(tie_class(res, e) == res.filter(f));
        assert(tie_class(r2, e) == r2.filter(f));
        assert(tie_class(prefix, e) == prefix.filter(f));
        assert(tie_class(prefix.push(x), e) == prefix.push(x).filter(f));
    }
}

/// Sorts `v` stably: the result is sorted and a stable reordering of `v`.
pub fn sort_stable<T: Ranked>(v: Vec<T>) -> (r: Vec<T>)
    ensures
        is_sorted(r@),
        stable_reordering(v@, r@),
{
    let mut res: Vec<T> = Vec::new();
    let mut rest = v;
    let ghost input = rest@;
    let n = rest.len();
    let mut k: usize = 0;
    while k < n
        invariant
            n == input.len(),
            k <= n,
            rest@ == input.skip(k as int),
            is_sorted(res@),
            res@.to_multiset() == input.take(k as int).to_multiset(),
            forall|e: T| #[trigger] tie_class(input.take(k as int), e) == tie_class(res@, e),
        decreases n - k,
    {
        let x = rest.remove(0);
        assert(x == input[k as int]);
        assert(rest@ =~= input.skip(k + 1));
        let mut p: usize = 0;
        while p < res.len() && res[p].ranks_before_or_with(&x)
            invariant
                p <= res.len(),
                forall|i: int| 0 <= i < p ==> (#[trigger] res@[i]).precedes_or_ties(x),
            decreases res.len() - p,
        {
            p = p + 1;
        }
        proof {
            lemma_insert_after_ties(res@, input.take(k as int), x, p as int);
            assert(input.take(k + 1) =~= input.take(k as int).push(x));
        }
        res.insert(p, x);
        k = k + 1;
    }
    assert(input.take(n as int) =~= input);
    res
}

/// Two sequences with the same elements still have the same elements after
/// every element is mapped through `f`.
pub proof fn lemma_multiset_map<A, B>(a: Seq<A>, b: Seq<A>, f: spec_fn(A) -> B)
    requires
        a.to_multiset() == b.to_multiset(),
    ensures
        a.map_values(f).to_multiset() == b.map_values(f).to_multiset(),
    decreases a.len(),
{
    if a.len() == 0 {
        assert(b.len() == 0) by {
            vstd::seq_lib::to_multiset_len(a);
            vstd::seq_lib::to_multiset_len(b);
        }
        assert(a.map_values(f) =~= b.map_values(f));
    } else {
        let x = a.last();
        assert(a.contains(x)) by {
            assert(a[a.len() - 1] == x);
        }
        vstd::seq_lib::to_multiset_contains(a, x);
        vstd::seq_lib::to_multiset_contains(b, x);
        let j = choose|j: int| 0 <= j < b.len() && b[j] == x;
        let a2 = a.drop_last();
        let b2 = b.remove(j);
        assert(a =~= a2.push(x));
        vstd::seq_lib::to_multiset_build(a2, x);
        vstd::seq_lib::to_multiset_remove(b, j);
        assert(a2.to_multiset() =~= a.to_multiset().remove(x)) by {
            broadcast use vstd::multiset::group_multiset_axioms;
        }
        lemma_multiset_map(a2, b2, f);
        assert(a.map_values(f) =~= a2.map_values(f).push(f(x)));
        assert(b =~= b2.insert(j, x));
        assert(b.map_values(f) =~= b2.map_values(f).insert(j, f(x)));
        vstd::seq_lib::to_multiset_build(a2.map_values(f), f(x));
        vstd::seq_lib::to_multiset_insert(b2.map_values(f), j, f(x));
    }
}

/// Every element of a reordering comes from the sequence it reorders.
pub proof fn lemma_reordering_contains<A>(a: Seq<A>, b: Seq<A>, x: A)
    requires
        a.to_multiset() == b.to_multiset(),
        b.contains(x),
    ensures
        a.contains(x),
{
    vstd::seq_lib::to_multiset_contains(a, x);
    vstd::seq_lib::to_multiset_contains(b, x);
}

impl Ranked for u32 {
    open spec fn precedes_or_ties(self, other: Self) -> bool {
        self <= other
    }

    proof fn lemma_total(a: Self, b: Self) {
    }

    proof fn lemma_transitive(a: Self, b: Self, c: Self) {
    }

    fn ranks_before_or_with(&self, other: &Self) -> (r: bool) {
        *self <= *other
    }
}

} // verus!
