use vstd::prelude::*;

verus! {

/// How many elements of `s` satisfy `p`.
pub open spec fn count_if<T>(s: Seq<T>, p: spec_fn(T) -> bool) -> nat
    decreases s.len(),
{
    if s.len() == 0 {
        0
    } else {
        count_if(s.drop_last(), p) + if p(s.last()) {
            1nat
        } else {
            0nat
        }
    }
}

pub proof fn lemma_count_bounds<T>(s: Seq<T>, p: spec_fn(T) -> bool)
    ensures
        count_if(s, p) <= s.len(),
    decreases s.len(),
{
    if s.len() > 0 {
        lemma_count_bounds(s.drop_last(), p);
    }
}

/// Replacing one element changes the count by what that element contributed.
pub proof fn lemma_count_update<T>(s: Seq<T>, p: spec_fn(T) -> bool, i: int, v: T)
    requires
        0 <= i < s.len(),
    ensures
        count_if(s.update(i, v), p) + (if p(s[i]) { 1nat } else { 0nat })
            == count_if(s, p) + (if p(v) { 1nat } else { 0nat }),
    decreases s.len(),
{
    let t = s.update(i, v);
    if i == s.len() - 1 {
        assert(t.drop_last() =~= s.drop_last());
    } else {
        assert(t.drop_last() =~= s.drop_last().update(i, v));
        lemma_count_update(s.drop_last(), p, i, v);
    }
}

/// The count is zero exactly when no element satisfies `p`.
pub proof fn lemma_count_zero<T>(s: Seq<T>, p: spec_fn(T) -> bool)
    ensures
        count_if(s, p) == 0 <==> (forall|i: int| 0 <= i < s.len() ==> !p(#[trigger] s[i])),
    decreases s.len(),
{
    if s.len() > 0 {
        let t = s.drop_last();
        lemma_count_zero(t, p);
        if count_if(s, p) == 0 {
            assert forall|i: int| 0 <= i < s.len() implies !p(#[trigger] s[i]) by {
                if i < s.len() - 1 {
                    assert(t[i] == s[i]);
                }
            }
        }
        if forall|i: int| 0 <= i < s.len() ==> !p(#[trigger] s[i]) {
            assert forall|i: int| 0 <= i < t.len() implies !p(#[trigger] t[i]) by {
                assert(t[i] == s[i]);
            }
            assert(!p(s[s.len() - 1]));
        }
    }
}

/// The count equals the length exactly when every element satisfies `p`.
pub proof fn lemma_count_full<T>(s: Seq<T>, p: spec_fn(T) -> bool)
    ensures
        count_if(s, p) == s.len() <==> (forall|i: int| 0 <= i < s.len() ==> p(#[trigger] s[i])),
    decreases s.len(),
{
    if s.len() > 0 {
        let t = s.drop_last();
        lemma_count_full(t, p);
        lemma_count_bounds(t, p);
        if count_if(s, p) == s.len() {
            assert forall|i: int| 0 <= i < s.len() implies p(#[trigger] s[i]) by {
                if i < s.len() - 1 {
                    assert(t[i] == s[i]);
                }
            }
        }
        if forall|i: int| 0 <= i < s.len() ==> p(#[trigger] s[i]) {
            assert forall|i: int| 0 <= i < t.len() implies p(#[trigger] t[i]) by {
                assert(t[i] == s[i]);
            }
            assert(p(s[s.len() - 1]));
        }
    }
}

/// The union of the sets that `f` gives for the numbers below `n`.
pub open spec fn union_below<A>(f: spec_fn(int) -> Set<A>, n: nat) -> Set<A>
    decreases n,
{
    if n == 0 {
        Set::empty()
    } else {
        union_below(f, (n - 1) as nat).union(f(n - 1))
    }
}

pub proof fn lemma_union_below<A>(f: spec_fn(int) -> Set<A>, n: nat)
    requires
        forall|i: int| 0 <= i < n ==> (#[trigger] f(i)).finite(),
    ensures
        union_below(f, n).finite(),
        forall|i: int, a: A|
            0 <= i < n && #[trigger] f(i).contains(a) ==> union_below(f, n).contains(a),
    decreases n,
{
    if n > 0 {
        lemma_union_below(f, (n - 1) as nat);
    }
}

/// The sum of the numbers that `g` gives for the numbers below `n`.
pub open spec fn sum_below(g: spec_fn(int) -> nat, n: nat) -> nat
    decreases n,
{
    if n == 0 {
        0
    } else {
        sum_below(g, (n - 1) as nat) + g(n - 1)
    }
}

pub proof fn lemma_sum_below_same(g1: spec_fn(int) -> nat, g2: spec_fn(int) -> nat, n: nat)
    requires
        forall|i: int| 0 <= i < n ==> #[trigger] g1(i) == g2(i),
    ensures
        sum_below(g1, n) == sum_below(g2, n),
    decreases n,
{
    if n > 0 {
        lemma_sum_below_same(g1, g2, (n - 1) as nat);
    }
}

/// The number of elements that satisfy `p` is the sum of one for each of them.
pub proof fn lemma_count_is_sum<T>(s: Seq<T>, p: spec_fn(T) -> bool, g: spec_fn(int) -> nat)
    requires
        forall|i: int| 0 <= i < s.len() ==> #[trigger] g(i) == (if p(s[i]) { 1nat } else { 0nat }),
    ensures
        count_if(s, p) == sum_below(g, s.len()),
    decreases s.len(),
{
    if s.len() > 0 {
        let t = s.drop_last();
        assert forall|i: int| 0 <= i < t.len() implies #[trigger] g(i) == (if p(t[i]) {
            1nat
        } else {
            0nat
        }) by {
            assert(t[i] == s[i]);
        }
        lemma_count_is_sum(t, p, g);
    }
}

pub proof fn lemma_union_below_member<A>(f: spec_fn(int) -> Set<A>, n: nat, a: A)
    requires
        union_below(f, n).contains(a),
    ensures
        exists|i: int| 0 <= i < n && #[trigger] f(i).contains(a),
    decreases n,
{
    if n > 0 {
        if f(n - 1).contains(a) {
        } else {
            lemma_union_below_member(f, (n - 1) as nat, a);
            let i = choose|i: int| 0 <= i < n - 1 && #[trigger] f(i).contains(a);
            assert(f(i).contains(a));
        }
    }
}

/// The union of finite sets that share no element has as many elements as the sets have
/// together.
pub proof fn lemma_union_below_len<A>(f: spec_fn(int) -> Set<A>, g: spec_fn(int) -> nat, n: nat)
    requires
        forall|i: int| 0 <= i < n ==> (#[trigger] f(i)).finite() && g(i) == f(i).len(),
        forall|i: int, j: int, a: A|
            0 <= i < j < n && #[trigger] f(i).contains(a) ==> !(#[trigger] f(j).contains(a)),
    ensures
        union_below(f, n).finite(),
        union_below(f, n).len() == sum_below(g, n),
    decreases n,
{
    lemma_union_below(f, n);
    if n > 0 {
        let rest = union_below(f, (n - 1) as nat);
        lemma_union_below_len(f, g, (n - 1) as nat);
        assert forall|a: A| !(rest.contains(a) && f(n - 1).contains(a)) by {
            if rest.contains(a) && f(n - 1).contains(a) {
                lemma_union_below_member(f, (n - 1) as nat, a);
                let i = choose|i: int| 0 <= i < n - 1 && #[trigger] f(i).contains(a);
                assert(f(i).contains(a));
            }
        }
        assert(rest.disjoint(f(n - 1)));
        vstd::set_lib::lemma_set_disjoint_lens(rest, f(n - 1));
    }
}

} // verus!
