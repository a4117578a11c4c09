//! General lemmas about sequences, shared by the graph store and the
//! schedule compiler. They mostly concern `Seq::filter`, which models the
//! edge removals of the store and the edge counting of the topological walk.

use vstd::prelude::*;

verus! {

/// All elements of `s` pairwise differ under the projection `key`.
pub open spec fn distinct_by<A, K>(s: Seq<A>, key: spec_fn(A) -> K) -> bool {
    forall|i: int, j: int|
        #![trigger s[i], s[j]]
        0 <= i < j < s.len() ==> key(s[i]) != key(s[j])
}

/// Filtering a sequence whose elements all satisfy `pred` keeps it unchanged.
pub proof fn lemma_filter_all<A>(s: Seq<A>, pred: spec_fn(A) -> bool)
    requires
        forall|i: int| 0 <= i < s.len() ==> pred(#[trigger] s[i]),
    ensures
        s.filter(pred) == s,
    decreases s.len(),
{
    reveal(Seq::filter);
    if s.len() > 0 {
        lemma_filter_all(s.drop_last(), pred);
        assert(s.filter(pred) =~= s);
    } else {
        assert(s.filter(pred) =~= s);
    }
}

/// Filtering a sequence whose elements all fail `pred` keeps nothing.
pub proof fn lemma_filter_none<A>(s: Seq<A>, pred: spec_fn(A) -> bool)
    requires
        forall|i: int| 0 <= i < s.len() ==> !pred(#[trigger] s[i]),
    ensures
        s.filter(pred) == Seq::<A>::empty(),
    decreases s.len(),
{
    reveal(Seq::filter);
    if s.len() > 0 {
        lemma_filter_none(s.drop_last(), pred);
    } else {
        assert(s.filter(pred) =~= Seq::<A>::empty());
    }
}

/// Two duplicate-free sequences over the same set of elements have equal length.
pub proof fn lemma_same_set_same_len<A>(a: Seq<A>, b: Seq<A>)
    requires
        a.no_duplicates(),
        b.no_duplicates(),
        a.to_set() == b.to_set(),
    ensures
        a.len() == b.len(),
{
    a.unique_seq_to_set();
    b.unique_seq_to_set();
}

/// Splitting a sequence at a valid index `i` into prefix, element, suffix.
pub proof fn lemma_split_at<A>(s: Seq<A>, i: int)
    requires
        0 <= i < s.len(),
    ensures
        s =~= s.subrange(0, i) + seq![s[i]] + s.subrange(i + 1, s.len() as int),
{
}

/// How one update changes the number of elements a filter keeps.
pub proof fn lemma_filter_update_len<A>(s: Seq<A>, i: int, v: A, pred: spec_fn(A) -> bool)
    requires
        0 <= i < s.len(),
    ensures
        s.update(i, v).filter(pred).len() == s.filter(pred).len() - (if pred(s[i]) {
            1int
        } else {
            0int
        }) + (if pred(v) {
            1int
        } else {
            0int
        }),
{
    let pre = s.subrange(0, i);
    let suf = s.subrange(i + 1, s.len() as int);
    lemma_split_at(s, i);
    assert(s.update(i, v) =~= pre + seq![v] + suf);
    Seq::filter_distributes_over_add(pre + seq![s[i]], suf, pred);
    Seq::filter_distributes_over_add(pre, seq![s[i]], pred);
    Seq::filter_distributes_over_add(pre + seq![v], suf, pred);
    Seq::filter_distributes_over_add(pre, seq![v], pred);
    lemma_filter_singleton(s[i], pred);
    lemma_filter_singleton(v, pred);
    assert(s.filter(pred) == (pre + seq![s[i]] + suf).filter(pred));
}

/// What a filter keeps of a one-element sequence.
pub proof fn lemma_filter_singleton<A>(x: A, pred: spec_fn(A) -> bool)
    ensures
        pred(x) ==> seq![x].filter(pred) =~= seq![x],
        !pred(x) ==> seq![x].filter(pred) =~= Seq::<A>::empty(),
{
    reveal(Seq::filter);
    assert(seq![x].drop_last() =~= Seq::<A>::empty());
    assert(Seq::<A>::empty().filter(pred) =~= Seq::<A>::empty());
}

/// Extending the filtered prefix of a sequence by one element.
pub proof fn lemma_filter_take_step<A>(s: Seq<A>, i: int, pred: spec_fn(A) -> bool)
    requires
        0 <= i < s.len(),
    ensures
        pred(s[i]) ==> s.subrange(0, i + 1).filter(pred) == s.subrange(0, i).filter(pred).push(
            s[i],
        ),
        !pred(s[i]) ==> s.subrange(0, i + 1).filter(pred) == s.subrange(0, i).filter(pred),
    decreases s.len(),
{
    reveal(Seq::filter);
    assert(s.subrange(0, i + 1) =~= s.subrange(0, i).push(s[i]));
    assert(s.subrange(0, i + 1).drop_last() =~= s.subrange(0, i));
}

/// Filtering preserves pairwise distinctness under any projection.
pub proof fn lemma_filter_distinct_by<A, K>(s: Seq<A>, pred: spec_fn(A) -> bool, key: spec_fn(A) -> K)
    requires
        distinct_by(s, key),
    ensures
        distinct_by(s.filter(pred), key),
    decreases s.len(),
{
    reveal(Seq::filter);
    if s.len() > 0 {
        let rest = s.drop_last();
        assert(distinct_by(rest, key));
        lemma_filter_distinct_by(rest, pred, key);
        let f = s.filter(pred);
        let fr = rest.filter(pred);
        if pred(s.last()) {
            assert(f == fr.push(s.last()));
            assert forall|i: int, j: int|
                #![trigger f[i], f[j]]
                0 <= i < j < f.len() implies key(f[i]) != key(f[j]) by {
                if j < f.len() - 1 {
                    assert(f[i] == fr[i] && f[j] == fr[j]);
                } else {
                    assert(f[j] == s.last());
                    assert(fr.contains(f[i])) by {
                        assert(fr[i] == f[i]);
                    }
                    rest.lemma_filter_contains_rev(pred, f[i]);
                    let k = choose|k: int| 0 <= k < rest.len() && rest[k] == f[i];
                    assert(s[k] == f[i] && s[s.len() - 1] == s.last());
                }
            }
        }
    }
}

/// Filtering preserves freedom from duplicates.
pub proof fn lemma_filter_no_duplicates<A>(s: Seq<A>, pred: spec_fn(A) -> bool)
    requires
        s.no_duplicates(),
    ensures
        s.filter(pred).no_duplicates(),
{
    let key = |x: A| x;
    assert(distinct_by(s, key));
    lemma_filter_distinct_by(s, pred, key);
    assert forall|i: int, j: int|
        0 <= i < j < s.filter(pred).len() implies s.filter(pred)[i] != s.filter(pred)[j] by {
        assert(key(s.filter(pred)[i]) != key(s.filter(pred)[j]));
    }
}

/// Membership in a sequence extended by one element.
pub proof fn lemma_push_contains<A>(s: Seq<A>, x: A, y: A)
    ensures
        s.push(x).contains(y) <==> (s.contains(y) || y == x),
{
    if s.contains(y) {
        let k = choose|k: int| 0 <= k < s.len() && s[k] == y;
        assert(s.push(x)[k] == y);
    }
    assert(s.push(x)[s.len() as int] == x);
    if s.push(x).contains(y) && y != x {
        let k = choose|k: int| 0 <= k < s.push(x).len() && s.push(x)[k] == y;
        assert(k < s.len());
        assert(s[k] == y);
    }
}

/// Membership in a concatenation.
pub proof fn lemma_add_contains<A>(a: Seq<A>, b: Seq<A>, y: A)
    ensures
        (a + b).contains(y) <==> (a.contains(y) || b.contains(y)),
{
    if a.contains(y) {
        let k = choose|k: int| 0 <= k < a.len() && a[k] == y;
        assert((a + b)[k] == y);
    }
    if b.contains(y) {
        let k = choose|k: int| 0 <= k < b.len() && b[k] == y;
        assert((a + b)[k + a.len()] == y);
    }
    if (a + b).contains(y) {
        let k = choose|k: int| 0 <= k < (a + b).len() && (a + b)[k] == y;
        if k < a.len() {
            assert(a[k] == y);
        } else {
            assert(b[k - a.len()] == y);
        }
    }
}

/// Concatenating duplicate-free sequences with disjoint elements yields a
/// duplicate-free sequence.
pub proof fn lemma_no_dup_concat<A>(a: Seq<A>, b: Seq<A>)
    requires
        a.no_duplicates(),
        b.no_duplicates(),
        forall|x: A| #[trigger] b.contains(x) ==> !a.contains(x),
    ensures
        (a + b).no_duplicates(),
{
    assert forall|i: int, j: int| 0 <= i < j < (a + b).len() implies (a + b)[i] != (a + b)[j] by {
        if i < a.len() && j >= a.len() {
            if (a + b)[i] == (a + b)[j] {
                assert(a[i] == (a + b)[i]);
                assert(b[j - a.len()] == (a + b)[j]);
                assert(a.contains((a + b)[i]));
                assert(b.contains((a + b)[j]));
            }
        } else if i >= a.len() {
            assert((a + b)[i] == b[i - a.len()] && (a + b)[j] == b[j - a.len()]);
        } else {
            assert((a + b)[i] == a[i] && (a + b)[j] == a[j]);
        }
    }
}

/// The whole sequence is the filtered prefix taken to its full length.
pub proof fn lemma_filter_take_all<A>(s: Seq<A>, pred: spec_fn(A) -> bool)
    ensures
        s.subrange(0, s.len() as int).filter(pred) == s.filter(pred),
{
    assert(s.subrange(0, s.len() as int) =~= s);
}

/// Shortening the filtered suffix of a sequence by one element.
pub proof fn lemma_filter_suffix_step<A>(s: Seq<A>, j: int, pred: spec_fn(A) -> bool)
    requires
        0 <= j < s.len(),
    ensures
        s.subrange(j, s.len() as int).filter(pred).len() == (if pred(s[j]) {
            1int
        } else {
            0int
        }) + s.subrange(j + 1, s.len() as int).filter(pred).len(),
{
    assert(s.subrange(j, s.len() as int) =~= seq![s[j]] + s.subrange(j + 1, s.len() as int));
    Seq::filter_distributes_over_add(seq![s[j]], s.subrange(j + 1, s.len() as int), pred);
    lemma_filter_singleton(s[j], pred);
}

/// A filter that keeps nothing had nothing to keep.
pub proof fn lemma_filter_empty_no_match<A>(s: Seq<A>, pred: spec_fn(A) -> bool)
    requires
        s.filter(pred).len() == 0,
    ensures
        forall|i: int| 0 <= i < s.len() ==> !pred(#[trigger] s[i]),
{
    assert forall|i: int| 0 <= i < s.len() implies !pred(#[trigger] s[i]) by {
        if pred(s[i]) {
            s.lemma_filter_contains(pred, i);
            let k = choose|k: int| 0 <= k < s.filter(pred).len() && s.filter(pred)[k] == s[i];
        }
    }
}

/// A kept element makes the filter nonempty.
pub proof fn lemma_filter_match_nonempty<A>(s: Seq<A>, pred: spec_fn(A) -> bool, i: int)
    requires
        0 <= i < s.len(),
        pred(s[i]),
    ensures
        s.filter(pred).len() > 0,
{
    s.lemma_filter_contains(pred, i);
    let k = choose|k: int| 0 <= k < s.filter(pred).len() && s.filter(pred)[k] == s[i];
}

/// A filter by a disjunction of disjoint predicates keeps as many elements
/// as the two filters together.
pub proof fn lemma_filter_disjoint_split<A>(
    s: Seq<A>,
    p: spec_fn(A) -> bool,
    q: spec_fn(A) -> bool,
    pq: spec_fn(A) -> bool,
)
    requires
        forall|i: int| 0 <= i < s.len() ==> (pq(#[trigger] s[i]) <==> (p(s[i]) || q(s[i]))),
        forall|i: int| 0 <= i < s.len() ==> !(p(#[trigger] s[i]) && q(s[i])),
    ensures
        s.filter(pq).len() == s.filter(p).len() + s.filter(q).len(),
    decreases s.len(),
{
    reveal(Seq::filter);
    if s.len() > 0 {
        lemma_filter_disjoint_split(s.drop_last(), p, q, pq);
    }
}

/// A sequence of more than `n` values drawn from `0..n` repeats one.
pub proof fn lemma_pigeonhole(s: Seq<int>, n: int)
    requires
        n >= 0,
        s.len() > n,
        forall|k: int| 0 <= k < s.len() ==> 0 <= #[trigger] s[k] < n,
    ensures
        exists|i: int, j: int| 0 <= i < j < s.len() && s[i] == s[j],
{
    broadcast use vstd::set::group_set_axioms;

    if forall|i: int, j: int| #![trigger s[i], s[j]] 0 <= i < j < s.len() ==> s[i] != s[j] {
        assert(s.no_duplicates());
        s.unique_seq_to_set();
        let range = vstd::set_lib::set_int_range(0, n);
        assert(s.to_set().subset_of(range)) by {
            assert forall|x: int| s.to_set().contains(x) implies range.contains(x) by {
                let k = choose|k: int| 0 <= k < s.len() && s[k] == x;
            }
        }
        vstd::set_lib::lemma_int_range(0, n);
        vstd::set_lib::lemma_len_subset(s.to_set(), range);
        assert(false);
    }
}

/// The identity predicate on booleans, under one shared name so that every
/// occurrence denotes the same function.
pub open spec fn is_true() -> spec_fn(bool) -> bool {
    |b: bool| b
}

/// How many entries of a boolean sequence are set.
pub open spec fn num_true(s: Seq<bool>) -> int {
    s.filter(is_true()).len() as int
}

/// The count of set entries is bounded by the length.
pub proof fn lemma_num_true_bound(s: Seq<bool>)
    ensures
        0 <= num_true(s) <= s.len(),
{
    s.lemma_filter_len(is_true());
}

/// Setting a clear entry raises the count by one.
pub proof fn lemma_num_true_set(s: Seq<bool>, i: int)
    requires
        0 <= i < s.len(),
        !s[i],
    ensures
        num_true(s.update(i, true)) == num_true(s) + 1,
{
    lemma_filter_update_len(s, i, true, is_true());
}

/// A sequence with no set entry has count zero.
pub proof fn lemma_num_true_all_false(s: Seq<bool>)
    requires
        forall|i: int| 0 <= i < s.len() ==> !(#[trigger] s[i]),
    ensures
        num_true(s) == 0,
    decreases s.len(),
{
    reveal(Seq::filter);
    if s.len() > 0 {
        lemma_num_true_all_false(s.drop_last());
    }
}

} // verus!
