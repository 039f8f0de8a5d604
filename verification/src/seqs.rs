//! Small facts about sequences used across the engine: first occurrence and id lookups.

use vstd::prelude::*;

verus! {

/// Index of the first occurrence of `x` in `s`, or -1 when `x` does not occur.
pub open spec fn first_index<A>(s: Seq<A>, x: A) -> int
    decreases s.len(),
{
    if s.len() == 0 {
        -1
    } else if s[0] == x {
        0
    } else {
        let r = first_index(s.drop_first(), x);
        if r < 0 { -1 } else { r + 1 }
    }
}

/// `first_index` is `i` exactly when `s[i] == x` and no earlier element is `x`.
pub proof fn lemma_first_index_is<A>(s: Seq<A>, x: A, i: int)
    requires
        0 <= i < s.len(),
        s[i] == x,
        forall|k: int| 0 <= k < i ==> s[k] != x,
    ensures
        first_index(s, x) == i,
    decreases s.len(),
{
    if i > 0 {
        assert(s[0] != x);
        lemma_first_index_is(s.drop_first(), x, i - 1);
    }
}

/// `first_index` is -1 exactly when `x` does not occur.
pub proof fn lemma_first_index_absent<A>(s: Seq<A>, x: A)
    requires
        forall|k: int| 0 <= k < s.len() ==> s[k] != x,
    ensures
        first_index(s, x) == -1,
    decreases s.len(),
{
    if s.len() > 0 {
        assert(s[0] != x);
        lemma_first_index_absent(s.drop_first(), x);
    }
}

/// What `first_index` returns.
pub proof fn lemma_first_index_props<A>(s: Seq<A>, x: A)
    ensures
        -1 <= first_index(s, x) < s.len(),
        first_index(s, x) >= 0 ==> s[first_index(s, x)] == x,
        first_index(s, x) >= 0 ==> forall|k: int| 0 <= k < first_index(s, x) ==> s[k] != x,
        first_index(s, x) == -1 ==> forall|k: int| 0 <= k < s.len() ==> s[k] != x,
    decreases s.len(),
{
    if s.len() > 0 && s[0] != x {
        lemma_first_index_props(s.drop_first(), x);
        assert forall|k: int| 0 <= k < first_index(s, x) implies s[k] != x by {
            if k > 0 {
                assert(s[k] == s.drop_first()[k - 1]);
            }
        }
        assert forall|k: int| first_index(s, x) == -1 && 0 <= k < s.len() implies s[k] != x by {
            if k > 0 {
                assert(s[k] == s.drop_first()[k - 1]);
            }
        }
    }
}

/// The views of a sequence of strings.
pub open spec fn str_views(s: Seq<String>) -> Seq<Seq<char>> {
    s.map_values(|x: String| x@)
}

/// Whether `id` occurs in `ids`, compared by view.
pub fn contains_id(ids: &Vec<String>, id: &String) -> (b: bool)
    ensures
        b == str_views(ids@).contains(id@),
{
    let mut i: usize = 0;
    while i < ids.len()
        invariant
            0 <= i <= ids@.len(),
            forall|k: int| 0 <= k < i ==> ids@[k]@ != id@,
        decreases ids@.len() - i,
    {
        if ids[i] == *id {
            assert(str_views(ids@)[i as int] == id@);
            return true;
        }
        i = i + 1;
    }
    assert forall|k: int| 0 <= k < str_views(ids@).len() implies str_views(ids@)[k] != id@ by {}
    false
}


/// Index of the first element satisfying `p`, or -1 when none does.
pub open spec fn first_where<A>(s: Seq<A>, p: spec_fn(A) -> bool) -> int
    decreases s.len(),
{
    if s.len() == 0 {
        -1
    } else if p(s[0]) {
        0
    } else {
        let r = first_where(s.drop_first(), p);
        if r < 0 { -1 } else { r + 1 }
    }
}

pub proof fn lemma_first_where_is<A>(s: Seq<A>, p: spec_fn(A) -> bool, i: int)
    requires
        0 <= i < s.len(),
        p(s[i]),
        forall|k: int| 0 <= k < i ==> !p(#[trigger] s[k]),
    ensures
        first_where(s, p) == i,
    decreases s.len(),
{
    if i > 0 {
        assert(!p(s[0]));
        assert forall|k: int| 0 <= k < i - 1 implies !p(#[trigger] s.drop_first()[k]) by {
            assert(s.drop_first()[k] == s[k + 1]);
        }
        lemma_first_where_is(s.drop_first(), p, i - 1);
    }
}

pub proof fn lemma_first_where_absent<A>(s: Seq<A>, p: spec_fn(A) -> bool)
    requires
        forall|k: int| 0 <= k < s.len() ==> !p(#[trigger] s[k]),
    ensures
        first_where(s, p) == -1,
    decreases s.len(),
{
    if s.len() > 0 {
        assert(!p(s[0]));
        assert forall|k: int| 0 <= k < s.len() - 1 implies !p(#[trigger] s.drop_first()[k]) by {
            assert(s.drop_first()[k] == s[k + 1]);
        }
        lemma_first_where_absent(s.drop_first(), p);
    }
}

pub proof fn lemma_first_where_props<A>(s: Seq<A>, p: spec_fn(A) -> bool)
    ensures
        -1 <= first_where(s, p) < s.len(),
        first_where(s, p) >= 0 ==> p(s[first_where(s, p)]),
        first_where(s, p) >= 0 ==> forall|k: int| 0 <= k < first_where(s, p) ==> !p(#[trigger] s[k]),
        first_where(s, p) == -1 ==> forall|k: int| 0 <= k < s.len() ==> !p(#[trigger] s[k]),
    decreases s.len(),
{
    if s.len() > 0 && !p(s[0]) {
        lemma_first_where_props(s.drop_first(), p);
        assert forall|k: int| 0 <= k < first_where(s, p) implies !p(#[trigger] s[k]) by {
            if k > 0 {
                assert(s[k] == s.drop_first()[k - 1]);
            }
        }
        assert forall|k: int| first_where(s, p) == -1 && 0 <= k < s.len() implies !p(#[trigger] s[k]) by {
            if k > 0 {
                assert(s[k] == s.drop_first()[k - 1]);
            }
        }
    }
}

/// Sum of a sequence of integers.
pub open spec fn sum(s: Seq<int>) -> int
    decreases s.len(),
{
    if s.len() == 0 { 0 } else { sum(s.drop_last()) + s.last() }
}

pub proof fn lemma_sum_update(s: Seq<int>, i: int, v: int)
    requires
        0 <= i < s.len(),
    ensures
        sum(s.update(i, v)) == sum(s) - s[i] + v,
    decreases s.len(),
{
    if i < s.len() - 1 {
        assert(s.update(i, v).drop_last() =~= s.drop_last().update(i, v));
        lemma_sum_update(s.drop_last(), i, v);
    } else {
        assert(s.update(i, v).drop_last() =~= s.drop_last());
    }
}

pub proof fn lemma_sum_nonneg(s: Seq<int>)
    requires
        forall|i: int| 0 <= i < s.len() ==> 0 <= #[trigger] s[i],
    ensures
        0 <= sum(s),
    decreases s.len(),
{
    if s.len() > 0 {
        lemma_sum_nonneg(s.drop_last());
    }
}

pub proof fn lemma_sum_push(s: Seq<int>, v: int)
    ensures
        sum(s.push(v)) == sum(s) + v,
{
    assert(s.push(v).drop_last() =~= s);
}

pub proof fn lemma_sum_element_le(s: Seq<int>, i: int)
    requires
        0 <= i < s.len(),
        forall|k: int| 0 <= k < s.len() ==> 0 <= #[trigger] s[k],
    ensures
        s[i] <= sum(s),
    decreases s.len(),
{
    lemma_sum_nonneg(s.drop_last());
    if i < s.len() - 1 {
        lemma_sum_element_le(s.drop_last(), i);
    }
}

/// Number of `false` entries.
pub open spec fn count_false(s: Seq<bool>) -> nat
    decreases s.len(),
{
    if s.len() == 0 { 0 } else { count_false(s.drop_last()) + if s.last() { 0nat } else { 1nat } }
}

pub proof fn lemma_count_false_set(s: Seq<bool>, i: int)
    requires
        0 <= i < s.len(),
        !s[i],
    ensures
        count_false(s.update(i, true)) + 1 == count_false(s),
    decreases s.len(),
{
    if i < s.len() - 1 {
        assert(s.update(i, true).drop_last() =~= s.drop_last().update(i, true));
        lemma_count_false_set(s.drop_last(), i);
    } else {
        assert(s.update(i, true).drop_last() =~= s.drop_last());
    }
}

pub proof fn lemma_count_false_le(s: Seq<bool>)
    ensures
        count_false(s) <= s.len(),
    decreases s.len(),
{
    if s.len() > 0 {
        lemma_count_false_le(s.drop_last());
    }
}


pub proof fn lemma_first_index_le<A>(s: Seq<A>, x: A, i: int)
    requires
        0 <= i < s.len(),
        s[i] == x,
    ensures
        0 <= first_index(s, x) <= i,
{
    lemma_first_index_props(s, x);
    if first_index(s, x) == -1 {
        assert(s[i] != x);
    }
    if first_index(s, x) > i {
        assert(s[i] != x);
    }
}

/// Filtering keeps no more than there was.
pub proof fn lemma_filter_len_le<A>(s: Seq<A>, p: spec_fn(A) -> bool)
    ensures
        s.filter(p).len() <= s.len(),
    decreases s.len(),
{
    reveal(Seq::filter);
    if s.len() > 0 {
        lemma_filter_len_le(s.drop_last(), p);
    }
}

/// Summing a nonnegative measure over a filtered sequence gives no more than over the whole.
pub proof fn lemma_filter_sum_le<A>(s: Seq<A>, p: spec_fn(A) -> bool, f: spec_fn(A) -> int)
    requires
        forall|i: int| 0 <= i < s.len() ==> 0 <= f(#[trigger] s[i]),
    ensures
        sum(s.filter(p).map_values(f)) <= sum(s.map_values(f)),
    decreases s.len(),
{
    reveal(Seq::filter);
    if s.len() > 0 {
        let t = s.drop_last();
        lemma_filter_sum_le(t, p, f);
        assert(s.map_values(f).drop_last() =~= t.map_values(f));
        if p(s.last()) {
            assert(s.filter(p) == t.filter(p).push(s.last()));
            assert(s.filter(p).map_values(f) =~= t.filter(p).map_values(f).push(f(s.last())));
            lemma_sum_push(t.filter(p).map_values(f), f(s.last()));
        } else {
            assert(s.filter(p) == t.filter(p));
            assert(0 <= f(s.last()));
        }
    }
}

/// What holds of every element still holds of every element a filter keeps,
/// and every kept element satisfies the filter.
pub proof fn lemma_filter_all<A>(s: Seq<A>, p: spec_fn(A) -> bool, q: spec_fn(A) -> bool)
    requires
        forall|i: int| 0 <= i < s.len() ==> q(#[trigger] s[i]),
    ensures
        forall|i: int| 0 <= i < s.filter(p).len() ==> q(#[trigger] s.filter(p)[i]) && p(s.filter(p)[i]),
    decreases s.len(),
{
    reveal(Seq::filter);
    if s.len() > 0 {
        let t = s.drop_last();
        assert forall|i: int| 0 <= i < t.len() implies q(#[trigger] t[i]) by {
            assert(t[i] == s[i]);
        }
        lemma_filter_all(t, p, q);
        assert forall|i: int| 0 <= i < s.filter(p).len() implies q(#[trigger] s.filter(p)[i]) && p(s.filter(p)[i]) by {
            if p(s.last()) {
                assert(s.filter(p) == t.filter(p).push(s.last()));
                if i < t.filter(p).len() {
                    assert(s.filter(p)[i] == t.filter(p)[i]);
                }
            } else {
                assert(s.filter(p) == t.filter(p));
            }
        }
    }
}

/// Index of the first element that satisfies `p` with the least key among those
/// that do; -1 when none does.
pub open spec fn nearest_where<A>(s: Seq<A>, p: spec_fn(A) -> bool, key: spec_fn(A) -> int) -> int
    decreases s.len(),
{
    if s.len() == 0 {
        -1
    } else {
        let m = nearest_where(s.drop_last(), p, key);
        let i = s.len() - 1;
        if !p(s[i]) {
            m
        } else if m < 0 || key(s[i]) < key(s[m]) {
            i
        } else {
            m
        }
    }
}

/// The nearest element is a least one, and the first of the least ones.
pub proof fn lemma_nearest_where_props<A>(s: Seq<A>, p: spec_fn(A) -> bool, key: spec_fn(A) -> int)
    ensures
        -1 <= nearest_where(s, p, key) < s.len(),
        nearest_where(s, p, key) >= 0 ==> p(s[nearest_where(s, p, key)]),
        nearest_where(s, p, key) >= 0 ==> forall|j: int| 0 <= j < s.len() && p(#[trigger] s[j])
            ==> key(s[nearest_where(s, p, key)]) <= key(s[j]),
        nearest_where(s, p, key) >= 0 ==> forall|j: int| 0 <= j < nearest_where(s, p, key) && p(#[trigger] s[j])
            ==> key(s[nearest_where(s, p, key)]) < key(s[j]),
        nearest_where(s, p, key) == -1 ==> forall|j: int| 0 <= j < s.len() ==> !p(#[trigger] s[j]),
    decreases s.len(),
{
    if s.len() > 0 {
        let t = s.drop_last();
        let m = nearest_where(t, p, key);
        let r = nearest_where(s, p, key);
        let i = s.len() - 1;
        lemma_nearest_where_props(t, p, key);
        if r >= 0 {
            assert forall|j: int| 0 <= j < s.len() && p(#[trigger] s[j]) implies key(s[r]) <= key(s[j]) by {
                if j < i {
                    assert(t[j] == s[j]);
                    assert(p(t[j]));
                }
            }
            assert forall|j: int| 0 <= j < r && p(#[trigger] s[j]) implies key(s[r]) < key(s[j]) by {
                assert(j < i);
                assert(t[j] == s[j]);
                assert(p(t[j]));
                if r == i && m >= 0 {
                    assert(t[m] == s[m]);
                }
            }
        } else {
            assert forall|j: int| 0 <= j < s.len() implies !p(#[trigger] s[j]) by {
                if j < i {
                    assert(t[j] == s[j]);
                }
            }
        }
    }
}

/// Filtering then mapping a prefix one element longer.
pub proof fn lemma_filter_map_step<A, B>(s: Seq<A>, i: int, p: spec_fn(A) -> bool, f: spec_fn(A) -> B)
    requires
        0 <= i < s.len(),
    ensures
        s.take(i + 1).filter(p).map_values(f) == if p(s[i]) {
            s.take(i).filter(p).map_values(f).push(f(s[i]))
        } else {
            s.take(i).filter(p).map_values(f)
        },
{
    assert(s.take(i + 1) =~= s.take(i).push(s[i]));
    s.take(i).lemma_filter_push(s[i], p);
    if p(s[i]) {
        assert(s.take(i).filter(p).push(s[i]).map_values(f) =~= s.take(i).filter(p).map_values(f).push(f(s[i])));
    }
}

/// A sum of values none above `c` is at most `c` per value.
pub proof fn lemma_sum_le_bound(s: Seq<int>, c: int)
    requires
        forall|i: int| 0 <= i < s.len() ==> #[trigger] s[i] <= c,
    ensures
        sum(s) <= s.len() * c,
    decreases s.len(),
{
    if s.len() > 0 {
        lemma_sum_le_bound(s.drop_last(), c);
        assert(s.drop_last().len() * c + c == s.len() * c) by (nonlinear_arith)
            requires s.drop_last().len() + 1 == s.len();
    }
}

/// Where a value first occurs in a sequence with one more element.
pub proof fn lemma_first_index_push<A>(s: Seq<A>, x: A, y: A)
    ensures
        first_index(s.push(x), y) == if first_index(s, y) >= 0 {
            first_index(s, y)
        } else if x == y {
            s.len() as int
        } else {
            -1
        },
{
    let t = s.push(x);
    lemma_first_index_props(s, y);
    lemma_first_index_props(t, y);
    assert forall|k: int| 0 <= k < s.len() implies #[trigger] t[k] == s[k] by {}
    if first_index(s, y) >= 0 {
        lemma_first_index_is(t, y, first_index(s, y));
    } else if x == y {
        lemma_first_index_is(t, y, s.len() as int);
    } else {
        lemma_first_index_absent(t, y);
    }
}

/// Filtering keeps a sequence whole when every element passes.
pub proof fn lemma_filter_keep_all<A>(s: Seq<A>, p: spec_fn(A) -> bool)
    requires
        forall|i: int| 0 <= i < s.len() ==> p(#[trigger] s[i]),
    ensures
        s.filter(p) == s,
    decreases s.len(),
{
    if s.len() > 0 {
        let t = s.drop_last();
        assert forall|i: int| 0 <= i < t.len() implies p(#[trigger] t[i]) by {
            assert(t[i] == s[i]);
        }
        lemma_filter_keep_all(t, p);
        t.lemma_filter_push(s.last(), p);
        assert(t.push(s.last()) =~= s);
    }
}

/// Filtering after mapping is mapping after filtering by the composed test.
pub proof fn lemma_map_filter_commute<A, B>(s: Seq<A>, f: spec_fn(A) -> B, p: spec_fn(B) -> bool, q: spec_fn(A) -> bool)
    requires
        forall|i: int| 0 <= i < s.len() ==> p(f(#[trigger] s[i])) == q(s[i]),
    ensures
        s.map_values(f).filter(p) == s.filter(q).map_values(f),
    decreases s.len(),
{
    if s.len() > 0 {
        let t = s.drop_last();
        assert forall|i: int| 0 <= i < t.len() implies p(f(#[trigger] t[i])) == q(t[i]) by {
            assert(t[i] == s[i]);
        }
        lemma_map_filter_commute(t, f, p, q);
        assert(s.map_values(f) =~= t.map_values(f).push(f(s.last())));
        t.map_values(f).lemma_filter_push(f(s.last()), p);
        t.lemma_filter_push(s.last(), q);
        assert(t.push(s.last()) =~= s);
        if q(s.last()) {
            assert(t.filter(q).push(s.last()).map_values(f) =~= t.filter(q).map_values(f).push(f(s.last())));
        }
    }
}

/// Filtering empties a sequence no element of which passes.
pub proof fn lemma_filter_none<A>(s: Seq<A>, p: spec_fn(A) -> bool)
    requires
        forall|i: int| 0 <= i < s.len() ==> !p(#[trigger] s[i]),
    ensures
        s.filter(p) == Seq::<A>::empty(),
    decreases s.len(),
{
    if s.len() > 0 {
        let t = s.drop_last();
        assert forall|i: int| 0 <= i < t.len() implies !p(#[trigger] t[i]) by {
            assert(t[i] == s[i]);
        }
        lemma_filter_none(t, p);
        t.lemma_filter_push(s.last(), p);
        assert(t.push(s.last()) =~= s);
    }
}

/// Mapping a concatenation maps each part.
pub proof fn lemma_map_add<A, B>(a: Seq<A>, b: Seq<A>, f: spec_fn(A) -> B)
    ensures
        (a + b).map_values(f) == a.map_values(f) + b.map_values(f),
{
    assert((a + b).map_values(f) =~= a.map_values(f) + b.map_values(f));
}

/// The sum of a concatenation is the sum of the parts.
pub proof fn lemma_sum_add(a: Seq<int>, b: Seq<int>)
    ensures
        sum(a + b) == sum(a) + sum(b),
    decreases b.len(),
{
    if b.len() > 0 {
        lemma_sum_add(a, b.drop_last());
        assert((a + b).drop_last() =~= a + b.drop_last());
    } else {
        assert(a + b =~= a);
    }
}

} // verus!
