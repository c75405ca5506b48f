//! Rows of a table as sequences, and the operations on them: selecting, removing, rewriting and
//! ordering rows.

use vstd::prelude::*;

verus! {

/// A row that can be copied out of its table.
pub trait Row: View + Sized {
    /// A copy of the row, equal to it in every column.
    fn copy(&self) -> (r: Self)
        ensures
            r@ == self@,
    ;
}

/// The rows of a table.
pub open spec fn rows<T: View>(v: Seq<T>) -> Seq<T::V> {
    Seq::new(v.len(), |i: int| v[i]@)
}

/// The rows that satisfy `q`, in the order of the table.
pub open spec fn rows_where<V>(s: Seq<V>, q: spec_fn(V) -> bool) -> Seq<V>
    decreases s.len(),
{
    if s.len() == 0 {
        Seq::empty()
    } else if q(s.last()) {
        rows_where(s.drop_last(), q).push(s.last())
    } else {
        rows_where(s.drop_last(), q)
    }
}

/// The negation of a condition on rows.
pub open spec fn except<V>(q: spec_fn(V) -> bool) -> spec_fn(V) -> bool {
    |v: V| !q(v)
}

/// Whether some row satisfies `q`.
pub open spec fn any_row<V>(s: Seq<V>, q: spec_fn(V) -> bool) -> bool {
    exists|i: int| 0 <= i < s.len() && q(#[trigger] s[i])
}

/// The first row that satisfies `q`.
pub open spec fn first_row<V>(s: Seq<V>, q: spec_fn(V) -> bool) -> Option<V>
    decreases s.len(),
{
    if s.len() == 0 {
        None
    } else {
        match first_row(s.drop_last(), q) {
            Some(v) => Some(v),
            None => if q(s.last()) {
                Some(s.last())
            } else {
                None
            },
        }
    }
}

/// The rows with those that satisfy `q` rewritten by `f`.
pub open spec fn rewritten<V>(s: Seq<V>, q: spec_fn(V) -> bool, f: spec_fn(V) -> V) -> Seq<V> {
    Seq::new(
        s.len(),
        |i: int|
            if q(s[i]) {
                f(s[i])
            } else {
                s[i]
            },
    )
}

/// Whether no two rows have the same key.
pub open spec fn distinct_by<V, K>(s: Seq<V>, key: spec_fn(V) -> K) -> bool {
    forall|i: int, j: int|
        0 <= i < j < s.len() ==> key(#[trigger] s[i]) != key(#[trigger] s[j])
}

/// `x` put into an ordered sequence: after all rows that it need not come before.
pub open spec fn insert_row<V>(s: Seq<V>, x: V, before: spec_fn(V, V) -> bool) -> Seq<V>
    decreases s.len(),
{
    if s.len() > 0 && before(x, s.last()) {
        insert_row(s.drop_last(), x, before).push(s.last())
    } else {
        s.push(x)
    }
}

/// The rows in the order that `before` gives; rows that it does not tell apart stay in the
/// order of the table.
pub open spec fn sorted_rows<V>(s: Seq<V>, before: spec_fn(V, V) -> bool) -> Seq<V>
    decreases s.len(),
{
    if s.len() == 0 {
        Seq::empty()
    } else {
        insert_row(sorted_rows(s.drop_last(), before), s.last(), before)
    }
}

/// The first `n` rows, or all of them.
pub open spec fn first_rows<V>(s: Seq<V>, n: int) -> Seq<V> {
    if s.len() <= n {
        s
    } else if n <= 0 {
        Seq::empty()
    } else {
        s.take(n)
    }
}

// ---------------------------------------------------------------------------------------------
// Facts.
// ---------------------------------------------------------------------------------------------

pub proof fn lemma_rows_push<T: View>(v: Seq<T>, x: T)
    ensures
        rows(v.push(x)) == rows(v).push(x@),
{
    assert(rows(v.push(x)) =~= rows(v).push(x@));
}

pub proof fn lemma_rows_where_add<V>(a: Seq<V>, b: Seq<V>, q: spec_fn(V) -> bool)
    ensures
        rows_where(a + b, q) == rows_where(a, q) + rows_where(b, q),
    decreases b.len(),
{
    if b.len() == 0 {
        assert(a + b =~= a);
        assert(rows_where(a, q) + rows_where(b, q) =~= rows_where(a, q));
    } else {
        assert((a + b).drop_last() =~= a + b.drop_last());
        lemma_rows_where_add(a, b.drop_last(), q);
        assert(rows_where(a + b, q) =~= rows_where(a, q) + rows_where(b, q));
    }
}

/// What a selection holds: exactly the rows of the table that satisfy the condition.
pub proof fn lemma_rows_where_contains<V>(s: Seq<V>, q: spec_fn(V) -> bool)
    ensures
        forall|x: V| #[trigger] rows_where(s, q).contains(x) <==> s.contains(x) && q(x),
        forall|i: int| 0 <= i < rows_where(s, q).len() ==> q(#[trigger] rows_where(s, q)[i]),
    decreases s.len(),
{
    if s.len() > 0 {
        let t = s.drop_last();
        lemma_rows_where_contains(t, q);
        let sel = rows_where(s, q);
        assert forall|x: V| #[trigger] sel.contains(x) <==> s.contains(x) && q(x) by {
            if sel.contains(x) {
                let k = choose|k: int| 0 <= k < sel.len() && sel[k] == x;
                if k < rows_where(t, q).len() {
                    assert(rows_where(t, q)[k] == x);
                    assert(rows_where(t, q).contains(x));
                    let m = choose|m: int| 0 <= m < t.len() && t[m] == x;
                    assert(s[m] == x);
                } else {
                    assert(s[s.len() - 1] == x);
                }
            }
            if s.contains(x) && q(x) {
                let k = choose|k: int| 0 <= k < s.len() && s[k] == x;
                if k < t.len() {
                    assert(t[k] == x);
                    assert(t.contains(x));
                    assert(rows_where(t, q).contains(x));
                    let m = choose|m: int| 0 <= m < rows_where(t, q).len() && rows_where(t, q)[m]
                        == x;
                    assert(sel[m] == x);
                } else {
                    assert(sel[sel.len() - 1] == x);
                }
            }
        }
        assert forall|i: int| 0 <= i < sel.len() implies q(#[trigger] sel[i]) by {
            if i < rows_where(t, q).len() {
                assert(rows_where(t, q)[i] == sel[i]);
            }
        }
    }
}

/// Rows that are selected twice are the same whichever selection comes first.
pub proof fn lemma_rows_where_swap<V>(s: Seq<V>, p: spec_fn(V) -> bool, q: spec_fn(V) -> bool)
    ensures
        rows_where(rows_where(s, p), q) == rows_where(rows_where(s, q), p),
    decreases s.len(),
{
    if s.len() > 0 {
        let t = s.drop_last();
        let x = s.last();
        lemma_rows_where_swap(t, p, q);
        assert(rows_where(t, p).push(x).drop_last() =~= rows_where(t, p));
        assert(rows_where(t, q).push(x).drop_last() =~= rows_where(t, q));
    }
}

pub proof fn lemma_rows_where_len<V>(s: Seq<V>, q: spec_fn(V) -> bool)
    ensures
        rows_where(s, q).len() <= s.len(),
    decreases s.len(),
{
    if s.len() > 0 {
        lemma_rows_where_len(s.drop_last(), q);
    }
}

pub proof fn lemma_rows_where_none<V>(s: Seq<V>, q: spec_fn(V) -> bool)
    requires
        !any_row(s, q),
    ensures
        rows_where(s, q) == Seq::<V>::empty(),
    decreases s.len(),
{
    if s.len() > 0 {
        assert(!q(s[s.len() - 1]));
        let t = s.drop_last();
        assert forall|i: int| 0 <= i < t.len() implies !q(#[trigger] t[i]) by {
            assert(s[i] == t[i]);
        }
        lemma_rows_where_none(t, q);
    }
}

pub proof fn lemma_rows_where_all<V>(s: Seq<V>, q: spec_fn(V) -> bool)
    requires
        forall|i: int| 0 <= i < s.len() ==> q(#[trigger] s[i]),
    ensures
        rows_where(s, q) == s,
    decreases s.len(),
{
    if s.len() > 0 {
        assert(q(s[s.len() - 1]));
        let t = s.drop_last();
        assert forall|i: int| 0 <= i < t.len() implies q(#[trigger] t[i]) by {
            assert(s[i] == t[i]);
        }
        lemma_rows_where_all(t, q);
        assert(rows_where(s, q) =~= s);
    } else {
        assert(s =~= Seq::empty());
    }
}

/// Rewriting rows that a condition does not select, into rows that it does not select, changes
/// nothing of what it selects.
pub proof fn lemma_rewritten_apart<V>(s: Seq<V>, q: spec_fn(V) -> bool, f: spec_fn(V) -> V, p: spec_fn(V) -> bool)
    requires
        forall|v: V| #[trigger] q(v) ==> !p(v) && !p(f(v)),
    ensures
        rows_where(rewritten(s, q, f), p) == rows_where(s, p),
    decreases s.len(),
{
    if s.len() > 0 {
        lemma_rewritten_apart(s.drop_last(), q, f, p);
        assert(rewritten(s, q, f).drop_last() =~= rewritten(s.drop_last(), q, f));
        assert(q(s.last()) ==> !p(s.last()));
    }
}

/// Removing rows that a condition does not select changes nothing of what it selects.
pub proof fn lemma_removed_apart<V>(s: Seq<V>, q: spec_fn(V) -> bool, p: spec_fn(V) -> bool)
    requires
        forall|v: V| #[trigger] q(v) ==> !p(v),
    ensures
        rows_where(rows_where(s, except(q)), p) == rows_where(s, p),
    decreases s.len(),
{
    if s.len() > 0 {
        let t = s.drop_last();
        lemma_removed_apart(t, q, p);
        let kept = rows_where(t, except(q));
        assert(q(s.last()) ==> !p(s.last()));
        assert(kept.push(s.last()).drop_last() =~= kept);
    }
}

/// The first row is a row of the table that satisfies the condition, and none precedes it;
/// there is none exactly where no row satisfies it.
pub proof fn lemma_first_row<V>(s: Seq<V>, q: spec_fn(V) -> bool)
    ensures
        match first_row(s, q) {
            Some(v) => exists|i: int|
                0 <= i < s.len() && #[trigger] s[i] == v && q(v) && (forall|j: int|
                    0 <= j < i ==> !q(#[trigger] s[j])),
            None => !any_row(s, q),
        },
    decreases s.len(),
{
    if s.len() > 0 {
        let t = s.drop_last();
        lemma_first_row(t, q);
        match first_row(t, q) {
            Some(v) => {
                let i = choose|i: int|
                    0 <= i < t.len() && #[trigger] t[i] == v && q(v) && (forall|j: int|
                        0 <= j < i ==> !q(#[trigger] t[j]));
                assert(s[i] == v);
                assert forall|j: int| 0 <= j < i implies !q(#[trigger] s[j]) by {
                    assert(t[j] == s[j]);
                }
            },
            None => {
                assert forall|j: int| 0 <= j < s.len() - 1 implies !q(#[trigger] s[j]) by {
                    assert(t[j] == s[j]);
                }
                if q(s.last()) {
                    assert(s[s.len() - 1] == s.last());
                }
            },
        }
    }
}

/// Where keys are distinct, the first row with a given key is the only one.
pub proof fn lemma_first_row_unique<V>(s: Seq<V>, q: spec_fn(V) -> bool, i: int)
    requires
        0 <= i < s.len(),
        q(s[i]),
        forall|j: int| 0 <= j < s.len() && q(#[trigger] s[j]) ==> j == i,
    ensures
        first_row(s, q) == Some(s[i]),
{
    lemma_first_row(s, q);
}

pub proof fn lemma_distinct_where<V, K>(s: Seq<V>, q: spec_fn(V) -> bool, key: spec_fn(V) -> K)
    requires
        distinct_by(s, key),
    ensures
        distinct_by(rows_where(s, q), key),
    decreases s.len(),
{
    if s.len() > 0 {
        let t = s.drop_last();
        assert forall|i: int, j: int| 0 <= i < j < t.len() implies key(#[trigger] t[i]) != key(
            #[trigger] t[j],
        ) by {
            assert(s[i] == t[i] && s[j] == t[j]);
        }
        lemma_distinct_where(t, q, key);
        let sub = rows_where(t, q);
        if q(s.last()) {
            let sel = sub.push(s.last());
            lemma_rows_where_contains(t, q);
            assert forall|i: int, j: int| 0 <= i < j < sel.len() implies key(#[trigger] sel[i])
                != key(#[trigger] sel[j]) by {
                if j < sub.len() {
                    assert(sel[i] == sub[i] && sel[j] == sub[j]);
                } else {
                    assert(sub.contains(sub[i]));
                    assert(t.contains(sub[i]));
                    let m = choose|m: int| 0 <= m < t.len() && t[m] == sub[i];
                    assert(s[m] == sub[i]);
                    assert(s[s.len() - 1] == s.last());
                }
            }
        }
    }
}

pub proof fn lemma_distinct_push<V, K>(s: Seq<V>, x: V, key: spec_fn(V) -> K)
    requires
        distinct_by(s, key),
        forall|i: int| 0 <= i < s.len() ==> key(#[trigger] s[i]) != key(x),
    ensures
        distinct_by(s.push(x), key),
{
    let t = s.push(x);
    assert forall|i: int, j: int| 0 <= i < j < t.len() implies key(#[trigger] t[i]) != key(
        #[trigger] t[j],
    ) by {
        assert(t[i] == s[i]);
        if j < s.len() {
            assert(t[j] == s[j]);
        }
    }
}

pub proof fn lemma_distinct_rewritten<V, K>(
    s: Seq<V>,
    q: spec_fn(V) -> bool,
    f: spec_fn(V) -> V,
    key: spec_fn(V) -> K,
)
    requires
        distinct_by(s, key),
        forall|v: V| key(#[trigger] f(v)) == key(v),
    ensures
        distinct_by(rewritten(s, q, f), key),
{
    let t = rewritten(s, q, f);
    assert forall|i: int, j: int| 0 <= i < j < t.len() implies key(#[trigger] t[i]) != key(
        #[trigger] t[j],
    ) by {
        assert(key(t[i]) == key(s[i]));
        assert(key(t[j]) == key(s[j]));
    }
}

proof fn lemma_insert_row_multiset<V>(s: Seq<V>, x: V, before: spec_fn(V, V) -> bool)
    ensures
        insert_row(s, x, before).to_multiset() =~= s.to_multiset().insert(x),
        insert_row(s, x, before).len() == s.len() + 1,
    decreases s.len(),
{
    broadcast use vstd::seq_lib::group_to_multiset_ensures;

    if s.len() > 0 && before(x, s.last()) {
        lemma_insert_row_multiset(s.drop_last(), x, before);
        assert(s =~= s.drop_last().push(s.last()));
    }
}

/// Whether the rows stand in the order that `before` gives.
pub open spec fn in_order<V>(s: Seq<V>, before: spec_fn(V, V) -> bool) -> bool {
    forall|i: int, j: int| 0 <= i < j < s.len() ==> !before(#[trigger] s[j], #[trigger] s[i])
}

/// Whether `before` is a strict weak order.
pub open spec fn is_order<V>(before: spec_fn(V, V) -> bool) -> bool {
    &&& forall|a: V| !#[trigger] before(a, a)
    &&& forall|a: V, b: V, c: V| #[trigger]
        before(a, b) && #[trigger] before(b, c) ==> before(a, c)
    &&& forall|a: V, b: V, c: V|
        !(#[trigger] before(a, b)) && !(#[trigger] before(b, c)) ==> !before(a, c)
}

proof fn lemma_insert_row_in_order<V>(s: Seq<V>, x: V, before: spec_fn(V, V) -> bool)
    requires
        is_order(before),
        in_order(s, before),
    ensures
        in_order(insert_row(s, x, before), before),
        forall|i: int|
            0 <= i < insert_row(s, x, before).len() ==> {
                ||| (#[trigger] insert_row(s, x, before)[i]) == x
                ||| s.contains(insert_row(s, x, before)[i])
            },
    decreases s.len(),
{
    let r = insert_row(s, x, before);
    if s.len() > 0 && before(x, s.last()) {
        let t = s.drop_last();
        assert(in_order(t, before)) by {
            assert forall|i: int, j: int| 0 <= i < j < t.len() implies !before(
                #[trigger] t[j],
                #[trigger] t[i],
            ) by {
                assert(s[i] == t[i] && s[j] == t[j]);
            }
        }
        lemma_insert_row_in_order(t, x, before);
        let sub = insert_row(t, x, before);
        let last = s.last();
        assert forall|i: int| 0 <= i < t.len() implies !before(last, #[trigger] t[i]) by {
            assert(s[i] == t[i]);
            assert(s[s.len() - 1] == last);
        }
        assert(!before(last, x)) by {
            if before(last, x) {
                assert(before(x, x));
            }
        }
        assert forall|i: int, j: int| 0 <= i < j < r.len() implies !before(
            #[trigger] r[j],
            #[trigger] r[i],
        ) by {
            if j < sub.len() {
                assert(r[i] == sub[i] && r[j] == sub[j]);
            } else {
                assert(r[i] == sub[i]);
                assert(r[j] == last);
                if sub[i] != x {
                    let m = choose|m: int| 0 <= m < t.len() && t[m] == sub[i];
                    assert(t[m] == r[i]);
                }
            }
        }
        assert forall|i: int| 0 <= i < r.len() implies {
            ||| (#[trigger] r[i]) == x
            ||| s.contains(r[i])
        } by {
            if i < sub.len() {
                assert(r[i] == sub[i]);
                if sub[i] != x {
                    let m = choose|m: int| 0 <= m < t.len() && t[m] == sub[i];
                    assert(s[m] == r[i]);
                }
            } else {
                assert(s[s.len() - 1] == r[i]);
            }
        }
    } else {
        assert forall|i: int, j: int| 0 <= i < j < r.len() implies !before(
            #[trigger] r[j],
            #[trigger] r[i],
        ) by {
            if j < s.len() {
                assert(r[i] == s[i] && r[j] == s[j]);
            } else {
                assert(r[i] == s[i]);
                assert(r[j] == x);
                if before(x, s[i]) {
                    let last = s.last();
                    assert(s[s.len() - 1] == last);
                    assert(!before(x, last));
                    if i < s.len() - 1 {
                        assert(!before(last, s[i]));
                        assert(!before(x, s[i]));
                    }
                }
            }
        }
        assert forall|i: int| 0 <= i < r.len() implies {
            ||| (#[trigger] r[i]) == x
            ||| s.contains(r[i])
        } by {
            if i < s.len() {
                assert(s[i] == r[i]);
            }
        }
    }
}

/// Law: sorting keeps every row, as often as the table has it, and puts the rows in order.
pub proof fn law_sorted_rows<V>(s: Seq<V>, before: spec_fn(V, V) -> bool)
    requires
        is_order(before),
    ensures
        sorted_rows(s, before).to_multiset() == s.to_multiset(),
        sorted_rows(s, before).len() == s.len(),
        in_order(sorted_rows(s, before), before),
    decreases s.len(),
{
    broadcast use vstd::seq_lib::group_to_multiset_ensures;

    if s.len() > 0 {
        law_sorted_rows(s.drop_last(), before);
        lemma_insert_row_multiset(sorted_rows(s.drop_last(), before), s.last(), before);
        lemma_insert_row_in_order(sorted_rows(s.drop_last(), before), s.last(), before);
        assert(s =~= s.drop_last().push(s.last()));
    } else {
        assert(s =~= Seq::empty());
    }
}

/// The rows that a condition selects of an ordered table are in order.
pub proof fn lemma_rows_where_in_order<V>(s: Seq<V>, q: spec_fn(V) -> bool, before: spec_fn(V, V) -> bool)
    requires
        in_order(s, before),
    ensures
        in_order(rows_where(s, q), before),
    decreases s.len(),
{
    if s.len() > 0 {
        let t = s.drop_last();
        assert forall|i: int, j: int| 0 <= i < j < t.len() implies !before(#[trigger] t[j], #[trigger] t[i]) by {
            assert(t[i] == s[i] && t[j] == s[j]);
        }
        lemma_rows_where_in_order(t, q, before);
        lemma_rows_where_contains(t, q);
        let kept = rows_where(t, q);
        let all = rows_where(s, q);
        assert forall|i: int, j: int| 0 <= i < j < all.len() implies !before(#[trigger] all[j], #[trigger] all[i]) by {
            if j < kept.len() {
                assert(all[i] == kept[i] && all[j] == kept[j]);
            } else {
                assert(kept.contains(kept[i]));
                assert(t.contains(kept[i]));
                let k = choose|k: int| 0 <= k < t.len() && t[k] == kept[i];
                assert(s[k] == all[i]);
                assert(s[s.len() - 1] == all[j]);
            }
        }
    }
}

/// Sorting rows that are in order already changes nothing.
pub proof fn lemma_sorted_already<V>(s: Seq<V>, before: spec_fn(V, V) -> bool)
    requires
        in_order(s, before),
    ensures
        sorted_rows(s, before) == s,
    decreases s.len(),
{
    if s.len() > 0 {
        let t = s.drop_last();
        assert(in_order(t, before)) by {
            assert forall|i: int, j: int| 0 <= i < j < t.len() implies !before(
                #[trigger] t[j],
                #[trigger] t[i],
            ) by {
                assert(!before(s[j], s[i]));
            }
        }
        lemma_sorted_already(t, before);
        if t.len() > 0 {
            assert(!before(s[s.len() - 1], s[t.len() - 1]));
            assert(t.last() == s[t.len() - 1]);
        }
        assert(s =~= t.push(s.last()));
    }
}

// ---------------------------------------------------------------------------------------------
// Executable operations.
// ---------------------------------------------------------------------------------------------

/// Copies out the rows for which `f` holds.
pub fn select<T: Row, F: Fn(&T) -> bool>(
    v: &Vec<T>,
    f: F,
    Ghost(q): Ghost<spec_fn(T::V) -> bool>,
) -> (r: Vec<T>)
    requires
        forall|x: &T| #[trigger] f.requires((x,)),
        forall|x: &T, b: bool| #[trigger] f.ensures((x,), b) ==> b == q(x@),
    ensures
        rows(r@) == rows_where(rows(v@), q),
{
    let mut out: Vec<T> = Vec::new();
    assert(rows(v@).take(0) =~= Seq::<T::V>::empty());
    assert(rows(out@) =~= Seq::<T::V>::empty());
    for i in 0..v.len()
        invariant
            forall|x: &T| #[trigger] f.requires((x,)),
            forall|x: &T, b: bool| #[trigger] f.ensures((x,), b) ==> b == q(x@),
            rows(out@) == rows_where(rows(v@).take(i as int), q),
    {
        assert(rows(v@).take(i + 1).drop_last() =~= rows(v@).take(i as int));
        assert(rows(v@).take(i + 1).last() == v@[i as int]@);
        if f(&v[i]) {
            let ghost out0 = out@;
            let c = v[i].copy();
            out.push(c);
            proof {
                lemma_rows_push(out0, c);
            }
        }
    }
    assert(rows(v@).take(v@.len() as int) =~= rows(v@));
    out
}

/// The index of the first row for which `f` holds.
pub fn find<T: View, F: Fn(&T) -> bool>(
    v: &Vec<T>,
    f: F,
    Ghost(q): Ghost<spec_fn(T::V) -> bool>,
) -> (r: Option<usize>)
    requires
        forall|x: &T| #[trigger] f.requires((x,)),
        forall|x: &T, b: bool| #[trigger] f.ensures((x,), b) ==> b == q(x@),
    ensures
        match r {
            Some(i) => i < v@.len() && q(v@[i as int]@) && first_row(rows(v@), q) == Some(
                v@[i as int]@,
            ) && (forall|j: int| 0 <= j < i ==> !q(#[trigger] rows(v@)[j])),
            None => first_row(rows(v@), q) is None && !any_row(rows(v@), q),
        },
{
    assert(rows(v@).take(0) =~= Seq::<T::V>::empty());
    for i in 0..v.len()
        invariant
            forall|x: &T| #[trigger] f.requires((x,)),
            forall|x: &T, b: bool| #[trigger] f.ensures((x,), b) ==> b == q(x@),
            forall|j: int| 0 <= j < i ==> !q(#[trigger] rows(v@)[j]),
    {
        if f(&v[i]) {
            assert(q(rows(v@)[i as int]));
            proof {
                lemma_first_row(rows(v@), q);
            }
            return Some(i);
        }
        assert(rows(v@)[i as int] == v@[i as int]@);
    }
    proof {
        lemma_first_row(rows(v@), q);
    }
    None
}

/// Removes the rows for which `f` holds and returns how many there were.
pub fn remove_where<T: View, F: Fn(&T) -> bool>(
    v: &mut Vec<T>,
    f: F,
    Ghost(q): Ghost<spec_fn(T::V) -> bool>,
) -> (n: usize)
    requires
        forall|x: &T| #[trigger] f.requires((x,)),
        forall|x: &T, b: bool| #[trigger] f.ensures((x,), b) ==> b == q(x@),
    ensures
        rows(final(v)@) == rows_where(rows(old(v)@), except(q)),
        n == rows_where(rows(old(v)@), q).len(),
{
    let ghost all = rows(v@);
    let ghost mut k: int = 0;
    let total: usize = v.len();
    let mut i: usize = 0;
    let mut n: usize = 0;
    assert(all.take(0) =~= Seq::<T::V>::empty());
    assert(Seq::<T::V>::empty() + all.skip(0) =~= all);
    while i < v.len()
        invariant
            forall|x: &T| #[trigger] f.requires((x,)),
            forall|x: &T, b: bool| #[trigger] f.ensures((x,), b) ==> b == q(x@),
            0 <= k <= all.len(),
            all.len() == total,
            i <= v@.len(),
            n + v@.len() == total,
            k == i + n,
            rows_where(all.take(k), except(q)).len() == i,
            n == rows_where(all.take(k), q).len(),
            rows(v@) == rows_where(all.take(k), except(q)) + all.skip(k),
        decreases v@.len() - i,
    {
        let ghost kept = rows_where(all.take(k), except(q));
        proof {
            assert(all.take(k + 1).drop_last() =~= all.take(k));
            assert(all.take(k + 1).last() == all[k]);
            assert(rows(v@)[i as int] == all.skip(k)[0]);
            assert(all.skip(k)[0] == all[k]);
            assert(v@[i as int]@ == all[k]);
        }
        if f(&v[i]) {
            let ghost v0 = v@;
            v.remove(i);
            n += 1;
            proof {
                assert(rows(v@) =~= rows(v0).remove(i as int));
                assert(rows(v@) =~= kept + all.skip(k + 1));
            }
        } else {
            i += 1;
            proof {
                assert(rows(v@) =~= kept.push(all[k]) + all.skip(k + 1));
            }
        }
        proof {
            k = k + 1;
        }
    }
    proof {
        assert(k == all.len());
        assert(all.take(k) =~= all);
        assert(rows(v@) =~= rows_where(all, except(q)));
    }
    n
}

/// Rewrites the rows for which `f` holds by `g` and returns how many there were.
pub fn rewrite<T: View, F: Fn(&T) -> bool, G: Fn(&T) -> T>(
    v: &mut Vec<T>,
    f: F,
    g: G,
    Ghost(q): Ghost<spec_fn(T::V) -> bool>,
    Ghost(h): Ghost<spec_fn(T::V) -> T::V>,
) -> (n: usize)
    requires
        forall|x: &T| #[trigger] f.requires((x,)),
        forall|x: &T, b: bool| #[trigger] f.ensures((x,), b) ==> b == q(x@),
        forall|x: &T| #[trigger] g.requires((x,)),
        forall|x: &T, y: T| #[trigger] g.ensures((x,), y) ==> y@ == h(x@),
    ensures
        rows(final(v)@) == rewritten(rows(old(v)@), q, h),
        n == rows_where(rows(old(v)@), q).len(),
{
    let ghost all = rows(v@);
    let total: usize = v.len();
    let mut n: usize = 0;
    assert(all.take(0) =~= Seq::<T::V>::empty());
    for i in 0..total
        invariant
            forall|x: &T| #[trigger] f.requires((x,)),
            forall|x: &T, b: bool| #[trigger] f.ensures((x,), b) ==> b == q(x@),
            forall|x: &T| #[trigger] g.requires((x,)),
            forall|x: &T, y: T| #[trigger] g.ensures((x,), y) ==> y@ == h(x@),
            v@.len() == total,
            all.len() == total,
            forall|j: int|
                0 <= j < i ==> (#[trigger] v@[j])@ == if q(all[j]) {
                    h(all[j])
                } else {
                    all[j]
                },
            forall|j: int| i <= j < total ==> (#[trigger] v@[j])@ == all[j],
            n <= i,
            n == rows_where(all.take(i as int), q).len(),
    {
        assert(all.take(i + 1).drop_last() =~= all.take(i as int));
        assert(all.take(i + 1).last() == all[i as int]);
        assert(v@[i as int]@ == all[i as int]);
        if f(&v[i]) {
            let y = g(&v[i]);
            v.set(i, y);
            n += 1;
        }
    }
    assert(all.take(total as int) =~= all);
    assert(rows(v@) =~= rewritten(all, q, h));
    n
}

/// Sorts the rows in place by `f`, keeping the order of rows that it does not tell apart.
pub fn sort<T: View, F: Fn(&T, &T) -> bool>(
    v: &mut Vec<T>,
    f: F,
    Ghost(before): Ghost<spec_fn(T::V, T::V) -> bool>,
)
    requires
        forall|x: &T, y: &T| #[trigger] f.requires((x, y)),
        forall|x: &T, y: &T, b: bool| #[trigger] f.ensures((x, y), b) ==> b == before(x@, y@),
    ensures
        rows(final(v)@) == sorted_rows(rows(old(v)@), before),
{
    let ghost all = rows(v@);
    let total: usize = v.len();
    assert(all.take(0) =~= Seq::<T::V>::empty());
    assert(rows(v@) =~= sorted_rows(all.take(0), before) + all.skip(0));
    for i in 0..total
        invariant
            forall|x: &T, y: &T| #[trigger] f.requires((x, y)),
            forall|x: &T, y: &T, b: bool| #[trigger] f.ensures((x, y), b) ==> b == before(x@, y@),
            all.len() == total,
            v@.len() == total,
            rows(v@) == sorted_rows(all.take(i as int), before) + all.skip(i as int),
            sorted_rows(all.take(i as int), before).len() == i,
    {
        let ghost done = sorted_rows(all.take(i as int), before);
        let ghost x = all[i as int];
        let ghost v0 = v@;
        proof {
            assert(all.take(i + 1).drop_last() =~= all.take(i as int));
            assert(all.take(i + 1).last() == x);
            assert(rows(v0)[i as int] == all.skip(i as int)[0]);
            assert(v0[i as int]@ == x);
            lemma_insert_row_multiset(done, x, before);
        }
        let item = v.remove(i);
        proof {
            assert(v@ =~= v0.remove(i as int));
            assert(rows(v@) =~= rows(v0).remove(i as int));
            assert((done + all.skip(i as int)).remove(i as int) =~= done + all.skip(i + 1));
        }
        let mut p: usize = i;
        assert(done.take(i as int) =~= done);
        assert(insert_row(done.take(p as int), x, before) + done.skip(p as int) =~= insert_row(
            done,
            x,
            before,
        ));
        while p > 0 && f(&item, &v[p - 1])
            invariant
                forall|x: &T, y: &T| #[trigger] f.requires((x, y)),
                forall|x: &T, y: &T, b: bool| #[trigger]
                    f.ensures((x, y), b) ==> b == before(x@, y@),
                p <= i < total,
                v@.len() == total - 1,
                all.len() == total,
                item@ == x,
                done.len() == i,
                rows(v@) == done + all.skip(i + 1),
                insert_row(done.take(p as int), x, before) + done.skip(p as int) == insert_row(
                    done,
                    x,
                    before,
                ),
            decreases p,
        {
            proof {
                let head = done.take(p as int);
                assert(head.last() == done[p - 1]);
                assert(rows(v@)[p - 1] == done[p - 1]);
                assert(head.drop_last() =~= done.take(p - 1));
                let sub = insert_row(done.take(p - 1), x, before);
                assert(sub.push(done[p - 1]) + done.skip(p as int) =~= sub + done.skip(p - 1));
            }
            p -= 1;
        }
        proof {
            let head = done.take(p as int);
            if p > 0 {
                assert(head.last() == done[p - 1]);
                assert(rows(v@)[p - 1] == done[p - 1]);
            }
            assert(insert_row(head, x, before) == head.push(x));
        }
        let ghost v1 = v@;
        v.insert(p, item);
        proof {
            assert(rows(v@) =~= rows(v1).insert(p as int, x));
            assert(rows(v@) =~= done.take(p as int).push(x) + done.skip(p as int) + all.skip(
                i + 1,
            ));
        }
    }
    proof {
        assert(all.take(total as int) =~= all);
        assert(rows(v@) =~= sorted_rows(all, before));
    }
}

/// Keeps the first `n` rows.
pub fn limit<T: View>(v: &mut Vec<T>, n: usize)
    ensures
        rows(final(v)@) == first_rows(rows(old(v)@), n as int),
{
    let ghost all = rows(v@);
    if v.len() > n {
        v.truncate(n);
        assert(rows(v@) =~= all.take(n as int));
        if n == 0 {
            assert(all.take(0) =~= Seq::empty());
        }
    }
}

/// A copy of a table.
pub fn copy_rows<T: Row>(v: &Vec<T>) -> (r: Vec<T>)
    ensures
        rows(r@) == rows(v@),
{
    let ghost all = rows(v@);
    let mut out: Vec<T> = Vec::new();
    assert(rows(out@) =~= all.take(0));
    for i in 0..v.len()
        invariant
            all == rows(v@),
            rows(out@) == all.take(i as int),
    {
        let ghost out0 = out@;
        let x = v[i].copy();
        out.push(x);
        proof {
            lemma_rows_push(out0, x);
            assert(all.take(i + 1) =~= all.take(i as int).push(all[i as int]));
        }
    }
    assert(all.take(all.len() as int) =~= all);
    out
}

proof fn lemma_insert_where<V>(s: Seq<V>, x: V, before: spec_fn(V, V) -> bool, p: spec_fn(V) -> bool)
    requires
        forall|a: V, b: V| #[trigger] p(a) && #[trigger] p(b) ==> !before(a, b),
    ensures
        rows_where(insert_row(s, x, before), p) == if p(x) {
            rows_where(s, p).push(x)
        } else {
            rows_where(s, p)
        },
    decreases s.len(),
{
    if s.len() > 0 && before(x, s.last()) {
        let t = s.drop_last();
        lemma_insert_where(t, x, before, p);
        let r = insert_row(t, x, before);
        assert(r.push(s.last()).drop_last() =~= r);
    } else {
        assert(s.push(x).drop_last() =~= s);
    }
}

/// Law: rows that the order does not tell apart stay in the order of the table.
pub proof fn law_sorted_stable<V>(s: Seq<V>, before: spec_fn(V, V) -> bool, p: spec_fn(V) -> bool)
    requires
        forall|a: V, b: V| #[trigger] p(a) && #[trigger] p(b) ==> !before(a, b),
    ensures
        rows_where(sorted_rows(s, before), p) == rows_where(s, p),
    decreases s.len(),
{
    if s.len() > 0 {
        law_sorted_stable(s.drop_last(), before, p);
        lemma_insert_where(sorted_rows(s.drop_last(), before), s.last(), before, p);
    }
}

} // verus!
