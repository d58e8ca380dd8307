//! Sorted sequences without repeats, and the facts about them that the
//! compaction rules rest on.
use vstd::prelude::*;

verus! {

/// `s` is in strictly increasing order under `lt`.
pub open spec fn sorted_by<T>(s: Seq<T>, lt: spec_fn(T, T) -> bool) -> bool {
    forall|i: int, j: int| 0 <= i < j < s.len() ==> #[trigger] lt(s[i], s[j])
}

/// `lt` is a strict order: irreflexive and transitive.
pub open spec fn strict_order<T>(lt: spec_fn(T, T) -> bool) -> bool {
    &&& forall|a: T| !#[trigger] lt(a, a)
    &&& forall|a: T, b: T, c: T| #[trigger] lt(a, b) && #[trigger] lt(b, c) ==> lt(a, c)
}

/// The elements of `s`, each once, in increasing order under `lt`.
pub open spec fn sorted_form<T>(s: Seq<T>, lt: spec_fn(T, T) -> bool) -> Seq<T> {
    choose|r: Seq<T>| sorted_by(r, lt) && r.to_set() == s.to_set()
}

/// The first `n` elements of `s`, or all of them when there are fewer.
pub open spec fn at_most<T>(s: Seq<T>, n: nat) -> Seq<T> {
    if s.len() <= n {
        s
    } else {
        s.subrange(0, n as int)
    }
}

/// Two strictly sorted sequences with the same elements are equal.
pub proof fn lemma_sorted_unique<T>(a: Seq<T>, b: Seq<T>, lt: spec_fn(T, T) -> bool)
    requires
        strict_order(lt),
        sorted_by(a, lt),
        sorted_by(b, lt),
        a.to_set() == b.to_set(),
    ensures
        a == b,
    decreases a.len(),
{
    if a.len() == 0 {
        if b.len() > 0 {
            assert(b.to_set().contains(b[0]));
        }
        assert(a =~= b);
    } else if b.len() == 0 {
        assert(a.to_set().contains(a[0]));
    } else {
        assert(b.to_set().contains(b[0]));
        assert(a.to_set().contains(a[0]));
        let i = choose|i: int| 0 <= i < a.len() && a[i] == b[0];
        let j = choose|j: int| 0 <= j < b.len() && b[j] == a[0];
        if a[0] != b[0] {
            assert(i > 0 && j > 0);
            assert(lt(a[0], a[i]));
            assert(lt(b[0], b[j]));
            assert(lt(a[0], a[0]));
        }
        let a1 = a.drop_first();
        let b1 = b.drop_first();
        assert forall|x: T| a1.to_set().contains(x) implies b1.to_set().contains(x) by {
            let k = choose|k: int| 0 <= k < a1.len() && a1[k] == x;
            assert(a.to_set().contains(x));
            let m = choose|m: int| 0 <= m < b.len() && b[m] == x;
            if m == 0 {
                assert(lt(a[0], a[k + 1]));
                assert(false);
            }
            assert(b1[m - 1] == x);
        }
        assert forall|x: T| b1.to_set().contains(x) implies a1.to_set().contains(x) by {
            let k = choose|k: int| 0 <= k < b1.len() && b1[k] == x;
            assert(b.to_set().contains(x));
            let m = choose|m: int| 0 <= m < a.len() && a[m] == x;
            if m == 0 {
                assert(lt(b[0], b[k + 1]));
                assert(false);
            }
            assert(a1[m - 1] == x);
        }
        assert(a1.to_set() =~= b1.to_set());
        lemma_sorted_unique(a1, b1, lt);
        assert(a =~= seq![a[0]] + a1);
        assert(b =~= seq![b[0]] + b1);
    }
}

/// A strictly sorted sequence is the sorted form of its own elements.
pub proof fn lemma_sorted_form_of<T>(s: Seq<T>, r: Seq<T>, lt: spec_fn(T, T) -> bool)
    requires
        strict_order(lt),
        sorted_by(r, lt),
        r.to_set() == s.to_set(),
    ensures
        sorted_form(s, lt) == r,
{
    let c = sorted_form(s, lt);
    assert(sorted_by(c, lt) && c.to_set() == s.to_set());
    lemma_sorted_unique(c, r, lt);
}

/// A prefix of a strictly sorted sequence is strictly sorted.
pub proof fn lemma_at_most_sorted<T>(s: Seq<T>, n: nat, lt: spec_fn(T, T) -> bool)
    requires
        sorted_by(s, lt),
    ensures
        sorted_by(at_most(s, n), lt),
        at_most(s, n).len() <= n,
        at_most(s, n).len() <= s.len(),
{
}

} // verus!

verus! {

/// The elements of `s` that satisfy `p`, in order.
pub open spec fn keep<T>(s: Seq<T>, p: spec_fn(T) -> bool) -> Seq<T>
    decreases s.len(),
{
    if s.len() == 0 {
        s
    } else if p(s.last()) {
        keep(s.drop_last(), p).push(s.last())
    } else {
        keep(s.drop_last(), p)
    }
}

pub proof fn lemma_keep_push<T>(s: Seq<T>, x: T, p: spec_fn(T) -> bool)
    ensures
        keep(s.push(x), p) == (if p(x) {
            keep(s, p).push(x)
        } else {
            keep(s, p)
        }),
{
    assert(s.push(x).drop_last() =~= s);
}

pub proof fn lemma_keep_contains<T>(s: Seq<T>, p: spec_fn(T) -> bool, x: T)
    ensures
        keep(s, p).contains(x) <==> (s.contains(x) && p(x)),
        keep(s, p).len() <= s.len(),
    decreases s.len(),
{
    if s.len() > 0 {
        let d = s.drop_last();
        lemma_keep_contains(d, p, x);
        assert(s =~= d.push(s.last()));
        if s.contains(x) && x != s.last() {
            let i = choose|i: int| 0 <= i < s.len() && s[i] == x;
            assert(d[i] == x);
        }
        if d.contains(x) {
            let i = choose|i: int| 0 <= i < d.len() && d[i] == x;
            assert(s[i] == x);
        }
        if p(s.last()) {
            let k = keep(d, p);
            assert(k.push(s.last()).last() == s.last());
            if k.contains(x) {
                let i = choose|i: int| 0 <= i < k.len() && k[i] == x;
                assert(k.push(s.last())[i] == x);
            }
            if k.push(s.last()).contains(x) && x != s.last() {
                let i = choose|i: int| 0 <= i < k.len() + 1 && k.push(s.last())[i] == x;
                assert(k[i] == x);
            }
        }
    }
}

/// Every element of `s` satisfies `p`, so keeping those changes nothing.
pub proof fn lemma_keep_all<T>(s: Seq<T>, p: spec_fn(T) -> bool)
    requires
        forall|i: int| 0 <= i < s.len() ==> #[trigger] p(s[i]),
    ensures
        keep(s, p) == s,
    decreases s.len(),
{
    if s.len() > 0 {
        lemma_keep_all(s.drop_last(), p);
        assert(s =~= s.drop_last().push(s.last()));
    }
}

/// No element of `s` satisfies `p`.
pub proof fn lemma_keep_none<T>(s: Seq<T>, p: spec_fn(T) -> bool)
    requires
        keep(s, p).len() == 0,
    ensures
        forall|i: int| 0 <= i < s.len() ==> !#[trigger] p(s[i]),
    decreases s.len(),
{
    if s.len() > 0 {
        if p(s.last()) {
            assert(keep(s, p).len() > 0);
        }
        lemma_keep_none(s.drop_last(), p);
        assert forall|i: int| 0 <= i < s.len() implies !#[trigger] p(s[i]) by {
            if i < s.len() - 1 {
                assert(s.drop_last()[i] == s[i]);
            }
        }
    }
}

} // verus!

verus! {

pub proof fn lemma_push_to_set<T>(s: Seq<T>, x: T)
    ensures
        s.push(x).to_set() == s.to_set().insert(x),
{
    assert(s.push(x) =~= s + seq![x]);
    Seq::lemma_to_set_insert_commutes(s, x);
}

} // verus!

verus! {

/// Elements ordered by a key under a strict total order on keys.
pub trait SortKey: Sized {
    type Key;

    spec fn key(self) -> Self::Key;

    spec fn key_less(a: Self::Key, b: Self::Key) -> bool;

    proof fn lemma_key_order(a: Self::Key, b: Self::Key, c: Self::Key)
        ensures
            !Self::key_less(a, a),
            Self::key_less(a, b) && Self::key_less(b, c) ==> Self::key_less(a, c),
            a == b || Self::key_less(a, b) || Self::key_less(b, a),
    ;

    fn key_before(&self, other: &Self) -> (r: bool)
        ensures
            r == Self::key_less(self.key(), other.key()),
    ;

    fn same_key(&self, other: &Self) -> (r: bool)
        ensures
            r == (self.key() == other.key()),
    ;
}

/// The order of elements by their keys.
pub open spec fn key_order<T: SortKey>() -> spec_fn(T, T) -> bool {
    |a: T, b: T| T::key_less(a.key(), b.key())
}

/// Whether some element of `s` has key `k`.
pub open spec fn has_key<T: SortKey>(s: Seq<T>, k: T::Key) -> bool {
    exists|i: int| 0 <= i < s.len() && (#[trigger] s[i]).key() == k
}

/// The elements of `s` whose key does not occur earlier in `s`, in order.
pub open spec fn first_of_each<T: SortKey>(s: Seq<T>) -> Seq<T>
    decreases s.len(),
{
    if s.len() == 0 {
        s
    } else if has_key(s.drop_last(), s.last().key()) {
        first_of_each(s.drop_last())
    } else {
        first_of_each(s.drop_last()).push(s.last())
    }
}

/// One element for each key of `s`, the first with that key, by key.
pub open spec fn sorted_by_key<T: SortKey>(s: Seq<T>) -> Seq<T> {
    sorted_form(first_of_each(s), key_order::<T>())
}

pub proof fn lemma_key_order_strict<T: SortKey>()
    ensures
        strict_order(key_order::<T>()),
{
    assert forall|a: T| !#[trigger] key_order::<T>()(a, a) by {
        T::lemma_key_order(a.key(), a.key(), a.key());
    }
    assert forall|a: T, b: T, c: T|
        #[trigger] key_order::<T>()(a, b) && #[trigger] key_order::<T>()(b, c) implies key_order::<T>()(a, c) by {
        T::lemma_key_order(a.key(), b.key(), c.key());
    }
}

pub proof fn lemma_first_of_each_sub<T: SortKey>(s: Seq<T>)
    ensures
        forall|x: T| first_of_each(s).contains(x) ==> s.contains(x),
    decreases s.len(),
{
    if s.len() > 0 {
        let d = s.drop_last();
        lemma_first_of_each_sub(d);
        assert forall|x: T| first_of_each(s).contains(x) implies s.contains(x) by {
            if d.contains(x) {
                let i = choose|i: int| 0 <= i < d.len() && d[i] == x;
                assert(s[i] == x);
            } else {
                assert(s[s.len() - 1] == s.last());
                if !has_key(d, s.last().key()) {
                    let f = first_of_each(d);
                    let k = choose|k: int| 0 <= k < f.len() + 1 && f.push(s.last())[k] == x;
                    if k < f.len() {
                        assert(f[k] == x);
                    }
                }
            }
        }
    }
}

/// Inserts `x` into `r`, strictly sorted by key, unless its key is there already.
fn insert_by_key<T: SortKey>(r: &mut Vec<T>, x: T)
    requires
        sorted_by(old(r)@, key_order::<T>()),
    ensures
        sorted_by(final(r)@, key_order::<T>()),
        has_key(old(r)@, x.key()) ==> final(r)@ == old(r)@,
        !has_key(old(r)@, x.key()) ==> final(r)@.to_set() == old(r)@.to_set().insert(x),
        forall|k: T::Key| has_key(final(r)@, k) <==> (has_key(old(r)@, k) || k == x.key()),
{
    let ghost v0 = r@;
    let mut p: usize = 0;
    while p < r.len() && r[p].key_before(&x)
        invariant
            p <= r@.len(),
            r@ == v0,
            forall|k: int| 0 <= k < p ==> T::key_less((#[trigger] v0[k]).key(), x.key()),
        decreases r.len() - p,
    {
        p = p + 1;
    }
    if p < r.len() && r[p].same_key(&x) {
        assert(v0[p as int].key() == x.key());
        assert forall|k: T::Key| has_key(v0, k) <==> (has_key(v0, k) || k == x.key()) by {
            if k == x.key() {
                assert(v0[p as int].key() == k);
            }
        }
        return;
    }
    proof {
        if p < v0.len() {
            T::lemma_key_order(v0[p as int].key(), x.key(), x.key());
            assert(T::key_less(x.key(), v0[p as int].key()));
        }
        assert forall|k: int| 0 <= k < v0.len() implies (#[trigger] v0[k]).key() != x.key() by {
            T::lemma_key_order(x.key(), x.key(), x.key());
            if k > p {
                assert(key_order::<T>()(v0[p as int], v0[k]));
                T::lemma_key_order(x.key(), v0[p as int].key(), v0[k].key());
            }
        }
    }
    r.insert(p, x);
    let ghost v1 = r@;
    proof {
        assert(v1 =~= v0.insert(p as int, x));
        assert forall|i: int, j: int| 0 <= i < j < v1.len() implies #[trigger] key_order::<T>()(
            v1[i],
            v1[j],
        ) by {
            if j < p {
                assert(key_order::<T>()(v0[i], v0[j]));
            } else if j == p {
            } else if i == p {
                if j - 1 > p {
                    assert(key_order::<T>()(v0[p as int], v0[j - 1]));
                    T::lemma_key_order(x.key(), v0[p as int].key(), v0[j - 1].key());
                }
            } else if i < p {
                if j - 1 > p {
                    assert(key_order::<T>()(v0[p as int], v0[j - 1]));
                    T::lemma_key_order(x.key(), v0[p as int].key(), v0[j - 1].key());
                }
                T::lemma_key_order(v0[i].key(), x.key(), v0[j - 1].key());
            } else {
                assert(key_order::<T>()(v0[i - 1], v0[j - 1]));
            }
        }
        assert(v1.to_set() =~= v0.to_set().insert(x)) by {
            assert(v1[p as int] == x);
            assert forall|y: T| v0.to_set().contains(y) implies v1.to_set().contains(y) by {
                let k = choose|k: int| 0 <= k < v0.len() && v0[k] == y;
                if k < p {
                    assert(v1[k] == y);
                } else {
                    assert(v1[k + 1] == y);
                }
            }
            assert forall|y: T| v1.to_set().contains(y) implies y == x || v0.to_set().contains(y) by {
                let k = choose|k: int| 0 <= k < v1.len() && v1[k] == y;
                if k < p {
                    assert(v0[k] == y);
                } else if k > p {
                    assert(v0[k - 1] == y);
                }
            }
        }
        assert forall|k: T::Key| has_key(v1, k) <==> (has_key(v0, k) || k == x.key()) by {
            if has_key(v1, k) {
                let m = choose|m: int| 0 <= m < v1.len() && (#[trigger] v1[m]).key() == k;
                if m < p {
                    assert(v0[m] == v1[m]);
                } else if m > p {
                    assert(v0[m - 1] == v1[m]);
                }
            }
            if has_key(v0, k) {
                let m = choose|m: int| 0 <= m < v0.len() && (#[trigger] v0[m]).key() == k;
                if m < p {
                    assert(v1[m] == v0[m]);
                } else {
                    assert(v1[m + 1] == v0[m]);
                }
            }
            if k == x.key() {
                assert(v1[p as int].key() == k);
            }
        }
    }
}

/// One element for each key of `items`, the first with that key, sorted by key.
pub fn sort_by_key_unique<T: SortKey>(items: Vec<T>) -> (r: Vec<T>)
    ensures
        r@ == sorted_by_key(items@),
{
    let ghost s = items@;
    let mut src = items;
    let mut r: Vec<T> = Vec::new();
    let mut j: usize = 0;
    let n: usize = src.len();
    while src.len() > 0
        invariant
            n == s.len(),
            j <= s.len(),
            src@ == s.subrange(j as int, s.len() as int),
            sorted_by(r@, key_order::<T>()),
            r@.to_set() == first_of_each(s.subrange(0, j as int)).to_set(),
            forall|k: T::Key| has_key(r@, k) <==> has_key(s.subrange(0, j as int), k),
        decreases src.len(),
    {
        let x = src.remove(0);
        let ghost pre = s.subrange(0, j as int);
        let ghost r0 = r@;
        proof {
            assert(s.subrange(0, j + 1).drop_last() =~= pre);
            assert(s.subrange(0, j + 1).last() == x);
        }
        insert_by_key(&mut r, x);
        proof {
            let post = s.subrange(0, j + 1);
            assert forall|k: T::Key| has_key(post, k) <==> (has_key(pre, k) || k == x.key()) by {
                if has_key(post, k) {
                    let m = choose|m: int| 0 <= m < post.len() && (#[trigger] post[m]).key() == k;
                    if m < pre.len() {
                        assert(pre[m] == post[m]);
                    }
                }
                if has_key(pre, k) {
                    let m = choose|m: int| 0 <= m < pre.len() && (#[trigger] pre[m]).key() == k;
                    assert(post[m] == pre[m]);
                }
                if k == x.key() {
                    assert(post[j as int] == x);
                }
            }
            if !has_key(pre, x.key()) {
                lemma_push_to_set(first_of_each(pre), x);
            }
        }
        j = j + 1;
        assert(src@ =~= s.subrange(j as int, s.len() as int));
    }
    proof {
        assert(s.subrange(0, j as int) =~= s);
        lemma_key_order_strict::<T>();
        lemma_sorted_form_of(first_of_each(s), r@, key_order::<T>());
    }
    r
}

} // verus!

verus! {

/// `x` placed into `r` after the elements below it.
pub open spec fn insert_in_order<T>(r: Seq<T>, x: T, lt: spec_fn(T, T) -> bool) -> Seq<T>
    decreases r.len(),
{
    if r.len() == 0 {
        seq![x]
    } else if lt(r.last(), x) {
        r.push(x)
    } else {
        insert_in_order(r.drop_last(), x, lt).push(r.last())
    }
}

proof fn lemma_insert_in_order<T>(r: Seq<T>, x: T, lt: spec_fn(T, T) -> bool)
    requires
        strict_order(lt),
        sorted_by(r, lt),
        forall|i: int| 0 <= i < r.len() ==> lt(#[trigger] r[i], x) || lt(x, r[i]),
    ensures
        sorted_by(insert_in_order(r, x, lt), lt),
        insert_in_order(r, x, lt).to_set() == r.to_set().insert(x),
    decreases r.len(),
{
    if r.len() == 0 {
        assert(seq![x].to_set() =~= Set::<T>::empty().insert(x)) by {
            assert(seq![x][0] == x);
        }
        assert(r.to_set() =~= Set::<T>::empty());
    } else if lt(r.last(), x) {
        lemma_push_to_set(r, x);
        let q = r.push(x);
        assert forall|i: int, j: int| 0 <= i < j < q.len() implies #[trigger] lt(q[i], q[j]) by {
            if j == r.len() && i < r.len() - 1 {
                assert(lt(r[i], r[r.len() - 1]));
            }
        }
    } else {
        let d = r.drop_last();
        let y = r.last();
        assert(lt(x, r[r.len() - 1]));
        assert(sorted_by(d, lt));
        lemma_insert_in_order(d, x, lt);
        let m = insert_in_order(d, x, lt);
        lemma_push_to_set(m, y);
        lemma_push_to_set(d, y);
        assert(r =~= d.push(y));
        assert(m.to_set().insert(y) =~= d.to_set().insert(y).insert(x));
        assert forall|k: int| 0 <= k < m.len() implies #[trigger] lt(m[k], y) by {
            assert(m.to_set().contains(m[k]));
            if m[k] != x {
                let t = choose|t: int| 0 <= t < d.len() && d[t] == m[k];
                assert(lt(r[t], r[r.len() - 1]));
            }
        }
        let q = m.push(y);
        assert forall|i: int, j: int| 0 <= i < j < q.len() implies #[trigger] lt(q[i], q[j]) by {
            if j < m.len() {
                assert(lt(m[i], m[j]));
            } else {
                assert(lt(m[i], y));
            }
        }
    }
}

/// A sequence whose distinct elements are all comparable has a sorted form.
pub proof fn lemma_sorted_form_exists<T>(s: Seq<T>, lt: spec_fn(T, T) -> bool)
    requires
        strict_order(lt),
        forall|i: int, j: int|
            0 <= i < s.len() && 0 <= j < s.len() ==> #[trigger] s[i] == #[trigger] s[j] || lt(
                s[i],
                s[j],
            ) || lt(s[j], s[i]),
    ensures
        sorted_by(sorted_form(s, lt), lt),
        sorted_form(s, lt).to_set() == s.to_set(),
    decreases s.len(),
{
    if s.len() == 0 {
        assert(sorted_by(s, lt) && s.to_set() == s.to_set());
    } else {
        let d = s.drop_last();
        let x = s.last();
        assert forall|i: int, j: int|
            0 <= i < d.len() && 0 <= j < d.len() implies #[trigger] d[i] == #[trigger] d[j] || lt(
            d[i],
            d[j],
        ) || lt(d[j], d[i]) by {
            assert(d[i] == s[i] && d[j] == s[j]);
        }
        lemma_sorted_form_exists(d, lt);
        let r = sorted_form(d, lt);
        lemma_push_to_set(d, x);
        assert(s =~= d.push(x));
        if r.to_set().contains(x) {
            assert(s.to_set() =~= r.to_set());
            assert(sorted_by(r, lt) && r.to_set() == s.to_set());
        } else {
            assert forall|i: int| 0 <= i < r.len() implies lt(#[trigger] r[i], x) || lt(x, r[i]) by {
                assert(r.to_set().contains(r[i]));
                let t = choose|t: int| 0 <= t < d.len() && d[t] == r[i];
                assert(s[t] == r[i]);
                assert(s[s.len() - 1] == x);
            }
            lemma_insert_in_order(r, x, lt);
            let q = insert_in_order(r, x, lt);
            assert(sorted_by(q, lt) && q.to_set() == s.to_set());
        }
    }
}

/// Within `first_of_each(s)` no two elements share a key.
pub proof fn lemma_first_of_each_keys<T: SortKey>(s: Seq<T>)
    ensures
        forall|i: int, j: int|
            0 <= i < first_of_each(s).len() && 0 <= j < first_of_each(s).len() && i != j
                ==> (#[trigger] first_of_each(s)[i]).key() != (#[trigger] first_of_each(s)[j]).key(),
    decreases s.len(),
{
    if s.len() > 0 {
        let d = s.drop_last();
        lemma_first_of_each_keys(d);
        lemma_first_of_each_sub(d);
        let f = first_of_each(d);
        if !has_key(d, s.last().key()) {
            let g = f.push(s.last());
            assert forall|i: int, j: int|
                0 <= i < g.len() && 0 <= j < g.len() && i != j implies (#[trigger] g[i]).key() != (
                #[trigger] g[j]).key() by {
                if i < f.len() && j < f.len() {
                    assert(f[i] == g[i] && f[j] == g[j]);
                } else if i < f.len() {
                    assert(f.contains(f[i]));
                    assert(d.contains(f[i]));
                    let t = choose|t: int| 0 <= t < d.len() && d[t] == f[i];
                    assert(d[t].key() != s.last().key());
                    assert(g[i] == f[i] && g[j] == s.last());
                } else {
                    assert(f.contains(f[j]));
                    assert(d.contains(f[j]));
                    let t = choose|t: int| 0 <= t < d.len() && d[t] == f[j];
                    assert(d[t].key() != s.last().key());
                    assert(g[j] == f[j] && g[i] == s.last());
                }
            }
        }
    }
}

/// The sorted form by key: strictly sorted, with the elements of `first_of_each(s)`.
pub proof fn lemma_sorted_by_key_props<T: SortKey>(s: Seq<T>)
    ensures
        sorted_by(sorted_by_key(s), key_order::<T>()),
        sorted_by_key(s).to_set() == first_of_each(s).to_set(),
        forall|x: T| sorted_by_key(s).contains(x) ==> s.contains(x),
{
    let f = first_of_each(s);
    lemma_key_order_strict::<T>();
    lemma_first_of_each_keys(s);
    assert forall|i: int, j: int|
        0 <= i < f.len() && 0 <= j < f.len() implies #[trigger] f[i] == #[trigger] f[j]
        || key_order::<T>()(f[i], f[j]) || key_order::<T>()(f[j], f[i]) by {
        T::lemma_key_order(f[i].key(), f[j].key(), f[j].key());
    }
    lemma_sorted_form_exists(f, key_order::<T>());
    lemma_first_of_each_sub(s);
    assert forall|x: T| sorted_by_key(s).contains(x) implies s.contains(x) by {
        assert(sorted_by_key(s).to_set().contains(x));
    }
}

/// A strictly sorted sequence is its own sorted form by key.
pub proof fn lemma_sorted_by_key_fixed<T: SortKey>(s: Seq<T>)
    requires
        sorted_by(s, key_order::<T>()),
    ensures
        sorted_by_key(s) == s,
{
    lemma_key_order_strict::<T>();
    lemma_first_of_each_unique(s);
    lemma_sorted_form_of(s, s, key_order::<T>());
}

/// Where keys are strictly increasing, no key repeats, so all elements stay.
proof fn lemma_first_of_each_unique<T: SortKey>(s: Seq<T>)
    requires
        sorted_by(s, key_order::<T>()),
    ensures
        first_of_each(s) == s,
    decreases s.len(),
{
    if s.len() > 0 {
        let d = s.drop_last();
        assert(sorted_by(d, key_order::<T>()));
        lemma_first_of_each_unique(d);
        if has_key(d, s.last().key()) {
            let i = choose|i: int| 0 <= i < d.len() && (#[trigger] d[i]).key() == s.last().key();
            assert(key_order::<T>()(s[i], s[s.len() - 1]));
            T::lemma_key_order(s.last().key(), s.last().key(), s.last().key());
        }
        assert(s =~= d.push(s.last()));
    }
}

} // verus!
