//! Strict total orders and the sorted, duplicate-free vectors built on them:
//! sorting, union and intersection of sorted vectors.
use vstd::prelude::*;

verus! {

/// A strict total order on the views of a type, with an executable comparison.
pub trait StrictOrder: View + Sized {
    spec fn precedes(a: Self::V, b: Self::V) -> bool;

    proof fn lemma_irreflexive(a: Self::V)
        ensures
            !Self::precedes(a, a),
    ;

    proof fn lemma_transitive(a: Self::V, b: Self::V, c: Self::V)
        requires
            Self::precedes(a, b),
            Self::precedes(b, c),
        ensures
            Self::precedes(a, c),
    ;

    proof fn lemma_total(a: Self::V, b: Self::V)
        ensures
            Self::precedes(a, b) || Self::precedes(b, a) || a == b,
    ;

    fn precedes_exec(&self, other: &Self) -> (r: bool)
        ensures
            r == Self::precedes(self@, other@),
    ;
}

/// The views of the elements of a sequence.
pub open spec fn views<T: View>(s: Seq<T>) -> Seq<T::V> {
    s.map_values(|x: T| x@)
}

/// Every element precedes every later one: sorted, with no element twice.
pub open spec fn strictly_sorted<T: StrictOrder>(s: Seq<T::V>) -> bool {
    forall|i: int, j: int| 0 <= i < j < s.len() ==> T::precedes(s[i], s[j])
}

/// The set of views held by a vector.
pub open spec fn view_set<T: View>(v: Seq<T>) -> Set<T::V> {
    views(v).to_set()
}

pub proof fn lemma_views_push<T: View>(s: Seq<T>, x: T)
    ensures
        views(s.push(x)) == views(s).push(x@),
{
    assert(views(s.push(x)) =~= views(s).push(x@));
}

proof fn lemma_views_drop_last<T: View>(s: Seq<T>)
    requires
        s.len() > 0,
    ensures
        views(s.drop_last()) == views(s).drop_last(),
        views(s).last() == s.last()@,
{
    assert(views(s.drop_last()) =~= views(s).drop_last());
}

pub proof fn lemma_to_set_push<A>(s: Seq<A>, x: A)
    ensures
        s.push(x).to_set() == s.to_set().insert(x),
{
    assert(s.push(x).to_set() =~= s.to_set().insert(x)) by {
        assert forall|y: A| s.push(x).to_set().contains(y) implies s.to_set().insert(x).contains(
            y,
        ) by {
            let k = choose|k: int| 0 <= k < s.push(x).len() && s.push(x)[k] == y;
            if k < s.len() {
                assert(s[k] == y);
            }
        }
        assert forall|y: A| s.to_set().insert(x).contains(y) implies s.push(x).to_set().contains(
            y,
        ) by {
            if y == x {
                assert(s.push(x)[s.len() as int] == x);
            } else {
                let k = choose|k: int| 0 <= k < s.len() && s[k] == y;
                assert(s.push(x)[k] == y);
            }
        }
    }
}

proof fn lemma_to_set_drop_last<A>(s: Seq<A>)
    requires
        s.len() > 0,
    ensures
        s.to_set() == s.drop_last().to_set().insert(s.last()),
{
    assert(s.drop_last().push(s.last()) =~= s);
    lemma_to_set_push(s.drop_last(), s.last());
}

/// Removes the last element of a vector, returning it.
fn pop_last<T: View>(v: &mut Vec<T>) -> (res: T)
    requires
        old(v)@.len() > 0,
    ensures
        final(v)@ == old(v)@.drop_last(),
        res == old(v)@.last(),
{
    let r = v.pop();
    r.unwrap()
}

/// Reverses a vector whose elements strictly descend, giving a strictly sorted one.
fn reverse_descending<T: StrictOrder>(rev: Vec<T>) -> (res: Vec<T>)
    requires
        forall|i: int, j: int|
            0 <= i < j < rev@.len() ==> T::precedes(views(rev@)[j], views(rev@)[i]),
    ensures
        strictly_sorted::<T>(views(res@)),
        view_set(res@) == view_set(rev@),
{
    let mut rev = rev;
    let ghost orig = rev@;
    let mut out: Vec<T> = Vec::new();
    while rev.len() > 0
        invariant
            orig.len() == rev@.len() + out@.len(),
            forall|k: int| 0 <= k < rev@.len() ==> rev@[k] == orig[k],
            forall|k: int|
                0 <= k < out@.len() ==> out@[k] == #[trigger] orig[orig.len() - 1 - k],
            forall|i: int, j: int|
                0 <= i < j < orig.len() ==> T::precedes(views(orig)[j], views(orig)[i]),
        decreases rev@.len(),
    {
        let x = pop_last(&mut rev);
        out.push(x);
    }
    proof {
        assert forall|i: int, j: int| 0 <= i < j < views(out@).len() implies T::precedes(
            views(out@)[i],
            views(out@)[j],
        ) by {
            assert(out@[i] == orig[orig.len() - 1 - i]);
            assert(out@[j] == orig[orig.len() - 1 - j]);
            assert(views(orig)[orig.len() - 1 - i] == views(out@)[i]);
            assert(views(orig)[orig.len() - 1 - j] == views(out@)[j]);
        }
        assert forall|x: T::V| view_set(out@).contains(x) implies view_set(orig).contains(x) by {
            let k = choose|k: int| 0 <= k < views(out@).len() && views(out@)[k] == x;
            assert(out@[k] == orig[orig.len() - 1 - k]);
            assert(views(orig)[orig.len() - 1 - k] == x);
        }
        assert forall|x: T::V| view_set(orig).contains(x) implies view_set(out@).contains(x) by {
            let k = choose|k: int| 0 <= k < views(orig).len() && views(orig)[k] == x;
            let m = orig.len() - 1 - k;
            assert(out@[m] == orig[orig.len() - 1 - m]);
            assert(views(out@)[m] == x);
        }
        assert(view_set(out@) =~= view_set(orig));
    }
    out
}

/// The merge invariant: what is left of `a` and `b` comes before everything
/// already taken, which strictly descends.
pub open spec fn merge_state<T: StrictOrder>(a: Seq<T::V>, b: Seq<T::V>, rev: Seq<T::V>) -> bool {
    &&& strictly_sorted::<T>(a)
    &&& strictly_sorted::<T>(b)
    &&& forall|i: int, j: int| 0 <= i < j < rev.len() ==> T::precedes(rev[j], rev[i])
    &&& forall|i: int, j: int|
        0 <= i < a.len() && 0 <= j < rev.len() ==> T::precedes(a[i], rev[j])
    &&& forall|i: int, j: int|
        0 <= i < b.len() && 0 <= j < rev.len() ==> T::precedes(b[i], rev[j])
}

proof fn lemma_sorted_last_max<T: StrictOrder>(a: Seq<T::V>, i: int)
    requires
        strictly_sorted::<T>(a),
        0 <= i < a.len() - 1,
    ensures
        T::precedes(a[i], a.last()),
{
}

/// Moving the largest remaining element onto the descending output keeps the merge invariant.
proof fn lemma_merge_step<T: StrictOrder>(
    a: Seq<T::V>,
    b: Seq<T::V>,
    rev: Seq<T::V>,
    x: T::V,
    new_a: Seq<T::V>,
    new_b: Seq<T::V>,
)
    requires
        merge_state::<T>(a, b, rev),
        (a.len() > 0 && x == a.last() && new_a == a.drop_last()) || (b.len() > 0 && x == b.last()
            && new_b == b.drop_last()),
        a.len() > 0 && x == a.last() ==> new_a == a.drop_last(),
        !(a.len() > 0 && x == a.last()) ==> new_a == a,
        b.len() > 0 && x == b.last() ==> new_b == b.drop_last(),
        !(b.len() > 0 && x == b.last()) ==> new_b == b,
        a.len() > 0 ==> (a.last() == x || T::precedes(a.last(), x)),
        b.len() > 0 ==> (b.last() == x || T::precedes(b.last(), x)),
    ensures
        merge_state::<T>(new_a, new_b, rev.push(x)),
{
    let nr = rev.push(x);
    assert forall|i: int, j: int| 0 <= i < j < nr.len() implies T::precedes(nr[j], nr[i]) by {
        if j == rev.len() {
            // x comes from a or b, both of which precede all of rev
            if a.len() > 0 && x == a.last() {
                assert(T::precedes(a[a.len() - 1], rev[i]));
            } else {
                assert(T::precedes(b[b.len() - 1], rev[i]));
            }
        }
    }
    assert forall|i: int, j: int| 0 <= i < new_a.len() && 0 <= j < nr.len() implies T::precedes(
        new_a[i],
        nr[j],
    ) by {
        if j == rev.len() {
            if a.len() > 0 && x == a.last() {
                lemma_sorted_last_max::<T>(a, i);
            } else {
                assert(new_a == a);
                if i < a.len() - 1 {
                    lemma_sorted_last_max::<T>(a, i);
                    if a.last() != x {
                        T::lemma_transitive(a[i], a.last(), x);
                    }
                }
            }
        }
    }
    assert forall|i: int, j: int| 0 <= i < new_b.len() && 0 <= j < nr.len() implies T::precedes(
        new_b[i],
        nr[j],
    ) by {
        if j == rev.len() {
            if b.len() > 0 && x == b.last() {
                lemma_sorted_last_max::<T>(b, i);
            } else {
                assert(new_b == b);
                if i < b.len() - 1 {
                    lemma_sorted_last_max::<T>(b, i);
                    if b.last() != x {
                        T::lemma_transitive(b[i], b.last(), x);
                    }
                }
            }
        }
    }
}

/// The sorted union of two sorted vectors.
pub fn merge_union<T: StrictOrder>(a: Vec<T>, b: Vec<T>) -> (res: Vec<T>)
    requires
        strictly_sorted::<T>(views(a@)),
        strictly_sorted::<T>(views(b@)),
    ensures
        strictly_sorted::<T>(views(res@)),
        view_set(res@) == view_set(a@).union(view_set(b@)),
{
    let mut a = a;
    let mut b = b;
    let ghost total = view_set(a@).union(view_set(b@));
    let mut rev: Vec<T> = Vec::new();
    while a.len() > 0 || b.len() > 0
        invariant
            merge_state::<T>(views(a@), views(b@), views(rev@)),
            view_set(rev@).union(view_set(a@)).union(view_set(b@)) == total,
        decreases a@.len() + b@.len(),
    {
        let ghost (va, vb, vr) = (views(a@), views(b@), views(rev@));
        let take_a: bool;
        let take_b: bool;
        if a.len() == 0 {
            take_a = false;
            take_b = true;
        } else if b.len() == 0 {
            take_a = true;
            take_b = false;
        } else {
            let la = a.len() - 1;
            let lb = b.len() - 1;
            if a[la].precedes_exec(&b[lb]) {
                take_a = false;
                take_b = true;
            } else if b[lb].precedes_exec(&a[la]) {
                take_a = true;
                take_b = false;
            } else {
                proof {
                    T::lemma_total(a@[la as int]@, b@[lb as int]@);
                }
                take_a = true;
                take_b = true;
            }
        }
        let ghost (old_a, old_b) = (a@, b@);
        let x: T;
        if take_a {
            proof {
                lemma_views_drop_last(a@);
            }
            x = pop_last(&mut a);
            if take_b {
                proof {
                    lemma_views_drop_last(b@);
                }
                let _ = pop_last(&mut b);
            }
        } else {
            proof {
                lemma_views_drop_last(b@);
            }
            x = pop_last(&mut b);
        }
        proof {
            if take_a && !take_b && vb.len() > 0 {
                T::lemma_irreflexive(va.last());
            }
            if !take_a && va.len() > 0 {
                T::lemma_irreflexive(vb.last());
            }
            lemma_merge_step::<T>(va, vb, vr, x@, views(a@), views(b@));
            lemma_views_push(rev@, x);
            lemma_to_set_push(vr, x@);
            if va.len() > 0 {
                lemma_to_set_drop_last(va);
            }
            if vb.len() > 0 {
                lemma_to_set_drop_last(vb);
            }
        }
        rev.push(x);
        proof {
            assert(view_set(rev@).union(view_set(a@)).union(view_set(b@)) =~= total);
        }
    }
    proof {
        assert(view_set(a@) =~= Set::empty());
        assert(view_set(b@) =~= Set::empty());
        assert(view_set(rev@) =~= total);
    }
    reverse_descending(rev)
}


/// The sorted intersection of two sorted vectors.
pub fn merge_intersection<T: StrictOrder>(a: Vec<T>, b: Vec<T>) -> (res: Vec<T>)
    requires
        strictly_sorted::<T>(views(a@)),
        strictly_sorted::<T>(views(b@)),
    ensures
        strictly_sorted::<T>(views(res@)),
        view_set(res@) == view_set(a@).intersect(view_set(b@)),
{
    let mut a = a;
    let mut b = b;
    let ghost total = view_set(a@).intersect(view_set(b@));
    let mut rev: Vec<T> = Vec::new();
    while a.len() > 0 && b.len() > 0
        invariant
            merge_state::<T>(views(a@), views(b@), views(rev@)),
            view_set(rev@).union(view_set(a@).intersect(view_set(b@))) == total,
        decreases a@.len() + b@.len(),
    {
        let ghost (va, vb, vr) = (views(a@), views(b@), views(rev@));
        let la = a.len() - 1;
        let lb = b.len() - 1;
        proof {
            lemma_views_drop_last(a@);
            lemma_views_drop_last(b@);
            lemma_to_set_drop_last(va);
            lemma_to_set_drop_last(vb);
        }
        if a[la].precedes_exec(&b[lb]) {
            proof {
                // the last of b is larger than everything in a, so it is not in a
                assert(!va.to_set().contains(vb.last())) by {
                    if va.to_set().contains(vb.last()) {
                        let k = choose|k: int| 0 <= k < va.len() && va[k] == vb.last();
                        if k < va.len() - 1 {
                            lemma_sorted_last_max::<T>(va, k);
                            T::lemma_transitive(va[k], va.last(), vb.last());
                        }
                        T::lemma_irreflexive(vb.last());
                    }
                }
            }
            let _ = pop_last(&mut b);
            proof {
                assert(view_set(rev@).union(view_set(a@).intersect(view_set(b@))) =~= total);
            }
        } else if b[lb].precedes_exec(&a[la]) {
            proof {
                assert(!vb.to_set().contains(va.last())) by {
                    if vb.to_set().contains(va.last()) {
                        let k = choose|k: int| 0 <= k < vb.len() && vb[k] == va.last();
                        if k < vb.len() - 1 {
                            lemma_sorted_last_max::<T>(vb, k);
                            T::lemma_transitive(vb[k], vb.last(), va.last());
                        }
                        T::lemma_irreflexive(va.last());
                    }
                }
            }
            let _ = pop_last(&mut a);
            proof {
                assert(view_set(rev@).union(view_set(a@).intersect(view_set(b@))) =~= total);
            }
        } else {
            proof {
                T::lemma_total(va.last(), vb.last());
            }
            let x = pop_last(&mut a);
            let _ = pop_last(&mut b);
            proof {
                let x_v = va.last();
                assert(!views(a@).to_set().contains(x_v)) by {
                    if views(a@).to_set().contains(x_v) {
                        let k = choose|k: int| 0 <= k < views(a@).len() && views(a@)[k] == x_v;
                        lemma_sorted_last_max::<T>(va, k);
                        T::lemma_irreflexive(x_v);
                    }
                }
                assert(!views(b@).to_set().contains(x_v)) by {
                    if views(b@).to_set().contains(x_v) {
                        let k = choose|k: int| 0 <= k < views(b@).len() && views(b@)[k] == x_v;
                        lemma_sorted_last_max::<T>(vb, k);
                        T::lemma_irreflexive(x_v);
                    }
                }
                lemma_merge_step::<T>(va, vb, vr, x@, views(a@), views(b@));
                lemma_views_push(rev@, x);
                lemma_to_set_push(vr, x@);
            }
            rev.push(x);
            proof {
                assert(view_set(rev@).union(view_set(a@).intersect(view_set(b@))) =~= total);
            }
        }
    }
    proof {
        assert(view_set(a@).intersect(view_set(b@)) =~= Set::empty());
        assert(view_set(rev@) =~= total);
    }
    reverse_descending(rev)
}

pub proof fn lemma_view_set_concat<T: View>(a: Seq<T>, b: Seq<T>)
    ensures
        view_set(a + b) == view_set(a).union(view_set(b)),
{
    assert(views(a + b) =~= views(a) + views(b));
    assert forall|x: T::V| view_set(a + b).contains(x) implies view_set(a).union(
        view_set(b),
    ).contains(x) by {
        let k = choose|k: int| 0 <= k < views(a + b).len() && views(a + b)[k] == x;
        if k < a.len() {
            assert(views(a)[k] == x);
        } else {
            assert(views(b)[k - a.len()] == x);
        }
    }
    assert forall|x: T::V| view_set(a).union(view_set(b)).contains(x) implies view_set(
        a + b,
    ).contains(x) by {
        if view_set(a).contains(x) {
            let k = choose|k: int| 0 <= k < views(a).len() && views(a)[k] == x;
            assert(views(a + b)[k] == x);
        } else {
            let k = choose|k: int| 0 <= k < views(b).len() && views(b)[k] == x;
            assert(views(a + b)[k + a.len()] == x);
        }
    }
    assert(view_set(a + b) =~= view_set(a).union(view_set(b)));
}

/// Sorts a vector and removes repeated elements: the result is strictly
/// sorted and holds the same elements.
pub fn sort_unique<T: StrictOrder>(v: Vec<T>) -> (res: Vec<T>)
    ensures
        strictly_sorted::<T>(views(res@)),
        view_set(res@) == view_set(v@),
    decreases v@.len(),
{
    if v.len() <= 1 {
        return v;
    }
    let ghost whole = v@;
    let mut left = v;
    let mid = left.len() / 2;
    let right = left.split_off(mid);
    proof {
        assert(whole =~= left@ + right@);
        lemma_view_set_concat(left@, right@);
    }
    let l = sort_unique(left);
    let r = sort_unique(right);
    merge_union(l, r)
}

/// Two strictly sorted sequences with the same elements are equal.
pub proof fn lemma_sorted_unique<T: StrictOrder>(a: Seq<T::V>, b: Seq<T::V>)
    requires
        strictly_sorted::<T>(a),
        strictly_sorted::<T>(b),
        a.to_set() == b.to_set(),
    ensures
        a == b,
    decreases a.len(),
{
    if a.len() == 0 {
        if b.len() > 0 {
            assert(b.to_set().contains(b[0]));
        }
        assert(a =~= b);
    } else {
        assert(a.to_set().contains(a[0]));
        assert(b.len() > 0);
        assert(b.to_set().contains(b[0]));
        let j = choose|j: int| 0 <= j < b.len() && b[j] == a[0];
        let k = choose|k: int| 0 <= k < a.len() && a[k] == b[0];
        if j > 0 && k > 0 {
            T::lemma_transitive(a[0], a[k], a[0]);
            T::lemma_irreflexive(a[0]);
        } else if j > 0 {
            assert(a[0] == b[0]);
            T::lemma_irreflexive(b[0]);
        } else if k > 0 {
            T::lemma_irreflexive(a[0]);
        }
        assert(a[0] == b[0]);
        let (ra, rb) = (a.drop_first(), b.drop_first());
        assert forall|x: T::V| ra.to_set().contains(x) <==> rb.to_set().contains(x) by {
            if ra.to_set().contains(x) {
                let i = choose|i: int| 0 <= i < ra.len() && ra[i] == x;
                assert(a[i + 1] == x);
                assert(b.to_set().contains(x));
                let m = choose|m: int| 0 <= m < b.len() && b[m] == x;
                if m == 0 {
                    T::lemma_irreflexive(a[0]);
                }
                assert(rb[m - 1] == x);
            }
            if rb.to_set().contains(x) {
                let i = choose|i: int| 0 <= i < rb.len() && rb[i] == x;
                assert(b[i + 1] == x);
                assert(a.to_set().contains(x));
                let m = choose|m: int| 0 <= m < a.len() && a[m] == x;
                if m == 0 {
                    T::lemma_irreflexive(b[0]);
                }
                assert(ra[m - 1] == x);
            }
        }
        assert(ra.to_set() =~= rb.to_set());
        lemma_sorted_unique::<T>(ra, rb);
        assert(a =~= seq![a[0]] + ra);
        assert(b =~= seq![b[0]] + rb);
    }
}
} // verus!
