use vstd::prelude::*;
use crate::event::{Event, FutureEvent};

verus! {

/// A value that is ordered by an integer key, and can be copied.
pub trait Keyed: Sized {
    spec fn key(&self) -> u64;

    fn duplicate(&self) -> (r: Self)
        ensures
            r == *self,
    ;

    fn sort_key(&self) -> (k: u64)
        ensures
            k == self.key(),
    ;
}

impl Keyed for Event {
    open spec fn key(&self) -> u64 {
        self.time as u64
    }

    fn duplicate(&self) -> (r: Event) {
        Event { name: self.name.clone(), time: self.time }
    }

    fn sort_key(&self) -> (k: u64) {
        self.time as u64
    }
}

impl Keyed for FutureEvent {
    open spec fn key(&self) -> u64 {
        self.days_left as u64
    }

    fn duplicate(&self) -> (r: FutureEvent) {
        FutureEvent { name: self.name.clone(), days_left: self.days_left }
    }

    fn sort_key(&self) -> (k: u64) {
        self.days_left as u64
    }
}

/// A copy of `v`.
pub fn copy_all<T: Keyed>(v: &Vec<T>) -> (r: Vec<T>)
    ensures
        r@ == v@,
{
    let mut r: Vec<T> = Vec::new();
    let mut i: usize = 0;
    while i < v.len()
        invariant
            i <= v@.len(),
            r@ == v@.take(i as int),
        decreases v@.len() - i,
    {
        r.push(v[i].duplicate());
        i = i + 1;
        assert(r@ == v@.take(i as int));
    }
    assert(v@.take(v@.len() as int) == v@);
    r
}

/// Whether key `a` may stand before key `b`: increasing when `asc`, else decreasing.
pub open spec fn comes_first(asc: bool, a: u64, b: u64) -> bool {
    if asc {
        a <= b
    } else {
        a >= b
    }
}

/// Every element stands before every later one as `asc` asks.
pub open spec fn ordered_by_key<T: Keyed>(s: Seq<T>, asc: bool) -> bool {
    forall|i: int, j: int|
        #![trigger s[i], s[j]]
        0 <= i < j < s.len() ==> comes_first(asc, s[i].key(), s[j].key())
}

/// The predicate "has key `k`".
pub open spec fn has_key<T: Keyed>(k: u64) -> spec_fn(T) -> bool {
    |e: T| e.key() == k
}

/// The elements of `s` with key `k`, in their order.
pub open spec fn with_key<T: Keyed>(s: Seq<T>, k: u64) -> Seq<T> {
    s.filter(has_key::<T>(k))
}

/// `r` is `s` sorted by key as `asc` asks, elements with equal keys keeping
/// their relative order.
pub open spec fn sorted_stably<T: Keyed>(r: Seq<T>, s: Seq<T>, asc: bool) -> bool {
    &&& ordered_by_key(r, asc)
    &&& forall|k: u64| #[trigger] with_key(r, k) == with_key(s, k)
}

/// Executable form of `comes_first`.
fn key_comes_first(asc: bool, a: u64, b: u64) -> (r: bool)
    ensures
        r == comes_first(asc, a, b),
{
    if asc {
        a <= b
    } else {
        a >= b
    }
}

/// The first position of `out` whose key `k` may stand before.
fn insertion_point<T: Keyed>(out: &Vec<T>, k: u64, asc: bool) -> (p: usize)
    ensures
        p <= out@.len(),
        forall|j: int| 0 <= j < p ==> !comes_first(asc, k, #[trigger] out@[j].key()),
        p < out@.len() ==> comes_first(asc, k, out@[p as int].key()),
{
    let mut p: usize = 0;
    while p < out.len()
        invariant
            p <= out@.len(),
            forall|j: int| 0 <= j < p ==> !comes_first(asc, k, #[trigger] out@[j].key()),
        decreases out@.len() - p,
    {
        if key_comes_first(asc, k, out[p].sort_key()) {
            return p;
        }
        p = p + 1;
    }
    p
}

/// Inserting `x` at its insertion point keeps `out` a stable sort of the
/// sequence that `x` now heads.
proof fn lemma_insert_sorted<T: Keyed>(out: Seq<T>, suf: Seq<T>, x: T, p: int, asc: bool)
    requires
        sorted_stably(out, suf, asc),
        0 <= p <= out.len(),
        forall|j: int| 0 <= j < p ==> !comes_first(asc, x.key(), #[trigger] out[j].key()),
        p < out.len() ==> comes_first(asc, x.key(), out[p].key()),
    ensures
        sorted_stably(out.insert(p, x), seq![x] + suf, asc),
{
    let r = out.insert(p, x);
    let a = out.subrange(0, p);
    let b = out.subrange(p, out.len() as int);
    out.insert_ensures(p, x);
    assert(out == a + b);
    assert(r == a.push(x) + b);
    assert forall|i: int, j: int| 0 <= i < j < r.len() implies comes_first(
        asc,
        #[trigger] r[i].key(),
        #[trigger] r[j].key(),
    ) by {
        if j < p {
            assert(r[i] == out[i] && r[j] == out[j]);
        } else if j == p {
            assert(r[i] == out[i]);
            assert(!comes_first(asc, x.key(), out[i].key()));
        } else if i < p {
            assert(r[i] == out[i] && r[j] == out[j - 1]);
            assert(!comes_first(asc, x.key(), out[i].key()));
            assert(comes_first(asc, x.key(), out[p].key()));
            if p < j - 1 {
                assert(comes_first(asc, out[p].key(), out[j - 1].key()));
            }
        } else if i == p {
            assert(r[j] == out[j - 1]);
            if p < j - 1 {
                assert(comes_first(asc, out[p].key(), out[j - 1].key()));
            }
        } else {
            assert(r[i] == out[i - 1] && r[j] == out[j - 1]);
        }
    }
    assert forall|k: u64| #[trigger] with_key(r, k) == with_key(seq![x] + suf, k) by {
        let pred = has_key::<T>(k);
        Seq::filter_distributes_over_add(a.push(x), b, pred);
        Seq::filter_distributes_over_add(a, b, pred);
        a.lemma_filter_push(x, pred);
        suf.lemma_filter_prepend(x, pred);
        assert(with_key(out, k) == with_key(suf, k));
        if x.key() == k {
            assert forall|j: int| 0 <= j < a.len() implies !pred(#[trigger] a[j]) by {
                assert(a[j] == out[j]);
                assert(!comes_first(asc, x.key(), out[j].key()));
            }
            a.lemma_all_neg_filter_empty(pred);
            assert(a.filter(pred) == Seq::<T>::empty());
            assert(with_key(r, k) == seq![x] + with_key(out, k));
        } else {
            assert(with_key(r, k) == with_key(out, k));
        }
    }
}

/// `v` sorted by key, increasing when `asc` and decreasing otherwise; elements
/// with equal keys keep their relative order.
pub fn sort_by_key<T: Keyed>(v: Vec<T>, asc: bool) -> (r: Vec<T>)
    ensures
        sorted_stably(r@, v@, asc),
        r@.to_multiset() == v@.to_multiset(),
{
    let ghost s = v@;
    let mut rest = v;
    let mut out: Vec<T> = Vec::new();
    proof {
        assert(s.skip(s.len() as int) == Seq::<T>::empty());
        assert forall|k: u64| #[trigger] with_key(out@, k) == with_key(s.skip(s.len() as int), k) by {
            reveal(Seq::filter);
        }
        broadcast use vstd::seq_lib::group_to_multiset_ensures;
        broadcast use vstd::multiset::group_multiset_axioms;
        assert(rest@.to_multiset().add(out@.to_multiset()) =~= s.to_multiset());
    }
    while rest.len() > 0
        invariant
            rest@ == s.take(rest@.len() as int),
            rest@.len() <= s.len(),
            sorted_stably(out@, s.skip(rest@.len() as int), asc),
            rest@.to_multiset().add(out@.to_multiset()) == s.to_multiset(),
        decreases rest@.len(),
    {
        let ghost before = rest@;
        let ghost old_out = out@;
        let x = rest.pop().unwrap();
        let p = insertion_point(&out, x.sort_key(), asc);
        proof {
            let n = rest@.len() as int;
            assert(s.skip(n) == seq![x] + s.skip(n + 1));
            lemma_insert_sorted(out@, s.skip(n + 1), x, p as int, asc);
            assert(before == rest@.push(x));
        }
        out.insert(p, x);
        proof {
            broadcast use vstd::seq_lib::group_to_multiset_ensures;
            broadcast use vstd::multiset::group_multiset_axioms;
            let a = old_out.subrange(0, p as int);
            let b = old_out.subrange(p as int, old_out.len() as int);
            assert(old_out == a + b);
            assert(out@ == a.push(x) + b);
            vstd::seq_lib::lemma_multiset_commutative(a.push(x), b);
            vstd::seq_lib::lemma_multiset_commutative(a, b);
            assert(rest@.to_multiset().add(out@.to_multiset()) =~= s.to_multiset());
        }
    }
    proof {
        assert(s.skip(0) == s);
        broadcast use vstd::seq_lib::group_to_multiset_ensures;
        broadcast use vstd::multiset::group_multiset_axioms;
        assert(out@.to_multiset() =~= s.to_multiset());
    }
    out
}

} // verus!
