//! Stable ordering of timed items by their start tick.

use vstd::prelude::*;
use vstd::multiset::Multiset;

verus! {

/// Items that carry a start tick.
pub trait TickKeyed {
    spec fn key(&self) -> u32;

    fn tick_key(&self) -> (r: u32)
        ensures
            r == self.key(),
    ;
}

/// Where an item with tick `k` goes in `s`: after the longest suffix of
/// items whose tick is greater than `k`.
pub open spec fn ins_pos<T: TickKeyed>(s: Seq<T>, k: u32) -> int
    decreases s.len(),
{
    if s.len() == 0 || s.last().key() <= k {
        s.len() as int
    } else {
        ins_pos(s.drop_last(), k)
    }
}

/// Stable sort by tick: each item, in order, is placed after every earlier
/// item whose tick is not greater than its own.
pub open spec fn tick_sort<T: TickKeyed>(s: Seq<T>) -> Seq<T>
    decreases s.len(),
{
    if s.len() == 0 {
        s
    } else {
        let t = tick_sort(s.drop_last());
        t.insert(ins_pos(t, s.last().key()), s.last())
    }
}

/// Ticks never decrease along `s`.
pub open spec fn sorted_by_tick<T: TickKeyed>(s: Seq<T>) -> bool {
    forall|i: int, j: int| 0 <= i <= j < s.len() ==> s[i].key() <= s[j].key()
}

/// The test "has tick `k`".
pub open spec fn has_tick<T: TickKeyed>(k: u32) -> spec_fn(T) -> bool {
    |x: T| x.key() == k
}

/// The items of `s` whose tick is `k`, in order.
pub open spec fn with_tick<T: TickKeyed>(s: Seq<T>, k: u32) -> Seq<T> {
    s.filter(has_tick(k))
}

/// Sorts `v` by tick, keeping items with equal ticks in the order they came in.
pub fn sort_by_tick<T: TickKeyed + Copy>(v: Vec<T>) -> (r: Vec<T>)
    ensures
        r@ == tick_sort(v@),
{
    let mut out: Vec<T> = Vec::new();
    let mut i: usize = 0;
    while i < v.len()
        invariant
            i <= v@.len(),
            out@ == tick_sort(v@.take(i as int)),
        decreases v@.len() - i,
    {
        let x = v[i];
        let k = x.tick_key();
        let mut p: usize = out.len();
        assert(out@.take(p as int) =~= out@);
        while p > 0 && out[p - 1].tick_key() > k
            invariant
                p <= out@.len(),
                ins_pos(out@, k) == ins_pos(out@.take(p as int), k),
            decreases p,
        {
            assert(out@.take(p as int).drop_last() =~= out@.take(p - 1));
            p = p - 1;
        }
        proof {
            assert(out@.take(out@.len() as int) =~= out@);
            if p > 0 {
                assert(out@.take(p as int).last() == out@[p - 1]);
            }
            assert(ins_pos(out@, k) == p);
            assert(v@.take(i + 1).drop_last() =~= v@.take(i as int));
            assert(v@.take(i + 1).last() == x);
        }
        out.insert(p, x);
        i = i + 1;
    }
    assert(v@.take(v@.len() as int) =~= v@);
    out
}

proof fn lemma_ins_pos<T: TickKeyed>(s: Seq<T>, k: u32)
    requires
        sorted_by_tick(s),
    ensures
        0 <= ins_pos(s, k) <= s.len(),
        forall|i: int| 0 <= i < ins_pos(s, k) ==> s[i].key() <= k,
        forall|i: int| ins_pos(s, k) <= i < s.len() ==> s[i].key() > k,
    decreases s.len(),
{
    if s.len() > 0 && s.last().key() > k {
        let d = s.drop_last();
        assert(sorted_by_tick(d));
        lemma_ins_pos(d, k);
        assert forall|i: int| ins_pos(s, k) <= i < s.len() implies s[i].key() > k by {
            if i < s.len() - 1 {
                assert(s[i] == d[i]);
            }
        }
        assert forall|i: int| 0 <= i < ins_pos(s, k) implies s[i].key() <= k by {
            assert(s[i] == d[i]);
        }
    } else if s.len() > 0 {
        assert forall|i: int| 0 <= i < ins_pos(s, k) implies s[i].key() <= k by {
            assert(s[i].key() <= s[s.len() - 1].key());
        }
    }
}

/// A stable sort by tick yields a sequence whose ticks never decrease.
pub proof fn lemma_tick_sort_sorted<T: TickKeyed>(s: Seq<T>)
    ensures
        sorted_by_tick(tick_sort(s)),
        tick_sort(s).len() == s.len(),
    decreases s.len(),
{
    if s.len() > 0 {
        let t = tick_sort(s.drop_last());
        lemma_tick_sort_sorted(s.drop_last());
        let k = s.last().key();
        lemma_ins_pos(t, k);
        let p = ins_pos(t, k);
        let u = t.insert(p, s.last());
        assert forall|i: int, j: int| 0 <= i <= j < u.len() implies u[i].key() <= u[j].key() by {
            if i < p && j < p {
                assert(u[i] == t[i] && u[j] == t[j]);
            } else if i < p && j == p {
                assert(u[i] == t[i]);
            } else if i < p {
                assert(u[i] == t[i] && u[j] == t[j - 1]);
            } else if i == p && j > p {
                assert(u[j] == t[j - 1]);
            } else if i > p {
                assert(u[i] == t[i - 1] && u[j] == t[j - 1]);
            }
        }
    }
}

/// A stable sort by tick rearranges its input: it holds the same items,
/// each as many times.
pub proof fn lemma_tick_sort_permutes<T: TickKeyed>(s: Seq<T>)
    ensures
        tick_sort(s).to_multiset() == s.to_multiset(),
    decreases s.len(),
{
    broadcast use vstd::seq_lib::group_to_multiset_ensures;
    if s.len() > 0 {
        let d = s.drop_last();
        let t = tick_sort(d);
        lemma_tick_sort_permutes(d);
        lemma_tick_sort_sorted(d);
        lemma_ins_pos_bounds(t, s.last().key());
        vstd::seq_lib::lemma_seq_union_to_multiset_commutative(seq![s.last()], d);
        assert(s =~= d.push(s.last()));
        t.insert_ensures(ins_pos(t, s.last().key()), s.last());
        lemma_insert_multiset(t, ins_pos(t, s.last().key()), s.last());
    }
}

proof fn lemma_with_tick_none<T: TickKeyed>(s: Seq<T>, k: u32)
    requires
        forall|i: int| 0 <= i < s.len() ==> #[trigger] s[i].key() != k,
    ensures
        with_tick(s, k) == Seq::<T>::empty(),
    decreases s.len(),
{
    reveal(Seq::filter);
    if s.len() > 0 {
        lemma_with_tick_none(s.drop_last(), k);
        assert(!(has_tick::<T>(k))(s.last()));
    }
}

/// The sort by tick is stable: the items that share any one tick come out
/// in the order in which they went in.
pub proof fn lemma_tick_sort_stable<T: TickKeyed>(s: Seq<T>, k: u32)
    ensures
        with_tick(tick_sort(s), k) == with_tick(s, k),
    decreases s.len(),
{
    reveal(Seq::filter);
    if s.len() > 0 {
        let d = s.drop_last();
        let x = s.last();
        let t = tick_sort(d);
        let f = has_tick::<T>(k);
        lemma_tick_sort_stable(d, k);
        lemma_tick_sort_sorted(d);
        lemma_ins_pos(t, x.key());
        let p = ins_pos(t, x.key());
        let a = t.take(p);
        let b = t.skip(p);
        assert(t =~= a + b);
        assert(t.insert(p, x) =~= a + (seq![x] + b));
        Seq::filter_distributes_over_add(a, b, f);
        Seq::filter_distributes_over_add(seq![x], b, f);
        Seq::filter_distributes_over_add(a, seq![x] + b, f);
        assert(seq![x].drop_last() =~= Seq::<T>::empty());
        assert(Seq::<T>::empty().filter(f) == Seq::<T>::empty());
        if x.key() == k {
            assert(f(x));
            assert(seq![x].filter(f) =~= seq![x]);
            assert forall|i: int| 0 <= i < b.len() implies #[trigger] b[i].key() != k by {
                assert(b[i] == t[p + i]);
            }
            lemma_with_tick_none(b, k);
            assert(with_tick(t.insert(p, x), k) =~= a.filter(f).push(x));
            assert(with_tick(t, k) =~= a.filter(f));
        } else {
            assert(!f(x));
            assert(seq![x].filter(f) =~= Seq::<T>::empty());
            assert(with_tick(t.insert(p, x), k) =~= a.filter(f) + b.filter(f));
        }
    }
}

proof fn lemma_ins_pos_bounds<T: TickKeyed>(s: Seq<T>, k: u32)
    ensures
        0 <= ins_pos(s, k) <= s.len(),
    decreases s.len(),
{
    if s.len() > 0 && s.last().key() > k {
        lemma_ins_pos_bounds(s.drop_last(), k);
    }
}

proof fn lemma_insert_multiset<T>(s: Seq<T>, p: int, x: T)
    requires
        0 <= p <= s.len(),
    ensures
        s.insert(p, x).to_multiset() == s.to_multiset().insert(x),
{
    broadcast use vstd::seq_lib::group_to_multiset_ensures;
    let a = s.take(p);
    let b = s.skip(p);
    assert(s =~= a + b);
    assert(s.insert(p, x) =~= a + (seq![x] + b));
    vstd::seq_lib::lemma_multiset_commutative(a, b);
    vstd::seq_lib::lemma_multiset_commutative(a, seq![x] + b);
    vstd::seq_lib::lemma_multiset_commutative(seq![x], b);
    assert(seq![x].to_multiset() =~= Multiset::empty().insert(x)) by {
        assert(seq![x] =~= Seq::<T>::empty().push(x));
    }
}

} // verus!
