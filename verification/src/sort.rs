use vstd::prelude::*;

verus! {

/// `s` with `x` placed after every element whose key is at most `x`'s key
/// and before the elements behind them whose key is greater.
pub open spec fn insert_by_key<T>(s: Seq<(u32, T)>, x: (u32, T)) -> Seq<(u32, T)>
    decreases s.len(),
{
    if s.len() == 0 {
        seq![x]
    } else if s.last().0 <= x.0 {
        s.push(x)
    } else {
        insert_by_key(s.drop_last(), x).push(s.last())
    }
}

/// The elements of `s` in the order of their keys; elements with equal keys
/// keep their order (the stable sort of `s` by key).
pub open spec fn sorted_by_key<T>(s: Seq<(u32, T)>) -> Seq<(u32, T)>
    decreases s.len(),
{
    if s.len() == 0 {
        Seq::empty()
    } else {
        insert_by_key(sorted_by_key(s.drop_last()), s.last())
    }
}

/// The keys of `s` never decrease.
pub open spec fn keys_ascending<T>(s: Seq<(u32, T)>) -> bool {
    forall|i: int, j: int| 0 <= i <= j < s.len() ==> #[trigger] s[i].0 <= #[trigger] s[j].0
}

/// The elements of `s` whose key is `k`, in the order in which they occur.
pub open spec fn with_key<T>(s: Seq<(u32, T)>, k: u32) -> Seq<(u32, T)> {
    s.filter(|e: (u32, T)| e.0 == k)
}

/// The items of `items` paired with the keys of `keys`.
pub open spec fn keyed<T>(items: Seq<T>, keys: Seq<u32>) -> Seq<(u32, T)> {
    Seq::new(items.len(), |i: int| (keys[i], items[i]))
}

/// Inserting at the position found by scanning back over greater keys is
/// what `insert_by_key` describes.
proof fn lemma_insert_at<T>(s: Seq<(u32, T)>, x: (u32, T), p: int)
    requires
        0 <= p <= s.len(),
        forall|j: int| p <= j < s.len() ==> #[trigger] s[j].0 > x.0,
        p == 0 || s[p - 1].0 <= x.0,
    ensures
        insert_by_key(s, x) == s.take(p).push(x) + s.skip(p),
    decreases s.len(),
{
    if s.len() == 0 {
        assert(s.take(p).push(x) + s.skip(p) =~= seq![x]);
    } else if p == s.len() {
        assert(s.take(p).push(x) + s.skip(p) =~= s.push(x));
    } else {
        let d = s.drop_last();
        lemma_insert_at(d, x, p);
        assert(d.take(p).push(x) + d.skip(p) + seq![s.last()] =~= s.take(p).push(x) + s.skip(p));
    }
}

/// Stable sort of `items` by `keys`: the items come out in the order of
/// their keys, items with equal keys in the order in which they came.
pub fn stable_sort_by_key<T: Copy>(items: &Vec<T>, keys: &Vec<u32>) -> (sorted: Vec<T>)
    requires
        keys.len() == items.len(),
    ensures
        sorted@ == sorted_by_key(keyed(items@, keys@)).map_values(|e: (u32, T)| e.1),
        keys_ascending(sorted_by_key(keyed(items@, keys@))),
        sorted_by_key(keyed(items@, keys@)).to_multiset() == keyed(items@, keys@).to_multiset(),
        forall|k: u32| #[trigger] with_key(sorted_by_key(keyed(items@, keys@)), k) == with_key(keyed(items@, keys@), k),
{
    proof {
        lemma_sorted_by_key(keyed(items@, keys@));
        assert forall|k: u32| #[trigger] with_key(sorted_by_key(keyed(items@, keys@)), k) == with_key(
            keyed(items@, keys@),
            k,
        ) by {
            lemma_sorted_by_key_stable(keyed(items@, keys@), k);
        }
    }
    let ghost all = keyed(items@, keys@);
    let mut pairs: Vec<(u32, T)> = Vec::new();
    let mut i: usize = 0;
    while i < items.len()
        invariant
            i <= items.len(),
            keys.len() == items.len(),
            all == keyed(items@, keys@),
            pairs@ == sorted_by_key(all.take(i as int)),
        decreases items.len() - i,
    {
        let x = (keys[i], items[i]);
        let mut p: usize = pairs.len();
        while p > 0 && pairs[p - 1].0 > x.0
            invariant
                p <= pairs.len(),
                forall|j: int| p <= j < pairs.len() ==> #[trigger] pairs@[j].0 > x.0,
            decreases p,
        {
            p = p - 1;
        }
        proof {
            lemma_insert_at(pairs@, x, p as int);
            assert(all.take(i + 1).drop_last() =~= all.take(i as int));
            assert(all.take(i + 1).last() == x);
        }
        pairs.insert(p, x);
        proof {
            assert(pairs@ =~= insert_by_key(sorted_by_key(all.take(i as int)), x));
        }
        i = i + 1;
    }
    proof {
        assert(all.take(i as int) =~= all);
    }
    let mut sorted: Vec<T> = Vec::new();
    let mut k: usize = 0;
    while k < pairs.len()
        invariant
            k <= pairs.len(),
            sorted@ == pairs@.take(k as int).map_values(|e: (u32, T)| e.1),
        decreases pairs.len() - k,
    {
        sorted.push(pairs[k].1);
        proof {
            assert(pairs@.take(k + 1).map_values(|e: (u32, T)| e.1) =~= pairs@.take(k as int).map_values(
                |e: (u32, T)| e.1,
            ).push(pairs@[k as int].1));
        }
        k = k + 1;
    }
    proof {
        assert(pairs@.take(k as int) =~= pairs@);
    }
    sorted
}

/// Inserting into a sequence whose keys ascend keeps them ascending and
/// adds exactly one element.
pub proof fn lemma_insert_by_key_ascending<T>(s: Seq<(u32, T)>, x: (u32, T))
    requires
        keys_ascending(s),
    ensures
        keys_ascending(insert_by_key(s, x)),
        insert_by_key(s, x).to_multiset() == s.to_multiset().insert(x),
    decreases s.len(),
{
    broadcast use vstd::multiset::group_multiset_axioms;
    broadcast use vstd::seq_lib::group_to_multiset_ensures;
    if s.len() == 0 {
        assert(seq![x] =~= Seq::<(u32, T)>::empty().push(x));
    } else if s.last().0 <= x.0 {
    } else {
        let d = s.drop_last();
        assert(s =~= d.push(s.last()));
        lemma_insert_by_key_ascending(d, x);
        let r = insert_by_key(d, x);
        assert forall|i: int| 0 <= i < r.len() implies #[trigger] r[i].0 <= s.last().0 by {
            assert(r.to_multiset().count(r[i]) > 0);
            assert(d.to_multiset().insert(x).count(r[i]) > 0);
            if r[i] != x {
                assert(d.to_multiset().count(r[i]) > 0);
                assert(d.contains(r[i]));
                let j = choose|j: int| 0 <= j < d.len() && d[j] == r[i];
                assert(s[j] == d[j]);
            }
        }
    }
}

/// The stable sort puts the keys in ascending order and keeps every
/// element, as many times as it occurs.
pub proof fn lemma_sorted_by_key<T>(s: Seq<(u32, T)>)
    ensures
        keys_ascending(sorted_by_key(s)),
        sorted_by_key(s).to_multiset() == s.to_multiset(),
    decreases s.len(),
{
    broadcast use vstd::multiset::group_multiset_axioms;
    broadcast use vstd::seq_lib::group_to_multiset_ensures;
    if s.len() > 0 {
        lemma_sorted_by_key(s.drop_last());
        lemma_insert_by_key_ascending(sorted_by_key(s.drop_last()), s.last());
        assert(s =~= s.drop_last().push(s.last()));
    }
}

/// Inserting `x` adds it behind the elements that share its key and
/// leaves the elements of every other key as they were.
pub proof fn lemma_insert_by_key_stable<T>(s: Seq<(u32, T)>, x: (u32, T), k: u32)
    ensures
        with_key(insert_by_key(s, x), k) == if x.0 == k {
            with_key(s, k).push(x)
        } else {
            with_key(s, k)
        },
    decreases s.len(),
{
    reveal(Seq::filter);
    if s.len() == 0 {
        assert(seq![x].drop_last() =~= s);
    } else if s.last().0 <= x.0 {
        assert(s.push(x).drop_last() =~= s);
    } else {
        let d = s.drop_last();
        lemma_insert_by_key_stable(d, x, k);
        let r = insert_by_key(d, x);
        assert(r.push(s.last()).drop_last() =~= r);
        assert(r.push(s.last()).last() == s.last());
    }
}

/// The stable sort keeps, for every key, the elements with that key in the
/// order in which they came.
pub proof fn lemma_sorted_by_key_stable<T>(s: Seq<(u32, T)>, k: u32)
    ensures
        with_key(sorted_by_key(s), k) == with_key(s, k),
    decreases s.len(),
{
    reveal(Seq::filter);
    if s.len() > 0 {
        let d = s.drop_last();
        lemma_sorted_by_key_stable(d, k);
        lemma_insert_by_key_stable(sorted_by_key(d), s.last(), k);
    }
}

} // verus!
