use vstd::prelude::*;

verus! {

/// Position `a` comes before position `b`: a larger key, or an equal key and
/// a smaller position.
pub open spec fn ranks_before(keys: Seq<int>, a: int, b: int) -> bool {
    keys[a] > keys[b] || (keys[a] == keys[b] && a < b)
}

/// `order` lists the first `min(n, keys.len())` positions of `keys` by
/// descending key, ties by ascending position.
pub open spec fn is_top_ranking(keys: Seq<int>, n: int, order: Seq<usize>) -> bool {
    &&& order.len() == if n < keys.len() { n } else { keys.len() as int }
    &&& forall|t: int| 0 <= t < order.len() ==> (#[trigger] order[t]) < keys.len()
    &&& forall|s: int, t: int|
        0 <= s < t < order.len() ==> ranks_before(keys, #[trigger] order[s] as int, #[trigger] order[t] as int)
    &&& forall|i: int, t: int|
        0 <= i < keys.len() && !order.contains(i as usize) && 0 <= t < order.len()
            ==> #[trigger] ranks_before(keys, order[t] as int, i)
}

/// The keys of a list of counts, as integers.
pub open spec fn int_keys(v: Seq<usize>) -> Seq<int> {
    v.map_values(|x: usize| x as int)
}

/// A duplicate-free list of fewer than `n` positions below `n` misses one.
proof fn lemma_missing_position(s: Seq<usize>, n: int)
    requires
        s.no_duplicates(),
        s.len() < n,
        n <= usize::MAX + 1,
        forall|t: int| 0 <= t < s.len() ==> (#[trigger] s[t]) < n,
    ensures
        exists|i: usize| i < n && !#[trigger] s.contains(i),
    decreases n,
{
    let top = (n - 1) as usize;
    if !s.contains(top) {
        assert(top < n && !s.contains(top));
    } else {
        let p = choose|p: int| 0 <= p < s.len() && s[p] == top;
        let rest = s.remove(p);
        assert forall|t: int| 0 <= t < rest.len() implies (#[trigger] rest[t]) < n - 1 by {
            if t < p {
                assert(rest[t] == s[t]);
            } else {
                assert(rest[t] == s[t + 1]);
            }
        }
        assert(rest.no_duplicates()) by {
            assert forall|a: int, b: int| 0 <= a < rest.len() && 0 <= b < rest.len() && a != b
                implies rest[a] != rest[b] by {
                let sa = if a < p { a } else { a + 1 };
                let sb = if b < p { b } else { b + 1 };
                assert(rest[a] == s[sa]);
                assert(rest[b] == s[sb]);
            }
        }
        lemma_missing_position(rest, n - 1);
        let i = choose|i: usize| i < n - 1 && !rest.contains(i);
        if s.contains(i) {
            let q = choose|q: int| 0 <= q < s.len() && s[q] == i;
            if q < p {
                assert(rest[q] == s[q]);
            } else {
                assert(q != p);
                assert(rest[q - 1] == s[q]);
            }
        }
    }
}

/// Two top rankings agree up to position `t`.
proof fn lemma_rankings_agree_upto(keys: Seq<int>, n: int, a: Seq<usize>, b: Seq<usize>, t: int)
    requires
        is_top_ranking(keys, n, a),
        is_top_ranking(keys, n, b),
        0 <= t < a.len(),
    ensures
        forall|s: int| 0 <= s <= t ==> a[s] == b[s],
    decreases t,
{
    if t > 0 {
        lemma_rankings_agree_upto(keys, n, a, b, t - 1);
    }
    let x = a[t];
    let y = b[t];
    if x != y {
        assert(ranks_before(keys, x as int, y as int)) by {
            if a.contains(y) {
                let u = choose|u: int| 0 <= u < a.len() && a[u] == y;
                if u < t {
                    assert(b[u] == y);
                    assert(ranks_before(keys, b[u] as int, b[t] as int));
                } else {
                    assert(u != t);
                    assert(ranks_before(keys, a[t] as int, a[u] as int));
                }
            } else {
                assert(ranks_before(keys, a[t] as int, y as int));
            }
        }
        assert(ranks_before(keys, y as int, x as int)) by {
            if b.contains(x) {
                let u = choose|u: int| 0 <= u < b.len() && b[u] == x;
                if u < t {
                    assert(a[u] == x);
                    assert(ranks_before(keys, a[u] as int, a[t] as int));
                } else {
                    assert(u != t);
                    assert(ranks_before(keys, b[t] as int, b[u] as int));
                }
            } else {
                assert(ranks_before(keys, b[t] as int, x as int));
            }
        }
    }
}

/// There is only one top ranking of given keys and length: a contract that
/// speaks of some top ranking pins the order down.
pub proof fn lemma_top_ranking_unique(keys: Seq<int>, n: int, a: Seq<usize>, b: Seq<usize>)
    requires
        is_top_ranking(keys, n, a),
        is_top_ranking(keys, n, b),
    ensures
        a == b,
{
    if a.len() > 0 {
        lemma_rankings_agree_upto(keys, n, a, b, a.len() - 1);
    }
    assert(a =~= b);
}

/// The first `n` positions of `keys` by descending key, ties by ascending
/// position.
pub fn rank_top(keys: &Vec<usize>, n: usize) -> (order: Vec<usize>)
    ensures
        is_top_ranking(int_keys(keys@), n as int, order@),
{
    let ghost ks = int_keys(keys@);
    let len = keys.len();
    let mut taken: Vec<bool> = Vec::new();
    let mut i: usize = 0;
    while i < len
        invariant
            len == keys@.len(),
            0 <= i <= len,
            taken@.len() == i,
            forall|p: int| 0 <= p < i ==> !(#[trigger] taken@[p]),
        decreases len - i,
    {
        taken.push(false);
        i += 1;
    }
    let mut order: Vec<usize> = Vec::new();
    while order.len() < n && order.len() < len
        invariant
            ks == int_keys(keys@),
            len == keys@.len(),
            taken@.len() == len,
            order@.len() <= n,
            order@.len() <= len,
            forall|p: int| 0 <= p < len ==> (#[trigger] taken@[p] <==> order@.contains(p as usize)),
            forall|t: int| 0 <= t < order@.len() ==> (#[trigger] order@[t]) < len,
            forall|s: int, t: int|
                0 <= s < t < order@.len() ==> ranks_before(ks, #[trigger] order@[s] as int, #[trigger] order@[t] as int),
            forall|p: int, t: int|
                0 <= p < len && !taken@[p] && 0 <= t < order@.len()
                    ==> #[trigger] ranks_before(ks, order@[t] as int, p),
        decreases len - order@.len(),
    {
        proof {
            assert(order@.no_duplicates());
            lemma_missing_position(order@, len as int);
        }
        let mut best: usize = len;
        let mut p: usize = 0;
        while p < len
            invariant
                ks == int_keys(keys@),
                len == keys@.len(),
                taken@.len() == len,
                0 <= p <= len,
                best == len || (best < p && !taken@[best as int]),
                best == len ==> forall|q: int| 0 <= q < p ==> #[trigger] taken@[q],
                best < len ==> forall|q: int|
                    0 <= q < p && !(#[trigger] taken@[q]) ==> q == best || ranks_before(ks, best as int, q),
            decreases len - p,
        {
            if !taken[p] && (best == len || keys[p] > keys[best]) {
                best = p;
            }
            p += 1;
        }
        assert(best < len) by {
            let q = choose|q: usize| q < len && !order@.contains(q);
            assert(!taken@[q as int]);
        }
        let ghost old_order = order@;
        order.push(best);
        taken.set(best, true);
        assert forall|q: int| 0 <= q < len implies (#[trigger] taken@[q] <==> order@.contains(q as usize)) by {
            if q == best {
                assert(order@[old_order.len() as int] == best);
            } else if old_order.contains(q as usize) {
                let t = choose|t: int| 0 <= t < old_order.len() && old_order[t] == q as usize;
                assert(order@[t] == q as usize);
            } else if order@.contains(q as usize) {
                let t = choose|t: int| 0 <= t < order@.len() && order@[t] == q as usize;
                if t < old_order.len() {
                    assert(old_order[t] == q as usize);
                }
            }
        }
    }
    order
}

} // verus!
