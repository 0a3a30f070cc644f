use vstd::prelude::*;
use vstd::relations::*;
use vstd::seq_lib::*;

verus! {

broadcast use vstd::seq_lib::group_to_multiset_ensures, vstd::multiset::group_multiset_axioms;

/// A score paired with the position of its line in the corpus.
pub type Scored = (i32, usize);

/// `a` goes ahead of `b`: a higher score, or an equal score and an earlier line.
pub open spec fn ranks_before(a: Scored, b: Scored) -> bool {
    a.0 > b.0 || (a.0 == b.0 && a.1 < b.1)
}

/// `a` goes ahead of `b` or is `b`.
pub open spec fn ranks_le(a: Scored, b: Scored) -> bool {
    !ranks_before(b, a)
}

/// `ranks_le` as a relation, the order in which results are listed.
pub open spec fn rank_order() -> spec_fn(Scored, Scored) -> bool {
    |a: Scored, b: Scored| ranks_le(a, b)
}

/// `s` is listed best first.
pub open spec fn sorted_by_rank(s: Seq<Scored>) -> bool {
    forall|i: int, j: int| 0 <= i < j < s.len() ==> ranks_le(s[i], s[j])
}

/// All of `items`, best first: descending score, and lines of equal score in
/// corpus order.
pub open spec fn ranked(items: Seq<Scored>) -> Seq<Scored> {
    items.sort_by(rank_order())
}

/// The first `limit` of `ranked(items)`, or all of them when there is no
/// limit or no more than `limit` items.
pub open spec fn top(items: Seq<Scored>, limit: Option<usize>) -> Seq<Scored> {
    match limit {
        Some(k) => if k < items.len() {
            ranked(items).take(k as int)
        } else {
            ranked(items)
        },
        None => ranked(items),
    }
}

proof fn lemma_rank_order_total()
    ensures
        total_ordering(rank_order()),
{
    assert forall|a: Scored, b: Scored|
        #[trigger] rank_order()(a, b) && rank_order()(b, a) implies a == b by {
        assert(a.0 == b.0 && a.1 == b.1);
    }
}

/// Two sequences in rank order that hold the same items are the same.
proof fn lemma_sorted_unique(a: Seq<Scored>, b: Seq<Scored>)
    requires
        sorted_by_rank(a),
        sorted_by_rank(b),
        a.to_multiset() == b.to_multiset(),
    ensures
        a == b,
    decreases a.len(),
{
    assert(a.to_multiset().len() == a.len());
    assert(b.to_multiset().len() == b.len());
    if a.len() > 0 {
        assert(a.contains(a[0]));
        assert(b.to_multiset().count(a[0]) > 0);
        let j = choose|j: int| 0 <= j < b.len() && b[j] == a[0];
        assert(ranks_le(b[0], b[j]));
        assert(b.contains(b[0]));
        assert(a.to_multiset().count(b[0]) > 0);
        let i = choose|i: int| 0 <= i < a.len() && a[i] == b[0];
        assert(ranks_le(a[0], a[i]));
        assert(a[0].0 == b[0].0 && a[0].1 == b[0].1);
        assert(a[0] == b[0]);
        assert(a.remove(0) =~= a.drop_first());
        assert(b.remove(0) =~= b.drop_first());
        assert(a.drop_first().to_multiset() == b.drop_first().to_multiset());
        lemma_sorted_unique(a.drop_first(), b.drop_first());
        assert(a =~= seq![a[0]] + a.drop_first());
        assert(b =~= seq![b[0]] + b.drop_first());
    } else {
        assert(a =~= b);
    }
}

/// `ranked(items)` holds exactly the items, in rank order.
pub proof fn lemma_ranked(items: Seq<Scored>)
    ensures
        ranked(items).to_multiset() == items.to_multiset(),
        sorted_by_rank(ranked(items)),
{
    lemma_rank_order_total();
    items.lemma_sort_by_ensures(rank_order());
    let r = ranked(items);
    assert forall|i: int, j: int| 0 <= i < j < r.len() implies ranks_le(r[i], r[j]) by {
        assert(rank_order()(r[i], r[j]));
    }
}

/// A sequence in rank order that holds the same items as `items` is
/// `ranked(items)`.
proof fn lemma_is_ranked(items: Seq<Scored>, s: Seq<Scored>)
    requires
        sorted_by_rank(s),
        s.to_multiset() == items.to_multiset(),
    ensures
        s == ranked(items),
{
    lemma_ranked(items);
    lemma_sorted_unique(s, ranked(items));
}

fn le(a: Scored, b: Scored) -> (r: bool)
    ensures
        r == ranks_le(a, b),
{
    a.0 > b.0 || (a.0 == b.0 && a.1 <= b.1)
}

fn before(a: Scored, b: Scored) -> (r: bool)
    ensures
        r == ranks_before(a, b),
{
    a.0 > b.0 || (a.0 == b.0 && a.1 < b.1)
}

fn merge(a: Vec<Scored>, b: Vec<Scored>) -> (c: Vec<Scored>)
    requires
        sorted_by_rank(a@),
        sorted_by_rank(b@),
    ensures
        sorted_by_rank(c@),
        c@.to_multiset() == a@.to_multiset().add(b@.to_multiset()),
{
    let mut c: Vec<Scored> = Vec::new();
    let mut i: usize = 0;
    let mut j: usize = 0;
    while i < a.len() || j < b.len()
        invariant
            i <= a.len(),
            j <= b.len(),
            c.len() == i + j,
            sorted_by_rank(a@),
            sorted_by_rank(b@),
            sorted_by_rank(c@),
            c@.to_multiset() == a@.take(i as int).to_multiset().add(
                b@.take(j as int).to_multiset(),
            ),
            forall|p: int, q: int| 0 <= p < c.len() && i <= q < a.len() ==> ranks_le(c@[p], a@[q]),
            forall|p: int, q: int| 0 <= p < c.len() && j <= q < b.len() ==> ranks_le(c@[p], b@[q]),
        decreases a.len() + b.len() - i - j,
    {
        if j >= b.len() || (i < a.len() && le(a[i], b[j])) {
            assert(a@.take(i + 1) =~= a@.take(i as int).push(a@[i as int]));
            assert forall|q: int| j <= q < b.len() implies ranks_le(a@[i as int], b@[q]) by {
                assert(ranks_le(b@[j as int], b@[q]));
            }
            c.push(a[i]);
            i = i + 1;
        } else {
            assert(b@.take(j + 1) =~= b@.take(j as int).push(b@[j as int]));
            assert forall|q: int| i <= q < a.len() implies ranks_le(b@[j as int], a@[q]) by {
                assert(ranks_le(a@[i as int], a@[q]));
            }
            c.push(b[j]);
            j = j + 1;
        }
    }
    assert(a@.take(i as int) =~= a@);
    assert(b@.take(j as int) =~= b@);
    c
}

fn merge_sort(v: Vec<Scored>) -> (r: Vec<Scored>)
    ensures
        sorted_by_rank(r@),
        r@.to_multiset() == v@.to_multiset(),
    decreases v.len(),
{
    let n = v.len();
    if n <= 1 {
        return v;
    }
    let mid = n / 2;
    let mut left: Vec<Scored> = Vec::new();
    let mut right: Vec<Scored> = Vec::new();
    let mut i: usize = 0;
    while i < n
        invariant
            n == v.len(),
            mid <= n,
            i <= n,
            i <= mid ==> left@ == v@.take(i as int) && right@.len() == 0,
            i > mid ==> left@ == v@.take(mid as int) && right@ == v@.subrange(
                mid as int,
                i as int,
            ),
        decreases n - i,
    {
        if i < mid {
            left.push(v[i]);
        } else {
            right.push(v[i]);
        }
        i = i + 1;
        assert(left@ =~= v@.take(i as int) || i > mid);
        assert(right@ =~= v@.subrange(mid as int, i as int) || i <= mid);
    }
    assert(left@ =~= v@.take(mid as int));
    assert(right@ =~= v@.subrange(mid as int, n as int));
    assert(v@ =~= left@ + right@);
    let sl = merge_sort(left);
    let sr = merge_sort(right);
    proof {
        lemma_multiset_commutative(left@, right@);
    }
    merge(sl, sr)
}

/// The items, best first.
pub fn sort_ranked(items: Vec<Scored>) -> (r: Vec<Scored>)
    ensures
        r@ == ranked(items@),
{
    let r = merge_sort(items);
    proof {
        lemma_is_ranked(items@, r@);
    }
    r
}

fn swap(v: &mut Vec<Scored>, i: usize, j: usize)
    requires
        i < old(v).len(),
        j < old(v).len(),
    ensures
        final(v)@ == old(v)@.update(i as int, old(v)@[j as int]).update(j as int, old(v)@[i as int]),
{
    let a = v[i];
    let b = v[j];
    v.set(i, b);
    v.set(j, a);
}

proof fn lemma_swap_multiset(s: Seq<Scored>, i: int, j: int)
    requires
        0 <= i < s.len(),
        0 <= j < s.len(),
    ensures
        s.update(i, s[j]).update(j, s[i]).to_multiset() =~= s.to_multiset(),
{
    let t = s.update(i, s[j]);
    assert(t[j] == s[j]);
    assert(t.to_multiset() == s.to_multiset().insert(s[j]).remove(s[i]));
    assert(t.update(j, s[i]).to_multiset() == t.to_multiset().insert(s[i]).remove(s[j]));
    assert(s.contains(s[i]));
    assert(s.contains(s[j]));
}

/// Swapping two positions inside `lo..hi` keeps what the range holds.
proof fn lemma_swap_in_range(s: Seq<Scored>, lo: int, hi: int, i: int, j: int)
    requires
        0 <= lo <= i < hi <= s.len(),
        lo <= j < hi,
    ensures
        s.update(i, s[j]).update(j, s[i]).subrange(lo, hi).to_multiset() =~= s.subrange(
            lo,
            hi,
        ).to_multiset(),
        s.update(i, s[j]).update(j, s[i]).to_multiset() =~= s.to_multiset(),
{
    let r = s.subrange(lo, hi);
    assert(s.update(i, s[j]).update(j, s[i]).subrange(lo, hi) =~= r.update(i - lo, r[j - lo]).update(
        j - lo,
        r[i - lo],
    ));
    lemma_swap_multiset(r, i - lo, j - lo);
    lemma_swap_multiset(s, i, j);
}

/// What stands in `lo..hi` of `new` stood in `lo..hi` of `old`.
proof fn lemma_from_range(old_s: Seq<Scored>, new_s: Seq<Scored>, lo: int, hi: int, b: int) -> (c: int)
    requires
        0 <= lo <= b < hi <= old_s.len(),
        hi <= new_s.len(),
        new_s.subrange(lo, hi).to_multiset() == old_s.subrange(lo, hi).to_multiset(),
    ensures
        lo <= c < hi,
        new_s[b] == old_s[c],
{
    let ns = new_s.subrange(lo, hi);
    let os = old_s.subrange(lo, hi);
    assert(ns[b - lo] == new_s[b]);
    assert(ns.contains(new_s[b]));
    assert(ns.to_multiset().count(new_s[b]) > 0);
    assert(os.contains(new_s[b]));
    let k = choose|k: int| 0 <= k < os.len() && os[k] == new_s[b];
    lo + k
}

/// Lomuto partition of `lo..hi` around its middle item; returns where that
/// item ends up.
fn partition(v: &mut Vec<Scored>, lo: usize, hi: usize) -> (p: usize)
    requires
        lo < hi <= old(v).len(),
    ensures
        lo <= p < hi,
        final(v)@.len() == old(v)@.len(),
        final(v)@.to_multiset() == old(v)@.to_multiset(),
        final(v)@.subrange(lo as int, hi as int).to_multiset() == old(v)@.subrange(
            lo as int,
            hi as int,
        ).to_multiset(),
        forall|t: int| 0 <= t < lo || hi <= t < old(v)@.len() ==> final(v)@[t] == old(v)@[t],
        forall|t: int| lo <= t < p ==> ranks_before(final(v)@[t], final(v)@[p as int]),
        forall|t: int| p < t < hi ==> ranks_le(final(v)@[p as int], final(v)@[t]),
{
    let ghost orig = v@;
    let mid = lo + (hi - lo) / 2;
    proof {
        lemma_swap_in_range(v@, lo as int, hi as int, mid as int, (hi - 1) as int);
    }
    swap(v, mid, hi - 1);
    let pivot = v[hi - 1];
    let mut store: usize = lo;
    let mut i: usize = lo;
    while i < hi - 1
        invariant
            lo <= store <= i <= hi - 1,
            hi <= v.len(),
            v.len() == orig.len(),
            v@[hi - 1] == pivot,
            v@.to_multiset() == orig.to_multiset(),
            v@.subrange(lo as int, hi as int).to_multiset() == orig.subrange(
                lo as int,
                hi as int,
            ).to_multiset(),
            forall|t: int| 0 <= t < lo || hi <= t < orig.len() ==> v@[t] == orig[t],
            forall|t: int| lo <= t < store ==> ranks_before(v@[t], pivot),
            forall|t: int| store <= t < i ==> ranks_le(pivot, v@[t]),
        decreases hi - 1 - i,
    {
        if before(v[i], pivot) {
            proof {
                lemma_swap_in_range(v@, lo as int, hi as int, i as int, store as int);
            }
            swap(v, i, store);
            store = store + 1;
        }
        i = i + 1;
    }
    proof {
        lemma_swap_in_range(v@, lo as int, hi as int, store as int, (hi - 1) as int);
    }
    swap(v, store, hi - 1);
    store
}

/// Rearranges `v` so that its first `k` items are ranked ahead of the rest.
fn select_prefix(v: &mut Vec<Scored>, k: usize)
    requires
        k < old(v).len(),
    ensures
        final(v)@.len() == old(v)@.len(),
        final(v)@.to_multiset() == old(v)@.to_multiset(),
        forall|a: int, b: int|
            0 <= a < k <= b < final(v)@.len() ==> ranks_le(final(v)@[a], final(v)@[b]),
{
    let ghost orig = v@;
    let n = v.len();
    let mut lo: usize = 0;
    let mut hi: usize = n;
    while lo < k
        invariant
            lo <= k < hi <= n,
            v.len() == n,
            v@.to_multiset() == orig.to_multiset(),
            forall|a: int, b: int| 0 <= a < lo <= b < n ==> ranks_le(v@[a], v@[b]),
            forall|a: int, b: int| 0 <= a < hi <= b < n ==> ranks_le(v@[a], v@[b]),
        decreases hi - lo,
    {
        let ghost prev = v@;
        let p = partition(v, lo, hi);
        let ghost cur = v@;
        proof {
            assert forall|a: int, b: int| 0 <= a < hi && hi <= b < n implies ranks_le(
                cur[a],
                cur[b],
            ) by {
                if a < lo {
                } else {
                    let c = lemma_from_range(prev, cur, lo as int, hi as int, a);
                }
            }
            assert forall|a: int, b: int| 0 <= a < lo && lo <= b < n implies ranks_le(
                cur[a],
                cur[b],
            ) by {
                if b < hi {
                    let c = lemma_from_range(prev, cur, lo as int, hi as int, b);
                }
            }
        }
        if p == k {
            proof {
                assert forall|a: int, b: int| 0 <= a < k && k <= b < n implies ranks_le(
                    cur[a],
                    cur[b],
                ) by {
                    if lo <= a && b < hi {
                        assert(ranks_le(cur[a], cur[p as int]));
                    }
                }
            }
            lo = k;
        } else if k < p {
            proof {
                assert forall|a: int, b: int| 0 <= a < p && p <= b < n implies ranks_le(
                    cur[a],
                    cur[b],
                ) by {
                    if lo <= a && b < hi {
                        assert(ranks_le(cur[a], cur[p as int]));
                    }
                }
            }
            hi = p;
        } else {
            proof {
                assert forall|a: int, b: int| 0 <= a < p + 1 && p + 1 <= b < n implies ranks_le(
                    cur[a],
                    cur[b],
                ) by {
                    if lo <= a && b < hi {
                        assert(ranks_le(cur[a], cur[p as int]));
                    }
                }
            }
            lo = p + 1;
        }
    }
}

/// The best `limit` items in rank order (all of them, ranked, when there is
/// no limit or no more items than it). With a limit that cuts, the best items
/// are first gathered by partitioning, and only they are sorted.
pub fn select_top(items: Vec<Scored>, limit: Option<usize>) -> (r: Vec<Scored>)
    ensures
        r@ == top(items@, limit),
{
    match limit {
        Some(k) => {
            if k < items.len() {
                let mut v = items;
                select_prefix(&mut v, k);
                let ghost whole = v@;
                v.truncate(k);
                let r = sort_ranked(v);
                proof {
                    let rest = whole.subrange(k as int, whole.len() as int);
                    let rs = ranked(rest);
                    lemma_ranked(rest);
                    lemma_ranked(whole.take(k as int));
                    assert(whole =~= whole.take(k as int) + rest);
                    lemma_multiset_commutative(whole.take(k as int), rest);
                    lemma_multiset_commutative(r@, rs);
                    assert(r@.to_multiset().len() == r@.len());
                    assert(whole.take(k as int).to_multiset().len() == k);
                    assert(rs.to_multiset().len() == rs.len());
                    assert(rest.to_multiset().len() == rest.len());
                    assert forall|i: int, j: int| 0 <= i < j < (r@ + rs).len() implies ranks_le(
                        (r@ + rs)[i],
                        (r@ + rs)[j],
                    ) by {
                        if i < k && j >= k {
                            let x = r@[i];
                            let y = rs[j - k];
                            assert(r@[i] == x);
                            assert(r@.contains(x));
                            assert(whole.take(k as int).to_multiset().count(x) > 0);
                            let a = choose|a: int| 0 <= a < k && whole.take(k as int)[a] == x;
                            assert(rs[j - k] == y);
                            assert(rs.contains(y));
                            assert(rest.to_multiset().count(y) > 0);
                            let b = choose|b: int| 0 <= b < rest.len() && rest[b] == y;
                            assert(whole[a] == x && whole[k + b] == y);
                        }
                    }
                    lemma_is_ranked(items@, r@ + rs);
                    assert((r@ + rs).take(k as int) =~= r@);
                }
                r
            } else {
                sort_ranked(items)
            }
        },
        None => sort_ranked(items),
    }
}

/// Without a limit, the selection holds every item exactly as often as the
/// input does, best first.
pub proof fn lemma_unlimited_keeps_all(items: Seq<Scored>)
    ensures
        top(items, None).to_multiset() == items.to_multiset(),
        sorted_by_rank(top(items, None)),
{
    lemma_ranked(items);
}

/// A cutting limit selects the same items, in the same order, as ranking
/// everything and keeping the first `k`.
pub proof fn lemma_bounded_is_prefix(items: Seq<Scored>, k: usize)
    requires
        k <= items.len(),
    ensures
        top(items, Some(k)) == top(items, None).take(k as int),
{
    lemma_ranked(items);
    assert(ranked(items).to_multiset().len() == items.len());
    if k == items.len() {
        assert(ranked(items).take(k as int) =~= ranked(items));
    }
}

} // verus!
