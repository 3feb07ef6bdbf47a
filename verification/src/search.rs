//! Ranking of search candidates.
//!
//! Scores are IEEE-754 single-precision values. They are handled here by
//! their bit patterns and by the integer order keys derived from them, so
//! that ordering, thresholding, top-k selection and the merging of two
//! ranked lists (reciprocal rank fusion) are integer logic.
use vstd::prelude::*;
use std::collections::HashMap;

verus! {

broadcast use vstd::std_specs::hash::group_hash_axioms;

// ---------------------------------------------------------------------------
// Order keys of scores
// ---------------------------------------------------------------------------

/// The magnitude bits (all but the sign bit) of a single-precision value.
pub open spec fn magnitude_bits(bits: u32) -> u32 {
    (bits % 0x8000_0000) as u32
}

/// The bit pattern is a NaN: exponent all ones and a non-zero fraction.
pub open spec fn is_nan_bits(bits: u32) -> bool {
    magnitude_bits(bits) > 0x7f80_0000
}

/// The integer order key of a non-NaN value: its magnitude, negated when the
/// sign bit is set. Both zeros get key 0.
pub open spec fn order_key_spec(bits: u32) -> i64 {
    if bits >= 0x8000_0000 {
        -(magnitude_bits(bits) as int) as i64
    } else {
        magnitude_bits(bits) as i64
    }
}

/// The order key of a score given by its bit pattern, `None` for a NaN
/// (which compares false with everything). Keys compare as IEEE-754 compares
/// the values: see [`lemma_keys_follow_ieee_order`].
pub fn score_order_key(bits: u32) -> (res: Option<i64>)
    ensures
        res == (if is_nan_bits(bits) {
            None
        } else {
            Some(order_key_spec(bits))
        }),
{
    let mag = bits % 0x8000_0000;
    if mag > 0x7f80_0000 {
        None
    } else if bits >= 0x8000_0000 {
        Some(-(mag as i64))
    } else {
        Some(mag as i64)
    }
}

/// IEEE-754 `<` on two non-NaN single-precision values given by their bit
/// patterns: both signs non-negative compare by magnitude, both negative by
/// reversed magnitude, a negative value is below a non-negative one unless
/// both are zeros.
pub open spec fn ieee_less(a: u32, b: u32) -> bool {
    let (ma, mb) = (magnitude_bits(a), magnitude_bits(b));
    if a < 0x8000_0000 && b < 0x8000_0000 {
        ma < mb
    } else if a >= 0x8000_0000 && b >= 0x8000_0000 {
        ma > mb
    } else if a >= 0x8000_0000 {
        !(ma == 0 && mb == 0)
    } else {
        false
    }
}

/// IEEE-754 `==` on two non-NaN values: same bits, or both zeros.
pub open spec fn ieee_equal(a: u32, b: u32) -> bool {
    a == b || (magnitude_bits(a) == 0 && magnitude_bits(b) == 0)
}

/// Scores rank by their keys exactly as IEEE-754 orders the values, which is
/// how scores are compared when sorting and when applying `min_score`.
pub proof fn lemma_keys_follow_ieee_order(a: u32, b: u32)
    requires
        !is_nan_bits(a),
        !is_nan_bits(b),
    ensures
        (order_key_spec(a) < order_key_spec(b)) == ieee_less(a, b),
        (order_key_spec(a) == order_key_spec(b)) == ieee_equal(a, b),
{
}

/// Positive and negative zero get the same key, so they tie.
pub proof fn lemma_signed_zeros_tie()
    ensures
        order_key_spec(0) == order_key_spec(0x8000_0000),
        !is_nan_bits(0),
        !is_nan_bits(0x8000_0000),
{
}

// ---------------------------------------------------------------------------
// Stable descending order
// ---------------------------------------------------------------------------

/// Entry `a` goes before entry `b`: a higher key, or an equal key and an
/// earlier position in the input (the order is stable).
pub open spec fn ranks_before(keys: Seq<i64>, a: usize, b: usize) -> bool {
    keys[a as int] > keys[b as int] || (keys[a as int] == keys[b as int] && a < b)
}

/// `order` lists indices of `keys` from the highest key down, stably.
pub open spec fn ranked_descending(keys: Seq<i64>, order: Seq<usize>) -> bool {
    forall|i: int, j: int|
        0 <= i < j < order.len() ==> ranks_before(keys, #[trigger] order[i], #[trigger] order[j])
}

/// Every element of `order` is an index of `keys`, and none occurs twice.
pub open spec fn distinct_indices(order: Seq<usize>, n: nat) -> bool {
    &&& forall|i: int| 0 <= i < order.len() ==> #[trigger] order[i] < n
    &&& forall|i: int, j: int| 0 <= i < j < order.len() ==> #[trigger] order[i] != #[trigger] order[j]
}

/// Inserts index `i` into a stably ranked list of smaller indices, at the
/// place that keeps the list stably ranked.
fn insert_ranked(order: &mut Vec<usize>, keys: &Vec<i64>, i: usize)
    requires
        i < keys@.len(),
        ranked_descending(keys@, old(order)@),
        forall|k: int| 0 <= k < old(order)@.len() ==> #[trigger] old(order)@[k] < i,
    ensures
        ranked_descending(keys@, final(order)@),
        exists|p: int| 0 <= p <= old(order)@.len() && final(order)@ == old(order)@.insert(p, i),
{
    let ghost before = order@;
    let mut p: usize = 0;
    while p < order.len() && keys[order[p]] >= keys[i]
        invariant
            order@ == before,
            i < keys@.len(),
            p <= order@.len(),
            forall|k: int| 0 <= k < order@.len() ==> #[trigger] order@[k] < i,
            forall|q: int| 0 <= q < p ==> keys@[#[trigger] order@[q] as int] >= keys@[i as int],
        decreases order@.len() - p,
    {
        p = p + 1;
    }
    proof {
        if p < before.len() {
            assert forall|q: int| p <= q < before.len() implies keys@[#[trigger] before[q] as int]
                < keys@[i as int] by {
                if q > p {
                    assert(ranks_before(keys@, before[p as int], before[q]));
                }
            }
        }
    }
    order.insert(p, i);
    proof {
        let after = order@;
        before.insert_ensures(p as int, i);
        assert forall|a: int, b: int| 0 <= a < b < after.len() implies ranks_before(
            keys@,
            #[trigger] after[a],
            #[trigger] after[b],
        ) by {
            if b < p {
                assert(ranks_before(keys@, before[a], before[b]));
            } else if b == p {
                assert(after[a] == before[a]);
            } else if a < p {
                assert(after[b] == before[b - 1]);
                assert(ranks_before(keys@, before[a], before[b - 1]));
            } else if a == p {
                assert(after[b] == before[b - 1]);
            } else {
                assert(ranks_before(keys@, before[a - 1], before[b - 1]));
            }
        }
    }
}

/// The indices of `keys` ordered by key from highest to lowest; entries with
/// equal keys keep their input order (a stable sort).
pub fn rank_descending(keys: &Vec<i64>) -> (order: Vec<usize>)
    ensures
        order@.len() == keys@.len(),
        distinct_indices(order@, keys@.len()),
        forall|j: usize| j < keys@.len() ==> order@.contains(j),
        ranked_descending(keys@, order@),
{
    let mut order: Vec<usize> = Vec::new();
    let n = keys.len();
    let mut i: usize = 0;
    while i < n
        invariant
            n == keys@.len(),
            i <= n,
            order@.len() == i,
            forall|k: int| 0 <= k < order@.len() ==> #[trigger] order@[k] < i,
            distinct_indices(order@, i as nat),
            forall|j: usize| j < i ==> order@.contains(j),
            ranked_descending(keys@, order@),
        decreases n - i,
    {
        let ghost before = order@;
        insert_ranked(&mut order, keys, i);
        proof {
            let p = choose|p: int| 0 <= p <= before.len() && order@ == before.insert(p, i);
            before.insert_ensures(p, i);
            assert forall|j: usize| j < i + 1 implies order@.contains(j) by {
                if j == i {
                    assert(order@[p] == i);
                } else {
                    assert(before.contains(j));
                    let q = choose|q: int| 0 <= q < before.len() && before[q] == j;
                    if q < p {
                        assert(order@[q] == j);
                    } else {
                        assert(order@[q + 1] == j);
                    }
                }
            }
            assert forall|k: int| 0 <= k < order@.len() implies #[trigger] order@[k] < i + 1 by {
                if k > p {
                    assert(order@[k] == before[k - 1]);
                }
            }
            assert forall|a: int, b: int| 0 <= a < b < order@.len() implies #[trigger] order@[a]
                != #[trigger] order@[b] by {
                if a < p && b < p {
                } else if a < p && b > p {
                    assert(order@[b] == before[b - 1]);
                } else if a > p {
                    assert(order@[a] == before[a - 1]);
                    assert(order@[b] == before[b - 1]);
                }
            }
        }
        i = i + 1;
    }
    order
}

/// Two stable descending rankings of the same entries are the same sequence:
/// the ranking of a list of keys is determined by the keys alone.
pub proof fn lemma_ranking_unique(keys: Seq<i64>, p: Seq<usize>, q: Seq<usize>)
    requires
        distinct_indices(p, keys.len()),
        distinct_indices(q, keys.len()),
        forall|x: usize| p.contains(x) <==> q.contains(x),
        ranked_descending(keys, p),
        ranked_descending(keys, q),
    ensures
        p == q,
    decreases p.len(),
{
    if p.len() == 0 {
        if q.len() > 0 {
            assert(q.contains(q[0]));
        }
        assert(p =~= q);
    } else {
        assert(p.contains(p[0]));
        let j = choose|j: int| 0 <= j < q.len() && q[j] == p[0];
        if j > 0 {
            assert(q.contains(q[0]));
            let i = choose|i: int| 0 <= i < p.len() && p[i] == q[0];
            assert(i != 0);
            assert(ranks_before(keys, p[0], p[i]));
            assert(ranks_before(keys, q[0], q[j]));
        }
        assert(q[0] == p[0]);
        let p1 = p.drop_first();
        let q1 = q.drop_first();
        assert forall|x: usize| p1.contains(x) implies q1.contains(x) by {
            let i = choose|i: int| 0 <= i < p1.len() && p1[i] == x;
            assert(p[i + 1] == x);
            assert(x != p[0]);
            assert(q.contains(x));
            let k = choose|k: int| 0 <= k < q.len() && q[k] == x;
            assert(k != 0);
            assert(q1[k - 1] == x);
        }
        assert forall|x: usize| q1.contains(x) implies p1.contains(x) by {
            let i = choose|i: int| 0 <= i < q1.len() && q1[i] == x;
            assert(q[i + 1] == x);
            assert(x != q[0]);
            assert(p.contains(x));
            let k = choose|k: int| 0 <= k < p.len() && p[k] == x;
            assert(k != 0);
            assert(p1[k - 1] == x);
        }
        assert forall|a: int, b: int| 0 <= a < b < p1.len() implies ranks_before(
            keys,
            #[trigger] p1[a],
            #[trigger] p1[b],
        ) by {
            assert(ranks_before(keys, p[a + 1], p[b + 1]));
        }
        assert forall|a: int, b: int| 0 <= a < b < q1.len() implies ranks_before(
            keys,
            #[trigger] q1[a],
            #[trigger] q1[b],
        ) by {
            assert(ranks_before(keys, q[a + 1], q[b + 1]));
        }
        assert forall|a: int, b: int| 0 <= a < b < p1.len() implies #[trigger] p1[a]
            != #[trigger] p1[b] by {
            assert(p[a + 1] != p[b + 1]);
        }
        assert forall|a: int, b: int| 0 <= a < b < q1.len() implies #[trigger] q1[a]
            != #[trigger] q1[b] by {
            assert(q[a + 1] != q[b + 1]);
        }
        lemma_ranking_unique(keys, p1, q1);
        assert(p1.len() == q1.len());
        assert(p.len() == q.len());
        assert forall|k: int| 0 <= k < p.len() implies p[k] == q[k] by {
            if k > 0 {
                assert(p[k] == p1[k - 1]);
                assert(q[k] == q1[k - 1]);
            }
        }
        assert(p =~= q);
    }
}

// ---------------------------------------------------------------------------
// Threshold and top-k selection
// ---------------------------------------------------------------------------

/// A score passes the minimum: both are numbers (a NaN compares false with
/// everything) and the score's key is at least the minimum's key.
pub open spec fn passes_threshold(key: Option<i64>, min_key: Option<i64>) -> bool {
    match (key, min_key) {
        (Some(k), Some(m)) => k >= m,
        _ => false,
    }
}

/// The key of each entry, with 0 standing for a NaN (which never passes a
/// threshold, so its place in the order never matters).
pub open spec fn key_values(keys: Seq<Option<i64>>) -> Seq<i64> {
    keys.map_values(|k: Option<i64>| key_value(k))
}

/// The key of one entry, 0 for a NaN.
pub open spec fn key_value(k: Option<i64>) -> i64 {
    match k {
        Some(v) => v,
        None => 0,
    }
}

/// `res` selects from `keys` the entries that pass `min_key`: the best
/// `top_k` of them (all of them when there are fewer), best first, equal
/// keys in input order.
pub open spec fn is_top_selection(
    keys: Seq<Option<i64>>,
    min_key: Option<i64>,
    top_k: nat,
    res: Seq<usize>,
) -> bool {
    &&& distinct_indices(res, keys.len())
    &&& forall|i: int|
        0 <= i < res.len() ==> passes_threshold(keys[#[trigger] res[i] as int], min_key)
    &&& ranked_descending(key_values(keys), res)
    &&& res.len() <= top_k
    &&& res.len() == top_k || forall|j: usize|
        j < keys.len() && passes_threshold(keys[j as int], min_key) ==> res.contains(j)
    &&& forall|i: int, j: usize|
        0 <= i < res.len() && j < keys.len() && passes_threshold(keys[j as int], min_key)
            && !res.contains(j) ==> #[trigger] ranks_before(key_values(keys), res[i], j)
}

/// `r` ranks all the entries of `keys` that pass `min_key`, and only them,
/// best first and stably.
pub open spec fn is_ranking_of_passing(keys: Seq<Option<i64>>, min_key: Option<i64>, r: Seq<usize>) -> bool {
    &&& distinct_indices(r, keys.len())
    &&& forall|x: usize|
        #[trigger] r.contains(x) <==> (x < keys.len() && passes_threshold(keys[x as int], min_key))
    &&& ranked_descending(key_values(keys), r)
}

proof fn lemma_closed_prefix(vals: Seq<i64>, n: nat, s: Seq<usize>, r: Seq<usize>)
    requires
        distinct_indices(s, n),
        distinct_indices(r, n),
        ranked_descending(vals, s),
        ranked_descending(vals, r),
        forall|x: usize| s.contains(x) ==> r.contains(x),
        forall|i: int, y: usize|
            0 <= i < s.len() && r.contains(y) && !s.contains(y) ==> #[trigger] ranks_before(
                vals,
                s[i],
                y,
            ),
    ensures
        s.len() <= r.len(),
        s == r.take(s.len() as int),
    decreases s.len(),
{
    if s.len() == 0 {
        assert(s =~= r.take(0));
    } else {
        assert(s.contains(s[0]));
        assert(r.contains(s[0]));
        let j = choose|j: int| 0 <= j < r.len() && r[j] == s[0];
        if j > 0 {
            assert(r.contains(r[0]));
            if s.contains(r[0]) {
                let i = choose|i: int| 0 <= i < s.len() && s[i] == r[0];
                assert(i != 0);
                assert(ranks_before(vals, s[0], s[i]));
            } else {
                assert(ranks_before(vals, s[0], r[0]));
            }
            assert(ranks_before(vals, r[0], r[j]));
        }
        assert(r[0] == s[0]);
        let s1 = s.drop_first();
        let r1 = r.drop_first();
        assert forall|a: int, b: int| 0 <= a < b < s1.len() implies ranks_before(
            vals,
            #[trigger] s1[a],
            #[trigger] s1[b],
        ) by {
            assert(ranks_before(vals, s[a + 1], s[b + 1]));
        }
        assert forall|a: int, b: int| 0 <= a < b < r1.len() implies ranks_before(
            vals,
            #[trigger] r1[a],
            #[trigger] r1[b],
        ) by {
            assert(ranks_before(vals, r[a + 1], r[b + 1]));
        }
        assert forall|a: int, b: int| 0 <= a < b < s1.len() implies #[trigger] s1[a]
            != #[trigger] s1[b] by {
            assert(s[a + 1] != s[b + 1]);
        }
        assert forall|a: int, b: int| 0 <= a < b < r1.len() implies #[trigger] r1[a]
            != #[trigger] r1[b] by {
            assert(r[a + 1] != r[b + 1]);
        }
        assert forall|x: usize| s1.contains(x) implies r1.contains(x) by {
            let i = choose|i: int| 0 <= i < s1.len() && s1[i] == x;
            assert(s[i + 1] == x);
            assert(s.contains(x));
            assert(r.contains(x));
            let k = choose|k: int| 0 <= k < r.len() && r[k] == x;
            assert(x != s[0]);
            assert(k != 0);
            assert(r1[k - 1] == x);
        }
        assert forall|i: int, y: usize|
            0 <= i < s1.len() && r1.contains(y) && !s1.contains(y) implies #[trigger] ranks_before(
            vals,
            s1[i],
            y,
        ) by {
            let k = choose|k: int| 0 <= k < r1.len() && r1[k] == y;
            assert(r[k + 1] == y);
            assert(r.contains(y));
            assert(y != r[0]);
            if s.contains(y) {
                let m = choose|m: int| 0 <= m < s.len() && s[m] == y;
                assert(m != 0);
                assert(s1[m - 1] == y);
            }
            assert(s[i + 1] == s1[i]);
            assert(ranks_before(vals, s[i + 1], y));
        }
        lemma_closed_prefix(vals, n, s1, r1);
        assert forall|k: int| 0 <= k < s.len() implies s[k] == r.take(s.len() as int)[k] by {
            if k > 0 {
                assert(s[k] == s1[k - 1]);
                assert(r[k] == r1[k - 1]);
            }
        }
        assert(s =~= r.take(s.len() as int));
    }
}

/// The selection is what filtering by `min_key`, sorting stably from best to
/// worst and keeping the first `top_k` gives: a prefix of the ranking of the
/// passing entries.
pub proof fn lemma_selection_is_ranking_prefix(
    keys: Seq<Option<i64>>,
    min_key: Option<i64>,
    top_k: nat,
    res: Seq<usize>,
    r: Seq<usize>,
)
    requires
        is_top_selection(keys, min_key, top_k, res),
        is_ranking_of_passing(keys, min_key, r),
    ensures
        res == r.take(if top_k < r.len() {
            top_k as int
        } else {
            r.len() as int
        }),
{
    let vals = key_values(keys);
    assert forall|x: usize| res.contains(x) implies r.contains(x) by {
        let i = choose|i: int| 0 <= i < res.len() && res[i] == x;
        assert(passes_threshold(keys[res[i] as int], min_key));
    }
    assert forall|i: int, y: usize|
        0 <= i < res.len() && r.contains(y) && !res.contains(y) implies #[trigger] ranks_before(
        vals,
        res[i],
        y,
    ) by {
        assert(y < keys.len() && passes_threshold(keys[y as int], min_key));
    }
    lemma_closed_prefix(vals, keys.len(), res, r);
    if res.len() < top_k && res.len() < r.len() {
        let y = r[res.len() as int];
        assert(r.contains(y));
        assert(res.contains(y));
        let i = choose|i: int| 0 <= i < res.len() && res[i] == y;
        assert(r[i] == res[i]);
        assert(false);
    }
}

/// How many of the first `n` entries of `keys` pass `min_key`.
pub open spec fn passing_count_upto(keys: Seq<Option<i64>>, min_key: Option<i64>, n: nat) -> nat
    decreases n,
{
    if n == 0 {
        0
    } else {
        passing_count_upto(keys, min_key, (n - 1) as nat) + (if passes_threshold(
            keys[n - 1],
            min_key,
        ) {
            1nat
        } else {
            0nat
        })
    }
}

/// How many entries of `keys` pass `min_key`.
pub open spec fn passing_count(keys: Seq<Option<i64>>, min_key: Option<i64>) -> nat {
    passing_count_upto(keys, min_key, keys.len())
}

/// The indices below `n` of the entries that pass `min_key`.
pub open spec fn passing_set(keys: Seq<Option<i64>>, min_key: Option<i64>, n: nat) -> Set<usize> {
    Set::new(|x: usize| x < n && passes_threshold(keys[x as int], min_key))
}

proof fn lemma_passing_set_len(keys: Seq<Option<i64>>, min_key: Option<i64>, n: nat)
    requires
        n <= usize::MAX + 1,
    ensures
        passing_set(keys, min_key, n).finite(),
        passing_set(keys, min_key, n).len() == passing_count_upto(keys, min_key, n),
    decreases n,
{
    if n == 0 {
        assert(passing_set(keys, min_key, 0) =~= Set::<usize>::empty());
    } else {
        let m = (n - 1) as nat;
        lemma_passing_set_len(keys, min_key, m);
        let prev = passing_set(keys, min_key, m);
        let x = (n - 1) as usize;
        assert(!prev.contains(x));
        if passes_threshold(keys[n - 1], min_key) {
            assert(passing_set(keys, min_key, n) =~= prev.insert(x));
        } else {
            assert(passing_set(keys, min_key, n) =~= prev);
        }
    }
}

/// The selection holds `top_k` entries, or all the passing entries when
/// fewer than `top_k` pass.
pub proof fn lemma_selection_length(
    keys: Seq<Option<i64>>,
    min_key: Option<i64>,
    top_k: nat,
    res: Seq<usize>,
)
    requires
        keys.len() <= usize::MAX,
        is_top_selection(keys, min_key, top_k, res),
    ensures
        res.len() == (if top_k < passing_count(keys, min_key) {
            top_k
        } else {
            passing_count(keys, min_key)
        }),
{
    let all = passing_set(keys, min_key, keys.len());
    lemma_passing_set_len(keys, min_key, keys.len());
    assert(res.no_duplicates()) by {
        assert forall|i: int, j: int|
            0 <= i < res.len() && 0 <= j < res.len() && i != j implies res[i] != res[j] by {
            if i < j {
                assert(res[i] != res[j]);
            } else {
                assert(res[j] != res[i]);
            }
        }
    }
    res.unique_seq_to_set();
    let rs = res.to_set();
    assert(rs.subset_of(all)) by {
        assert forall|x: usize| rs.contains(x) implies all.contains(x) by {
            let i = choose|i: int| 0 <= i < res.len() && res[i] == x;
            assert(passes_threshold(keys[res[i] as int], min_key));
        }
    }
    vstd::set_lib::lemma_len_subset(rs, all);
    if res.len() < top_k {
        assert(all.subset_of(rs)) by {
            assert forall|x: usize| all.contains(x) implies rs.contains(x) by {
                assert(res.contains(x));
            }
        }
        vstd::set_lib::lemma_len_subset(all, rs);
    }
}

/// The indices of the entries whose key passes `min_key`, best first and
/// stably, cut to at most `top_k`: exactly the first `top_k` of the passing
/// entries in stable descending order.
pub fn select_ranked(keys: &Vec<Option<i64>>, min_key: Option<i64>, top_k: usize) -> (res: Vec<
    usize,
>)
    ensures
        is_top_selection(keys@, min_key, top_k as nat, res@),
{
    let n = keys.len();
    let mut vals: Vec<i64> = Vec::new();
    let mut i: usize = 0;
    while i < n
        invariant
            n == keys@.len(),
            i <= n,
            vals@ == key_values(keys@).take(i as int),
        decreases n - i,
    {
        let v = match keys[i] {
            Some(v) => v,
            None => 0,
        };
        vals.push(v);
        i = i + 1;
        assert(vals@ =~= key_values(keys@).take(i as int));
    }
    assert(vals@ =~= key_values(keys@));
    let mut order: Vec<usize> = Vec::new();
    let mut i: usize = 0;
    while i < n
        invariant
            n == keys@.len(),
            vals@ == key_values(keys@),
            i <= n,
            forall|k: int| 0 <= k < order@.len() ==> #[trigger] order@[k] < i,
            distinct_indices(order@, n as nat),
            forall|k: int|
                0 <= k < order@.len() ==> passes_threshold(
                    keys@[#[trigger] order@[k] as int],
                    min_key,
                ),
            forall|j: usize| j < i && passes_threshold(keys@[j as int], min_key) ==> order@.contains(j),
            ranked_descending(vals@, order@),
        decreases n - i,
    {
        let pass = match (keys[i], min_key) {
            (Some(k), Some(m)) => k >= m,
            _ => false,
        };
        if pass {
            let ghost before = order@;
            insert_ranked(&mut order, &vals, i);
            proof {
                let p = choose|p: int| 0 <= p <= before.len() && order@ == before.insert(p, i);
                before.insert_ensures(p, i);
                assert forall|k: int| 0 <= k < order@.len() implies #[trigger] order@[k] < i + 1
                    && passes_threshold(keys@[order@[k] as int], min_key) by {
                    if k > p {
                        assert(order@[k] == before[k - 1]);
                    } else if k < p {
                        assert(order@[k] == before[k]);
                    }
                }
                assert forall|a: int, b: int| 0 <= a < b < order@.len() implies #[trigger] order@[a]
                    != #[trigger] order@[b] by {
                    if a < p && b < p {
                    } else if a < p && b > p {
                        assert(order@[b] == before[b - 1]);
                    } else if a > p {
                        assert(order@[a] == before[a - 1]);
                        assert(order@[b] == before[b - 1]);
                    }
                }
                assert forall|j: usize| j < i + 1 && passes_threshold(keys@[j as int], min_key)
                    implies order@.contains(j) by {
                    if j == i {
                        assert(order@[p] == i);
                    } else {
                        assert(before.contains(j));
                        let q = choose|q: int| 0 <= q < before.len() && before[q] == j;
                        if q < p {
                            assert(order@[q] == j);
                        } else {
                            assert(order@[q + 1] == j);
                        }
                    }
                }
            }
        } else {
            proof {
                assert forall|k: int| 0 <= k < order@.len() implies #[trigger] order@[k] < i
                    + 1 by {}
            }
        }
        i = i + 1;
    }
    let ghost full = order@;
    order.truncate(top_k);
    proof {
        assert forall|i: int, j: usize|
            0 <= i < order@.len() && j < keys@.len() && passes_threshold(keys@[j as int], min_key)
                && !order@.contains(j) implies #[trigger] ranks_before(
            key_values(keys@),
            order@[i],
            j,
        ) by {
            assert(full.contains(j));
            let q = choose|q: int| 0 <= q < full.len() && full[q] == j;
            if q < order@.len() {
                assert(order@[q] == j);
            }
            assert(full[i] == order@[i]);
            assert(ranks_before(vals@, full[i], full[q]));
        }
        if order@.len() < top_k {
            assert(order@ =~= full);
        }
    }
    order
}

// ---------------------------------------------------------------------------
// Reciprocal rank fusion: merging two rankings by record id
// ---------------------------------------------------------------------------

/// One record of a fused ranking: its id and the 0-based ranks at which it
/// occurs in the vector ranking and in the keyword ranking.
pub struct FusedEntry {
    pub id: i64,
    pub vector_ranks: Vec<usize>,
    pub keyword_ranks: Vec<usize>,
}

/// `ranks` lists, in increasing order, exactly the positions below `upto`
/// at which `ids` holds `id`.
pub open spec fn positions_upto(ids: Seq<i64>, id: i64, ranks: Seq<usize>, upto: int) -> bool {
    &&& forall|a: int, b: int| 0 <= a < b < ranks.len() ==> #[trigger] ranks[a] < #[trigger] ranks[b]
    &&& forall|a: int|
        0 <= a < ranks.len() ==> #[trigger] ranks[a] < upto && ids[ranks[a] as int] == id
    &&& forall|q: int| 0 <= q < upto && #[trigger] ids[q] == id ==> ranks.contains(q as usize)
}

/// `ranks` lists, in increasing order, exactly the positions of `id` in `ids`.
pub open spec fn positions_of(ids: Seq<i64>, id: i64, ranks: Seq<usize>) -> bool {
    positions_upto(ids, id, ranks, ids.len() as int)
}

/// Where a record first appears when the keyword ranking is read after the
/// vector ranking.
pub open spec fn first_appearance(e: FusedEntry, vector_len: int) -> int {
    if e.vector_ranks@.len() > 0 {
        e.vector_ranks@[0] as int
    } else {
        vector_len + e.keyword_ranks@[0]
    }
}

/// Some entry of `res` is for record `id`.
pub open spec fn has_entry(res: Seq<FusedEntry>, id: i64) -> bool {
    exists|k: int| 0 <= k < res.len() && #[trigger] res[k].id == id
}

/// The fused ranking of `vector_ids` and `keyword_ids` (each best first).
pub open spec fn is_fusion(vector_ids: Seq<i64>, keyword_ids: Seq<i64>, res: Seq<FusedEntry>) -> bool {
    &&& forall|k: int|
        0 <= k < res.len() ==> positions_of(vector_ids, #[trigger] res[k].id, res[k].vector_ranks@)
    &&& forall|k: int|
        0 <= k < res.len() ==> positions_of(keyword_ids, #[trigger] res[k].id, res[k].keyword_ranks@)
    &&& forall|k: int|
        0 <= k < res.len() ==> #[trigger] res[k].vector_ranks@.len() > 0 || res[k].keyword_ranks@.len() > 0
    &&& forall|a: int, b: int| 0 <= a < b < res.len() ==> #[trigger] res[a].id != #[trigger] res[b].id
    &&& forall|q: int|
        #![trigger vector_ids[q]] 0 <= q < vector_ids.len() ==> has_entry(res, vector_ids[q])
    &&& forall|q: int|
        #![trigger keyword_ids[q]] 0 <= q < keyword_ids.len() ==> has_entry(res, keyword_ids[q])
    &&& forall|a: int, b: int|
        0 <= a < b < res.len() ==> first_appearance(#[trigger] res[a], vector_ids.len() as int)
            < first_appearance(#[trigger] res[b], vector_ids.len() as int)
}

/// `index` maps the id of every entry of `entries` to its position.
pub open spec fn indexes(index: Map<i64, usize>, entries: Seq<FusedEntry>) -> bool {
    &&& forall|id: i64|
        #[trigger] index.contains_key(id) ==> index[id] < entries.len() && entries[index[id] as int].id == id
    &&& forall|k: int| 0 <= k < entries.len() ==> index.contains_key(#[trigger] entries[k].id)
}

/// The position of the entry for `id`, looked up in the index.
fn lookup_entry(index: &HashMap<i64, usize>, entries: &Vec<FusedEntry>, id: i64) -> (res: Option<usize>)
    requires
        indexes(index@, entries@),
    ensures
        match res {
            Some(k) => k < entries@.len() && entries@[k as int].id == id,
            None => forall|k: int| 0 <= k < entries@.len() ==> #[trigger] entries@[k].id != id,
        },
{
    match index.get(&id) {
        Some(k) => Some(*k),
        None => {
            assert forall|k: int| 0 <= k < entries@.len() implies #[trigger] entries@[k].id != id by {
                assert(index@.contains_key(entries@[k].id));
            }
            None
        },
    }
}

proof fn lemma_index_after_push(
    before: Seq<FusedEntry>,
    after: Seq<FusedEntry>,
    old_index: Map<i64, usize>,
    new_index: Map<i64, usize>,
    id: i64,
    n: usize,
)
    requires
        n == before.len(),
        indexes(old_index, before),
        after.len() == before.len() + 1,
        forall|k: int| 0 <= k < before.len() ==> #[trigger] after[k] == before[k],
        after[before.len() as int].id == id,
        new_index == old_index.insert(id, n),
    ensures
        indexes(new_index, after),
{
    assert forall|k: int| 0 <= k < after.len() implies new_index.contains_key(
        #[trigger] after[k].id,
    ) by {
        if k < before.len() {
            assert(after[k] == before[k]);
            assert(old_index.contains_key(before[k].id));
        }
    }
    assert forall|x: i64| #[trigger] new_index.contains_key(x) implies new_index[x] < after.len()
        && after[new_index[x] as int].id == x by {
        if x != id {
            assert(old_index.contains_key(x));
            assert(after[old_index[x] as int] == before[old_index[x] as int]);
        }
    }
}

/// One entry per distinct id of `vector_ids`, in order of first appearance,
/// with every rank at which the id occurs.
fn group_vector_ranks(vector_ids: &Vec<i64>, index: &mut HashMap<i64, usize>) -> (res: Vec<
    FusedEntry,
>)
    requires
        old(index)@ == Map::<i64, usize>::empty(),
    ensures
        indexes(final(index)@, res@),
        forall|k: int|
            0 <= k < res@.len() ==> positions_of(vector_ids@, #[trigger] res@[k].id, res@[k].vector_ranks@),
        forall|k: int| 0 <= k < res@.len() ==> #[trigger] res@[k].keyword_ranks@.len() == 0,
        forall|k: int| 0 <= k < res@.len() ==> #[trigger] res@[k].vector_ranks@.len() > 0,
        forall|a: int, b: int| 0 <= a < b < res@.len() ==> #[trigger] res@[a].id != #[trigger] res@[b].id,
        forall|q: int|
            #![trigger vector_ids@[q]] 0 <= q < vector_ids@.len() ==> has_entry(res@, vector_ids@[q]),
        forall|a: int, b: int|
            0 <= a < b < res@.len() ==> #[trigger] res@[a].vector_ranks@[0] < #[trigger] res@[b].vector_ranks@[0],
{
    let mut res: Vec<FusedEntry> = Vec::new();
    let vn = vector_ids.len();
    let mut p: usize = 0;
    while p < vn
        invariant
            indexes(index@, res@),
            vn == vector_ids@.len(),
            p <= vn,
            forall|k: int|
                0 <= k < res@.len() ==> positions_upto(
                    vector_ids@,
                    #[trigger] res@[k].id,
                    res@[k].vector_ranks@,
                    p as int,
                ),
            forall|k: int| 0 <= k < res@.len() ==> #[trigger] res@[k].keyword_ranks@.len() == 0,
            forall|k: int| 0 <= k < res@.len() ==> #[trigger] res@[k].vector_ranks@.len() > 0,
            forall|a: int, b: int| 0 <= a < b < res@.len() ==> #[trigger] res@[a].id != #[trigger] res@[b].id,
            forall|q: int|
                #![trigger vector_ids@[q]] 0 <= q < p ==> has_entry(res@, vector_ids@[q]),
            forall|a: int, b: int|
                0 <= a < b < res@.len() ==> #[trigger] res@[a].vector_ranks@[0] < #[trigger] res@[b].vector_ranks@[0],
        decreases vn - p,
    {
        let id = vector_ids[p];
        let ghost before = res@;
        let ghost old_index = index@;
        match lookup_entry(index, &res, id) {
            Some(k) => {
                res[k].vector_ranks.push(p);
                proof {
                    assert(res@[k as int].id == id);
                    assert forall|j: int| 0 <= j < res@.len() && j != k implies #[trigger] res@[j]
                        == before[j] by {}
                    let r = res@[k as int].vector_ranks@;
                    assert(r == before[k as int].vector_ranks@.push(p));
                    assert(res@[k as int].keyword_ranks@ == before[k as int].keyword_ranks@);
                    assert forall|j: int| 0 <= j < res@.len() implies #[trigger] res@[j].keyword_ranks@.len() == 0 by {
                        if j != k {
                            assert(res@[j] == before[j]);
                        }
                    }
                    assert(positions_upto(vector_ids@, id, r, p + 1)) by {
                        assert forall|q: int| 0 <= q < p + 1 && #[trigger] vector_ids@[q] == id
                            implies r.contains(q as usize) by {
                            if q < p {
                                let w = choose|w: int|
                                    0 <= w < before[k as int].vector_ranks@.len()
                                        && before[k as int].vector_ranks@[w] == q as usize;
                                assert(r[w] == q as usize);
                            } else {
                                assert(r[r.len() - 1] == p);
                            }
                        }
                    }
                    assert forall|j: int| 0 <= j < res@.len() implies positions_upto(
                        vector_ids@,
                        #[trigger] res@[j].id,
                        res@[j].vector_ranks@,
                        p + 1,
                    ) by {
                        if j != k {
                            assert(res@[j].id != id);
                        }
                    }
                    assert forall|q: int| #![trigger vector_ids@[q]] 0 <= q < p + 1 implies has_entry(res@, vector_ids@[q]) by {
                        if q == p {
                            assert(res@[k as int].id == vector_ids@[q]);
                        } else {
                            let k2 = choose|k2: int|
                                0 <= k2 < before.len() && #[trigger] before[k2].id == vector_ids@[q];
                            assert(res@[k2].id == vector_ids@[q]);
                        }
                    }
                    assert forall|a: int, b: int| 0 <= a < b < res@.len() implies #[trigger] res@[a].vector_ranks@[0]
                        < #[trigger] res@[b].vector_ranks@[0] by {
                        assert(before[a].vector_ranks@[0] < before[b].vector_ranks@[0]);
                    }
                }
            },
            None => {
                let mut ranks: Vec<usize> = Vec::new();
                ranks.push(p);
                let n = res.len();
                res.push(FusedEntry { id, vector_ranks: ranks, keyword_ranks: Vec::new() });
                index.insert(id, n);
                proof {
                    lemma_index_after_push(before, res@, old_index, index@, id, n);
                    let n = before.len();
                    assert forall|j: int| 0 <= j < res@.len() implies #[trigger] res@[j].keyword_ranks@.len() == 0 by {
                        if j < n {
                            assert(res@[j] == before[j]);
                        }
                    }
                    assert forall|j: int| 0 <= j < res@.len() implies positions_upto(
                        vector_ids@,
                        #[trigger] res@[j].id,
                        res@[j].vector_ranks@,
                        p + 1,
                    ) by {
                        if j < n {
                            assert(res@[j] == before[j]);
                            assert(res@[j].id != id);
                        } else {
                            let r = res@[j].vector_ranks@;
                            assert(r.len() == 1 && r[0] == p);
                            assert forall|q: int| 0 <= q < p + 1 && #[trigger] vector_ids@[q] == id
                                implies r.contains(q as usize) by {
                                if q < p {
                                    let k2 = choose|k2: int|
                                        0 <= k2 < before.len() && #[trigger] before[k2].id
                                            == vector_ids@[q];
                                    assert(before[k2].id == id);
                                }
                                assert(r[0] == q as usize);
                            }
                        }
                    }
                    assert forall|q: int| #![trigger vector_ids@[q]] 0 <= q < p + 1 implies has_entry(res@, vector_ids@[q]) by {
                        if q == p {
                            assert(res@[n as int].id == vector_ids@[q]);
                        } else {
                            let k2 = choose|k2: int|
                                0 <= k2 < before.len() && #[trigger] before[k2].id == vector_ids@[q];
                            assert(res@[k2].id == vector_ids@[q]);
                        }
                    }
                    assert forall|a: int, b: int| 0 <= a < b < res@.len() implies #[trigger] res@[a].vector_ranks@[0]
                        < #[trigger] res@[b].vector_ranks@[0] by {
                        if b < n {
                            assert(before[a].vector_ranks@[0] < before[b].vector_ranks@[0]);
                        } else {
                            assert(positions_upto(vector_ids@, before[a].id, before[a].vector_ranks@, p as int));
                            assert(before[a].vector_ranks@[0] < p);
                        }
                    }
                    assert forall|a: int, b: int| 0 <= a < b < res@.len() implies #[trigger] res@[a].id
                        != #[trigger] res@[b].id by {
                        if b == n {
                            assert(before[a].id != id);
                        }
                    }
                }
            },
        }
        p = p + 1;
    }
    assert(p == vn);
    assert forall|q: int| #![trigger vector_ids@[q]] 0 <= q < vn implies has_entry(res@, vector_ids@[q]) by {
        assert(0 <= q < p);
    }
    res
}

/// Adds the ranks of `keyword_ids` to the grouping of `vector_ids`: new ids
/// get entries after the existing ones, in order of first appearance.
fn add_keyword_ranks(
    res: &mut Vec<FusedEntry>,
    index: &mut HashMap<i64, usize>,
    vector_ids: &Vec<i64>,
    keyword_ids: &Vec<i64>,
)
    requires
        indexes(old(index)@, old(res)@),
        forall|k: int|
            0 <= k < old(res)@.len() ==> positions_of(vector_ids@, #[trigger] old(res)@[k].id, old(res)@[k].vector_ranks@),
        forall|k: int| 0 <= k < old(res)@.len() ==> #[trigger] old(res)@[k].keyword_ranks@.len() == 0,
        forall|k: int| 0 <= k < old(res)@.len() ==> #[trigger] old(res)@[k].vector_ranks@.len() > 0,
        forall|a: int, b: int| 0 <= a < b < old(res)@.len() ==> #[trigger] old(res)@[a].id != #[trigger] old(res)@[b].id,
        forall|q: int|
            #![trigger vector_ids@[q]] 0 <= q < vector_ids@.len() ==> has_entry(old(res)@, vector_ids@[q]),
        forall|a: int, b: int|
            0 <= a < b < old(res)@.len() ==> #[trigger] old(res)@[a].vector_ranks@[0] < #[trigger] old(res)@[b].vector_ranks@[0],
    ensures
        is_fusion(vector_ids@, keyword_ids@, final(res)@),
{
    let vn = vector_ids.len();
    assert forall|a: int, b: int| 0 <= a < b < res@.len() implies first_appearance(
        #[trigger] res@[a],
        vn as int,
    ) < first_appearance(#[trigger] res@[b], vn as int) by {
        assert(res@[a].vector_ranks@[0] < res@[b].vector_ranks@[0]);
    }
    assert forall|k: int| 0 <= k < res@.len() implies positions_upto(
        keyword_ids@,
        #[trigger] res@[k].id,
        res@[k].keyword_ranks@,
        0,
    ) by {
        assert(res@[k].keyword_ranks@.len() == 0);
    }
    let kn = keyword_ids.len();
    let mut p: usize = 0;
    while p < kn
        invariant
            vn == vector_ids@.len(),
            kn == keyword_ids@.len(),
            p <= kn,
            indexes(index@, res@),
            forall|k: int|
                0 <= k < res@.len() ==> positions_of(vector_ids@, #[trigger] res@[k].id, res@[k].vector_ranks@),
            forall|k: int|
                0 <= k < res@.len() ==> positions_upto(
                    keyword_ids@,
                    #[trigger] res@[k].id,
                    res@[k].keyword_ranks@,
                    p as int,
                ),
            forall|k: int|
                0 <= k < res@.len() ==> #[trigger] res@[k].vector_ranks@.len() > 0 || res@[k].keyword_ranks@.len() > 0,
            forall|a: int, b: int| 0 <= a < b < res@.len() ==> #[trigger] res@[a].id != #[trigger] res@[b].id,
            forall|q: int|
                #![trigger vector_ids@[q]] 0 <= q < vn ==> has_entry(res@, vector_ids@[q]),
            forall|q: int|
                #![trigger keyword_ids@[q]] 0 <= q < p ==> has_entry(res@, keyword_ids@[q]),
            forall|a: int, b: int|
                0 <= a < b < res@.len() ==> first_appearance(#[trigger] res@[a], vn as int)
                    < first_appearance(#[trigger] res@[b], vn as int),
        decreases kn - p,
    {
        let id = keyword_ids[p];
        let ghost before = res@;
        let ghost old_index = index@;
        match lookup_entry(index, res, id) {
            Some(k) => {
                res[k].keyword_ranks.push(p);
                proof {
                    assert forall|j: int| 0 <= j < res@.len() && j != k implies #[trigger] res@[j]
                        == before[j] by {}
                    let r = res@[k as int].keyword_ranks@;
                    assert(r == before[k as int].keyword_ranks@.push(p));
                    assert(res@[k as int].vector_ranks@ == before[k as int].vector_ranks@);
                    assert(positions_upto(keyword_ids@, id, r, p + 1)) by {
                        assert forall|q: int| 0 <= q < p + 1 && #[trigger] keyword_ids@[q] == id
                            implies r.contains(q as usize) by {
                            if q < p {
                                let w = choose|w: int|
                                    0 <= w < before[k as int].keyword_ranks@.len()
                                        && before[k as int].keyword_ranks@[w] == q as usize;
                                assert(r[w] == q as usize);
                            } else {
                                assert(r[r.len() - 1] == p);
                            }
                        }
                    }
                    assert forall|j: int| 0 <= j < res@.len() implies positions_upto(
                        keyword_ids@,
                        #[trigger] res@[j].id,
                        res@[j].keyword_ranks@,
                        p + 1,
                    ) by {
                        if j != k {
                            assert(res@[j].id != id);
                        }
                    }
                    assert forall|q: int| #![trigger vector_ids@[q]] 0 <= q < vn implies has_entry(res@, vector_ids@[q]) by {
                        let k2 = choose|k2: int|
                            0 <= k2 < before.len() && #[trigger] before[k2].id == vector_ids@[q];
                        assert(res@[k2].id == vector_ids@[q]);
                    }
                    assert forall|q: int| #![trigger keyword_ids@[q]] 0 <= q < p + 1 implies has_entry(res@, keyword_ids@[q]) by {
                        if q == p {
                            assert(res@[k as int].id == keyword_ids@[q]);
                        } else {
                            let k2 = choose|k2: int|
                                0 <= k2 < before.len() && #[trigger] before[k2].id == keyword_ids@[q];
                            assert(res@[k2].id == keyword_ids@[q]);
                        }
                    }
                    assert(first_appearance(res@[k as int], vn as int) == first_appearance(
                        before[k as int],
                        vn as int,
                    ));
                    assert forall|a: int, b: int| 0 <= a < b < res@.len() implies first_appearance(
                        #[trigger] res@[a],
                        vn as int,
                    ) < first_appearance(#[trigger] res@[b], vn as int) by {
                        assert(first_appearance(before[a], vn as int) < first_appearance(
                            before[b],
                            vn as int,
                        ));
                    }
                }
            },
            None => {
                let mut ranks: Vec<usize> = Vec::new();
                ranks.push(p);
                let n = res.len();
                res.push(FusedEntry { id, vector_ranks: Vec::new(), keyword_ranks: ranks });
                index.insert(id, n);
                proof {
                    lemma_index_after_push(before, res@, old_index, index@, id, n);
                    let n = before.len();
                    assert forall|q: int| 0 <= q < vn implies #[trigger] vector_ids@[q] != id by {
                        let k2 = choose|k2: int|
                            0 <= k2 < before.len() && #[trigger] before[k2].id == vector_ids@[q];
                        assert(before[k2].id != id);
                    }
                    assert forall|j: int| 0 <= j < res@.len() implies positions_of(
                        vector_ids@,
                        #[trigger] res@[j].id,
                        res@[j].vector_ranks@,
                    ) by {
                        if j < n {
                            assert(res@[j] == before[j]);
                        } else {
                            assert(res@[j].vector_ranks@.len() == 0);
                        }
                    }
                    assert forall|j: int| 0 <= j < res@.len() implies positions_upto(
                        keyword_ids@,
                        #[trigger] res@[j].id,
                        res@[j].keyword_ranks@,
                        p + 1,
                    ) by {
                        if j < n {
                            assert(res@[j] == before[j]);
                            assert(res@[j].id != id);
                        } else {
                            let r = res@[j].keyword_ranks@;
                            assert(r.len() == 1 && r[0] == p);
                            assert forall|q: int| 0 <= q < p + 1 && #[trigger] keyword_ids@[q] == id
                                implies r.contains(q as usize) by {
                                if q < p {
                                    let k2 = choose|k2: int|
                                        0 <= k2 < before.len() && #[trigger] before[k2].id
                                            == keyword_ids@[q];
                                    assert(before[k2].id == id);
                                }
                                assert(r[0] == q as usize);
                            }
                        }
                    }
                    assert forall|q: int| #![trigger vector_ids@[q]] 0 <= q < vn implies has_entry(res@, vector_ids@[q]) by {
                        let k2 = choose|k2: int|
                            0 <= k2 < before.len() && #[trigger] before[k2].id == vector_ids@[q];
                        assert(res@[k2].id == vector_ids@[q]);
                    }
                    assert forall|q: int| #![trigger keyword_ids@[q]] 0 <= q < p + 1 implies has_entry(res@, keyword_ids@[q]) by {
                        if q == p {
                            assert(res@[n as int].id == keyword_ids@[q]);
                        } else {
                            let k2 = choose|k2: int|
                                0 <= k2 < before.len() && #[trigger] before[k2].id == keyword_ids@[q];
                            assert(res@[k2].id == keyword_ids@[q]);
                        }
                    }
                    assert forall|a: int, b: int| 0 <= a < b < res@.len() implies first_appearance(
                        #[trigger] res@[a],
                        vn as int,
                    ) < first_appearance(#[trigger] res@[b], vn as int) by {
                        if b < n {
                            assert(first_appearance(before[a], vn as int) < first_appearance(
                                before[b],
                                vn as int,
                            ));
                        } else {
                            assert(res@[a] == before[a]);
                            assert(positions_of(vector_ids@, before[a].id, before[a].vector_ranks@));
                            assert(positions_upto(keyword_ids@, before[a].id, before[a].keyword_ranks@, p as int));
                            if before[a].vector_ranks@.len() > 0 {
                                assert(before[a].vector_ranks@[0] < vn);
                            } else {
                                assert(before[a].keyword_ranks@[0] < p);
                            }
                        }
                    }
                    assert forall|a: int, b: int| 0 <= a < b < res@.len() implies #[trigger] res@[a].id
                        != #[trigger] res@[b].id by {
                        if b == n {
                            assert(before[a].id != id);
                        }
                    }
                }
            },
        }
        p = p + 1;
    }
    assert(p == kn);
    assert forall|q: int| #![trigger keyword_ids@[q]] 0 <= q < kn implies has_entry(res@, keyword_ids@[q]) by {
        assert(0 <= q < p);
    }
}

/// Groups two rankings by record id, as reciprocal rank fusion needs: one
/// entry per distinct id of either list, with every rank at which the id
/// occurs in each list, in order of first appearance (vector ranking first).
pub fn fuse_rankings(vector_ids: &Vec<i64>, keyword_ids: &Vec<i64>) -> (res: Vec<FusedEntry>)
    ensures
        is_fusion(vector_ids@, keyword_ids@, res@),
{
    let mut index: HashMap<i64, usize> = HashMap::new();
    let mut res = group_vector_ranks(vector_ids, &mut index);
    add_keyword_ranks(&mut res, &mut index, vector_ids, keyword_ids);
    res
}

/// The place where a fused record first occurs; its text and creation time
/// are taken from there.
#[derive(Debug, Clone, Copy, PartialEq, Eq)]
pub enum Occurrence {
    /// At this rank of the vector ranking.
    Vector(usize),
    /// At this rank of the keyword ranking (the record is not in the vector
    /// ranking).
    Keyword(usize),
}

impl FusedEntry {
    /// The first place this record occurs, reading the vector ranking before
    /// the keyword ranking.
    pub fn first_occurrence(&self) -> (res: Occurrence)
        requires
            self.vector_ranks@.len() > 0 || self.keyword_ranks@.len() > 0,
        ensures
            res == (if self.vector_ranks@.len() > 0 {
                Occurrence::Vector(self.vector_ranks@[0])
            } else {
                Occurrence::Keyword(self.keyword_ranks@[0])
            }),
    {
        if self.vector_ranks.len() > 0 {
            Occurrence::Vector(self.vector_ranks[0])
        } else {
            Occurrence::Keyword(self.keyword_ranks[0])
        }
    }
}

// ---------------------------------------------------------------------------
// Age for the time decay
// ---------------------------------------------------------------------------

/// The age in seconds at time `now` of a record created at `created_at`,
/// never negative (a record dated in the future counts as brand new).
pub fn age_seconds(now: i64, created_at: i64) -> (res: i64)
    requires
        i64::MIN <= now - created_at <= i64::MAX,
    ensures
        res == (if now - created_at > 0 {
            now - created_at
        } else {
            0
        }),
{
    let d = now - created_at;
    if d > 0 {
        d
    } else {
        0
    }
}

// ---------------------------------------------------------------------------
// Ranking scores given by their bit patterns
// ---------------------------------------------------------------------------

/// The order key of a score given by its bit pattern (`None` for a NaN).
pub open spec fn score_key_spec(bits: u32) -> Option<i64> {
    if is_nan_bits(bits) {
        None
    } else {
        Some(order_key_spec(bits))
    }
}

/// The order keys of a list of scores.
pub open spec fn score_keys(bits: Seq<u32>) -> Seq<Option<i64>> {
    bits.map_values(|b: u32| score_key_spec(b))
}

/// The key used to rank a score that must keep its place in a full ranking:
/// its order key, or a key below every number for a NaN (a NaN is not
/// ordered with anything, so it goes last).
pub open spec fn rank_key_spec(bits: u32) -> i64 {
    match score_key_spec(bits) {
        Some(k) => k,
        None => i64::MIN,
    }
}

fn score_keys_of(bits: &Vec<u32>) -> (res: Vec<Option<i64>>)
    ensures
        res@ == score_keys(bits@),
{
    let mut res: Vec<Option<i64>> = Vec::new();
    let mut i: usize = 0;
    while i < bits.len()
        invariant
            i <= bits@.len(),
            res@ == score_keys(bits@).take(i as int),
        decreases bits@.len() - i,
    {
        res.push(score_order_key(bits[i]));
        i = i + 1;
        assert(res@ =~= score_keys(bits@).take(i as int));
    }
    assert(res@ =~= score_keys(bits@));
    res
}

/// Ranks scores given by their bit patterns from best to worst, stably
/// (equal scores keep their input order; NaNs go last).
pub fn rank_scores_descending(bits: &Vec<u32>) -> (order: Vec<usize>)
    ensures
        order@.len() == bits@.len(),
        distinct_indices(order@, bits@.len()),
        forall|j: usize| j < bits@.len() ==> order@.contains(j),
        ranked_descending(bits@.map_values(|b: u32| rank_key_spec(b)), order@),
{
    let mut keys: Vec<i64> = Vec::new();
    let mut i: usize = 0;
    while i < bits.len()
        invariant
            i <= bits@.len(),
            keys@ == bits@.map_values(|b: u32| rank_key_spec(b)).take(i as int),
        decreases bits@.len() - i,
    {
        let k = match score_order_key(bits[i]) {
            Some(k) => k,
            None => i64::MIN,
        };
        keys.push(k);
        i = i + 1;
        assert(keys@ =~= bits@.map_values(|b: u32| rank_key_spec(b)).take(i as int));
    }
    assert(keys@ =~= bits@.map_values(|b: u32| rank_key_spec(b)));
    rank_descending(&keys)
}

/// The indices of the scores (given by their bit patterns) that are at least
/// `min_score`, best first and stably, cut to at most `top_k`: what keeping
/// the scores `>= min_score`, sorting them in descending order and taking the
/// first `top_k` gives.
pub fn select_top_scores(bits: &Vec<u32>, min_score_bits: u32, top_k: usize) -> (res: Vec<usize>)
    ensures
        is_top_selection(score_keys(bits@), score_key_spec(min_score_bits), top_k as nat, res@),
{
    let keys = score_keys_of(bits);
    let min_key = score_order_key(min_score_bits);
    select_ranked(&keys, min_key, top_k)
}

// ---------------------------------------------------------------------------
// Laws of score comparison, stated on the IEEE-754 single-precision layout:
// bit 31 is the sign, bits 23..30 the exponent, bits 0..22 the fraction.
// ---------------------------------------------------------------------------

/// A bit pattern is a NaN exactly when its exponent bits are all set and its
/// fraction is not zero; every finite value and both infinities are numbers.
pub proof fn lemma_nan_exactly_ieee(b: u32)
    ensures
        is_nan_bits(b) == ((b / 0x80_0000) % 256 == 255 && b % 0x80_0000 != 0),
{
    let m = b % 0x8000_0000;
    assert(b % 0x80_0000 == m % 0x80_0000) by (nonlinear_arith)
        requires
            m == b % 0x8000_0000,
    {
        assert(b == 0x8000_0000 * (b / 0x8000_0000) + m);
        assert(0x8000_0000 * (b / 0x8000_0000) == 0x80_0000 * (256 * (b / 0x8000_0000)));
    }
    assert((b / 0x80_0000) % 256 == m / 0x80_0000) by (nonlinear_arith)
        requires
            m == b % 0x8000_0000,
            0 <= m < 0x8000_0000,
    {
        assert(b == 0x8000_0000 * (b / 0x8000_0000) + m);
        assert(b / 0x80_0000 == 256 * (b / 0x8000_0000) + m / 0x80_0000);
    }
    assert(m > 0x7f80_0000 <==> (m / 0x80_0000 == 255 && m % 0x80_0000 != 0)) by (nonlinear_arith)
        requires
            0 <= m < 0x8000_0000,
    {
        assert(m == 0x80_0000 * (m / 0x80_0000) + m % 0x80_0000);
    }
}

/// Two non-NaN scores compare by their order keys exactly as IEEE-754
/// compares the values: same signs compare by magnitude (reversed when
/// negative), a negative value is below a non-negative one, and the two
/// zeros are equal.
pub proof fn lemma_score_keys_ieee(a: u32, b: u32)
    requires
        a % 0x8000_0000 <= 0x7f80_0000,
        b % 0x8000_0000 <= 0x7f80_0000,
    ensures
        score_key_spec(a) is Some,
        score_key_spec(b) is Some,
        (score_key_spec(a)->0 < score_key_spec(b)->0) == (if a < 0x8000_0000 && b < 0x8000_0000 {
            a % 0x8000_0000 < b % 0x8000_0000
        } else if a >= 0x8000_0000 && b >= 0x8000_0000 {
            a % 0x8000_0000 > b % 0x8000_0000
        } else if a >= 0x8000_0000 {
            !(a % 0x8000_0000 == 0 && b % 0x8000_0000 == 0)
        } else {
            false
        }),
        (score_key_spec(a)->0 == score_key_spec(b)->0) == (a == b || (a % 0x8000_0000 == 0 && b
            % 0x8000_0000 == 0)),
{
}

/// In a full ranking a number keeps its IEEE-754 place: rank keys of non-NaN
/// scores are their order keys, and a NaN ranks below every number.
pub proof fn lemma_rank_key_ieee(a: u32, b: u32)
    requires
        a % 0x8000_0000 <= 0x7f80_0000,
    ensures
        score_key_spec(a) == Some(rank_key_spec(a)),
        b % 0x8000_0000 > 0x7f80_0000 ==> rank_key_spec(b) < rank_key_spec(a),
{
}

/// A score passes `min_score` exactly when neither is a NaN and the score is
/// not below `min_score` in IEEE-754 order (`score >= min_score`).
pub proof fn lemma_threshold_is_ieee_at_least(a: u32, m: u32)
    ensures
        passes_threshold(score_key_spec(a), score_key_spec(m)) == (a % 0x8000_0000 <= 0x7f80_0000
            && m % 0x8000_0000 <= 0x7f80_0000 && !(if a < 0x8000_0000 && m < 0x8000_0000 {
            a % 0x8000_0000 < m % 0x8000_0000
        } else if a >= 0x8000_0000 && m >= 0x8000_0000 {
            a % 0x8000_0000 > m % 0x8000_0000
        } else if a >= 0x8000_0000 {
            !(a % 0x8000_0000 == 0 && m % 0x8000_0000 == 0)
        } else {
            false
        })),
{
}

/// IEEE-754 `a < b` on the bit patterns of two non-NaN values.
pub open spec fn bits_less(a: u32, b: u32) -> bool {
    if a < 0x8000_0000 && b < 0x8000_0000 {
        a % 0x8000_0000 < b % 0x8000_0000
    } else if a >= 0x8000_0000 && b >= 0x8000_0000 {
        a % 0x8000_0000 > b % 0x8000_0000
    } else if a >= 0x8000_0000 {
        !(a % 0x8000_0000 == 0 && b % 0x8000_0000 == 0)
    } else {
        false
    }
}

/// In a ranking of scores by their rank keys, no number comes before a
/// strictly larger number, and every number comes before every NaN.
pub proof fn lemma_score_ranking_ieee(bits: Seq<u32>, order: Seq<usize>)
    requires
        distinct_indices(order, bits.len()),
        ranked_descending(bits.map_values(|b: u32| rank_key_spec(b)), order),
    ensures
        forall|i: int, j: int|
            0 <= i < j < order.len() && bits[order[j] as int] % 0x8000_0000 <= 0x7f80_0000 ==> {
                &&& bits[#[trigger] order[i] as int] % 0x8000_0000 <= 0x7f80_0000
                &&& !bits_less(bits[order[i] as int], bits[#[trigger] order[j] as int])
            },
{
    let keys = bits.map_values(|b: u32| rank_key_spec(b));
    assert forall|i: int, j: int|
        0 <= i < j < order.len() && bits[order[j] as int] % 0x8000_0000 <= 0x7f80_0000 implies {
        &&& bits[#[trigger] order[i] as int] % 0x8000_0000 <= 0x7f80_0000
        &&& !bits_less(bits[order[i] as int], bits[#[trigger] order[j] as int])
    } by {
        let x = bits[order[i] as int];
        let y = bits[order[j] as int];
        assert(ranks_before(keys, order[i], order[j]));
        assert(keys[order[i] as int] == rank_key_spec(x));
        assert(keys[order[j] as int] == rank_key_spec(y));
        lemma_rank_key_ieee(y, x);
        if x % 0x8000_0000 <= 0x7f80_0000 {
            lemma_score_keys_ieee(x, y);
            lemma_rank_key_ieee(x, y);
        }
    }
}

/// The scores that a selection returns are numbers at least `min_score`,
/// best first in IEEE-754 order; when it returns fewer than `top_k`, every
/// number at least `min_score` is among them.
pub proof fn lemma_score_selection_ieee(bits: Seq<u32>, min_score: u32, top_k: nat, res: Seq<usize>)
    requires
        is_top_selection(score_keys(bits), score_key_spec(min_score), top_k, res),
    ensures
        forall|i: int|
            0 <= i < res.len() ==> {
                &&& bits[#[trigger] res[i] as int] % 0x8000_0000 <= 0x7f80_0000
                &&& min_score % 0x8000_0000 <= 0x7f80_0000
                &&& !bits_less(bits[res[i] as int], min_score)
            },
        forall|i: int, j: int|
            0 <= i < j < res.len() ==> !bits_less(
                bits[#[trigger] res[i] as int],
                bits[#[trigger] res[j] as int],
            ),
        res.len() < top_k ==> forall|x: usize|
            x < bits.len() && bits[x as int] % 0x8000_0000 <= 0x7f80_0000 && min_score % 0x8000_0000
                <= 0x7f80_0000 && !bits_less(bits[x as int], min_score) ==> res.contains(x),
{
    let keys = score_keys(bits);
    assert forall|i: int| 0 <= i < res.len() implies {
        &&& bits[#[trigger] res[i] as int] % 0x8000_0000 <= 0x7f80_0000
        &&& min_score % 0x8000_0000 <= 0x7f80_0000
        &&& !bits_less(bits[res[i] as int], min_score)
    } by {
        assert(passes_threshold(keys[res[i] as int], score_key_spec(min_score)));
        lemma_threshold_is_ieee_at_least(bits[res[i] as int], min_score);
    }
    assert forall|i: int, j: int| 0 <= i < j < res.len() implies !bits_less(
        bits[#[trigger] res[i] as int],
        bits[#[trigger] res[j] as int],
    ) by {
        let x = bits[res[i] as int];
        let y = bits[res[j] as int];
        assert(passes_threshold(keys[res[i] as int], score_key_spec(min_score)));
        assert(passes_threshold(keys[res[j] as int], score_key_spec(min_score)));
        lemma_threshold_is_ieee_at_least(x, min_score);
        lemma_threshold_is_ieee_at_least(y, min_score);
        assert(ranks_before(key_values(keys), res[i], res[j]));
        lemma_score_keys_ieee(x, y);
    }
    if res.len() < top_k {
        assert forall|x: usize|
            x < bits.len() && bits[x as int] % 0x8000_0000 <= 0x7f80_0000 && min_score % 0x8000_0000
                <= 0x7f80_0000 && !bits_less(bits[x as int], min_score) implies res.contains(x) by {
            lemma_threshold_is_ieee_at_least(bits[x as int], min_score);
            assert(passes_threshold(keys[x as int], score_key_spec(min_score)));
        }
    }
}

}
