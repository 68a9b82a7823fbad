//! The longest earlier match for every position of a buffer, which the
//! LC_LZ2 compressor's back-references are chosen from: the suffixes of
//! the buffer sorted by prefix doubling, what neighbouring suffixes share
//! by Kasai's algorithm, and a pass up and a pass down the sorted order.

use vstd::prelude::*;

use super::{LONG_LEN, MAX_OUTPUT};

verus! {

// --- Suffixes ----------------------------------------------------------

/// How many bytes the suffixes of `data` from `a` and from `b` share.
pub open spec fn lcp(data: Seq<u8>, a: int, b: int) -> int
    decreases data.len() - a,
{
    if 0 <= a < data.len() && 0 <= b < data.len() && data[a] == data[b] {
        1 + lcp(data, a + 1, b + 1)
    } else {
        0
    }
}

/// The suffix from `a` sorts before the one from `b`: at the first byte
/// where they differ it is lower, or it ends there.
pub open spec fn suffix_lt(data: Seq<u8>, a: int, b: int) -> bool {
    let l = lcp(data, a, b);
    ||| a + l == data.len() && b + l < data.len()
    ||| a + l < data.len() && b + l < data.len() && data[a + l] < data[b + l]
}

/// What two suffixes share: their common bytes, then a difference or an
/// end.
pub proof fn lemma_lcp(data: Seq<u8>, a: int, b: int)
    requires
        0 <= a <= data.len(),
        0 <= b <= data.len(),
    ensures
        0 <= lcp(data, a, b) <= data.len() - a,
        lcp(data, a, b) <= data.len() - b,
        forall|k: int| 0 <= k < lcp(data, a, b) ==> #[trigger] data[a + k] == data[b + k],
        ({
            let l = lcp(data, a, b);
            a + l == data.len() || b + l == data.len() || data[a + l] != data[b + l]
        }),
    decreases data.len() - a,
{
    if a < data.len() && b < data.len() && data[a] == data[b] {
        lemma_lcp(data, a + 1, b + 1);
        assert forall|k: int| 0 <= k < lcp(data, a, b) implies #[trigger] data[a + k] == data[b + k] by {
            if k > 0 {
                assert(data[(a + 1) + (k - 1)] == data[(b + 1) + (k - 1)]);
            }
        }
    }
}

/// Suffixes that share `l` bytes and then differ or end share exactly
/// `l`.
proof fn lemma_lcp_is(data: Seq<u8>, a: int, b: int, l: int)
    requires
        0 <= a,
        0 <= b,
        0 <= l,
        a + l <= data.len(),
        b + l <= data.len(),
        forall|k: int| 0 <= k < l ==> #[trigger] data[a + k] == data[b + k],
        a + l == data.len() || b + l == data.len() || data[a + l] != data[b + l],
    ensures
        lcp(data, a, b) == l,
    decreases l,
{
    if l > 0 {
        assert(data[a + 0] == data[b + 0]);
        assert forall|k: int| 0 <= k < l - 1 implies #[trigger] data[(a + 1) + k] == data[(b + 1) + k] by {
            assert(data[a + (k + 1)] == data[b + (k + 1)]);
        }
        lemma_lcp_is(data, a + 1, b + 1, l - 1);
    }
}

/// Suffixes that share `l` bytes share at least `l`.
pub proof fn lemma_lcp_at_least(data: Seq<u8>, a: int, b: int, l: int)
    requires
        0 <= a,
        0 <= b,
        0 <= l,
        a + l <= data.len(),
        b + l <= data.len(),
        forall|k: int| 0 <= k < l ==> #[trigger] data[a + k] == data[b + k],
    ensures
        lcp(data, a, b) >= l,
    decreases l,
{
    lemma_lcp(data, a, b);
    if l > 0 {
        assert(data[a + 0] == data[b + 0]);
        assert forall|k: int| 0 <= k < l - 1 implies #[trigger] data[(a + 1) + k] == data[(b + 1) + k] by {
            assert(data[a + (k + 1)] == data[b + (k + 1)]);
        }
        lemma_lcp_at_least(data, a + 1, b + 1, l - 1);
        assert(lcp(data, a, b) == 1 + lcp(data, a + 1, b + 1));
    }
}

proof fn lemma_lcp_symmetric(data: Seq<u8>, a: int, b: int)
    requires
        0 <= a <= data.len(),
        0 <= b <= data.len(),
    ensures
        lcp(data, a, b) == lcp(data, b, a),
{
    lemma_lcp(data, a, b);
    let l = lcp(data, a, b);
    assert forall|k: int| 0 <= k < l implies #[trigger] data[b + k] == data[a + k] by {
        assert(data[a + k] == data[b + k]);
    }
    lemma_lcp_is(data, b, a, l);
}

/// Past `k` shared bytes, two suffixes share what the suffixes `k` on do.
proof fn lemma_lcp_shift(data: Seq<u8>, a: int, b: int, k: int)
    requires
        0 <= a <= data.len(),
        0 <= b <= data.len(),
        0 <= k <= lcp(data, a, b),
    ensures
        lcp(data, a, b) == k + lcp(data, a + k, b + k),
    decreases k,
{
    if k > 0 {
        lemma_lcp(data, a, b);
        lemma_lcp_shift(data, a + 1, b + 1, k - 1);
    }
}

/// Of two different suffixes, exactly one sorts first.
proof fn lemma_suffix_total(data: Seq<u8>, a: int, b: int)
    requires
        0 <= a < data.len(),
        0 <= b < data.len(),
    ensures
        a == b ==> !suffix_lt(data, a, b),
        a != b ==> (suffix_lt(data, a, b) <==> !suffix_lt(data, b, a)),
{
    lemma_lcp(data, a, b);
    lemma_lcp_symmetric(data, a, b);
}

/// What a suffix shares with another is no more than it shares with any
/// suffix sorted between them.
proof fn lemma_lcp_between(data: Seq<u8>, a: int, b: int, c: int)
    requires
        0 <= a < data.len(),
        0 <= b < data.len(),
        0 <= c < data.len(),
        suffix_lt(data, a, b),
        suffix_lt(data, b, c),
    ensures
        lcp(data, a, c) <= lcp(data, a, b),
        lcp(data, a, c) <= lcp(data, b, c),
        lcp(data, a, c) == if lcp(data, a, b) < lcp(data, b, c) {
            lcp(data, a, b)
        } else {
            lcp(data, b, c)
        },
{
    lemma_lcp(data, a, b);
    lemma_lcp(data, b, c);
    let l1 = lcp(data, a, b);
    let l2 = lcp(data, b, c);
    let l = if l1 < l2 { l1 } else { l2 };
    assert forall|k: int| 0 <= k < l implies #[trigger] data[a + k] == data[c + k] by {
        assert(data[a + k] == data[b + k]);
        assert(data[b + k] == data[c + k]);
    }
    if l1 < l2 {
        assert(data[b + l1] == data[c + l1]);
        lemma_lcp_is(data, a, c, l1);
    } else if l2 < l1 {
        assert(data[a + l2] == data[b + l2]);
        lemma_lcp_is(data, a, c, l2);
    } else {
        lemma_lcp_is(data, a, c, l);
    }
}

// --- Ranking suffixes by their first bytes -----------------------------

/// The suffixes from `a` and `b` start with the same `k` bytes (a suffix
/// shorter than that only matching itself).
pub open spec fn same_k(data: Seq<u8>, k: int, a: int, b: int) -> bool {
    a == b || lcp(data, a, b) >= k
}

/// The suffix from `a` sorts before the one from `b` by its first `k`
/// bytes.
pub open spec fn before_k(data: Seq<u8>, k: int, a: int, b: int) -> bool {
    !same_k(data, k, a, b) && suffix_lt(data, a, b)
}

/// `rank` numbers the suffixes of `data` from 1 up by their first `k`
/// bytes.
pub open spec fn ranked(data: Seq<u8>, rank: Seq<usize>, k: int) -> bool {
    &&& rank.len() == data.len()
    &&& forall|a: int| 0 <= a < data.len() ==> 1 <= #[trigger] rank[a]
    &&& forall|a: int, b: int|
        #![trigger rank[a], rank[b]]
        0 <= a < data.len() && 0 <= b < data.len() ==> {
            &&& (rank[a] == rank[b] <==> same_k(data, k, a, b))
            &&& (rank[a] < rank[b] <==> before_k(data, k, a, b))
        }
}

/// The rank of the suffix `k` on, or 0 past the end of the data.
pub open spec fn second_key(rank: Seq<usize>, k: int, a: int) -> int {
    if a + k < rank.len() {
        rank[a + k] as int
    } else {
        0
    }
}

/// A byte plus one ranks suffixes by their first byte.
proof fn lemma_first_ranks(data: Seq<u8>, rank: Seq<usize>)
    requires
        rank.len() == data.len(),
        forall|a: int| 0 <= a < data.len() ==> #[trigger] rank[a] == data[a] + 1,
    ensures
        ranked(data, rank, 1),
{
    assert forall|a: int, b: int| 0 <= a < data.len() && 0 <= b < data.len() implies {
        &&& (rank[a] == rank[b] <==> same_k(data, 1, a, b))
        &&& (rank[a] < rank[b] <==> before_k(data, 1, a, b))
    } by {
        lemma_lcp(data, a, b);
        if data[a] == data[b] {
            assert(lcp(data, a, b) == 1 + lcp(data, a + 1, b + 1));
            lemma_lcp(data, a + 1, b + 1);
        } else {
            assert(lcp(data, a, b) == 0);
        }
    }
}

/// Ranks by the first `k` bytes and the ranks `k` on order suffixes by
/// their first `2k` bytes.
proof fn lemma_doubling(data: Seq<u8>, rank: Seq<usize>, k: int, a: int, b: int)
    requires
        ranked(data, rank, k),
        1 <= k,
        0 <= a < data.len(),
        0 <= b < data.len(),
    ensures
        (rank[a] == rank[b] && second_key(rank, k, a) == second_key(rank, k, b)) <==> same_k(
            data,
            2 * k,
            a,
            b,
        ),
        (rank[a] < rank[b] || (rank[a] == rank[b] && second_key(rank, k, a) < second_key(
            rank,
            k,
            b,
        ))) <==> before_k(data, 2 * k, a, b),
{
    let n = data.len() as int;
    lemma_lcp(data, a, b);
    assert(rank[a] == rank[b] <==> same_k(data, k, a, b));
    assert(rank[a] < rank[b] <==> before_k(data, k, a, b));
    if a != b && same_k(data, k, a, b) {
        lemma_lcp_shift(data, a, b, k);
        if a + k == n {
            assert(b + k < n);
            assert(rank[b + k] >= 1);
        } else if b + k == n {
            assert(a + k < n);
            assert(rank[a + k] >= 1);
        } else {
            assert(rank[a + k] == rank[b + k] <==> same_k(data, k, a + k, b + k));
            assert(rank[a + k] < rank[b + k] <==> before_k(data, k, a + k, b + k));
        }
    }
}

// --- Counting sort -----------------------------------------------------

/// How many of the first `j` entries of `from` have key `v`.
pub open spec fn count_key(from: Seq<usize>, keys: Seq<usize>, v: int, j: int) -> int
    decreases j,
{
    if j <= 0 {
        0
    } else {
        count_key(from, keys, v, j - 1) + if keys[from[j - 1] as int] == v {
            1int
        } else {
            0
        }
    }
}

/// How many of the first `j` entries of `from` have a key below `v`.
pub open spec fn count_below(from: Seq<usize>, keys: Seq<usize>, v: int, j: int) -> int
    decreases j,
{
    if j <= 0 {
        0
    } else {
        count_below(from, keys, v, j - 1) + if keys[from[j - 1] as int] < v {
            1int
        } else {
            0
        }
    }
}

/// Where a stable sort by key puts entry `j` of `from`: after every entry
/// with a lower key and every earlier one with the same.
pub open spec fn place(from: Seq<usize>, keys: Seq<usize>, j: int) -> int {
    let v = keys[from[j] as int] as int;
    count_below(from, keys, v, from.len() as int) + count_key(from, keys, v, j)
}

proof fn lemma_count_grows(from: Seq<usize>, keys: Seq<usize>, v: int, j1: int, j2: int)
    requires
        0 <= j1 <= j2,
    ensures
        0 <= count_key(from, keys, v, j1) <= count_key(from, keys, v, j2),
        count_key(from, keys, v, j2) - count_key(from, keys, v, j1) <= j2 - j1,
        0 <= count_below(from, keys, v, j1) <= count_below(from, keys, v, j2),
        count_below(from, keys, v, j2) - count_below(from, keys, v, j1) <= j2 - j1,
    decreases j2,
{
    if j2 > j1 {
        lemma_count_grows(from, keys, v, j1, j2 - 1);
    } else if j1 > 0 {
        lemma_count_grows(from, keys, v, j1 - 1, j1 - 1);
    }
}

proof fn lemma_count_below_next(from: Seq<usize>, keys: Seq<usize>, v: int, j: int)
    requires
        0 <= j,
    ensures
        count_below(from, keys, v + 1, j) == count_below(from, keys, v, j) + count_key(
            from,
            keys,
            v,
            j,
        ),
    decreases j,
{
    if j > 0 {
        lemma_count_below_next(from, keys, v, j - 1);
    }
}

proof fn lemma_count_below_keys(from: Seq<usize>, keys: Seq<usize>, v1: int, v2: int, j: int)
    requires
        0 <= j,
        v1 <= v2,
    ensures
        count_below(from, keys, v1, j) <= count_below(from, keys, v2, j),
    decreases j,
{
    if j > 0 {
        lemma_count_below_keys(from, keys, v1, v2, j - 1);
    }
}

proof fn lemma_count_below_zero(from: Seq<usize>, keys: Seq<usize>, j: int)
    requires
        0 <= j,
    ensures
        count_below(from, keys, 0, j) == 0,
    decreases j,
{
    if j > 0 {
        lemma_count_below_zero(from, keys, j - 1);
    }
}

/// A stable sort by key puts every entry within the sorted output, a lower
/// key first, and of equal keys the earlier first.
proof fn lemma_place(from: Seq<usize>, keys: Seq<usize>, j1: int, j2: int)
    requires
        0 <= j1 < from.len(),
        0 <= j2 < from.len(),
    ensures
        0 <= place(from, keys, j1) < from.len(),
        j1 < j2 && keys[from[j1] as int] <= keys[from[j2] as int] ==> place(from, keys, j1)
            < place(from, keys, j2),
        j1 < j2 && keys[from[j1] as int] > keys[from[j2] as int] ==> place(from, keys, j1)
            > place(from, keys, j2),
{
    let n = from.len() as int;
    let v1 = keys[from[j1] as int] as int;
    let v2 = keys[from[j2] as int] as int;
    lemma_count_grows(from, keys, v1, j1, j1 + 1);
    lemma_count_grows(from, keys, v1, j1 + 1, n);
    lemma_count_grows(from, keys, v1 + 1, n, n);
    lemma_count_below_next(from, keys, v1, n);
    lemma_count_grows(from, keys, v1, 0, n);
    lemma_count_grows(from, keys, v1 + 1, 0, n);
    if j1 < j2 {
        lemma_count_grows(from, keys, v2, j2, j2 + 1);
        lemma_count_grows(from, keys, v2, j2 + 1, n);
        lemma_count_below_next(from, keys, v2, n);
        lemma_count_grows(from, keys, v1, j1 + 1, j2);
        if v1 < v2 {
            lemma_count_below_keys(from, keys, v1 + 1, v2, n);
            lemma_count_grows(from, keys, v2, 0, j2);
        } else if v1 > v2 {
            lemma_count_below_keys(from, keys, v2 + 1, v1, n);
            lemma_count_grows(from, keys, v1, 0, j1);
        }
    }
}

/// An injective map of `0..n` into itself reaches every number there.
proof fn lemma_onto(f: spec_fn(int) -> int, n: int, s: int)
    requires
        0 <= s < n,
        forall|j: int| 0 <= j < n ==> 0 <= #[trigger] f(j) < n,
        forall|j1: int, j2: int| 0 <= j1 < n && 0 <= j2 < n && #[trigger] f(j1) == #[trigger] f(j2) ==> j1 == j2,
    ensures
        exists|j: int| 0 <= j < n && #[trigger] f(j) == s,
{
    let all = vstd::set_lib::set_int_range(0, n);
    vstd::set_lib::lemma_int_range(0, n);
    let image = all.map(f);
    assert(vstd::relations::injective_on(f, all));
    vstd::set_lib::lemma_map_size(all, image, f);
    assert(image.subset_of(all));
    vstd::set_lib::lemma_subset_equality(image, all);
    assert(all.contains(s));
    assert(image.contains(s));
}

/// Stably sorts `from` into `to` by `keys` of the positions it holds:
/// entry `j` goes to `place(from, keys, j)`.
fn counting_sort(from: &Vec<usize>, to: &mut Vec<usize>, counts: &mut Vec<usize>, keys: &Vec<usize>)
    requires
        old(to)@.len() == from@.len(),
        keys@.len() == from@.len(),
        forall|j: int| 0 <= j < from@.len() ==> #[trigger] from@[j] < from@.len(),
        forall|j: int| 0 <= j < keys@.len() ==> #[trigger] keys@[j] < old(counts)@.len(),
    ensures
        final(to)@.len() == from@.len(),
        final(counts)@.len() == old(counts)@.len(),
        forall|j: int| 0 <= j < from@.len() ==> final(to)@[#[trigger] place(from@, keys@, j)] == from@[j],
{
    let n = from.len();
    let m = counts.len();
    let ghost f = from@;
    let ghost ks = keys@;
    let mut c: usize = 0;
    while c < m
        invariant
            c <= m,
            counts@.len() == m,
            forall|u: int| 0 <= u < c ==> #[trigger] counts@[u] == 0,
        decreases m - c,
    {
        counts.set(c, 0);
        c = c + 1;
    }
    let mut j: usize = 0;
    while j < n
        invariant
            j <= n,
            n == f.len(),
            f == from@,
            ks == keys@,
            ks.len() == n,
            counts@.len() == m,
            forall|t: int| 0 <= t < n ==> #[trigger] f[t] < n,
            forall|t: int| 0 <= t < n ==> #[trigger] ks[t] < m,
            forall|u: int| 0 <= u < m ==> #[trigger] counts@[u] == count_key(f, ks, u, j as int),
        decreases n - j,
    {
        let v = keys[from[j]];
        proof {
            lemma_count_grows(f, ks, v as int, j as int, j as int);
            lemma_count_grows(f, ks, v as int, 0, j as int);
        }
        let cv = counts[v];
        counts.set(v, cv + 1);
        j = j + 1;
    }
    proof {
        lemma_count_below_zero(f, ks, n as int);
    }
    let mut sum: usize = 0;
    let mut c: usize = 0;
    while c < m
        invariant
            c <= m,
            n == f.len(),
            counts@.len() == m,
            sum == count_below(f, ks, c as int, n as int),
            forall|u: int| 0 <= u < c ==> #[trigger] counts@[u] == count_below(f, ks, u, n as int),
            forall|u: int| c <= u < m ==> #[trigger] counts@[u] == count_key(f, ks, u, n as int),
        decreases m - c,
    {
        proof {
            lemma_count_below_next(f, ks, c as int, n as int);
            lemma_count_grows(f, ks, c + 1, 0, n as int);
        }
        let count = counts[c];
        counts.set(c, sum);
        sum = sum + count;
        c = c + 1;
    }
    let mut j: usize = 0;
    while j < n
        invariant
            j <= n,
            n == f.len(),
            f == from@,
            ks == keys@,
            ks.len() == n,
            counts@.len() == m,
            to@.len() == n,
            forall|t: int| 0 <= t < n ==> #[trigger] f[t] < n,
            forall|t: int| 0 <= t < n ==> #[trigger] ks[t] < m,
            forall|u: int| 0 <= u < m ==> #[trigger] counts@[u] == count_below(f, ks, u, n as int)
                + count_key(f, ks, u, j as int),
            forall|t: int| 0 <= t < j ==> to@[#[trigger] place(f, ks, t)] == f[t],
        decreases n - j,
    {
        let i = from[j];
        let v = keys[i];
        let slot = counts[v];
        proof {
            lemma_place(f, ks, j as int, j as int);
            lemma_count_grows(f, ks, v as int, j as int, j + 1);
            assert(slot == place(f, ks, j as int));
        }
        let ghost before = to@;
        to.set(slot, i);
        counts.set(v, slot + 1);
        proof {
            assert forall|t: int| 0 <= t < j + 1 implies to@[#[trigger] place(f, ks, t)] == f[t] by {
                if t < j {
                    lemma_place(f, ks, t, j as int);
                    assert(to@[place(f, ks, t)] == before[place(f, ks, t)]);
                }
            }
        }
        j = j + 1;
    }
}

/// `o` holds each of `0..n` once.
pub open spec fn is_perm(o: Seq<usize>, n: int) -> bool {
    &&& o.len() == n
    &&& forall|r: int| 0 <= r < n ==> #[trigger] o[r] < n
    &&& forall|r1: int, r2: int| 0 <= r1 < n && 0 <= r2 < n && #[trigger] o[r1] == #[trigger] o[r2] ==> r1 == r2
}

/// Where in `o` position `p` is.
pub open spec fn index_of(o: Seq<usize>, p: int) -> int {
    choose|r: int| 0 <= r < o.len() && o[r] == p
}

/// Each of `0..n` is somewhere in a permutation of them.
proof fn lemma_perm_index(o: Seq<usize>, n: int, p: int)
    requires
        is_perm(o, n),
        0 <= p < n,
    ensures
        0 <= index_of(o, p) < n,
        o[index_of(o, p)] == p,
{
    let f = |r: int| o[r] as int;
    assert forall|j1: int, j2: int| 0 <= j1 < n && 0 <= j2 < n && #[trigger] f(j1) == #[trigger] f(j2) implies j1 == j2 by {
        assert(o[j1] == o[j2]);
    }
    lemma_onto(f, n, p);
    let r = choose|r: int| 0 <= r < n && #[trigger] f(r) == p;
    assert(0 <= r < o.len() && o[r] == p);
}

/// The entry of `from` that a stable sort by `keys` puts at `s`.
pub open spec fn source(from: Seq<usize>, keys: Seq<usize>, s: int) -> int {
    choose|j: int| 0 <= j < from.len() && place(from, keys, j) == s
}

/// A stable sort of a permutation by key is a permutation, in key order,
/// with entries of one key in the order they had.
proof fn lemma_sorted(from: Seq<usize>, to: Seq<usize>, keys: Seq<usize>)
    requires
        is_perm(from, from.len() as int),
        keys.len() == from.len(),
        to.len() == from.len(),
        forall|j: int| 0 <= j < from.len() ==> to[#[trigger] place(from, keys, j)] == from[j],
    ensures
        is_perm(to, from.len() as int),
        forall|s: int|
            0 <= s < from.len() ==> {
                &&& 0 <= #[trigger] source(from, keys, s) < from.len()
                &&& place(from, keys, source(from, keys, s)) == s
                &&& to[s] == from[source(from, keys, s)]
            },
        forall|s1: int, s2: int|
            #![trigger to[s1], to[s2]]
            0 <= s1 < s2 < from.len() ==> {
                &&& keys[to[s1] as int] <= keys[to[s2] as int]
                &&& keys[to[s1] as int] == keys[to[s2] as int] ==> source(from, keys, s1) < source(
                    from,
                    keys,
                    s2,
                )
            },
{
    let n = from.len() as int;
    let f = |j: int| place(from, keys, j);
    assert forall|j: int| 0 <= j < n implies 0 <= #[trigger] f(j) < n by {
        lemma_place(from, keys, j, j);
    }
    assert forall|j1: int, j2: int| 0 <= j1 < n && 0 <= j2 < n && #[trigger] f(j1) == #[trigger] f(j2) implies j1 == j2 by {
        if j1 < j2 {
            lemma_place(from, keys, j1, j2);
        } else if j2 < j1 {
            lemma_place(from, keys, j2, j1);
        }
    }
    assert forall|s: int| 0 <= s < n implies {
        &&& 0 <= #[trigger] source(from, keys, s) < n
        &&& place(from, keys, source(from, keys, s)) == s
        &&& to[s] == from[source(from, keys, s)]
    } by {
        lemma_onto(f, n, s);
        let j = choose|j: int| 0 <= j < n && #[trigger] f(j) == s;
        assert(0 <= j < n && place(from, keys, j) == s);
    }
    assert forall|r: int| 0 <= r < n implies #[trigger] to[r] < n by {
        assert(to[r] == from[source(from, keys, r)]);
    }
    assert forall|r1: int, r2: int| 0 <= r1 < n && 0 <= r2 < n && #[trigger] to[r1] == #[trigger] to[r2] implies r1 == r2 by {
        let j1 = source(from, keys, r1);
        let j2 = source(from, keys, r2);
        assert(from[j1] == from[j2]);
    }
    assert forall|s1: int, s2: int| 0 <= s1 < s2 < n implies {
        &&& keys[to[s1] as int] <= keys[to[s2] as int]
        &&& keys[to[s1] as int] == keys[to[s2] as int] ==> source(from, keys, s1) < source(from, keys, s2)
    } by {
        let j1 = source(from, keys, s1);
        let j2 = source(from, keys, s2);
        if j1 < j2 {
            lemma_place(from, keys, j1, j2);
        } else if j2 < j1 {
            lemma_place(from, keys, j2, j1);
        }
    }
}

/// Along `order`, the pairs of a suffix's rank and second key never go
/// down.
pub open spec fn pairs_sorted(order: Seq<usize>, rank: Seq<usize>, second: Seq<usize>) -> bool {
    forall|s1: int, s2: int|
        #![trigger order[s1], order[s2]]
        0 <= s1 < s2 < order.len() ==> {
            let a = order[s1] as int;
            let b = order[s2] as int;
            rank[a] < rank[b] || (rank[a] == rank[b] && second[a] <= second[b])
        }
}

/// Sorting by the second key and then, stably, by rank sorts by the pair.
proof fn lemma_two_sorts(
    order: Seq<usize>,
    scratch: Seq<usize>,
    sorted: Seq<usize>,
    second: Seq<usize>,
    rank: Seq<usize>,
)
    requires
        is_perm(order, order.len() as int),
        second.len() == order.len(),
        rank.len() == order.len(),
        scratch.len() == order.len(),
        sorted.len() == order.len(),
        forall|j: int| 0 <= j < order.len() ==> scratch[#[trigger] place(order, second, j)] == order[j],
        forall|j: int| 0 <= j < order.len() ==> sorted[#[trigger] place(scratch, rank, j)] == scratch[j],
    ensures
        is_perm(sorted, order.len() as int),
        pairs_sorted(sorted, rank, second),
{
    let n = order.len() as int;
    lemma_sorted(order, scratch, second);
    lemma_sorted(scratch, sorted, rank);
    assert forall|s1: int, s2: int| 0 <= s1 < s2 < n implies {
        let a = #[trigger] sorted[s1] as int;
        let b = #[trigger] sorted[s2] as int;
        rank[a] < rank[b] || (rank[a] == rank[b] && second[a] <= second[b])
    } by {
        let a = sorted[s1] as int;
        let b = sorted[s2] as int;
        assert(rank[a] <= rank[b]);
        if rank[a] == rank[b] {
            let t1 = source(scratch, rank, s1);
            let t2 = source(scratch, rank, s2);
            assert(t1 < t2);
            assert(scratch[t1] == a && scratch[t2] == b);
            assert(second[scratch[t1] as int] <= second[scratch[t2] as int]);
        }
    }
}

/// The start of every suffix of `data`, in sorted order (a suffix that
/// is a prefix of another sorts first). By prefix doubling: suffixes
/// ranked by their first `k` bytes are ranked by their first `2k` by the
/// pair of ranks at `i` and `i + k`, with two stable counting sorts,
/// until every rank differs.
#[verifier::rlimit(60)]
#[verifier::spinoff_prover]
fn suffix_array(data: &[u8]) -> (order: Vec<usize>)
    requires
        data@.len() <= MAX_OUTPUT,
    ensures
        is_perm(order@, data@.len() as int),
        forall|r1: int, r2: int|
            #![trigger order@[r1], order@[r2]]
            0 <= r1 < r2 < data@.len() ==> suffix_lt(data@, order@[r1] as int, order@[r2] as int),
{
    let n = data.len();
    if n == 0 {
        return Vec::new();
    }
    let mut order: Vec<usize> = Vec::new();
    // Rank 0 stands for the end of the data.
    let mut rank: Vec<usize> = Vec::new();
    let mut next: Vec<usize> = Vec::new();
    let mut scratch: Vec<usize> = Vec::new();
    let mut second: Vec<usize> = Vec::new();
    let mut i: usize = 0;
    while i < n
        invariant
            i <= n,
            n == data@.len(),
            order@.len() == i,
            rank@.len() == i,
            next@.len() == i,
            scratch@.len() == i,
            second@.len() == i,
            forall|t: int| 0 <= t < i ==> #[trigger] order@[t] == t,
            forall|t: int| 0 <= t < i ==> #[trigger] rank@[t] == data@[t] + 1,
        decreases n - i,
    {
        order.push(i);
        rank.push(data[i] as usize + 1);
        next.push(0);
        scratch.push(0);
        second.push(0);
        i = i + 1;
    }
    proof {
        lemma_first_ranks(data@, rank@);
    }
    let m = if n > 256 { n + 1 } else { 257 };
    let mut counts: Vec<usize> = Vec::new();
    let mut c: usize = 0;
    while c < m
        invariant
            c <= m,
            counts@.len() == c,
        decreases m - c,
    {
        counts.push(0);
        c = c + 1;
    }
    let mut k: usize = 1;
    loop
        invariant
            n == data@.len(),
            1 <= n <= MAX_OUTPUT,
            m == counts@.len(),
            n < m,
            256 < m,
            1 <= k <= n,
            is_perm(order@, n as int),
            ranked(data@, rank@, k as int),
            forall|t: int| 0 <= t < n ==> #[trigger] rank@[t] < m,
            next@.len() == n,
            scratch@.len() == n,
            second@.len() == n,
        decreases n - k,
    {
        let mut i: usize = 0;
        while i < n
            invariant
                i <= n,
                n == rank@.len(),
                second@.len() == n,
                1 <= k <= n,
                256 < m,
                forall|t: int| 0 <= t < n ==> #[trigger] rank@[t] < m,
                forall|t: int| 0 <= t < i ==> #[trigger] second@[t] == second_key(rank@, k as int, t),
                forall|t: int| 0 <= t < i ==> #[trigger] second@[t] < m,
            decreases n - i,
        {
            let s = if k < n - i { rank[i + k] } else { 0 };
            second.set(i, s);
            i = i + 1;
        }
        let ghost before = order@;
        counting_sort(&order, &mut scratch, &mut counts, &second);
        proof {
            lemma_sorted(before, scratch@, second@);
        }
        counting_sort(&scratch, &mut order, &mut counts, &rank);
        proof {
            lemma_two_sorts(before, scratch@, order@, second@, rank@);
        }
        let mut class: usize = 1;
        next.set(order[0], class);
        let ghost mut dup: int = 0;
        let mut r: usize = 1;
        while r < n
            invariant
                1 <= r <= n,
                1 <= class <= r,
                n < m,
                n == data@.len(),
                is_perm(order@, n as int),
                pairs_sorted(order@, rank@, second@),
                next@.len() == n,
                rank@.len() == n,
                second@.len() == n,
                class == next@[order@[r - 1] as int],
                forall|r1: int, r2: int|
                    #![trigger order@[r1], order@[r2]]
                    0 <= r1 <= r2 < r ==> {
                        let a = order@[r1] as int;
                        let b = order@[r2] as int;
                        &&& 1 <= next@[a] <= next@[b]
                        &&& (next@[a] == next@[b] <==> (rank@[a] == rank@[b] && second@[a] == second@[b]))
                    },
                class == r ==> forall|r1: int, r2: int|
                    #![trigger order@[r1], order@[r2]]
                    0 <= r1 < r2 < r ==> next@[order@[r1] as int] < next@[order@[r2] as int],
                class < r ==> 1 <= dup < r && rank@[order@[dup - 1] as int] == rank@[order@[dup] as int]
                    && second@[order@[dup - 1] as int] == second@[order@[dup] as int],
            decreases n - r,
        {
            let a = order[r - 1];
            let b = order[r];
            let ghost old_class = class;
            let ghost prev = next@;
            if rank[a] != rank[b] || second[a] != second[b] {
                class = class + 1;
            } else {
                proof {
                    if old_class == r {
                        dup = r as int;
                    }
                }
            }
            next.set(b, class);
            proof {
                assert forall|r1: int, r2: int| 0 <= r1 <= r2 < r + 1 implies {
                    let a1 = #[trigger] order@[r1] as int;
                    let b1 = #[trigger] order@[r2] as int;
                    &&& 1 <= next@[a1] <= next@[b1]
                    &&& (next@[a1] == next@[b1] <==> (rank@[a1] == rank@[b1] && second@[a1] == second@[b1]))
                } by {
                    let a1 = order@[r1] as int;
                    let b1 = order@[r2] as int;
                    if r1 < r {
                        assert(order@[r1] != order@[r as int]);
                        assert(next@[a1] == prev[a1]);
                    }
                    if r2 < r {
                        assert(order@[r2] != order@[r as int]);
                        assert(next@[b1] == prev[b1]);
                    }
                    if r1 < r && r2 == r {
                        assert(order@[r1] == order@[r1]);
                        if r1 < r - 1 {
                            assert(order@[r - 1] == order@[r - 1]);
                        }
                    }
                }
                if class == r + 1 {
                    assert forall|r1: int, r2: int| 0 <= r1 < r2 < r + 1 implies next@[
                        #[trigger] order@[r1] as int] < next@[#[trigger] order@[r2] as int] by {
                        assert(order@[r1] != order@[r as int]);
                        if r2 < r {
                            assert(order@[r2] != order@[r as int]);
                        }
                    }
                }
            }
            r = r + 1;
        }
        let ghost old_rank = rank@;
        std::mem::swap(&mut rank, &mut next);
        proof {
            assert forall|a: int, b: int| 0 <= a < n && 0 <= b < n implies {
                &&& (#[trigger] rank@[a] == #[trigger] rank@[b] <==> same_k(data@, 2 * k, a, b))
                &&& (rank@[a] < rank@[b] <==> before_k(data@, 2 * k, a, b))
            } by {
                lemma_perm_index(order@, n as int, a);
                lemma_perm_index(order@, n as int, b);
                let ra = index_of(order@, a);
                let rb = index_of(order@, b);
                lemma_doubling(data@, old_rank, k as int, a, b);
                if ra < rb {
                    assert(order@[ra] == order@[ra] && order@[rb] == order@[rb]);
                } else if rb < ra {
                    assert(order@[rb] == order@[rb] && order@[ra] == order@[ra]);
                }
            }
            assert forall|a: int| 0 <= a < n implies 1 <= #[trigger] rank@[a] && rank@[a] < m by {
                lemma_perm_index(order@, n as int, a);
                let ra = index_of(order@, a);
                assert(order@[ra] == order@[ra]);
                assert(order@[n - 1] == order@[n - 1]);
            }
        }
        if rank[order[n - 1]] == n {
            proof {
                assert forall|r1: int, r2: int| 0 <= r1 < r2 < n implies suffix_lt(
                    data@,
                    #[trigger] order@[r1] as int,
                    #[trigger] order@[r2] as int,
                ) by {
                    assert(rank@[order@[r1] as int] < rank@[order@[r2] as int]);
                }
            }
            return order;
        }
        proof {
            let a = order@[dup - 1] as int;
            let b = order@[dup] as int;
            assert(order@[dup - 1] == order@[dup - 1] && order@[dup] == order@[dup]);
            assert(a != b);
            lemma_doubling(data@, old_rank, k as int, a, b);
            lemma_lcp(data@, a, b);
        }
        k = k * 2;
    }
}

/// A suffix sorted before another with the same first byte stays before
/// it without that byte, sharing one byte less.
proof fn lemma_suffix_tail(data: Seq<u8>, a: int, b: int)
    requires
        0 <= a < data.len(),
        0 <= b < data.len(),
        data[a] == data[b],
        suffix_lt(data, a, b),
    ensures
        lcp(data, a, b) == 1 + lcp(data, a + 1, b + 1),
        suffix_lt(data, a + 1, b + 1),
{
    assert(lcp(data, a, b) == 1 + lcp(data, a + 1, b + 1));
}

/// For each rank of `order`, the bytes its suffix shares with the one
/// ranked just before it (0 for the first). Kasai's algorithm: taking
/// the suffixes by where they start, each shares at most one byte fewer
/// with its predecessor than the suffix before it did.
#[verifier::rlimit(60)]
#[verifier::spinoff_prover]
fn shared_prefixes(data: &[u8], order: &Vec<usize>) -> (shared: Vec<usize>)
    requires
        data@.len() <= MAX_OUTPUT,
        is_perm(order@, data@.len() as int),
        forall|r1: int, r2: int|
            #![trigger order@[r1], order@[r2]]
            0 <= r1 < r2 < data@.len() ==> suffix_lt(data@, order@[r1] as int, order@[r2] as int),
    ensures
        shared@.len() == data@.len(),
        forall|r: int|
            1 <= r < data@.len() ==> #[trigger] shared@[r] == lcp(
                data@,
                order@[r - 1] as int,
                order@[r] as int,
            ),
{
    let n = data.len();
    let ghost d = data@;
    let mut rank: Vec<usize> = Vec::new();
    let mut shared: Vec<usize> = Vec::new();
    let mut i: usize = 0;
    while i < n
        invariant
            i <= n,
            rank@.len() == i,
            shared@.len() == i,
        decreases n - i,
    {
        rank.push(0);
        shared.push(0);
        i = i + 1;
    }
    let mut r: usize = 0;
    while r < n
        invariant
            r <= n,
            n == d.len(),
            is_perm(order@, n as int),
            rank@.len() == n,
            forall|t: int| 0 <= t < r ==> #[trigger] rank@[order@[t] as int] == t,
        decreases n - r,
    {
        proof {
            assert forall|t: int| 0 <= t < r implies #[trigger] order@[t] != order@[r as int] by {}
        }
        rank.set(order[r], r);
        r = r + 1;
    }
    proof {
        assert forall|p: int| 0 <= p < n implies #[trigger] rank@[p] < n && order@[rank@[p] as int] == p by {
            lemma_perm_index(order@, n as int, p);
            let t = index_of(order@, p);
            assert(rank@[order@[t] as int] == t);
        }
    }
    proof {
        if n > 0 && rank@[0] > 0 {
            lemma_lcp(d, 0, order@[rank@[0] - 1] as int);
        }
    }
    let mut h: usize = 0;
    let mut i: usize = 0;
    while i < n
        invariant
            i <= n,
            n == d.len(),
            d == data@,
            n <= MAX_OUTPUT,
            is_perm(order@, n as int),
            forall|r1: int, r2: int|
                #![trigger order@[r1], order@[r2]]
                0 <= r1 < r2 < n ==> suffix_lt(d, order@[r1] as int, order@[r2] as int),
            rank@.len() == n,
            shared@.len() == n,
            forall|t: int| 0 <= t < n ==> #[trigger] rank@[order@[t] as int] == t,
            forall|p: int| 0 <= p < n ==> #[trigger] rank@[p] < n && order@[rank@[p] as int] == p,
            i + h <= n,
            i < n && rank@[i as int] > 0 ==> h <= lcp(d, i as int, order@[rank@[i as int] - 1] as int),
            forall|t: int|
                0 <= t < i && rank@[t] > 0 ==> #[trigger] shared@[rank@[t] as int] == lcp(
                    d,
                    order@[rank@[t] - 1] as int,
                    t,
                ),
        decreases n - i,
    {
        if rank[i] == 0 {
            h = 0;
        } else {
            let j = order[rank[i] - 1];
            proof {
                lemma_lcp(d, i as int, j as int);
            }
            while i + h < n && j + h < n && data[i + h] == data[j + h]
                invariant
                    i < n,
                    n <= MAX_OUTPUT,
                    j < n,
                    n == d.len(),
                    d == data@,
                    h <= lcp(d, i as int, j as int),
                    lcp(d, i as int, j as int) <= n - i,
                    lcp(d, i as int, j as int) <= n - j,
                    ({
                        let l = lcp(d, i as int, j as int);
                        i + l == n || j + l == n || d[i + l] != d[j + l]
                    }),
                decreases n - (i + h),
            {
                h = h + 1;
            }
            let ghost pred_t: int = rank@[i as int] as int;
            proof {
                assert(h == lcp(d, i as int, j as int));
                lemma_lcp_symmetric(d, i as int, j as int);
            }
            let ghost before = shared@;
            shared.set(rank[i], h);
            proof {
                assert forall|t: int| 0 <= t < i + 1 && rank@[t] > 0 implies #[trigger] shared@[rank@[t] as int] == lcp(
                    d,
                    order@[rank@[t] - 1] as int,
                    t,
                ) by {
                    if t < i {
                        assert(rank@[t] != rank@[i as int]) by {
                            assert(order@[rank@[t] as int] == t);
                        }
                    }
                }
                // What the next suffix shares with its predecessor.
                if h >= 2 && i + 1 < n {
                    let a = i as int + 1;
                    let b = j as int + 1;
                    lemma_lcp(d, i as int, j as int);
                    assert(d[i as int + 0] == d[j as int + 0]);
                    assert(order@[rank@[i as int] - 1] == j);
                    assert(suffix_lt(d, j as int, i as int)) by {
                        assert(order@[pred_t - 1] == order@[pred_t - 1] && order@[pred_t] == order@[pred_t]);
                    }
                    lemma_suffix_tail(d, j as int, i as int);
                    lemma_lcp_symmetric(d, a, b);
                    let rb = rank@[b];
                    let ra = rank@[a];
                    if rb > ra {
                        assert(order@[ra as int] == order@[ra as int] && order@[rb as int] == order@[rb as int]);
                        lemma_suffix_total(d, a, b);
                    }
                    assert(rb != ra);
                    let p = order@[ra - 1] as int;
                    if rb < ra - 1 {
                        assert(order@[rb as int] == order@[rb as int] && order@[ra - 1] == order@[ra - 1]);
                        assert(suffix_lt(d, b, p));
                        assert(order@[ra as int] == order@[ra as int]);
                        assert(suffix_lt(d, p, a));
                        lemma_lcp_between(d, b, p, a);
                        lemma_lcp_symmetric(d, a, p);
                    }
                }
            }
            if h > 0 {
                h = h - 1;
            }
        }
        proof {
            if i + 1 < n && rank@[i + 1] > 0 {
                lemma_lcp(d, i + 1, order@[rank@[i + 1] - 1] as int);
            }
        }
        i = i + 1;
    }
    proof {
        assert forall|r: int| 1 <= r < n implies #[trigger] shared@[r] == lcp(d, order@[r - 1] as int, order@[r] as int) by {
            let t = order@[r] as int;
            assert(rank@[t] == r);
        }
    }
    shared
}

// --- Longest earlier matches -------------------------------------------

/// An earlier position the bytes from a position also start at.
#[derive(Clone, Copy, Debug, PartialEq, Eq)]
pub struct Match {
    /// How many bytes they share, at most 1024. The copy may run into
    /// the bytes it produces, since the decoders copy a byte at a time.
    pub len: usize,
    pub src: usize,
}

/// What two suffixes share, up to the longest chunk.
pub open spec fn capped_lcp(data: Seq<u8>, a: int, b: int) -> int {
    let l = lcp(data, a, b);
    if l < LONG_LEN {
        l
    } else {
        LONG_LEN as int
    }
}

/// Each match names an earlier position whose bytes are the same for as
/// long as it says.
pub open spec fn matches_valid(data: Seq<u8>, best: Seq<Match>) -> bool {
    &&& best.len() == data.len()
    &&& forall|p: int|
        0 <= p < data.len() ==> {
            &&& (#[trigger] best[p]).len <= LONG_LEN
            &&& best[p].len > 0 ==> best[p].src < p && lcp(data, best[p].src as int, p) >= best[p].len
        }
}

/// The rank a pass up or down the sorted order is at after `s` steps.
pub open spec fn step_rank(up: bool, n: int, s: int) -> int {
    if up {
        s
    } else {
        n - 1 - s
    }
}

/// Where the suffix a pass is at after `s` steps starts.
pub open spec fn start_at(order: Seq<usize>, up: bool, s: int) -> int {
    order[step_rank(up, order.len() as int, s)] as int
}

/// Suffixes sorted into `order`.
pub open spec fn suffixes_sorted(data: Seq<u8>, order: Seq<usize>) -> bool {
    &&& is_perm(order, data.len() as int)
    &&& forall|r1: int, r2: int|
        #![trigger order[r1], order[r2]]
        0 <= r1 < r2 < data.len() ==> suffix_lt(data, order[r1] as int, order[r2] as int)
}

/// Along a pass, what a suffix shares with a later one is what it shares
/// with any suffix in between and what that one shares with the later,
/// whichever is less.
proof fn lemma_pass_lcp(data: Seq<u8>, order: Seq<usize>, up: bool, s1: int, s2: int, s3: int)
    requires
        suffixes_sorted(data, order),
        0 <= s1 < s2 < s3 < data.len(),
    ensures
        ({
            let a = start_at(order, up, s1);
            let b = start_at(order, up, s2);
            let c = start_at(order, up, s3);
            lcp(data, a, c) == if lcp(data, a, b) < lcp(data, b, c) {
                lcp(data, a, b)
            } else {
                lcp(data, b, c)
            }
        }),
{
    let n = data.len() as int;
    let r1 = step_rank(up, n, s1);
    let r2 = step_rank(up, n, s2);
    let r3 = step_rank(up, n, s3);
    let a = order[r1] as int;
    let b = order[r2] as int;
    let c = order[r3] as int;
    if up {
        assert(suffix_lt(data, a, b));
        assert(suffix_lt(data, b, c));
        lemma_lcp_between(data, a, b, c);
    } else {
        assert(suffix_lt(data, c, b));
        assert(suffix_lt(data, b, a));
        lemma_lcp_between(data, c, b, a);
        lemma_lcp_symmetric(data, a, b);
        lemma_lcp_symmetric(data, b, c);
        lemma_lcp_symmetric(data, a, c);
    }
}

/// One pass over the suffixes in sorted order, up or down: each suffix
/// is matched with the nearest one on that side that starts earlier,
/// for what they share. A stack keeps the ranks whose suffixes start in
/// increasing order, each with what it shares with the rank pushed after
/// it.
#[verifier::rlimit(60)]
#[verifier::spinoff_prover]
fn match_pass(
    order: &Vec<usize>,
    shared: &Vec<usize>,
    up: bool,
    best: &mut Vec<Match>,
    data: Ghost<Seq<u8>>,
)
    requires
        order@.len() == shared@.len(),
        order@.len() == data@.len(),
        data@.len() <= MAX_OUTPUT,
        suffixes_sorted(data@, order@),
        forall|r: int|
            1 <= r < data@.len() ==> #[trigger] shared@[r] == lcp(
                data@,
                order@[r - 1] as int,
                order@[r] as int,
            ),
        matches_valid(data@, old(best)@),
    ensures
        matches_valid(data@, final(best)@),
        forall|p: int| 0 <= p < data@.len() ==> #[trigger] final(best)@[p].len >= old(best)@[p].len,
        forall|s1: int, s2: int|
            #![trigger start_at(order@, up, s1), start_at(order@, up, s2)]
            0 <= s1 < s2 < data@.len() && start_at(order@, up, s1) < start_at(order@, up, s2)
                ==> capped_lcp(data@, start_at(order@, up, s1), start_at(order@, up, s2))
                <= final(best)@[start_at(order@, up, s2)].len,
{
    let n = order.len();
    let ghost d = data@;
    let ghost o = order@;
    let ghost first = best@;
    let mut stack: Vec<(usize, usize)> = Vec::new();
    let ghost mut steps: Seq<int> = Seq::empty();
    // What the top of the stack shares with the current rank.
    let mut common: usize = usize::MAX;
    let mut step: usize = 0;
    while step < n
        invariant
            step <= n,
            n == o.len(),
            o == order@,
            d == data@,
            n == shared@.len(),
            n == d.len(),
            suffixes_sorted(d, o),
            forall|r: int|
                1 <= r < n ==> #[trigger] shared@[r] == lcp(d, o[r - 1] as int, o[r] as int),
            matches_valid(d, best@),
            forall|p: int| 0 <= p < n ==> #[trigger] best@[p].len >= first[p].len,
            common == usize::MAX,
            stack@.len() == steps.len(),
            step > 0 ==> steps.len() > 0 && steps.last() == step - 1,
            forall|j: int|
                0 <= j < steps.len() ==> 0 <= #[trigger] steps[j] < step && stack@[j].0
                    == step_rank(up, n as int, steps[j]),
            forall|j1: int, j2: int|
                0 <= j1 < j2 < steps.len() ==> #[trigger] steps[j1] < #[trigger] steps[j2],
            forall|j: int, s: int|
                #![trigger steps[j], start_at(o, up, s)]
                0 <= j < steps.len() && 0 <= s < steps[j] && (j == 0 || steps[j - 1] < s)
                    ==> start_at(o, up, s) > start_at(o, up, steps[j]),
            forall|j: int|
                0 <= j < steps.len() - 1 ==> #[trigger] stack@[j].1 == lcp(
                    d,
                    start_at(o, up, steps[j]),
                    start_at(o, up, steps[j + 1]),
                ),
            forall|s1: int, s2: int|
                #![trigger start_at(o, up, s1), start_at(o, up, s2)]
                0 <= s1 < s2 < step && start_at(o, up, s1) < start_at(o, up, s2) ==> capped_lcp(
                    d,
                    start_at(o, up, s1),
                    start_at(o, up, s2),
                ) <= best@[start_at(o, up, s2)].len,
        decreases n - step,
    {
        let rank = if up { step } else { n - 1 - step };
        let ghost x = start_at(o, up, step as int);
        assert(o[rank as int] == x);
        // `shared[r]` is what ranks `r - 1` and `r` share.
        let with_neighbour = if up {
            shared[rank]
        } else if rank + 1 < n {
            shared[rank + 1]
        } else {
            0
        };
        if with_neighbour < common {
            common = with_neighbour;
        }
        proof {
            if step > 0 {
                let t = start_at(o, up, step - 1);
                if up {
                    assert(common == lcp(d, t, x));
                } else {
                    assert(common == lcp(d, x, t));
                    lemma_lcp(d, x, t);
                    lemma_lcp_symmetric(d, x, t);
                }
            }
        }
        while stack.len() > 0 && order[stack[stack.len() - 1].0] > order[rank]
            invariant
                n == o.len(),
                o == order@,
                n == d.len(),
                rank == step_rank(up, n as int, step as int),
                step < n,
                x == start_at(o, up, step as int),
                suffixes_sorted(d, o),
                stack@.len() == steps.len(),
                forall|j: int|
                    0 <= j < steps.len() ==> 0 <= #[trigger] steps[j] < step && stack@[j].0
                        == step_rank(up, n as int, steps[j]),
                forall|j1: int, j2: int|
                    0 <= j1 < j2 < steps.len() ==> #[trigger] steps[j1] < #[trigger] steps[j2],
                forall|j: int, s: int|
                    #![trigger steps[j], start_at(o, up, s)]
                    0 <= j < steps.len() && 0 <= s < steps[j] && (j == 0 || steps[j - 1] < s)
                        ==> start_at(o, up, s) > start_at(o, up, steps[j]),
                forall|j: int|
                    0 <= j < steps.len() - 1 ==> #[trigger] stack@[j].1 == lcp(
                        d,
                        start_at(o, up, steps[j]),
                        start_at(o, up, steps[j + 1]),
                    ),
                steps.len() > 0 ==> common == lcp(d, start_at(o, up, steps.last()), x),
                forall|s: int|
                    #![trigger start_at(o, up, s)]
                    (if steps.len() > 0 {
                        steps.last()
                    } else {
                        -1
                    }) < s < step ==> start_at(o, up, s) > x,
            decreases stack@.len(),
        {
            let ghost t = steps.last();
            assert(start_at(o, up, t) > x);
            stack.pop();
            proof {
                steps = steps.drop_last();
            }
            if stack.len() > 0 {
                let below = stack[stack.len() - 1].1;
                proof {
                    let t2 = steps.last();
                    assert(t2 < t);
                    lemma_pass_lcp(d, o, up, t2, t, step as int);
                }
                if below < common {
                    common = below;
                }
            }
            proof {
                assert forall|s: int| (if steps.len() > 0 { steps.last() } else { -1 }) < s < step
                    implies #[trigger] start_at(o, up, s) > x by {
                    if s < t {
                        let j = steps.len() as int;
                        assert(0 <= s < t);
                    }
                }
            }
        }
        if stack.len() > 0 {
            let top = stack.len() - 1;
            let (last, _) = stack[top];
            let ghost t = steps.last();
            proof {
                assert(o[last as int] == start_at(o, up, t));
                assert(start_at(o, up, t) != x) by {
                    assert(step_rank(up, n as int, t) != rank);
                }
                lemma_lcp(d, start_at(o, up, t), x);
            }
            let found = Match { len: if common < LONG_LEN { common } else { LONG_LEN }, src: order[last] };
            let at = order[rank];
            let current = best[at];
            let ghost prior = best@;
            if found.len > current.len || (found.len == current.len && found.src < current.src) {
                best.set(at, found);
            }
            proof {
                assert forall|s1: int, s2: int|
                    0 <= s1 < s2 < step + 1 && start_at(o, up, s1) < start_at(o, up, s2) implies capped_lcp(
                    d,
                    #[trigger] start_at(o, up, s1),
                    #[trigger] start_at(o, up, s2),
                ) <= best@[start_at(o, up, s2)].len by {
                    if s2 < step {
                        assert(step_rank(up, n as int, s2) != rank);
                        assert(best@[start_at(o, up, s2)] == prior[start_at(o, up, s2)] || best@[start_at(o, up, s2)].len >= prior[start_at(o, up, s2)].len);
                    } else {
                        assert(s1 <= t);
                        if s1 < t {
                            lemma_pass_lcp(d, o, up, s1, t, step as int);
                        }
                    }
                }
            }
            stack.set(top, (last, common));
        } else {
            proof {
                assert forall|s1: int, s2: int|
                    0 <= s1 < s2 < step + 1 && start_at(o, up, s1) < start_at(o, up, s2) implies capped_lcp(
                    d,
                    #[trigger] start_at(o, up, s1),
                    #[trigger] start_at(o, up, s2),
                ) <= best@[start_at(o, up, s2)].len by {
                    if s2 == step {
                        assert(start_at(o, up, s1) > x);
                    }
                }
            }
        }
        stack.push((rank, 0));
        proof {
            steps = steps.push(step as int);
        }
        common = usize::MAX;
        step = step + 1;
    }
}

/// The longest earlier match for every position of `data`.
///
/// In the sorted order of the suffixes, the ones sharing the most with a
/// given suffix are nearest it, and what they share only shrinks with
/// distance. So the longest earlier match is with the nearest suffix on
/// either side that starts earlier, found for every position by one pass
/// up the order and one down, each keeping a stack of candidates. The
/// match names that suffix; where both sides share as much (after the
/// 1024 cap), the one that starts lower.
pub fn longest_matches(data: &[u8]) -> (best: Vec<Match>)
    requires
        data@.len() <= MAX_OUTPUT,
    ensures
        matches_valid(data@, best@),
        forall|y: int, x: int|
            #![trigger capped_lcp(data@, y, x)]
            0 <= y < x < data@.len() ==> capped_lcp(data@, y, x) <= best@[x].len,
{
    let n = data.len();
    let order = suffix_array(data);
    let shared = shared_prefixes(data, &order);
    let mut best: Vec<Match> = Vec::new();
    let mut i: usize = 0;
    while i < n
        invariant
            i <= n,
            best@.len() == i,
            forall|j: int| 0 <= j < i ==> #[trigger] best@[j].len == 0,
        decreases n - i,
    {
        best.push(Match { len: 0, src: 0 });
        i = i + 1;
    }
    match_pass(&order, &shared, true, &mut best, Ghost(data@));
    let ghost after_up = best@;
    match_pass(&order, &shared, false, &mut best, Ghost(data@));
    proof {
        let d = data@;
        let o = order@;
        assert forall|y: int, x: int| 0 <= y < x < n implies #[trigger] capped_lcp(d, y, x) <= best@[x].len by {
            lemma_perm_index(o, n as int, y);
            lemma_perm_index(o, n as int, x);
            let ry = index_of(o, y);
            let rx = index_of(o, x);
            if ry < rx {
                assert(start_at(o, true, ry) == y && start_at(o, true, rx) == x);
            } else {
                assert(ry != rx);
                let sy = n - 1 - ry;
                let sx = n - 1 - rx;
                assert(start_at(o, false, sy) == y && start_at(o, false, sx) == x);
            }
        }
    }
    best
}

} // verus!
