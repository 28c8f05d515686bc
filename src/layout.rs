//! What one counting-sort pass produces, stated over sequences: the elements are
//! grouped into buckets by a rank function, the buckets are laid out one after
//! the other in rank order, and each bucket holds its elements in input order
//! (or, for a bucket filled from the back, in reverse input order).
use vstd::arithmetic::mul::lemma_mul_inequality;
use vstd::prelude::*;
use vstd::seq_lib::lemma_multiset_commutative;

verus! {

/// `s` is ordered by `key`.
pub open spec fn sorted_by<T>(s: Seq<T>, key: spec_fn(T) -> int) -> bool {
    forall|i: int, j: int| 0 <= i < j < s.len() ==> key(#[trigger] s[i]) <= key(#[trigger] s[j])
}

/// Two orderings by a key that tells values apart, of the same elements, are the same
/// sequence.
pub proof fn lemma_sorted_unique<T>(s: Seq<T>, t: Seq<T>, key: spec_fn(T) -> int)
    requires
        sorted_by(s, key),
        sorted_by(t, key),
        s.to_multiset() == t.to_multiset(),
        forall|x: T, y: T| #[trigger] key(x) == #[trigger] key(y) ==> x == y,
    ensures
        s == t,
    decreases s.len(),
{
    broadcast use vstd::seq_lib::group_to_multiset_ensures;

    s.to_multiset_ensures();
    t.to_multiset_ensures();
    if s.len() == 0 {
        assert(t.len() == 0);
        assert(s =~= t);
    } else {
        assert(t.len() == s.len());
        let a = s[0];
        let b = t[0];
        assert(s.to_multiset().count(a) > 0);
        assert(t.contains(a));
        let j = choose|j: int| 0 <= j < t.len() && t[j] == a;
        assert(key(b) <= key(t[j]));
        assert(t.to_multiset().count(b) > 0);
        assert(s.contains(b));
        let i = choose|i: int| 0 <= i < s.len() && s[i] == b;
        assert(key(a) <= key(s[i]));
        assert(a == b);
        assert(s.remove(0) =~= s.drop_first());
        assert(t.remove(0) =~= t.drop_first());
        let s1 = s.drop_first();
        let t1 = t.drop_first();
        assert(sorted_by(s1, key)) by {
            assert forall|i: int, j: int| 0 <= i < j < s1.len() implies key(#[trigger] s1[i]) <= key(
                #[trigger] s1[j],
            ) by {
                assert(s1[i] == s[i + 1] && s1[j] == s[j + 1]);
            }
        }
        assert(sorted_by(t1, key)) by {
            assert forall|i: int, j: int| 0 <= i < j < t1.len() implies key(#[trigger] t1[i]) <= key(
                #[trigger] t1[j],
            ) by {
                assert(t1[i] == t[i + 1] && t1[j] == t[j + 1]);
            }
        }
        lemma_sorted_unique(s1, t1, key);
        assert forall|k: int| 0 <= k < s.len() implies s[k] == t[k] by {
            if k > 0 {
                assert(s[k] == s1[k - 1] && t[k] == t1[k - 1]);
            }
        }
        assert(s =~= t);
    }
}

/// The elements of `s` whose rank is `r`, in their order in `s`.
pub open spec fn bucket<T>(s: Seq<T>, rk: spec_fn(T) -> nat, r: nat) -> Seq<T>
    decreases s.len(),
{
    if s.len() == 0 {
        Seq::empty()
    } else {
        let rest = bucket(s.drop_last(), rk, r);
        if rk(s.last()) == r {
            rest.push(s.last())
        } else {
            rest
        }
    }
}

/// The elements of `s` whose rank is below `r`, in their order in `s`.
pub open spec fn lower<T>(s: Seq<T>, rk: spec_fn(T) -> nat, r: nat) -> Seq<T>
    decreases s.len(),
{
    if s.len() == 0 {
        Seq::empty()
    } else {
        let rest = lower(s.drop_last(), rk, r);
        if rk(s.last()) < r {
            rest.push(s.last())
        } else {
            rest
        }
    }
}

/// Where the bucket of rank `r` begins in the output of a pass over `s`.
pub open spec fn block_start<T>(s: Seq<T>, rk: spec_fn(T) -> nat, r: nat) -> nat {
    lower(s, rk, r).len()
}

/// The part of `out` that the bucket of rank `r` of `src` occupies.
pub open spec fn slot<T>(out: Seq<T>, src: Seq<T>, rk: spec_fn(T) -> nat, r: nat) -> Seq<T> {
    out.subrange(block_start(src, rk, r) as int, block_start(src, rk, r + 1) as int)
}

/// What the bucket of rank `r` of `src` holds once it is written out.
pub open spec fn block<T>(src: Seq<T>, rk: spec_fn(T) -> nat, rev: spec_fn(nat) -> bool, r: nat) -> Seq<T> {
    if rev(r) {
        bucket(src, rk, r).reverse()
    } else {
        bucket(src, rk, r)
    }
}

/// Every element of `s` has a rank below `k`.
pub open spec fn ranks_below<T>(s: Seq<T>, rk: spec_fn(T) -> nat, k: nat) -> bool {
    forall|i: int| 0 <= i < s.len() ==> rk(#[trigger] s[i]) < k
}

/// `out` is `src` with its buckets of ranks `0..k` laid out in rank order.
pub open spec fn laid_out<T>(
    out: Seq<T>,
    src: Seq<T>,
    rk: spec_fn(T) -> nat,
    rev: spec_fn(nat) -> bool,
    k: nat,
) -> bool {
    &&& out.len() == src.len()
    &&& ranks_below(src, rk, k)
    &&& forall|r: nat| r < k ==> #[trigger] slot(out, src, rk, r) == block(src, rk, rev, r)
}

/// Every element of a bucket has the bucket's rank and comes from `s`.
pub proof fn lemma_bucket_members<T>(s: Seq<T>, rk: spec_fn(T) -> nat, r: nat)
    ensures
        bucket(s, rk, r).len() <= s.len(),
        forall|i: int|
            0 <= i < bucket(s, rk, r).len() ==> rk(#[trigger] bucket(s, rk, r)[i]) == r
                && s.contains(bucket(s, rk, r)[i]),
    decreases s.len(),
{
    if s.len() > 0 {
        let t = s.drop_last();
        lemma_bucket_members(t, rk, r);
        assert forall|i: int| 0 <= i < bucket(s, rk, r).len() implies rk(
            #[trigger] bucket(s, rk, r)[i],
        ) == r && s.contains(bucket(s, rk, r)[i]) by {
            if i < bucket(t, rk, r).len() {
                let j = choose|j: int| 0 <= j < t.len() && t[j] == bucket(t, rk, r)[i];
                assert(s[j] == t[j]);
            } else {
                assert(s[s.len() - 1] == s.last());
            }
        }
    }
}

/// Taking one more element of `s` adds it to its own bucket only.
pub proof fn lemma_bucket_take<T>(s: Seq<T>, rk: spec_fn(T) -> nat, r: nat, i: int)
    requires
        0 <= i < s.len(),
    ensures
        bucket(s.take(i + 1), rk, r) == if rk(s[i]) == r {
            bucket(s.take(i), rk, r).push(s[i])
        } else {
            bucket(s.take(i), rk, r)
        },
{
    assert(s.take(i + 1).drop_last() =~= s.take(i));
}

/// The bucket of a prefix is no longer than the bucket of the whole.
pub proof fn lemma_bucket_prefix<T>(s: Seq<T>, rk: spec_fn(T) -> nat, r: nat, i: int)
    requires
        0 <= i <= s.len(),
    ensures
        bucket(s.take(i), rk, r).len() <= bucket(s, rk, r).len(),
    decreases s.len(),
{
    if i < s.len() {
        let t = s.drop_last();
        assert(s.take(i) =~= t.take(i));
        lemma_bucket_prefix(t, rk, r, i);
    } else {
        assert(s.take(i) =~= s);
    }
}

/// A bucket of an ordered sequence is ordered.
pub proof fn lemma_bucket_sorted<T>(s: Seq<T>, rk: spec_fn(T) -> nat, r: nat, key: spec_fn(T) -> int)
    requires
        sorted_by(s, key),
    ensures
        sorted_by(bucket(s, rk, r), key),
    decreases s.len(),
{
    if s.len() > 0 {
        let t = s.drop_last();
        let x = s.last();
        assert(sorted_by(t, key)) by {
            assert forall|i: int, j: int| 0 <= i < j < t.len() implies key(#[trigger] t[i]) <= key(
                #[trigger] t[j],
            ) by {
                assert(t[i] == s[i] && t[j] == s[j]);
            }
        }
        lemma_bucket_sorted(t, rk, r, key);
        lemma_bucket_members(t, rk, r);
        let b = bucket(t, rk, r);
        if rk(x) == r {
            assert forall|i: int, j: int|
                0 <= i < j < b.push(x).len() implies key(#[trigger] b.push(x)[i]) <= key(
                #[trigger] b.push(x)[j],
            ) by {
                if j == b.len() {
                    let e = b[i];
                    let k = choose|k: int| 0 <= k < t.len() && t[k] == e;
                    assert(s[k] == e);
                    assert(s[s.len() - 1] == x);
                } else {
                    assert(b.push(x)[i] == b[i] && b.push(x)[j] == b[j]);
                }
            }
        }
    }
}

/// The part below rank `r + 1` is the part below `r` followed by the bucket of `r`, as far
/// as what and how many they hold.
pub proof fn lemma_lower_step<T>(s: Seq<T>, rk: spec_fn(T) -> nat, r: nat)
    ensures
        lower(s, rk, r + 1).len() == lower(s, rk, r).len() + bucket(s, rk, r).len(),
        lower(s, rk, r + 1).to_multiset() == lower(s, rk, r).to_multiset().add(
            bucket(s, rk, r).to_multiset(),
        ),
    decreases s.len(),
{
    broadcast use vstd::seq_lib::group_to_multiset_ensures;

    if s.len() > 0 {
        lemma_lower_step(s.drop_last(), rk, r);
        assert(lower(s, rk, r + 1).to_multiset() =~= lower(s, rk, r).to_multiset().add(
            bucket(s, rk, r).to_multiset(),
        ));
    } else {
        assert(lower(s, rk, r + 1).to_multiset() =~= lower(s, rk, r).to_multiset().add(
            bucket(s, rk, r).to_multiset(),
        ));
    }
}

/// Nothing has a rank below zero.
pub proof fn lemma_lower_zero<T>(s: Seq<T>, rk: spec_fn(T) -> nat)
    ensures
        lower(s, rk, 0) == Seq::<T>::empty(),
    decreases s.len(),
{
    if s.len() > 0 {
        lemma_lower_zero(s.drop_last(), rk);
    }
}

/// When every rank is below `k`, the part below `k` is the whole sequence.
pub proof fn lemma_lower_all<T>(s: Seq<T>, rk: spec_fn(T) -> nat, k: nat)
    requires
        ranks_below(s, rk, k),
    ensures
        lower(s, rk, k) == s,
    decreases s.len(),
{
    if s.len() > 0 {
        let t = s.drop_last();
        assert(ranks_below(t, rk, k)) by {
            assert forall|i: int| 0 <= i < t.len() implies rk(#[trigger] t[i]) < k by {
                assert(t[i] == s[i]);
            }
        }
        lemma_lower_all(t, rk, k);
        assert(rk(s[s.len() - 1]) < k);
        assert(t.push(s.last()) =~= s);
    }
}

/// Buckets start in rank order, the first at 0 and all within the sequence.
pub proof fn lemma_block_start_mono<T>(s: Seq<T>, rk: spec_fn(T) -> nat, r1: nat, r2: nat)
    requires
        r1 <= r2,
    ensures
        block_start(s, rk, r1) <= block_start(s, rk, r2) <= s.len(),
        block_start(s, rk, 0) == 0,
    decreases r2 - r1,
{
    lemma_lower_zero(s, rk);
    lemma_lower_len(s, rk, r2);
    if r1 < r2 {
        lemma_lower_step(s, rk, r1);
        lemma_block_start_mono(s, rk, r1 + 1, r2);
    }
}

pub proof fn lemma_lower_len<T>(s: Seq<T>, rk: spec_fn(T) -> nat, r: nat)
    ensures
        lower(s, rk, r).len() <= s.len(),
    decreases s.len(),
{
    if s.len() > 0 {
        lemma_lower_len(s.drop_last(), rk, r);
    }
}

/// The bucket that position `p` of the output falls in.
pub proof fn lemma_locate<T>(s: Seq<T>, rk: spec_fn(T) -> nat, k: nat, p: int) -> (r: nat)
    requires
        0 <= p < block_start(s, rk, k),
    ensures
        r < k,
        block_start(s, rk, r) <= p < block_start(s, rk, r + 1),
    decreases k,
{
    lemma_lower_zero(s, rk);
    let r = (k - 1) as nat;
    if p >= block_start(s, rk, r) {
        r
    } else {
        lemma_locate(s, rk, r, p)
    }
}

/// The output up to the start of bucket `r` holds what the input holds below rank `r`.
proof fn lemma_laid_out_prefix<T>(
    out: Seq<T>,
    src: Seq<T>,
    rk: spec_fn(T) -> nat,
    rev: spec_fn(nat) -> bool,
    k: nat,
    r: nat,
)
    requires
        laid_out(out, src, rk, rev, k),
        r <= k,
    ensures
        out.take(block_start(src, rk, r) as int).to_multiset() == lower(src, rk, r).to_multiset(),
    decreases r,
{
    if r == 0 {
        lemma_lower_zero(src, rk);
        assert(out.take(0) =~= Seq::<T>::empty());
    } else {
        let q = (r - 1) as nat;
        lemma_laid_out_prefix(out, src, rk, rev, k, q);
        lemma_lower_step(src, rk, q);
        lemma_block_start_mono(src, rk, q, r);
        let a = block_start(src, rk, q) as int;
        let b = block_start(src, rk, r) as int;
        assert(slot(out, src, rk, q) == block(src, rk, rev, q));
        assert(out.take(b) =~= out.take(a) + slot(out, src, rk, q));
        lemma_multiset_commutative(out.take(a), slot(out, src, rk, q));
        bucket(src, rk, q).lemma_reverse_to_multiset();
    }
}

/// A pass keeps the elements: the output is a permutation of the input.
pub proof fn lemma_laid_out_permutes<T>(
    out: Seq<T>,
    src: Seq<T>,
    rk: spec_fn(T) -> nat,
    rev: spec_fn(nat) -> bool,
    k: nat,
)
    requires
        laid_out(out, src, rk, rev, k),
    ensures
        out.to_multiset() == src.to_multiset(),
{
    lemma_laid_out_prefix(out, src, rk, rev, k, k);
    lemma_lower_all(src, rk, k);
    assert(out.take(src.len() as int) =~= out);
}

/// A pass over an input ordered by `k1` gives an output ordered by rank first and, within a
/// bucket, by `k1` (by `k1` reversed in a bucket filled from the back). `m` bounds `k1`.
pub proof fn lemma_laid_out_sorted<T>(
    out: Seq<T>,
    src: Seq<T>,
    rk: spec_fn(T) -> nat,
    rev: spec_fn(nat) -> bool,
    k: nat,
    k1: spec_fn(T) -> int,
    m: int,
    k2: spec_fn(T) -> int,
    c: int,
)
    requires
        laid_out(out, src, rk, rev, k),
        sorted_by(src, k1),
        forall|x: T| 0 <= #[trigger] k1(x) < m,
        forall|x: T|
            #[trigger] k2(x) == rk(x) * m + (if rev(rk(x)) {
                m - 1 - k1(x)
            } else {
                k1(x)
            }) - c,
    ensures
        sorted_by(out, k2),
{
    lemma_lower_all(src, rk, k);
    assert forall|p: int, q: int| 0 <= p < q < out.len() implies k2(#[trigger] out[p]) <= k2(
        #[trigger] out[q],
    ) by {
        let r1 = lemma_locate(src, rk, k, p);
        let r2 = lemma_locate(src, rk, k, q);
        let x = out[p];
        let y = out[q];
        let s1 = block_start(src, rk, r1) as int;
        let s2 = block_start(src, rk, r2) as int;
        lemma_block_start_mono(src, rk, r1 + 1, k);
        lemma_block_start_mono(src, rk, r2 + 1, k);
        assert(slot(out, src, rk, r1) == block(src, rk, rev, r1));
        assert(slot(out, src, rk, r2) == block(src, rk, rev, r2));
        assert(slot(out, src, rk, r1)[p - s1] == x);
        assert(slot(out, src, rk, r2)[q - s2] == y);
        let b1 = bucket(src, rk, r1);
        let b2 = bucket(src, rk, r2);
        lemma_bucket_members(src, rk, r1);
        lemma_bucket_members(src, rk, r2);
        lemma_lower_step(src, rk, r1);
        lemma_lower_step(src, rk, r2);
        let i1 = if rev(r1) { b1.len() - 1 - (p - s1) } else { p - s1 };
        let i2 = if rev(r2) { b2.len() - 1 - (q - s2) } else { q - s2 };
        assert(b1[i1] == x);
        assert(b2[i2] == y);
        assert(rk(x) == r1);
        assert(rk(y) == r2);
        if r2 < r1 {
            lemma_block_start_mono(src, rk, r2 + 1, r1);
            assert(false);
        } else if r1 < r2 {
            lemma_mul_inequality(r1 + 1 as int, r2 as int, m);
            assert((r1 + 1) * m == r1 * m + m) by (nonlinear_arith);
        } else {
            lemma_bucket_sorted(src, rk, r1, k1);
            if rev(r1) {
                assert(i2 < i1);
            } else {
                assert(i1 < i2);
            }
        }
    }
}

/// While scattering, after the first `i` elements of `src`: the bucket at position `r` holds
/// those of them that belong to it, at its front (or its back, when filled from the back),
/// and `next` is where the following one goes.
pub open spec fn bucket_filled<T>(
    dst: Seq<T>,
    src: Seq<T>,
    i: int,
    rk: spec_fn(T) -> nat,
    rev: spec_fn(nat) -> bool,
    next: int,
    r: nat,
) -> bool {
    let b = bucket(src.take(i), rk, r);
    let lo = block_start(src, rk, r) as int;
    let hi = block_start(src, rk, r + 1) as int;
    if rev(r) {
        next + b.len() == hi && dst.subrange(next, hi) == b.reverse()
    } else {
        next == lo + b.len() && dst.subrange(lo, next) == b
    }
}

/// The state before any element is scattered.
pub proof fn lemma_scatter_start<T>(
    dst: Seq<T>,
    src: Seq<T>,
    rk: spec_fn(T) -> nat,
    rev: spec_fn(nat) -> bool,
    next: int,
    r: nat,
)
    requires
        dst.len() == src.len(),
        next == if rev(r) {
            block_start(src, rk, r + 1) as int
        } else {
            block_start(src, rk, r) as int
        },
    ensures
        bucket_filled(dst, src, 0, rk, rev, next, r),
{
    assert(src.take(0) =~= Seq::<T>::empty());
    lemma_block_start_mono(src, rk, r, r + 1);
    assert(dst.subrange(next, next) =~= Seq::<T>::empty());
}

/// The next element has room in its bucket.
pub proof fn lemma_scatter_room<T>(
    dst: Seq<T>,
    src: Seq<T>,
    i: int,
    rk: spec_fn(T) -> nat,
    rev: spec_fn(nat) -> bool,
    next: int,
)
    requires
        0 <= i < src.len(),
        bucket_filled(dst, src, i, rk, rev, next, rk(src[i])),
    ensures
        block_start(src, rk, rk(src[i])) as int <= (if rev(rk(src[i])) {
            next - 1
        } else {
            next
        }) < block_start(src, rk, rk(src[i]) + 1) as int,
{
    let r = rk(src[i]);
    lemma_bucket_take(src, rk, r, i);
    lemma_bucket_prefix(src, rk, r, i + 1);
    lemma_lower_step(src, rk, r);
}

/// Scattering element `i` to `pos` keeps every bucket filled as far as the first `i + 1`
/// elements.
pub proof fn lemma_scatter_step<T>(
    dst: Seq<T>,
    src: Seq<T>,
    i: int,
    rk: spec_fn(T) -> nat,
    rev: spec_fn(nat) -> bool,
    k: nat,
    next: Seq<int>,
    pos: int,
    new_dst: Seq<T>,
    new_next: Seq<int>,
)
    requires
        0 <= i < src.len(),
        dst.len() == src.len(),
        next.len() == k,
        ranks_below(src, rk, k),
        forall|r: nat| r < k ==> #[trigger] bucket_filled(dst, src, i, rk, rev, next[r as int], r),
        pos == if rev(rk(src[i])) {
            next[rk(src[i]) as int] - 1
        } else {
            next[rk(src[i]) as int]
        },
        new_dst == dst.update(pos, src[i]),
        new_next == next.update(rk(src[i]) as int, if rev(rk(src[i])) { pos } else { pos + 1 }),
    ensures
        forall|r: nat|
            r < k ==> #[trigger] bucket_filled(new_dst, src, i + 1, rk, rev, new_next[r as int], r),
{
    let x = src[i];
    let r0 = rk(x);
    assert(r0 < k);
    assert(bucket_filled(dst, src, i, rk, rev, next[r0 as int], r0));
    let after = if rev(r0) {
        pos
    } else {
        pos + 1
    };
    lemma_scatter_room(dst, src, i, rk, rev, next[r0 as int]);
    let nd = new_dst;
    let nn = new_next;
    assert forall|r: nat| r < k implies #[trigger] bucket_filled(
        nd,
        src,
        i + 1,
        rk,
        rev,
        nn[r as int],
        r,
    ) by {
        assert(bucket_filled(dst, src, i, rk, rev, next[r as int], r));
        lemma_bucket_take(src, rk, r, i);
        lemma_block_start_mono(src, rk, r, r + 1);
        lemma_block_start_mono(src, rk, r0, r0 + 1);
        let b = bucket(src.take(i), rk, r);
        let lo = block_start(src, rk, r) as int;
        let hi = block_start(src, rk, r + 1) as int;
        if r == r0 {
            if rev(r) {
                assert(nd.subrange(pos, hi) =~= seq![x] + dst.subrange(next[r as int], hi));
                assert(b.push(x).reverse() =~= seq![x] + b.reverse());
            } else {
                assert(nd.subrange(lo, after) =~= dst.subrange(lo, pos).push(x));
            }
        } else {
            lemma_bucket_prefix(src, rk, r, i);
            lemma_lower_step(src, rk, r);
            if r < r0 {
                lemma_block_start_mono(src, rk, r + 1, r0);
            } else {
                lemma_block_start_mono(src, rk, r0 + 1, r);
            }
            if rev(r) {
                assert(nd.subrange(next[r as int], hi) =~= dst.subrange(next[r as int], hi));
            } else {
                assert(nd.subrange(lo, next[r as int]) =~= dst.subrange(lo, next[r as int]));
            }
        }
    }
}

/// Once every element is scattered, the buckets are laid out.
pub proof fn lemma_scatter_done<T>(
    dst: Seq<T>,
    src: Seq<T>,
    rk: spec_fn(T) -> nat,
    rev: spec_fn(nat) -> bool,
    k: nat,
    next: Seq<int>,
)
    requires
        dst.len() == src.len(),
        next.len() == k,
        ranks_below(src, rk, k),
        forall|r: nat|
            r < k ==> #[trigger] bucket_filled(dst, src, src.len() as int, rk, rev, next[r as int], r),
    ensures
        laid_out(dst, src, rk, rev, k),
{
    assert(src.take(src.len() as int) =~= src);
    assert forall|r: nat| r < k implies #[trigger] slot(dst, src, rk, r) == block(src, rk, rev, r) by {
        assert(bucket_filled(dst, src, src.len() as int, rk, rev, next[r as int], r));
        lemma_lower_step(src, rk, r);
    }
}

} // verus!
