//! The lower median of a sample, chosen by rank under the order of keys,
//! with earlier positions first among equal keys.
use vstd::prelude::*;
use vstd::set_lib::*;
use crate::order::{double_le, is_nan, keys_of, lemma_key_orders_as_doubles, order_keys};

verus! {

/// Position `i` comes strictly before position `j` when the sample is
/// sorted stably by key.
pub open spec fn before(keys: Seq<u64>, i: int, j: int) -> bool {
    keys[i] < keys[j] || (keys[i] == keys[j] && i < j)
}

/// The positions that come strictly before position `i`.
pub open spec fn below(keys: Seq<u64>, i: int) -> Set<int> {
    Set::new(|j: int| 0 <= j < keys.len() && before(keys, j, i))
}

/// The zero-based place of position `i` in the stably sorted sample.
pub open spec fn rank(keys: Seq<u64>, i: int) -> nat {
    below(keys, i).len()
}

/// The zero-based place of the lower median in a sample of `n > 0` items.
pub open spec fn middle(n: nat) -> int {
    (n - 1) / 2
}

/// Position `i` holds the lower median: in the stably sorted sample it
/// stands at place `(n - 1) / 2`.
pub open spec fn is_lower_median(keys: Seq<u64>, i: int) -> bool {
    0 <= i < keys.len() && rank(keys, i) == middle(keys.len())
}

/// Every set of positions below another is finite and no larger than the
/// sample.
proof fn lemma_below_finite(keys: Seq<u64>, i: int)
    ensures
        below(keys, i).finite(),
        below(keys, i).len() <= keys.len(),
{
    lemma_int_range(0, keys.len() as int);
    lemma_len_subset(below(keys, i), set_int_range(0, keys.len() as int));
}

/// A position that comes before another has a strictly smaller rank.
proof fn lemma_rank_strictly_grows(keys: Seq<u64>, i: int, j: int)
    requires
        0 <= i < keys.len(),
        before(keys, i, j),
    ensures
        rank(keys, i) < rank(keys, j),
{
    lemma_below_finite(keys, i);
    lemma_below_finite(keys, j);
    let bi = below(keys, i);
    assert(bi.insert(i).subset_of(below(keys, j)));
    lemma_len_subset(bi.insert(i), below(keys, j));
}

/// Computes whether position `i` comes before position `j`.
fn is_before(keys: &Vec<u64>, i: usize, j: usize) -> (r: bool)
    requires
        i < keys.len(),
        j < keys.len(),
    ensures
        r == before(keys@, i as int, j as int),
{
    keys[i] < keys[j] || (keys[i] == keys[j] && i < j)
}

/// Finds the position of the lower median of a sample of keys: the item
/// at place `(n - 1) / 2` once the sample is sorted stably by key. An empty
/// sample has none.
pub fn median_position(keys: &Vec<u64>) -> (r: Option<usize>)
    ensures
        r is None <==> keys.len() == 0,
        r matches Some(i) ==> is_lower_median(keys@, i as int),
{
    let n = keys.len();
    if n == 0 {
        return None;
    }
    let m: usize = (n - 1) / 2;
    // The first item in sorted order.
    let mut cur: usize = 0;
    let mut j: usize = 1;
    while j < n
        invariant
            n == keys.len(),
            cur < j <= n,
            forall|t: int| 0 <= t < j ==> !before(keys@, t, cur as int),
        decreases n - j,
    {
        let old_cur = cur;
        if is_before(keys, j, cur) {
            cur = j;
        }
        proof {
            assert forall|t: int| 0 <= t < j + 1 implies !before(keys@, t, cur as int) by {
                if t < j {
                    assert(!before(keys@, t, old_cur as int));
                }
            }
        }
        j += 1;
    }
    proof {
        assert(below(keys@, cur as int) =~= Set::empty());
    }
    // Step to the next item in sorted order until place `m` is reached.
    let mut step: usize = 0;
    while step < m
        invariant
            n == keys.len(),
            m == middle(n as nat),
            step <= m,
            cur < n,
            rank(keys@, cur as int) == step,
        decreases m - step,
    {
        let mut next: Option<usize> = None;
        let mut j: usize = 0;
        while j < n
            invariant
                n == keys.len(),
                cur < n,
                j <= n,
                next matches Some(s) ==> s < n && before(keys@, cur as int, s as int),
                forall|t: int|
                    0 <= t < j && before(keys@, cur as int, t) ==> (next matches Some(s)
                        && !before(keys@, t, s as int)),
            decreases n - j,
        {
            if is_before(keys, cur, j) {
                match next {
                    Some(s) => {
                        if is_before(keys, j, s) {
                            next = Some(j);
                        }
                    },
                    None => {
                        next = Some(j);
                    },
                }
            }
            j += 1;
        }
        proof {
            lemma_below_finite(keys@, cur as int);
        }
        match next {
            Some(s) => {
                proof {
                    assert forall|t: int| #[trigger] below(keys@, s as int).contains(t) <==> below(
                        keys@,
                        cur as int,
                    ).insert(cur as int).contains(t) by {
                        if 0 <= t < n && before(keys@, t, s as int) && t != cur && !before(
                            keys@,
                            t,
                            cur as int,
                        ) {
                            assert(before(keys@, cur as int, t));
                        }
                    }
                    assert(below(keys@, s as int) =~= below(keys@, cur as int).insert(cur as int));
                }
                cur = s;
            },
            None => {
                proof {
                    lemma_int_range(0, n as int);
                    assert forall|t: int| 0 <= t < n && t != cur implies before(
                        keys@,
                        t,
                        cur as int,
                    ) by {
                        if before(keys@, cur as int, t) {
                            assert(next matches Some(_));
                        }
                    }
                    assert(below(keys@, cur as int) =~= set_int_range(0, n as int).remove(
                        cur as int,
                    ));
                }
            },
        }
        step += 1;
    }
    Some(cur)
}

/// At most one position holds the lower median, so the position found for
/// a sample is the same on every call.
pub proof fn lemma_lower_median_unique(keys: Seq<u64>, i: int, j: int)
    requires
        is_lower_median(keys, i),
        is_lower_median(keys, j),
    ensures
        i == j,
{
    if i != j {
        if before(keys, i, j) {
            lemma_rank_strictly_grows(keys, i, j);
        } else {
            lemma_rank_strictly_grows(keys, j, i);
        }
    }
}

/// The bit pattern of the lower median of a sample of double bit patterns.
pub open spec fn lower_median_of(bits: Seq<u64>) -> u64 {
    bits[choose|i: int| is_lower_median(keys_of(bits), i)]
}

/// Finds the lower median of a sample given as double bit patterns: the
/// item at place `(n - 1) / 2` once the sample is sorted stably in numeric
/// order, the two zeros counting as equal. An empty sample has none.
pub fn median_bits(bits: &Vec<u64>) -> (r: Option<u64>)
    ensures
        r is None <==> bits.len() == 0,
        r matches Some(b) ==> b == lower_median_of(bits@),
{
    let keys = order_keys(bits);
    match median_position(&keys) {
        Some(i) => {
            proof {
                let c = choose|c: int| is_lower_median(keys_of(bits@), c);
                lemma_lower_median_unique(keys@, i as int, c);
            }
            Some(bits[i])
        },
        None => None,
    }
}

/// In a sample already sorted by key the lower median is the item at place
/// `(n - 1) / 2` itself: the middle item for an odd count, the lower of the
/// two middle items for an even count.
pub proof fn lemma_sorted_keys_median(keys: Seq<u64>)
    requires
        keys.len() > 0,
        forall|i: int, j: int| 0 <= i <= j < keys.len() ==> keys[i] <= keys[j],
    ensures
        is_lower_median(keys, middle(keys.len())),
        keys.len() % 2 == 1 ==> middle(keys.len()) == keys.len() / 2,
        keys.len() % 2 == 0 ==> middle(keys.len()) == keys.len() / 2 - 1,
{
    let m = middle(keys.len());
    assert forall|t: int| below(keys, m).contains(t) <==> set_int_range(0, m).contains(t) by {
        if 0 <= t < keys.len() && t > m {
            assert(keys[m] <= keys[t]);
        }
    }
    assert(below(keys, m) =~= set_int_range(0, m));
    lemma_int_range(0, m);
}

/// The median of a sample of non-NaN doubles already in ascending order is
/// the item at place `(n - 1) / 2`, and the median of an empty sample is
/// undefined.
pub proof fn lemma_sorted_sample_median(bits: Seq<u64>)
    requires
        forall|i: int| 0 <= i < bits.len() ==> !is_nan(#[trigger] bits[i]),
        forall|i: int, j: int| 0 <= i <= j < bits.len() ==> double_le(bits[i], bits[j]),
    ensures
        bits.len() > 0 ==> lower_median_of(bits) == bits[middle(bits.len())],
{
    if bits.len() > 0 {
        let keys = keys_of(bits);
        assert forall|i: int, j: int| 0 <= i <= j < keys.len() implies keys[i] <= keys[j] by {
            lemma_key_orders_as_doubles(bits[i], bits[j]);
        }
        lemma_sorted_keys_median(keys);
        let c = choose|c: int| is_lower_median(keys, c);
        lemma_lower_median_unique(keys, middle(bits.len()), c);
    }
}

} // verus!
