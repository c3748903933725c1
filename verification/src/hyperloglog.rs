//! The integer core of a HyperLogLog distinct-count estimator: hashing the
//! stream into buckets that track the deepest run of low zero bits, and an
//! exact distinct counter used as its reference.

use vstd::prelude::*;

use crate::ring::farm_hash;
use crate::ring::farm_hash_of;

verus! {

broadcast use vstd::std_specs::vec::group_vec_axioms;

/// 1-based position of the lowest set bit of `v`; 0 when `v` is 0.
pub open spec fn lsb_pos(v: int) -> int
    decreases v,
{
    if v <= 0 {
        0
    } else if v % 2 == 1 {
        1
    } else {
        1 + lsb_pos(v / 2)
    }
}

spec fn pow2i(k: int) -> int
    decreases k,
{
    if k <= 0 {
        1
    } else {
        2 * pow2i(k - 1)
    }
}

proof fn lemma_lsb_lt_pow(v: int, k: int)
    requires
        0 <= k,
        0 <= v < pow2i(k),
    ensures
        0 <= lsb_pos(v) <= k,
    decreases k,
{
    if v > 0 && v % 2 == 0 {
        assert(k > 0);
        lemma_lsb_lt_pow(v / 2, k - 1);
    }
}

proof fn lemma_lsb_pos_positive(v: int)
    requires
        v >= 1,
    ensures
        lsb_pos(v) >= 1,
    decreases v,
{
    if v % 2 == 0 {
        lemma_lsb_pos_positive(v / 2);
    }
}

/// Position of the first one bit, counting from the low end and starting at
/// one; a zero input reports 0.
pub fn first_non_zero_bit_position(input: u32) -> (r: u32)
    ensures
        r == lsb_pos(input as int),
{
    if input == 0 {
        return 0;
    }
    proof {
        reveal_with_fuel(pow2i, 33);
        lemma_lsb_lt_pow(input as int, 32);
    }
    let mut remaining: u32 = input;
    let mut first_non_zero: u32 = 1;
    while (remaining & 1) == 0 && remaining > 1
        invariant
            remaining >= 1,
            1 <= first_non_zero,
            first_non_zero - 1 + lsb_pos(remaining as int) == lsb_pos(input as int),
            lsb_pos(input as int) <= 32,
        decreases remaining,
    {
        proof {
            assert(remaining % 2 == 0) by {
                assert(remaining & 1 == remaining % 2) by (bit_vector);
            }
            assert(remaining / 2 >= 1);
            lemma_lsb_pos_positive(remaining as int / 2);
        }
        remaining = remaining / 2;
        first_non_zero = first_non_zero + 1;
    }
    proof {
        assert(remaining % 2 == 1 || remaining == 1) by {
            assert(remaining & 1 == remaining % 2) by (bit_vector);
        }
        assert(lsb_pos(remaining as int) == 1);
    }
    first_non_zero
}

/// The binary digits of `v`, least significant first; empty for 0.
pub open spec fn binary_string(v: int) -> Seq<char>
    decreases v,
{
    if v <= 0 {
        Seq::empty()
    } else {
        (if v % 2 == 1 {
            "1"@
        } else {
            "0"@
        }) + binary_string(v / 2)
    }
}

/// Writes `value` in binary, least significant bit first (and nothing at
/// all for zero).
pub fn to_binary(value: u32) -> (r: String)
    ensures
        r@ == binary_string(value as int),
{
    let mut result = String::new();
    let mut temp = value;
    while temp > 0
        invariant
            result@ + binary_string(temp as int) == binary_string(value as int),
        decreases temp,
    {
        let ghost pre = result@;
        if temp % 2 == 1 {
            result.append("1");
        } else {
            result.append("0");
        }
        proof {
            assert(result@ + binary_string(temp as int / 2) =~= pre + binary_string(
                temp as int,
            ));
        }
        temp = temp / 2;
    }
    proof {
        assert(result@ + binary_string(0) =~= result@);
    }
    result
}

/// The character sequences of a list of strings.
pub open spec fn views_of(elements: Seq<String>) -> Seq<Seq<char>> {
    elements.map_values(|s: String| s@)
}

/// How many distinct strings a list holds.
pub open spec fn distinct_count(elements: Seq<String>) -> int {
    views_of(elements).to_set().len() as int
}

/// Counts the distinct strings in the stream exactly. Mirrors the reference
/// counter of the estimator, which reports 1 for an empty stream.
pub fn count_distinct(elements: &Vec<String>) -> (r: u32)
    requires
        elements@.len() <= u32::MAX,
    ensures
        r == if elements@.len() == 0 {
            1int
        } else {
            distinct_count(elements@)
        },
{
    broadcast use vstd::seq_lib::seq_to_set_is_finite;

    if elements.len() == 0 {
        return 1;
    }
    let mut count: u32 = 0;
    let mut i: usize = 0;
    proof {
        assert(views_of(elements@.take(0)) =~= Seq::<Seq<char>>::empty());
        assert(views_of(elements@.take(0)).to_set() =~= Set::<Seq<char>>::empty());
    }
    while i < elements.len()
        invariant
            i <= elements@.len(),
            elements@.len() <= u32::MAX,
            0 <= count <= i,
            count == views_of(elements@.take(i as int)).to_set().len(),
        decreases elements@.len() - i,
    {
        let mut seen = false;
        let mut j: usize = 0;
        while j < i
            invariant
                j <= i < elements@.len(),
                seen == exists|m: int|
                    0 <= m < j && (#[trigger] elements@[m])@ == elements@[i as int]@,
            decreases i - j,
        {
            let ghost before = seen;
            let eq = elements[j] == elements[i];
            if eq {
                seen = true;
            }
            proof {
                let iv = elements@[i as int]@;
                if seen {
                    assert(exists|m: int|
                        0 <= m < j + 1 && (#[trigger] elements@[m])@ == iv) by {
                        if before {
                            let m = choose|m: int|
                                0 <= m < j && (#[trigger] elements@[m])@ == iv;
                            assert(elements@[m]@ == iv);
                        } else {
                            assert(elements@[j as int]@ == iv);
                        }
                    }
                } else {
                    if exists|m: int| 0 <= m < j + 1 && (#[trigger] elements@[m])@ == iv {
                        let m = choose|m: int|
                            0 <= m < j + 1 && (#[trigger] elements@[m])@ == iv;
                        assert(m == j || (0 <= m < j && elements@[m]@ == iv));
                    }
                }
            }
            j = j + 1;
        }
        proof {
            let pre = views_of(elements@.take(i as int));
            let post = views_of(elements@.take(i + 1));
            let ev = elements@[i as int]@;
            assert(post =~= pre.push(ev));
            assert forall|x: Seq<char>|
                post.to_set().contains(x) implies pre.to_set().insert(ev).contains(x) by {
                let m = choose|m: int| 0 <= m < post.len() && post[m] == x;
                if m < pre.len() {
                    assert(pre[m] == x);
                }
            }
            assert forall|x: Seq<char>|
                pre.to_set().insert(ev).contains(x) implies post.to_set().contains(x) by {
                if x == ev {
                    assert(post[post.len() - 1] == x);
                } else {
                    let m = choose|m: int| 0 <= m < pre.len() && pre[m] == x;
                    assert(post[m] == x);
                }
            }
            assert(post.to_set() =~= pre.to_set().insert(ev));
            assert(pre.to_set().contains(ev) <==> pre.contains(ev));
            assert(seen <==> pre.contains(ev)) by {
                if seen {
                    let m = choose|m: int|
                        0 <= m < i && (#[trigger] elements@[m])@ == ev;
                    assert(pre[m] == ev);
                }
                if pre.contains(ev) {
                    let m = choose|m: int| 0 <= m < pre.len() && pre[m] == ev;
                    assert(elements@[m]@ == ev);
                }
            }
            if seen {
                assert(pre.to_set().insert(ev) =~= pre.to_set());
            } else {
                pre.lemma_cardinality_of_set();
            }
        }
        if !seen {
            count = count + 1;
        }
        i = i + 1;
    }
    proof {
        assert(elements@.take(elements@.len() as int) =~= elements@);
    }
    count
}

/// The bucket a hash lands in: its low `b` bits.
pub open spec fn bucket_mask(b: u32) -> u32 {
    ((1u32 << b) - 1) as u32
}

/// The deepest first-one position among the first `n` stream elements whose
/// hash lands in bucket `j`; 0 when none does.
pub open spec fn bucket_max(elements: Seq<Seq<char>>, b: u32, j: int, n: int) -> int
    decreases n,
{
    if n <= 0 {
        0
    } else {
        let rest = bucket_max(elements, b, j, n - 1);
        let h = farm_hash_of(elements[n - 1]);
        let here = if (h & bucket_mask(b)) as int == j {
            lsb_pos((h >> b) as int)
        } else {
            0
        };
        if here > rest {
            here
        } else {
            rest
        }
    }
}

/// Fills the `2^b` estimator buckets from the stream: each element is
/// hashed, its low `b` bits pick a bucket, and the bucket keeps the deepest
/// first-one position seen in the remaining bits. The floating-point
/// estimate is computed from these buckets by the caller.
pub fn hll_buckets(elements: &Vec<String>, b: u32) -> (r: Vec<u32>)
    requires
        4 <= b <= 16,
    ensures
        r@.len() == (1u32 << b),
        forall|j: int|
            0 <= j < r@.len() ==> r@[j] == bucket_max(
                views_of(elements@),
                b,
                j,
                elements@.len() as int,
            ),
{
    let m: u32 = 1 << b;
    proof {
        assert(1u32 << b >= 1) by (bit_vector)
            requires
                b <= 16,
        ;
    }
    let first_b_bits_mask: u32 = m - 1;
    let mut first_non_zero_by_experiment: Vec<u32> = vec![0u32; m as usize];
    let mut i: usize = 0;
    while i < elements.len()
        invariant
            i <= elements@.len(),
            4 <= b <= 16,
            m == 1u32 << b,
            first_b_bits_mask == bucket_mask(b),
            first_non_zero_by_experiment@.len() == m,
            forall|j: int|
                0 <= j < first_non_zero_by_experiment@.len()
                    ==> first_non_zero_by_experiment@[j] == bucket_max(
                    views_of(elements@),
                    b,
                    j,
                    i as int,
                ),
        decreases elements@.len() - i,
    {
        let hash_value = farm_hash(&elements[i]);
        proof {
            assert((hash_value & first_b_bits_mask) < m) by {
                let hv = hash_value;
                let bb = b;
                assert(bb <= 16 ==> (hv & (((1u32 << bb) - 1) as u32)) < (1u32 << bb))
                    by (bit_vector);
            }
        }
        let experiment_index = (hash_value & first_b_bits_mask) as usize;
        let first_non_zero = first_non_zero_bit_position(hash_value >> b);
        let ghost pre = first_non_zero_by_experiment@;
        if first_non_zero > first_non_zero_by_experiment[experiment_index] {
            first_non_zero_by_experiment[experiment_index] = first_non_zero;
        }
        proof {
            let views = views_of(elements@);
            assert(views[i as int] == elements@[i as int]@);
            assert forall|j: int|
                0 <= j < first_non_zero_by_experiment@.len()
                    implies first_non_zero_by_experiment@[j] == bucket_max(
                views,
                b,
                j,
                i + 1,
            ) by {
                if j == experiment_index as int {
                } else {
                    assert(first_non_zero_by_experiment@[j] == pre[j]);
                }
            }
        }
        i = i + 1;
    }
    proof {
        assert(views_of(elements@).len() == elements@.len());
    }
    first_non_zero_by_experiment
}

} // verus!
