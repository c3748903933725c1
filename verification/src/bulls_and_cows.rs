//! A solver for the bulls-and-cows guessing game: secrets are sequences of
//! `N` distinct digits, a guess is answered with a score of perfect and
//! imperfect matches, and `search` builds a decision tree of guesses that
//! pins the secret down, preferring shallow trees and breaking ties by size.

use vstd::prelude::*;

verus! {

broadcast use vstd::std_specs::vec::group_vec_axioms, vstd::std_specs::hash::group_hash_axioms;

/// Number of digits in a secret or a guess.
pub const N: usize = 4;

/// Number of digit values.
pub const D: usize = 10;

/// Number of encoded scores: a score holds two counts in `0 ..= N`, so
/// `NN == (N + 1) * (N + 1)`.
pub const NN: usize = 25;

/// A decision tree: a guess to play, and, for every score the guess can be
/// answered with, the subtree to continue with (indexed by encoded score).
pub struct Tree {
    pub guess: [i32; N],
    pub children: Vec<Option<Box<Tree>>>,
}

pub open spec fn valid_digit(d: i32) -> bool {
    0 <= d < D
}

pub open spec fn valid_guess(g: Seq<i32>) -> bool {
    &&& g.len() == N
    &&& forall|i: int| 0 <= i < g.len() ==> valid_digit(#[trigger] g[i])
}

// ---------------------------------------------------------------------------
// Scores
// ---------------------------------------------------------------------------

/// Number of positions among the first `n` where guess and secret agree.
pub open spec fn count_perfect(g: Seq<i32>, s: Seq<i32>, n: int) -> int
    decreases n,
{
    if n <= 0 {
        0
    } else {
        count_perfect(g, s, n - 1) + if g[n - 1] == s[n - 1] {
            1int
        } else {
            0int
        }
    }
}

/// Number of secret digits among the first `n` that occur anywhere in the
/// guess.
pub open spec fn count_any(g: Seq<i32>, s: Seq<i32>, n: int) -> int
    decreases n,
{
    if n <= 0 {
        0
    } else {
        count_any(g, s, n - 1) + if g.contains(s[n - 1]) {
            1int
        } else {
            0int
        }
    }
}

pub open spec fn perfect_matches_of(g: Seq<i32>, s: Seq<i32>) -> int {
    count_perfect(g, s, N as int)
}

pub open spec fn any_matches_of(g: Seq<i32>, s: Seq<i32>) -> int {
    count_any(g, s, N as int)
}

/// Scores a guess against a secret: perfect matches (right digit, right
/// position) and imperfect matches (right digit, wrong position).
pub fn compute_score(guess: &[i32; N], secret: &[i32; N]) -> (r: (i32, i32))
    requires
        valid_guess(guess@),
        valid_guess(secret@),
    ensures
        r.0 == perfect_matches_of(guess@, secret@),
        r.1 == any_matches_of(guess@, secret@) - perfect_matches_of(guess@, secret@),
{
    let mut perfect_matches: i32 = 0;
    let mut i: usize = 0;
    while i < N
        invariant
            i <= N,
            valid_guess(guess@),
            valid_guess(secret@),
            0 <= perfect_matches <= i,
            perfect_matches == count_perfect(guess@, secret@, i as int),
        decreases N - i,
    {
        if guess[i] == secret[i] {
            perfect_matches = perfect_matches + 1;
        }
        i = i + 1;
    }

    let mut look_up_position: Vec<bool> = vec![false; D];
    let mut j: usize = 0;
    while j < N
        invariant
            j <= N,
            valid_guess(guess@),
            valid_guess(secret@),
            look_up_position@.len() == D,
            forall|d: int|
                0 <= d < D ==> (look_up_position@[d] <==> guess@.take(j as int).contains(
                    d as i32,
                )),
        decreases N - j,
    {
        let position = guess[j] as usize;
        look_up_position[position] = true;
        proof {
            assert(guess@.take(j + 1).drop_last() =~= guess@.take(j as int));
            assert forall|d: int| 0 <= d < D implies (look_up_position@[d] <==> guess@.take(
                j + 1,
            ).contains(d as i32)) by {
                let pre = guess@.take(j as int);
                let post = guess@.take(j + 1);
                assert(post.last() == guess@[j as int]);
                if look_up_position@[d] {
                    if d == guess@[j as int] {
                        assert(post[j as int] == d as i32);
                    } else {
                        assert(pre.contains(d as i32));
                        let w = choose|w: int| 0 <= w < pre.len() && pre[w] == d as i32;
                        assert(post[w] == d as i32);
                    }
                } else {
                    if post.contains(d as i32) {
                        let w = choose|w: int| 0 <= w < post.len() && post[w] == d as i32;
                        if w < j {
                            assert(pre[w] == d as i32);
                        }
                    }
                }
            }
        }
        j = j + 1;
    }
    proof {
        assert(guess@.take(N as int) =~= guess@);
    }

    let mut any_matches: i32 = 0;
    let mut k: usize = 0;
    while k < N
        invariant
            k <= N,
            valid_guess(guess@),
            valid_guess(secret@),
            look_up_position@.len() == D,
            forall|d: int| 0 <= d < D ==> (look_up_position@[d] <==> guess@.contains(d as i32)),
            0 <= any_matches <= k,
            any_matches == count_any(guess@, secret@, k as int),
        decreases N - k,
    {
        let position = secret[k] as usize;
        if look_up_position[position] {
            any_matches = any_matches + 1;
        }
        k = k + 1;
    }

    let imperfect_matches = any_matches - perfect_matches;
    (perfect_matches, imperfect_matches)
}

/// Packs a score into a single index in `0 .. NN`.
pub fn encode_score(score: (i32, i32)) -> (r: usize)
    requires
        0 <= score.0 <= N,
        0 <= score.1 <= N,
    ensures
        r == score.0 * (N + 1) + score.1,
{
    let n = (N + 1) as i32;
    (score.0 * n + score.1) as usize
}

/// Unpacks an encoded score index back into the two counts.
pub fn decode_score(score_index: usize) -> (r: (i32, i32))
    requires
        score_index < NN,
    ensures
        r.0 == score_index as int / (N + 1),
        r.1 == score_index as int % (N + 1),
{
    let n = (N + 1) as i32;
    let encoded_score = score_index as i32;
    let perfect_matches = encoded_score / n;
    let imperfect_matches = encoded_score % n;
    (perfect_matches, imperfect_matches)
}

/// Encoding a score and decoding the index gives the score back.
pub proof fn lemma_score_roundtrip(p: int, f: int)
    requires
        0 <= p <= N,
        0 <= f <= N,
    ensures
        (p * (N + 1) + f) / (N + 1) as int == p,
        (p * (N + 1) + f) % (N + 1) as int == f,
{
}

// ---------------------------------------------------------------------------
// Equivalence classes of guesses
// ---------------------------------------------------------------------------

pub open spec fn pow_d1(n: int) -> int
    decreases n,
{
    if n <= 0 {
        1
    } else {
        (D + 1) * pow_d1(n - 1)
    }
}

/// The contribution of one guess digit to its class: digits already visited
/// count, digits never played so far are interchangeable and count as 0.
pub open spec fn class_term(visited_bits: u32, d: i32) -> int {
    if visited_bits & (1u32 << (d as u32)) != 0 {
        d + 1
    } else {
        0
    }
}

pub open spec fn class_prefix(visited_bits: u32, g: Seq<i32>, n: int) -> int
    decreases n,
{
    if n <= 0 {
        0
    } else {
        class_prefix(visited_bits, g, n - 1) + pow_d1(n - 1) * class_term(visited_bits, g[n - 1])
    }
}

/// The equivalence class of a guess, given the digits visited so far: the
/// positions of the already-visited digits, written in base `D + 1`.
pub open spec fn class_of(visited_bits: u32, g: Seq<i32>) -> int {
    class_prefix(visited_bits, g, N as int)
}

/// Two guesses of the same class branch the search identically, so only one
/// of them needs to be explored.
pub fn get_class(visited_bits: u32, guess: &[i32; N]) -> (r: i32)
    requires
        valid_guess(guess@),
    ensures
        r == class_of(visited_bits, guess@),
{
    proof {
        reveal_with_fuel(pow_d1, 6);
    }
    let mut class_id: i32 = 0;
    let mut multiplier: i32 = 1;
    let d = (D + 1) as i32;
    let mut pos: usize = 0;
    while pos < N
        invariant
            pos <= N,
            valid_guess(guess@),
            d == 11i32,
            multiplier == pow_d1(pos as int),
            class_id == class_prefix(visited_bits, guess@, pos as int),
            0 <= class_id <= pow_d1(pos as int) - 1,
        decreases N - pos,
    {
        proof {
            reveal_with_fuel(pow_d1, 6);
            let p = pos as int;
            assert(p == 0 || p == 1 || p == 2 || p == 3);
            if p == 0 {
                assert(pow_d1(0) == 1);
            }
            if p == 1 {
                assert(pow_d1(1) == 11);
            }
            if p == 2 {
                assert(pow_d1(2) == 121);
            }
            if p == 3 {
                assert(pow_d1(3) == 1331);
            }
            assert(multiplier == 1 || multiplier == 11 || multiplier == 121 || multiplier
                == 1331);
            assert(pow_d1(p + 1) == (D + 1) * pow_d1(p));
        }
        let digit = guess[pos];
        proof {
            assert(0 <= digit <= 9);
            assert(1 <= multiplier <= 1331);
            assert(0 <= multiplier * (digit + 1) <= 13310) by (nonlinear_arith)
                requires
                    1 <= multiplier <= 1331,
                    0 <= digit <= 9,
            ;
        }
        if visited_bits & (1u32 << (digit as u32)) != 0 {
            class_id = class_id + multiplier * (digit + 1);
        }
        multiplier = multiplier * d;
        pos = pos + 1;
    }
    class_id
}

// ---------------------------------------------------------------------------
// Possibilities: all sequences of distinct, unvisited digits
// ---------------------------------------------------------------------------

/// Whether the bit for digit `d` is set in the visited mask.
pub open spec fn bit_set(visited: i32, d: i32) -> bool {
    visited & (1i32 << (d as u32)) != 0
}

proof fn lemma_bit_or_same(v: i32, d: i32)
    requires
        0 <= d < 32,
    ensures
        bit_set(v | (1i32 << (d as u32)), d),
{
    assert((v | (1i32 << (d as u32))) & (1i32 << (d as u32)) != 0) by (bit_vector)
        requires
            0 <= d < 32,
    ;
}

proof fn lemma_bit_or_other(v: i32, d1: i32, d2: i32)
    requires
        0 <= d1 < 32,
        0 <= d2 < 32,
        d1 != d2,
    ensures
        bit_set(v | (1i32 << (d1 as u32)), d2) == bit_set(v, d2),
{
    assert(((v | (1i32 << (d1 as u32))) & (1i32 << (d2 as u32)) != 0) == (v & (1i32
        << (d2 as u32)) != 0)) by (bit_vector)
        requires
            0 <= d1 < 32,
            0 <= d2 < 32,
            d1 != d2,
    ;
}

/// A candidate secret under construction: `state_index` digits, all valid,
/// pairwise distinct, and none of them in the visited mask.
pub open spec fn valid_possibility(p: Seq<i32>, state_index: int, visited: i32) -> bool {
    &&& p.len() == state_index
    &&& forall|i: int| 0 <= i < p.len() ==> valid_digit(#[trigger] p[i])
    &&& forall|i: int| 0 <= i < p.len() ==> !bit_set(visited, #[trigger] p[i])
    &&& forall|i: int, j: int| 0 <= i < j < p.len() ==> p[i] != p[j]
}

fn copy_digits(src: &Vec<i32>) -> (r: Vec<i32>)
    ensures
        r@ == src@,
{
    let mut r: Vec<i32> = Vec::new();
    let mut i: usize = 0;
    while i < src.len()
        invariant
            i <= src@.len(),
            r@ == src@.take(i as int),
        decreases src@.len() - i,
    {
        r.push(src[i]);
        proof {
            assert(src@.take(i + 1) =~= src@.take(i as int).push(src@[i as int]));
        }
        i = i + 1;
    }
    proof {
        assert(src@.take(src@.len() as int) =~= src@);
    }
    r
}

/// Enumerates every sequence of `state_index` distinct digits that avoids
/// the visited mask: each element of the result is such a sequence, no
/// sequence appears twice, and every such sequence appears.
pub fn initialize_possibilities_with_params(state_index: i32, visited: i32) -> (r: Vec<Vec<i32>>)
    requires
        0 <= state_index,
    ensures
        forall|k: int|
            0 <= k < r@.len() ==> valid_possibility(
                (#[trigger] r@[k])@,
                state_index as int,
                visited,
            ),
        forall|k1: int, k2: int| 0 <= k1 < k2 < r@.len() ==> r@[k1]@ != r@[k2]@,
        forall|p: Seq<i32>|
            #[trigger] valid_possibility(p, state_index as int, visited) ==> exists|k: int|
                0 <= k < r@.len() && r@[k]@ == p,
    decreases state_index,
{
    if state_index == 0 {
        let mut empty_vec: Vec<Vec<i32>> = Vec::new();
        empty_vec.push(Vec::new());
        proof {
            assert forall|p: Seq<i32>| #[trigger]
                valid_possibility(p, 0, visited) implies exists|k: int|
                0 <= k < empty_vec@.len() && empty_vec@[k]@ == p by {
                assert(p =~= empty_vec@[0]@);
            }
        }
        return empty_vec;
    }

    let ghost si = state_index as int;
    let mut new_possibilities: Vec<Vec<i32>> = Vec::new();
    let mut digit: usize = 0;
    while digit < D
        invariant
            1 <= state_index,
            si == state_index as int,
            digit <= D,
            forall|k: int|
                0 <= k < new_possibilities@.len() ==> valid_possibility(
                    (#[trigger] new_possibilities@[k])@,
                    si,
                    visited,
                ),
            forall|k: int|
                0 <= k < new_possibilities@.len() ==> 0 <= (#[trigger] new_possibilities@[k])@[si
                    - 1] < digit,
            forall|k1: int, k2: int|
                0 <= k1 < k2 < new_possibilities@.len() ==> new_possibilities@[k1]@
                    != new_possibilities@[k2]@,
            forall|p: Seq<i32>|
                #[trigger] valid_possibility(p, si, visited) && p[si - 1] < digit ==> exists|
                    k: int,
                |
                    0 <= k < new_possibilities@.len() && new_possibilities@[k]@ == p,
        decreases D - digit,
    {
        let dv = digit as i32;
        let mask = 1i32 << (dv as u32);
        if visited & mask != 0 {
            // This digit was already played: no possibility may use it.
            proof {
                assert forall|p: Seq<i32>|
                    #[trigger] valid_possibility(p, si, visited) && p[si - 1] < digit
                        + 1 implies exists|k: int|
                    0 <= k < new_possibilities@.len() && new_possibilities@[k]@ == p by {
                    assert(!bit_set(visited, p[si - 1]));
                    assert(p[si - 1] != dv);
                }
            }
        } else {
            let possibilities = initialize_possibilities_with_params(state_index - 1, visited
                | mask);
            let ghost vis2 = visited | mask;
            let ghost old_out = new_possibilities@;
            let ghost old_len = new_possibilities@.len() as int;
            let mut k: usize = 0;
            while k < possibilities.len()
                invariant
                    1 <= state_index,
                    si == state_index as int,
                    digit < D,
                    dv == digit as i32,
                    mask == 1i32 << (dv as u32),
                    vis2 == visited | mask,
                    !bit_set(visited, dv),
                    0 <= old_len,
                    old_len == old_out.len() as int,
                    k <= possibilities@.len(),
                    forall|m: int|
                        0 <= m < possibilities@.len() ==> valid_possibility(
                            (#[trigger] possibilities@[m])@,
                            si - 1,
                            vis2,
                        ),
                    forall|m1: int, m2: int|
                        0 <= m1 < m2 < possibilities@.len() ==> possibilities@[m1]@
                            != possibilities@[m2]@,
                    new_possibilities@.len() == old_len + k,
                    forall|m: int| 0 <= m < old_len ==> new_possibilities@[m] == old_out[m],
                    forall|m: int|
                        0 <= m < old_len ==> 0 <= (#[trigger] new_possibilities@[m])@[si - 1]
                            < digit,
                    forall|m: int|
                        old_len <= m < new_possibilities@.len()
                            ==> (#[trigger] new_possibilities@[m])@ == possibilities@[m
                            - old_len]@.push(dv),
                    forall|m: int|
                        0 <= m < new_possibilities@.len() ==> valid_possibility(
                            (#[trigger] new_possibilities@[m])@,
                            si,
                            visited,
                        ),
                    forall|m1: int, m2: int|
                        0 <= m1 < m2 < new_possibilities@.len() ==> new_possibilities@[m1]@
                            != new_possibilities@[m2]@,
                decreases possibilities@.len() - k,
            {
                let mut new_possibility = copy_digits(&possibilities[k]);
                new_possibility.push(dv);
                proof {
                    let q = possibilities@[k as int]@;
                    let pn = new_possibility@;
                    assert(pn == q.push(dv));
                    // The new possibility is valid for the outer mask: its
                    // prefix avoids the stricter mask, and its last digit is
                    // this digit, which the branch found unplayed.
                    assert forall|i: int| 0 <= i < pn.len() implies valid_digit(
                        #[trigger] pn[i],
                    ) && !bit_set(visited, pn[i]) by {
                        if i < si - 1 {
                            assert(pn[i] == q[i]);
                            assert(!bit_set(vis2, q[i]));
                            if q[i] != dv {
                                lemma_bit_or_other(visited, dv, q[i]);
                            } else {
                                lemma_bit_or_same(visited, dv);
                            }
                        }
                    }
                    assert forall|i: int, j: int| 0 <= i < j < pn.len() implies pn[i]
                        != pn[j] by {
                        if j == si - 1 && pn[i] == dv {
                            assert(!bit_set(vis2, q[i]));
                            lemma_bit_or_same(visited, dv);
                        }
                    }
                    assert(valid_possibility(pn, si, visited));
                    // Distinct from everything already collected: earlier
                    // digit groups end in a smaller digit, and within this
                    // group the prefixes differ.
                    assert forall|m: int|
                        0 <= m < new_possibilities@.len() implies new_possibilities@[m]@
                        != pn by {
                        if m < old_len {
                            assert(new_possibilities@[m]@[si - 1] < dv);
                        } else {
                            let qm = possibilities@[m - old_len]@;
                            if qm.push(dv) == q.push(dv) {
                                assert(qm =~= qm.push(dv).drop_last());
                                assert(q =~= q.push(dv).drop_last());
                                assert(qm == q);
                            }
                        }
                    }
                }
                let ghost pre = new_possibilities@;
                new_possibilities.push(new_possibility);
                proof {
                    assert forall|m: int|
                        old_len <= m < new_possibilities@.len() implies (
                        #[trigger] new_possibilities@[m])@ == possibilities@[m
                        - old_len]@.push(dv) by {
                        assert(new_possibilities@ == pre.push(new_possibility));
                        if m < old_len + k {
                            assert(pre.push(new_possibility)[m] == pre[m]);
                            assert(new_possibilities@[m] == pre[m]);
                        } else {
                            assert(new_possibilities@[m] == new_possibility);
                        }
                    }
                }
                k = k + 1;
            }
            // Everything that ends in this digit has now been collected.
            proof {
                assert forall|p: Seq<i32>|
                    #[trigger] valid_possibility(p, si, visited) && p[si - 1] < digit
                        + 1 implies exists|k2: int|
                    0 <= k2 < new_possibilities@.len() && new_possibilities@[k2]@ == p by {
                    if p[si - 1] < digit {
                        let k2 = choose|k2: int|
                            0 <= k2 < old_len && #[trigger] old_out[k2]@ == p;
                        assert(new_possibilities@[k2]@ == p);
                    } else {
                        assert(p[si - 1] == dv);
                        let q = p.drop_last();
                        assert forall|i: int| 0 <= i < q.len() implies !bit_set(
                            vis2,
                            #[trigger] q[i],
                        ) by {
                            assert(q[i] == p[i] && p[i] != p[si - 1]);
                            lemma_bit_or_other(visited, dv, q[i]);
                        }
                        assert(valid_possibility(q, si - 1, vis2));
                        let m = choose|m: int|
                            0 <= m < possibilities@.len() && #[trigger] possibilities@[m]@ == q;
                        assert(new_possibilities@[old_len + m]@ == q.push(dv));
                        assert(p =~= q.push(dv));
                    }
                }
            }
        }
        digit = digit + 1;
    }
    proof {
        assert forall|p: Seq<i32>|
            #[trigger] valid_possibility(p, si, visited) implies exists|k: int|
            0 <= k < new_possibilities@.len() && new_possibilities@[k]@ == p by {
            assert(valid_digit(p[si - 1]));
        }
    }
    new_possibilities
}

/// Enumerates every secret the game allows: all sequences of `N` distinct
/// digits, as fixed-size arrays.
pub fn initialize_possibilities() -> (r: Vec<[i32; N]>)
    ensures
        forall|k: int|
            0 <= k < r@.len() ==> valid_possibility((#[trigger] r@[k])@, N as int, 0i32),
        forall|k1: int, k2: int| 0 <= k1 < k2 < r@.len() ==> r@[k1]@ != r@[k2]@,
        forall|p: Seq<i32>|
            #[trigger] valid_possibility(p, N as int, 0i32) ==> exists|k: int|
                0 <= k < r@.len() && r@[k]@ == p,
{
    let possibilities = initialize_possibilities_with_params(N as i32, 0);
    let mut new_possibilities: Vec<[i32; N]> = Vec::new();
    let mut k: usize = 0;
    while k < possibilities.len()
        invariant
            k <= possibilities@.len(),
            new_possibilities@.len() == k,
            forall|m: int|
                0 <= m < possibilities@.len() ==> valid_possibility(
                    (#[trigger] possibilities@[m])@,
                    N as int,
                    0i32,
                ),
            forall|m: int|
                0 <= m < k ==> (#[trigger] new_possibilities@[m])@ == possibilities@[m]@,
        decreases possibilities@.len() - k,
    {
        let possibility = &possibilities[k];
        let possibility_arr = [possibility[0], possibility[1], possibility[2], possibility[3]];
        proof {
            assert(possibility_arr@ =~= possibilities@[k as int]@);
        }
        new_possibilities.push(possibility_arr);
        k = k + 1;
    }
    proof {
        assert forall|p: Seq<i32>|
            #[trigger] valid_possibility(p, N as int, 0i32) implies exists|k2: int|
            0 <= k2 < new_possibilities@.len() && new_possibilities@[k2]@ == p by {
            let k2 = choose|k2: int|
                0 <= k2 < possibilities@.len() && (#[trigger] possibilities@[k2])@ == p;
            assert(new_possibilities@[k2]@ == p);
        }
    }
    new_possibilities
}

// ---------------------------------------------------------------------------
// Grouping possibilities by score
// ---------------------------------------------------------------------------

/// The encoded score a secret `s` would answer to the guess `g`.
pub open spec fn score_index_of(g: Seq<i32>, s: Seq<i32>) -> int {
    perfect_matches_of(g, s) * (N + 1) + (any_matches_of(g, s) - perfect_matches_of(g, s))
}

/// Both counts of a score lie in `0 ..= n`, and no secret digit can match
/// perfectly without also matching somewhere.
proof fn lemma_score_bounds(g: Seq<i32>, s: Seq<i32>, n: int)
    requires
        0 <= n <= g.len(),
        g.len() == s.len(),
    ensures
        0 <= count_perfect(g, s, n) <= count_any(g, s, n) <= n,
    decreases n,
{
    if n > 0 {
        lemma_score_bounds(g, s, n - 1);
        if g[n - 1] == s[n - 1] {
            assert(g.contains(s[n - 1]));
        }
    }
}

/// Bucket `j` of a list of possibilities: the subsequence, in original
/// order, of those whose score against the guess encodes to `j`.
pub open spec fn bucket_of(g: Seq<i32>, ps: Seq<[i32; N]>, j: int) -> Seq<[i32; N]>
    decreases ps.len(),
{
    if ps.len() == 0 {
        Seq::empty()
    } else {
        let rest = bucket_of(g, ps.drop_last(), j);
        if score_index_of(g, ps.last()@) == j {
            rest.push(ps.last())
        } else {
            rest
        }
    }
}

/// Splits the possibilities into `NN` buckets: bucket `j` holds, in their
/// original order, exactly the possibilities whose score against the guess
/// encodes to `j`.
pub fn group_possibilities_by_score(guess: &[i32; N], possibilities: &Vec<[i32; N]>) -> (r: Vec<
    Vec<[i32; N]>,
>)
    requires
        valid_guess(guess@),
        forall|k: int| 0 <= k < possibilities@.len() ==> valid_guess((#[trigger] possibilities@[k])@),
    ensures
        r@.len() == NN,
        forall|j: int| 0 <= j < NN ==> (#[trigger] r@[j])@ == bucket_of(guess@, possibilities@, j),
{
    let mut possibilities_by_score: Vec<Vec<[i32; N]>> = Vec::new();
    let mut i: usize = 0;
    while i < NN
        invariant
            i <= NN,
            possibilities_by_score@.len() == i,
            forall|j: int|
                0 <= j < i ==> (#[trigger] possibilities_by_score@[j])@ == Seq::<
                    [i32; N],
                >::empty(),
        decreases NN - i,
    {
        possibilities_by_score.push(Vec::new());
        i = i + 1;
    }
    proof {
        assert forall|j: int|
            0 <= j < NN implies (#[trigger] possibilities_by_score@[j])@ == bucket_of(
            guess@,
            possibilities@.take(0),
            j,
        ) by {
            assert(possibilities@.take(0).len() == 0);
        }
    }

    let mut k: usize = 0;
    while k < possibilities.len()
        invariant
            k <= possibilities@.len(),
            valid_guess(guess@),
            forall|m: int|
                0 <= m < possibilities@.len() ==> valid_guess((#[trigger] possibilities@[m])@),
            possibilities_by_score@.len() == NN,
            forall|j: int|
                0 <= j < NN ==> (#[trigger] possibilities_by_score@[j])@ == bucket_of(
                    guess@,
                    possibilities@.take(k as int),
                    j,
                ),
        decreases possibilities@.len() - k,
    {
        let new_possibility = possibilities[k];
        let score = compute_score(guess, &new_possibility);
        proof {
            lemma_score_bounds(guess@, new_possibility@, N as int);
        }
        let score_index = encode_score(score);
        let ghost pre = possibilities_by_score@;
        possibilities_by_score[score_index].push(new_possibility);
        proof {
            assert(score_index_of(guess@, new_possibility@) == score_index as int);
            assert forall|j: int|
                0 <= j < NN implies (#[trigger] possibilities_by_score@[j])@ == bucket_of(
                guess@,
                possibilities@.take(k + 1),
                j,
            ) by {
                let taken1 = possibilities@.take(k + 1);
                assert(taken1.drop_last() =~= possibilities@.take(k as int));
                assert(taken1.last() == possibilities@[k as int]);
                if j == score_index as int {
                    assert(possibilities_by_score@[j]@ == pre[j]@.push(new_possibility));
                } else {
                    assert(possibilities_by_score@[j]@ == pre[j]@);
                }
            }
        }
        k = k + 1;
    }
    proof {
        assert(possibilities@.take(possibilities@.len() as int) =~= possibilities@);
    }
    possibilities_by_score
}

// ---------------------------------------------------------------------------
// Decision trees
// ---------------------------------------------------------------------------

// ---------------------------------------------------------------------------
// The search for the best decision tree
// ---------------------------------------------------------------------------

/// Well-formed decision tree: every node carries a valid guess and `NN`
/// child slots, recursively.
pub open spec fn tree_wf(t: Tree) -> bool
    decreases t,
{
    &&& valid_guess(t.guess@)
    &&& t.children@.len() == NN
    &&& forall|i: int|
        0 <= i < NN ==> ((#[trigger] t.children@[i]) matches Some(c) ==> tree_wf(*c))
}

/// The tree wins the game against every secret in `pool`: either the node's
/// guess is the secret itself, or the score that the secret answers leads to
/// a subtree that wins against exactly the secrets giving that score.
pub open spec fn solves(t: Tree, pool: Seq<[i32; N]>) -> bool
    decreases t,
{
    forall|k: int|
        0 <= k < pool.len() ==> {
            let j = score_index_of(t.guess@, (#[trigger] pool[k])@);
            (pool[k]@ == t.guess@) || (0 <= j < NN && j < t.children@.len() && (
            t.children@[j] matches Some(c) && solves(*c, bucket_of(t.guess@, pool, j))))
        }
}

proof fn lemma_bucket_len_le(g: Seq<i32>, ps: Seq<[i32; N]>, j: int)
    ensures
        bucket_of(g, ps, j).len() <= ps.len(),
    decreases ps.len(),
{
    if ps.len() > 0 {
        lemma_bucket_len_le(g, ps.drop_last(), j);
    }
}

/// Every element of a bucket is an element of the grouped list.
proof fn lemma_bucket_membership(g: Seq<i32>, ps: Seq<[i32; N]>, j: int, i: int)
    requires
        0 <= i < bucket_of(g, ps, j).len(),
    ensures
        exists|k: int| 0 <= k < ps.len() && ps[k] == bucket_of(g, ps, j)[i],
        score_index_of(g, bucket_of(g, ps, j)[i]@) == j,
    decreases ps.len(),
{
    let b = bucket_of(g, ps, j);
    if ps.len() > 0 {
        let rest = bucket_of(g, ps.drop_last(), j);
        if i < rest.len() {
            lemma_bucket_membership(g, ps.drop_last(), j, i);
            let k = choose|k: int|
                0 <= k < ps.drop_last().len() && ps.drop_last()[k] == rest[i];
            assert(ps[k] == b[i]);
        } else {
            assert(b[i] == ps.last());
            assert(ps[ps.len() - 1] == b[i]);
        }
    }
}

/// A bucket of a duplicate-free list is duplicate-free.
proof fn lemma_bucket_distinct(g: Seq<i32>, ps: Seq<[i32; N]>, j: int)
    requires
        forall|k1: int, k2: int| 0 <= k1 < k2 < ps.len() ==> ps[k1]@ != ps[k2]@,
    ensures
        forall|i1: int, i2: int|
            0 <= i1 < i2 < bucket_of(g, ps, j).len() ==> bucket_of(g, ps, j)[i1]@ != bucket_of(
                g,
                ps,
                j,
            )[i2]@,
    decreases ps.len(),
{
    let b = bucket_of(g, ps, j);
    if ps.len() > 0 {
        let shorter = ps.drop_last();
        assert(forall|k1: int, k2: int|
            0 <= k1 < k2 < shorter.len() ==> shorter[k1]@ != shorter[k2]@);
        lemma_bucket_distinct(g, shorter, j);
        let rest = bucket_of(g, shorter, j);
        assert forall|i1: int, i2: int| 0 <= i1 < i2 < b.len() implies b[i1]@ != b[i2]@ by {
            if i2 < rest.len() {
            } else if i2 == rest.len() && b.len() > rest.len() {
                // b[i2] is ps.last(); b[i1] sits in the shorter list, and the
                // last element differs from everything before it.
                lemma_bucket_membership(g, shorter, j, i1);
                let k = choose|k: int| 0 <= k < shorter.len() && shorter[k] == rest[i1];
                assert(ps[k]@ != ps[ps.len() - 1]@);
            }
        }
    }
}

/// A bucket that some element of the list does not belong to is strictly
/// smaller than the list.
proof fn lemma_bucket_strict(g: Seq<i32>, ps: Seq<[i32; N]>, j: int, k: int)
    requires
        0 <= k < ps.len(),
        score_index_of(g, ps[k]@) != j,
    ensures
        bucket_of(g, ps, j).len() < ps.len(),
    decreases ps.len(),
{
    let shorter = ps.drop_last();
    if k == ps.len() - 1 {
        lemma_bucket_len_le(g, shorter, j);
    } else {
        lemma_bucket_strict(g, shorter, j, k);
    }
}

/// An element that scores `j` against the guess sits in bucket `j`.
proof fn lemma_bucket_contains(g: Seq<i32>, ps: Seq<[i32; N]>, j: int, k: int)
    requires
        0 <= k < ps.len(),
        score_index_of(g, ps[k]@) == j,
    ensures
        bucket_of(g, ps, j).len() >= 1,
    decreases ps.len(),
{
    if k < ps.len() - 1 {
        lemma_bucket_contains(g, ps.drop_last(), j, k);
    }
}

/// A forest of absent children has height 0.
proof fn lemma_forest_height_none(s: Seq<Option<Box<Tree>>>, n: int)
    requires
        forall|i: int| 0 <= i < n ==> (#[trigger] s[i]) is None,
    ensures
        forest_height(s, n) == 0,
    decreases n,
{
    if 0 < n <= s.len() {
        lemma_forest_height_none(s, n - 1);
    }
}

/// A forest whose present children all stay within height `h` stays within
/// height `h` itself.
proof fn lemma_forest_height_bound(s: Seq<Option<Box<Tree>>>, n: int, h: nat)
    requires
        forall|i: int|
            0 <= i < n ==> ((#[trigger] s[i]) matches Some(c) ==> tree_height_spec(*c) <= h),
    ensures
        forest_height(s, n) <= h,
    decreases n,
{
    if 0 < n <= s.len() {
        lemma_forest_height_bound(s, n - 1, h);
    }
}

/// A guess scored against itself matches everywhere.
proof fn lemma_self_score(q: Seq<i32>, n: int)
    requires
        0 <= n <= q.len(),
    ensures
        count_perfect(q, q, n) == n,
        count_any(q, q, n) == n,
    decreases n,
{
    if n > 0 {
        lemma_self_score(q, n - 1);
        assert(q.contains(q[n - 1]));
    }
}

/// A full perfect count means the two sequences agree at every position.
proof fn lemma_perfect_full(g: Seq<i32>, s: Seq<i32>, n: int)
    requires
        0 <= n <= g.len(),
        g.len() == s.len(),
        count_perfect(g, s, n) == n,
    ensures
        forall|i: int| 0 <= i < n ==> g[i] == s[i],
    decreases n,
{
    if n > 0 {
        lemma_score_bounds(g, s, n - 1);
        assert(count_perfect(g, s, n - 1) <= n - 1) by {
            lemma_count_perfect_le(g, s, n - 1);
        }
        lemma_perfect_full(g, s, n - 1);
    }
}

proof fn lemma_count_perfect_le(g: Seq<i32>, s: Seq<i32>, n: int)
    requires
        0 <= n,
    ensures
        count_perfect(g, s, n) <= n,
    decreases n,
{
    if n > 0 {
        lemma_count_perfect_le(g, s, n - 1);
    }
}

/// Whichever bucket of a duplicate-free pool the chosen guess is scored
/// into, every bucket is strictly smaller than the pool itself, so the
/// search descends.
proof fn lemma_bucket_shrinks(guess: Seq<i32>, ps: Seq<[i32; N]>, gi: int, j: int)
    requires
        valid_guess(guess),
        0 <= gi < ps.len(),
        ps[gi]@ == guess,
        ps.len() >= 2,
        0 <= j < NN,
        forall|k1: int, k2: int| 0 <= k1 < k2 < ps.len() ==> ps[k1]@ != ps[k2]@,
        forall|k: int| 0 <= k < ps.len() ==> valid_guess((#[trigger] ps[k])@),
    ensures
        bucket_of(guess, ps, j).len() < ps.len(),
{
    lemma_self_score(guess, N as int);
    let self_index = score_index_of(guess, guess);
    assert(self_index == N * (N + 1));
    if j != self_index {
        lemma_bucket_strict(guess, ps, j, gi);
    } else {
        // Everything in this bucket matches the guess everywhere, and the
        // pool holds no duplicates, so the bucket has at most one element.
        let b = bucket_of(guess, ps, j);
        lemma_bucket_distinct(guess, ps, j);
        assert forall|i: int| 0 <= i < b.len() implies b[i]@ == guess by {
            lemma_bucket_membership(guess, ps, j, i);
            let p = b[i]@;
            lemma_score_bounds(guess, p, N as int);
            assert(perfect_matches_of(guess, p) == N);
            lemma_perfect_full(guess, p, N as int);
            assert(p =~= guess);
        }
        if b.len() >= 2 {
            assert(b[0]@ != b[1]@);
            assert(false);
        }
    }
}

fn copy_possibilities(src: &Vec<[i32; N]>) -> (r: Vec<[i32; N]>)
    ensures
        r@ == src@,
{
    let mut r: Vec<[i32; N]> = Vec::new();
    let mut i: usize = 0;
    while i < src.len()
        invariant
            i <= src@.len(),
            r@ == src@.take(i as int),
        decreases src@.len() - i,
    {
        r.push(src[i]);
        proof {
            assert(src@.take(i + 1) =~= src@.take(i as int).push(src@[i as int]));
        }
        i = i + 1;
    }
    proof {
        assert(src@.take(src@.len() as int) =~= src@);
    }
    r
}

/// Upper bound that candidate trees are measured against before any has
/// been adopted; a candidate must beat it to be kept.
pub const INITIAL_BOUND: usize = 10000;

/// Builds a decision tree for a duplicate-free pool of possibilities:
/// guesses are tried in turn (one per equivalence class), each splits the
/// pool by score, and the candidate with the smallest height wins, ties
/// broken by size. A pool of one possibility is answered by guessing it;
/// any pool the initial bound can measure gets a tree that wins the game
/// against every secret in it.
pub fn search(possibilities: Vec<[i32; N]>, level: i32, visited_bits: u32) -> (r: Tree)
    requires
        forall|k: int| 0 <= k < possibilities@.len() ==> valid_guess((#[trigger] possibilities@[k])@),
        forall|k1: int, k2: int|
            0 <= k1 < k2 < possibilities@.len() ==> possibilities@[k1]@ != possibilities@[k2]@,
        0 <= level,
        level + possibilities@.len() <= i32::MAX,
    ensures
        tree_wf(r),
        tree_height_spec(r) <= possibilities@.len() + 1,
        possibilities@.len() == 1 ==> r.guess@ == possibilities@[0]@ && (forall|i: int|
            0 <= i < NN ==> (#[trigger] r.children@[i]) is None),
        1 <= possibilities@.len() < INITIAL_BOUND ==> solves(r, possibilities@),
        1 <= possibilities@.len() < INITIAL_BOUND ==> exists|k: int|
            0 <= k < possibilities@.len() && r.guess@ == (#[trigger] possibilities@[k])@,
        (exists|k: int| 0 <= k < possibilities@.len() && r.guess@ == (#[trigger] possibilities@[k])@)
            || r.guess@ == seq![0i32, 0i32, 0i32, 0i32],
    decreases possibilities@.len(),
{
    if possibilities.len() == 1 {
        let guess = possibilities[0];
        let leaf = singleton_node(&guess);
        proof {
            lemma_forest_height_none(leaf.children@, NN as int);
            assert(possibilities@[0]@ == leaf.guess@);
            assert(solves(leaf, possibilities@));
        }
        return leaf;
    }

    let zero_guess = [0, 0, 0, 0];
    proof {
        assert(zero_guess@ =~= seq![0i32, 0i32, 0i32, 0i32]);
        assert(valid_guess(zero_guess@));
    }
    let mut best_result = singleton_node(&zero_guess);
    proof {
        lemma_forest_height_none(best_result.children@, NN as int);
    }
    if possibilities.len() == 0 {
        // Nothing to tell apart: the empty pool keeps the placeholder guess,
        // as a fold over no candidates would.
        return best_result;
    }
    let mut best_tree_size: usize = INITIAL_BOUND;
    let mut best_tree_height: usize = INITIAL_BOUND;

    // Guesses of one equivalence class branch identically: visit each class
    // once.
    let mut visited_classes: std::collections::HashMap<i32, bool> =
        std::collections::HashMap::new();

    let mut g: usize = 0;
    while g < possibilities.len()
        invariant
            possibilities@.len() >= 2,
            forall|k: int|
                0 <= k < possibilities@.len() ==> valid_guess((#[trigger] possibilities@[k])@),
            forall|k1: int, k2: int|
                0 <= k1 < k2 < possibilities@.len() ==> possibilities@[k1]@ != possibilities@[k2]@,
            0 <= level,
            level + possibilities@.len() <= i32::MAX,
            g <= possibilities@.len(),
            tree_wf(best_result),
            tree_height_spec(best_result) <= possibilities@.len() + 1,
            g == 0 ==> visited_classes@.dom() == Set::<i32>::empty(),
            g == 0 ==> best_tree_height == INITIAL_BOUND,
            g >= 1 && possibilities@.len() < INITIAL_BOUND ==> solves(
                best_result,
                possibilities@,
            ),
            g >= 1 && possibilities@.len() < INITIAL_BOUND ==> exists|k: int|
                0 <= k < possibilities@.len() && best_result.guess@ == (
                #[trigger] possibilities@[k])@,
            (exists|k: int|
                0 <= k < possibilities@.len() && best_result.guess@ == (
                #[trigger] possibilities@[k])@) || best_result.guess@ == seq![
                0i32,
                0i32,
                0i32,
                0i32,
            ],
        decreases possibilities@.len() - g,
    {
        let guess = possibilities[g];
        let class_id = get_class(visited_bits, &guess);
        if visited_classes.contains_key(&class_id) {
            proof {
                assert(g >= 1);
            }
            g = g + 1;
            continue;
        }
        visited_classes.insert(class_id, true);

        let possibilities_by_score = group_possibilities_by_score(&guess, &possibilities);

        let mut max_tree_size: usize = 0;
        let mut max_tree_height: usize = 0;
        let mut result = singleton_node(&guess);
        proof {
            lemma_forest_height_none(result.children@, NN as int);
        }

        let mut new_visited_bits = visited_bits;
        let mut di: usize = 0;
        while di < N
            invariant
                di <= N,
                valid_guess(guess@),
            decreases N - di,
        {
            let digit = guess[di];
            new_visited_bits = new_visited_bits | (1u32 << (digit as u32));
            di = di + 1;
        }

        let ghost entry_best_height = best_tree_height;
        let ghost entry_best_size = best_tree_size;
        let mut stop = false;
        let mut score_index: usize = 0;
        while score_index < NN && !stop
            invariant
                score_index <= NN,
                possibilities@.len() >= 2,
                forall|k: int|
                    0 <= k < possibilities@.len() ==> valid_guess((#[trigger] possibilities@[k])@),
                forall|k1: int, k2: int|
                    0 <= k1 < k2 < possibilities@.len() ==> possibilities@[k1]@
                        != possibilities@[k2]@,
                0 <= level,
                level + possibilities@.len() <= i32::MAX,
                g < possibilities@.len(),
                guess == possibilities@[g as int],
                valid_guess(guess@),
                possibilities_by_score@.len() == NN,
                forall|j: int|
                    0 <= j < NN ==> (#[trigger] possibilities_by_score@[j])@ == bucket_of(
                        guess@,
                        possibilities@,
                        j,
                    ),
                tree_wf(result),
                result.guess@ == guess@,
                result.children@.len() == NN,
                best_tree_height == entry_best_height,
                best_tree_size == entry_best_size,
                max_tree_height <= possibilities@.len(),
                forall|j: int|
                    0 <= j < NN ==> ((#[trigger] result.children@[j]) matches Some(c)
                        ==> tree_height_spec(*c) <= possibilities@.len()),
                stop ==> (max_tree_height > best_tree_height || (max_tree_height
                    == best_tree_height && max_tree_size >= best_tree_size)),
                possibilities@.len() < INITIAL_BOUND && !stop ==> (forall|j: int|
                    0 <= j < score_index && (#[trigger] bucket_of(
                        guess@,
                        possibilities@,
                        j,
                    )).len() >= 1 ==> (result.children@[j] matches Some(c) && solves(
                        *c,
                        bucket_of(guess@, possibilities@, j),
                    ))),
            decreases NN - score_index,
        {
            let possibilities_for_score = &possibilities_by_score[score_index];
            if possibilities_for_score.len() == 0 {
                score_index = score_index + 1;
                continue;
            }
            proof {
                lemma_bucket_shrinks(
                    guess@,
                    possibilities@,
                    g as int,
                    score_index as int,
                );
                assert forall|i1: int, i2: int|
                    0 <= i1 < i2 < possibilities_for_score@.len()
                        implies possibilities_for_score@[i1]@ != possibilities_for_score@[i2]@ by {
                    lemma_bucket_distinct(guess@, possibilities@, score_index as int);
                }
                assert forall|i: int|
                    0 <= i < possibilities_for_score@.len() implies valid_guess(
                    (#[trigger] possibilities_for_score@[i])@,
                ) by {
                    lemma_bucket_membership(guess@, possibilities@, score_index as int, i);
                    let k = choose|k: int|
                        0 <= k < possibilities@.len() && possibilities@[k]
                            == possibilities_for_score@[i];
                    assert(valid_guess(possibilities@[k]@));
                }
            }

            let branch = copy_possibilities(possibilities_for_score);
            let subtree = search(branch, level + 1, new_visited_bits);
            proof {
                assert(tree_height_spec(subtree) <= possibilities@.len());
            }

            let subtree_size = tree_size(&subtree);
            if subtree_size > max_tree_size {
                max_tree_size = subtree_size;
            }
            let subtree_height = tree_height(&subtree);
            proof {
                assert(subtree_height == tree_height_spec(subtree));
            }
            if subtree_height > max_tree_height {
                max_tree_height = subtree_height;
            }

            if max_tree_height > best_tree_height || (max_tree_height == best_tree_height
                && max_tree_size >= best_tree_size) {
                // No candidate grown this tall or this large can beat the
                // best tree found so far: abandon this guess.
                stop = true;
                score_index = score_index + 1;
            } else {
                let ghost pre_children = result.children@;
                result.children[score_index] = Some(Box::new(subtree));
                proof {
                    assert forall|j: int|
                        0 <= j < NN && j != score_index implies result.children@[j]
                        == pre_children[j] by {}
                }
                score_index = score_index + 1;
            }
        }

        // Keep the shallowest tree; break ties by the smallest size.
        if max_tree_height < best_tree_height || (max_tree_height == best_tree_height
            && max_tree_size < best_tree_size) {
            proof {
                assert(!stop);
                assert(score_index == NN);
                if possibilities@.len() < INITIAL_BOUND {
                    assert forall|k: int| 0 <= k < possibilities@.len() implies {
                        let j = score_index_of(result.guess@, (#[trigger] possibilities@[k])@);
                        (possibilities@[k]@ == result.guess@) || (0 <= j < NN && j
                            < result.children@.len() && (result.children@[j] matches Some(c)
                            && solves(*c, bucket_of(result.guess@, possibilities@, j))))
                    } by {
                        let p = possibilities@[k];
                        let j = score_index_of(guess@, p@);
                        if p@ != guess@ {
                            lemma_score_bounds(guess@, p@, N as int);
                            assert(0 <= j < NN);
                            lemma_bucket_contains(guess@, possibilities@, j, k);
                        }
                    }
                    assert(solves(result, possibilities@));
                }
                lemma_forest_height_bound(
                    result.children@,
                    NN as int,
                    possibilities@.len() as nat,
                );
            }
            best_tree_height = max_tree_height;
            best_tree_size = max_tree_size;
            best_result = result;
        }
        g = g + 1;
    }
    best_result
}

/// Builds a leaf: a guess with no subtrees.
pub fn singleton_node(guess: &[i32; N]) -> (t: Tree)
    ensures
        t.guess@ == guess@,
        t.children@.len() == NN,
        forall|i: int| 0 <= i < NN ==> (#[trigger] t.children@[i]) is None,
{
    let mut children: Vec<Option<Box<Tree>>> = Vec::new();
    let mut i: usize = 0;
    while i < NN
        invariant
            i <= NN,
            children@.len() == i,
            forall|j: int| 0 <= j < i ==> (#[trigger] children@[j]) is None,
        decreases NN - i,
    {
        children.push(None);
        i = i + 1;
    }
    Tree { guess: *guess, children }
}

/// Number of nodes in the forest of the first `n` children.
pub open spec fn forest_size(s: Seq<Option<Box<Tree>>>, n: int) -> nat
    decreases s, n,
{
    if n <= 0 || n > s.len() {
        0
    } else {
        forest_size(s, n - 1) + match s[n - 1] {
            Some(c) => tree_size_spec(*c),
            None => 0nat,
        }
    }
}

/// Number of nodes reachable from the children of a tree, plus one for the
/// tree itself.
pub open spec fn tree_size_spec(t: Tree) -> nat
    decreases t, 0int,
{
    1 + forest_size(t.children@, t.children@.len() as int)
}

/// Height of the forest of the first `n` children (0 when all are absent).
pub open spec fn forest_height(s: Seq<Option<Box<Tree>>>, n: int) -> nat
    decreases s, n,
{
    if n <= 0 || n > s.len() {
        0
    } else {
        let rest = forest_height(s, n - 1);
        let here = match s[n - 1] {
            Some(c) => tree_height_spec(*c),
            None => 0nat,
        };
        if here > rest {
            here
        } else {
            rest
        }
    }
}

/// Height of a tree: one more than the tallest subtree.
pub open spec fn tree_height_spec(t: Tree) -> nat
    decreases t, 0int,
{
    1 + forest_height(t.children@, t.children@.len() as int)
}

/// `n` clamped to what a `usize` can hold.
pub open spec fn sat_usize(n: nat) -> usize {
    if n > usize::MAX {
        usize::MAX
    } else {
        n as usize
    }
}

/// Number of nodes of the tree, saturating at `usize::MAX`.
pub fn tree_size(tree: &Tree) -> (r: usize)
    ensures
        r == sat_usize(tree_size_spec(*tree)),
    decreases *tree,
{
    let subtree = &tree.children;
    let mut size: usize = 0;
    let mut i: usize = 0;
    while i < subtree.len()
        invariant
            i <= subtree@.len(),
            subtree@ == tree.children@,
            size == sat_usize(forest_size(subtree@, i as int)),
        decreases subtree@.len() - i,
    {
        match &subtree[i] {
            Some(child) => {
                let child_size = tree_size(child);
                size = if size > usize::MAX - child_size {
                    usize::MAX
                } else {
                    size + child_size
                };
            },
            None => {},
        }
        i = i + 1;
    }
    if size == usize::MAX {
        usize::MAX
    } else {
        size + 1
    }
}

/// Height of the tree, saturating at `usize::MAX`.
pub fn tree_height(tree: &Tree) -> (r: usize)
    ensures
        r == sat_usize(tree_height_spec(*tree)),
    decreases *tree,
{
    let subtree = &tree.children;
    let mut height: usize = 0;
    let mut i: usize = 0;
    while i < subtree.len()
        invariant
            i <= subtree@.len(),
            subtree@ == tree.children@,
            height == sat_usize(forest_height(subtree@, i as int)),
        decreases subtree@.len() - i,
    {
        match &subtree[i] {
            Some(child) => {
                let child_height = tree_height(child);
                if child_height > height {
                    height = child_height;
                }
            },
            None => {},
        }
        i = i + 1;
    }
    if height == usize::MAX {
        usize::MAX
    } else {
        height + 1
    }
}


// ---------------------------------------------------------------------------
// Rendering trees as text
// ---------------------------------------------------------------------------

pub open spec fn digit_string(d: int) -> Seq<char> {
    if d == 0 {
        "0"@
    } else if d == 1 {
        "1"@
    } else if d == 2 {
        "2"@
    } else if d == 3 {
        "3"@
    } else if d == 4 {
        "4"@
    } else if d == 5 {
        "5"@
    } else if d == 6 {
        "6"@
    } else if d == 7 {
        "7"@
    } else if d == 8 {
        "8"@
    } else {
        "9"@
    }
}

fn append_digit(s: &mut String, d: i32)
    requires
        0 <= d <= 9,
    ensures
        final(s)@ == old(s)@ + digit_string(d as int),
{
    match d {
        0 => s.append("0"),
        1 => s.append("1"),
        2 => s.append("2"),
        3 => s.append("3"),
        4 => s.append("4"),
        5 => s.append("5"),
        6 => s.append("6"),
        7 => s.append("7"),
        8 => s.append("8"),
        _ => s.append("9"),
    }
}

pub open spec fn score_string(a: int, b: int) -> Seq<char> {
    "("@ + digit_string(a) + ", "@ + digit_string(b) + ")"@
}

/// Renders a score as `(perfect, imperfect)`.
pub fn score_to_string(score: (i32, i32)) -> (r: String)
    requires
        0 <= score.0 <= 9,
        0 <= score.1 <= 9,
    ensures
        r@ == score_string(score.0 as int, score.1 as int),
{
    let mut r = String::new();
    r.append("(");
    append_digit(&mut r, score.0);
    r.append(", ");
    append_digit(&mut r, score.1);
    r.append(")");
    r
}

pub open spec fn guess_string(g: Seq<i32>) -> Seq<char> {
    "["@ + digit_string(g[0] as int) + ", "@ + digit_string(g[1] as int) + ", "@ + digit_string(
        g[2] as int,
    ) + ", "@ + digit_string(g[3] as int) + "]"@
}

/// Renders a guess as `[d, d, d, d]`.
pub fn guess_to_string(xs: &[i32; N]) -> (r: String)
    requires
        valid_guess(xs@),
    ensures
        r@ == guess_string(xs@),
{
    let mut r = String::new();
    r.append("[");
    append_digit(&mut r, xs[0]);
    r.append(", ");
    append_digit(&mut r, xs[1]);
    r.append(", ");
    append_digit(&mut r, xs[2]);
    r.append(", ");
    append_digit(&mut r, xs[3]);
    r.append("]");
    r
}

/// Whether any of the first `n` child slots holds a subtree.
pub open spec fn has_subtree(ch: Seq<Option<Box<Tree>>>, n: int) -> bool {
    exists|i: int| 0 <= i < n && (#[trigger] ch[i]) is Some
}

/// The rendered entries of the first `n` child slots, separated by `", "`.
pub open spec fn entries_string(ch: Seq<Option<Box<Tree>>>, n: int) -> Seq<char>
    decreases ch, n,
{
    if n <= 0 || n > ch.len() {
        Seq::empty()
    } else {
        let rest = entries_string(ch, n - 1);
        match ch[n - 1] {
            Some(c) => {
                let entry = "'"@ + score_string((n - 1) / (N + 1) as int, (n - 1) % (N + 1) as int)
                    + "': "@ + tree_string(*c);
                if has_subtree(ch, n - 1) {
                    rest + ", "@ + entry
                } else {
                    entry
                }
            },
            None => rest,
        }
    }
}

/// The rendered tree: the guess, then the present subtrees keyed by the
/// score that leads to them.
pub open spec fn tree_string(t: Tree) -> Seq<char>
    decreases t, 1int,
{
    "{'guess': "@ + guess_string(t.guess@) + ", 'subtree': {"@ + entries_string(
        t.children@,
        t.children@.len() as int,
    ) + "}}"@
}

/// With no subtree present among the first `n` slots nothing is rendered.
proof fn lemma_entries_empty(ch: Seq<Option<Box<Tree>>>, n: int)
    requires
        !has_subtree(ch, n),
    ensures
        entries_string(ch, n) == Seq::<char>::empty(),
    decreases n,
{
    if n > 0 && n <= ch.len() {
        assert(ch[n - 1] is None) by {
            if ch[n - 1] is Some {
                assert(has_subtree(ch, n));
            }
        }
        assert(!has_subtree(ch, n - 1)) by {
            if has_subtree(ch, n - 1) {
                let i = choose|i: int| 0 <= i < n - 1 && (#[trigger] ch[i]) is Some;
                assert(has_subtree(ch, n));
            }
        }
        lemma_entries_empty(ch, n - 1);
    }
}

/// Renders the decision tree in the object format the game's viewer reads.
pub fn tree_to_string(tree: &Tree) -> (r: String)
    requires
        tree_wf(*tree),
    ensures
        r@ == tree_string(*tree),
    decreases *tree,
{
    let subtree = &tree.children;
    let mut subtrees_as_string = String::new();
    let mut first_present = false;
    let mut score_index: usize = 0;
    while score_index < NN
        invariant
            score_index <= NN,
            tree_wf(*tree),
            subtree@ == tree.children@,
            first_present == has_subtree(subtree@, score_index as int),
            subtrees_as_string@ == entries_string(subtree@, score_index as int),
        decreases NN - score_index,
    {
        match &subtree[score_index] {
            Some(child) => {
                if first_present {
                    subtrees_as_string.append(", ");
                }
                let score = decode_score(score_index);
                let score_as_string = score_to_string(score);
                subtrees_as_string.append("'");
                subtrees_as_string.append(score_as_string.as_str());
                subtrees_as_string.append("': ");
                let child_string = tree_to_string(child);
                subtrees_as_string.append(child_string.as_str());
                proof {
                    assert(has_subtree(subtree@, score_index + 1)) by {
                        assert(subtree@[score_index as int] is Some);
                    }
                    if !first_present {
                        lemma_entries_empty(subtree@, score_index as int);
                    }
                    assert(subtrees_as_string@ =~= entries_string(subtree@, score_index + 1));
                }
                first_present = true;
            },
            None => {
                proof {
                    assert(has_subtree(subtree@, score_index + 1) == has_subtree(
                        subtree@,
                        score_index as int,
                    )) by {
                        if has_subtree(subtree@, score_index + 1) {
                            let i = choose|i: int|
                                0 <= i < score_index + 1 && (#[trigger] subtree@[i]) is Some;
                            assert(0 <= i < score_index && subtree@[i] is Some);
                        }
                    }
                }
            },
        }
        score_index = score_index + 1;
    }

    let guess_as_string = guess_to_string(&tree.guess);
    let mut result = String::new();
    result.append("{'guess': ");
    result.append(guess_as_string.as_str());
    result.append(", 'subtree': {");
    result.append(subtrees_as_string.as_str());
    result.append("}}");
    result
}

/// Renders the tree as a constant declaration for the game's viewer.
pub fn output_json(tree: &Tree) -> (r: String)
    requires
        tree_wf(*tree),
    ensures
        r@ == "const decisionTree = "@ + tree_string(*tree) + ";"@,
{
    let mut r = String::new();
    r.append("const decisionTree = ");
    let body = tree_to_string(tree);
    r.append(body.as_str());
    r.append(";");
    r
}

} // verus!
