//! The consistent-hashing ring: containers sit at hashed points on a ring of
//! `u32` values, and a key is routed to the container whose hash is the
//! smallest one strictly greater than the key's hash, wrapping around to the
//! smallest container hash when no container hash exceeds it.

use vstd::prelude::*;

use rbtree::RBTree;

verus! {

broadcast use vstd::seq_lib::seq_to_set_is_finite;

// ---------------------------------------------------------------------------
// Hash strategies
// ---------------------------------------------------------------------------

/// The FarmHash ring position of a string: the low 32 bits of the 64-bit
/// FarmHash of its UTF-8 bytes. `farmhash::hash64` is a pure,
/// platform-independent function of the byte sequence it is given, and the
/// UTF-8 bytes of a string are a function of its characters, so the result
/// is a function of the character sequence alone.
pub uninterp spec fn farm_hash_of(s: Seq<char>) -> u32;

/// Relies on `farmhash::hash64`, truncated to its low 32 bits: a pure
/// function from the string's UTF-8 bytes to a hash value. The 64-bit entry
/// point is used because its arithmetic is wrapping throughout, so it
/// returns normally on every input in every build profile; the crate's
/// 32-bit entry point overflows an unchecked addition on some inputs of
/// byte length 13 to 24 and aborts in builds with overflow checks.
#[verifier::external_body]
pub(crate) fn farm_hash(s: &String) -> (r: u32)
    ensures
        r == farm_hash_of(s@),
{
    farmhash::hash64(s.as_bytes()) as u32
}

/// A swappable strategy that projects a string onto the ring of `u32` values.
/// `hash_spec` is the mathematical value of the strategy; `hash` computes it,
/// so for a fixed strategy the projection of a key is deterministic.
pub trait HashStrategy: Sized {
    spec fn hash_spec(&self, s: Seq<char>) -> u32;

    fn hash(&self, s: &String) -> (r: u32)
        ensures
            r == self.hash_spec(s@),
    ;
}

pub open spec fn is_digit_char(c: char) -> bool {
    48 <= c as int <= 57
}

pub open spec fn digit_val(c: char) -> int {
    c as int - 48
}

pub open spec fn all_digits(s: Seq<char>) -> bool {
    forall|i: int| 0 <= i < s.len() ==> is_digit_char(#[trigger] s[i])
}

/// The value of a decimal digit string, most significant digit first.
pub open spec fn decimal_value(s: Seq<char>) -> int
    decreases s.len(),
{
    if s.len() == 0 {
        0
    } else {
        decimal_value(s.drop_last()) * 10 + digit_val(s.last())
    }
}

/// What the `Numeric` strategy maps a string to: the decimal value of
/// everything after the first character, or 0 when that suffix is absent,
/// holds a non-digit, or does not fit in a `u32`.
pub open spec fn numeric_hash_spec(s: Seq<char>) -> u32 {
    if s.len() >= 2 && all_digits(s.skip(1)) && decimal_value(s.skip(1)) <= u32::MAX {
        decimal_value(s.skip(1)) as u32
    } else {
        0u32
    }
}

proof fn lemma_decimal_nonneg(s: Seq<char>)
    requires
        all_digits(s),
    ensures
        decimal_value(s) >= 0,
    decreases s.len(),
{
    if s.len() > 0 {
        assert(all_digits(s.drop_last()));
        lemma_decimal_nonneg(s.drop_last());
    }
}

proof fn lemma_decimal_push(s: Seq<char>, c: char)
    ensures
        decimal_value(s.push(c)) == decimal_value(s) * 10 + digit_val(c),
{
    assert(s.push(c).drop_last() =~= s);
    assert(s.push(c).last() == c);
}

/// Appending further digits can only grow the value of a digit string.
proof fn lemma_decimal_prefix_le(s: Seq<char>, i: int)
    requires
        all_digits(s),
        0 <= i <= s.len(),
    ensures
        decimal_value(s.take(i)) <= decimal_value(s),
    decreases s.len() - i,
{
    if i < s.len() {
        lemma_decimal_prefix_le(s, i + 1);
        assert(s.take(i + 1).drop_last() =~= s.take(i));
        assert(all_digits(s.take(i)));
        lemma_decimal_nonneg(s.take(i));
        assert(decimal_value(s.take(i + 1)) == decimal_value(s.take(i)) * 10 + digit_val(
            s.take(i + 1).last(),
        ));
    } else {
        assert(s.take(i) =~= s);
    }
}

/// The test strategy: `"s10"` and `"k10"` both land on ring point 10.
fn numeric_hash(s: &String) -> (r: u32)
    ensures
        r == numeric_hash_spec(s@),
{
    let n = s.as_str().unicode_len();
    if n < 2 {
        return 0;
    }
    let mut acc: u32 = 0;
    let mut i: usize = 1;
    while i < n
        invariant
            1 <= i <= n,
            n == s@.len(),
            all_digits(s@.subrange(1, i as int)),
            acc == decimal_value(s@.subrange(1, i as int)),
        decreases n - i,
    {
        let c = s.as_str().get_char(i);
        let cu = c as u32;
        if cu < 48 || cu > 57 {
            proof {
                assert(s@.skip(1)[i - 1] == s@[i as int]);
                assert(!is_digit_char(s@.skip(1)[i - 1]));
            }
            return 0;
        }
        let d = cu - 48;
        proof {
            assert(s@.subrange(1, i + 1).drop_last() =~= s@.subrange(1, i as int));
            assert(s@.subrange(1, i + 1) =~= s@.subrange(1, i as int).push(s@[i as int]));
            lemma_decimal_push(s@.subrange(1, i as int), s@[i as int]);
        }
        if acc > (u32::MAX - d) / 10 {
            // The suffix can no longer fit in a u32: every extension of an
            // overflowing digit prefix overflows too.
            proof {
                if all_digits(s@.skip(1)) {
                    assert(s@.skip(1).take(i as int) =~= s@.subrange(1, i + 1));
                    lemma_decimal_prefix_le(s@.skip(1), i as int);
                }
            }
            return 0;
        }
        acc = acc * 10 + d;
        i += 1;
    }
    proof {
        assert(s@.subrange(1, n as int) =~= s@.skip(1));
    }
    acc
}

/// The strategies shipped with the table: `Farm` (the default, FarmHash over
/// the identifier's bytes) and `Numeric` (the deterministic test strategy
/// that reads the digits after the first character).
pub enum RingHasher {
    Farm,
    Numeric,
}

impl HashStrategy for RingHasher {
    open spec fn hash_spec(&self, s: Seq<char>) -> u32 {
        match *self {
            RingHasher::Farm => farm_hash_of(s),
            RingHasher::Numeric => numeric_hash_spec(s),
        }
    }

    fn hash(&self, s: &String) -> (r: u32) {
        match self {
            RingHasher::Farm => farm_hash(s),
            RingHasher::Numeric => numeric_hash(s),
        }
    }
}

// ---------------------------------------------------------------------------
// The ordered map of ring points, stored in a red-black tree
// ---------------------------------------------------------------------------

#[verifier::external_type_specification]
#[verifier::external_body]
#[verifier::reject_recursive_types(K)]
#[verifier::reject_recursive_types(V)]
pub struct ExRBTree<K: Ord, V>(RBTree<K, V>);

/// The concrete ordered-map type that holds the ring points.
pub type RingMap = RBTree<u32, String>;

/// The contents of a ring-point tree, as a map from ring position to
/// container identifier. The wrappers below only ever build trees through
/// `RBTree::new` and `RBTree::replace_or_insert`, so the trees they speak of
/// never hold two nodes with the same key and this map describes them fully.
pub uninterp spec fn rb_contents(t: RingMap) -> Map<u32, Seq<char>>;

/// The contents of a ring with no containers.
pub open spec fn empty_ring() -> Map<u32, Seq<char>> {
    Map::empty()
}

/// Relies on `rbtree::RBTree::new`: creates a tree with no nodes.
#[verifier::external_body]
fn rb_new() -> (made: RingMap)
    ensures
        rb_contents(made) == empty_ring(),
{
    RBTree::new()
}

/// Relies on `rbtree::RBTree::replace_or_insert`: stores `v` under `k`,
/// replacing the value of an existing node with key `k` if there is one.
#[verifier::external_body]
fn rb_insert(t: &mut RingMap, k: u32, v: String)
    ensures
        rb_contents(*final(t)) == rb_contents(*old(t)).insert(k, v@),
{
    t.replace_or_insert(k, v);
}

/// Relies on `rbtree::RBTree::remove`: deletes the node with key `k`, if
/// present; a tree without duplicate keys then no longer maps `k`.
#[verifier::external_body]
fn rb_remove(t: &mut RingMap, k: u32)
    ensures
        rb_contents(*final(t)) == rb_contents(*old(t)).remove(k),
{
    t.remove(&k);
}

/// Relies on `rbtree::RBTree::get`: returns the value of the node with key
/// `k`, or `None` when no node has that key.
#[verifier::external_body]
fn rb_get(t: &RingMap, k: u32) -> (r: Option<String>)
    ensures
        match r {
            Some(v) => rb_contents(*t).contains_key(k) && v@ == rb_contents(*t)[k],
            None => !rb_contents(*t).contains_key(k),
        },
{
    t.get(&k).cloned()
}

// ---------------------------------------------------------------------------
// Successor and wrap-around, as mathematics
// ---------------------------------------------------------------------------

pub open spec fn sorted_strict(s: Seq<u32>) -> bool {
    forall|i: int, j: int| 0 <= i < j < s.len() ==> s[i] < s[j]
}

pub open spec fn has_successor(dom: Set<u32>, t: u32) -> bool {
    exists|k: u32| dom.contains(k) && k > t
}

/// `k` is the smallest element of `dom` strictly greater than `t`.
pub open spec fn is_successor(dom: Set<u32>, t: u32, k: u32) -> bool {
    &&& dom.contains(k)
    &&& k > t
    &&& forall|j: u32| dom.contains(j) && j > t ==> k <= j
}

pub open spec fn successor_of(dom: Set<u32>, t: u32) -> u32 {
    choose|k: u32| is_successor(dom, t, k)
}

/// `k` is the smallest element of `dom`.
pub open spec fn is_minimum(dom: Set<u32>, k: u32) -> bool {
    &&& dom.contains(k)
    &&& forall|j: u32| dom.contains(j) ==> k <= j
}

pub open spec fn minimum_of(dom: Set<u32>) -> u32 {
    choose|k: u32| is_minimum(dom, k)
}

/// The ring position a key hash `t` resolves to: the successor of `t` among
/// the stored positions, or, when no stored position exceeds `t`, the
/// smallest stored position (the ring wraps around).
pub open spec fn resolved_hash(dom: Set<u32>, t: u32) -> u32 {
    if has_successor(dom, t) {
        successor_of(dom, t)
    } else {
        minimum_of(dom)
    }
}

pub proof fn lemma_successor_is(dom: Set<u32>, t: u32, k: u32)
    requires
        is_successor(dom, t, k),
    ensures
        has_successor(dom, t),
        successor_of(dom, t) == k,
{
    assert(dom.contains(k) && k > t);
    let k2 = successor_of(dom, t);
    assert(is_successor(dom, t, k2));
    assert(k2 <= k && k <= k2);
}

pub proof fn lemma_minimum_is(dom: Set<u32>, k: u32)
    requires
        is_minimum(dom, k),
    ensures
        minimum_of(dom) == k,
{
    let k2 = minimum_of(dom);
    assert(is_minimum(dom, k2));
    assert(k2 <= k && k <= k2);
}

/// Every non-empty finite set of ring positions has a smallest element.
pub proof fn lemma_minimum_exists(dom: Set<u32>, wit: u32)
    requires
        dom.finite(),
        dom.contains(wit),
    ensures
        is_minimum(dom, minimum_of(dom)),
    decreases dom.len(),
{
    let rest = dom.remove(wit);
    if exists|y: u32| rest.contains(y) {
        let y = choose|y: u32| rest.contains(y);
        lemma_minimum_exists(rest, y);
        let m2 = minimum_of(rest);
        let cand: u32 = if wit <= m2 {
            wit
        } else {
            m2
        };
        assert forall|j: u32| dom.contains(j) implies cand <= j by {
            if j != wit {
                assert(rest.contains(j));
            }
        }
        assert(is_minimum(dom, cand));
        lemma_minimum_is(dom, cand);
    } else {
        assert forall|j: u32| dom.contains(j) implies wit <= j by {
            if j != wit {
                assert(rest.contains(j));
            }
        }
        assert(is_minimum(dom, wit));
        lemma_minimum_is(dom, wit);
    }
}

/// When some stored position exceeds `t`, a smallest such position exists.
pub proof fn lemma_successor_exists(dom: Set<u32>, t: u32)
    requires
        dom.finite(),
        has_successor(dom, t),
    ensures
        is_successor(dom, t, successor_of(dom, t)),
    decreases dom.len(),
{
    let w = choose|k: u32| dom.contains(k) && k > t;
    let rest = dom.remove(w);
    if has_successor(rest, t) {
        lemma_successor_exists(rest, t);
        let s2 = successor_of(rest, t);
        let cand: u32 = if w <= s2 {
            w
        } else {
            s2
        };
        assert forall|j: u32| dom.contains(j) && j > t implies cand <= j by {
            if j != w {
                assert(rest.contains(j));
            }
        }
        assert(is_successor(dom, t, cand));
        lemma_successor_is(dom, t, cand);
    } else {
        assert forall|j: u32| dom.contains(j) && j > t implies w <= j by {
            if j != w {
                assert(rest.contains(j) && j > t);
            }
        }
        assert(is_successor(dom, t, w));
        lemma_successor_is(dom, t, w);
    }
}

// ---------------------------------------------------------------------------
// The table
// ---------------------------------------------------------------------------

#[derive(Debug, Clone, Copy, PartialEq, Eq)]
pub enum RingError {
    /// A lookup was made against a ring with no containers.
    NoContainers,
}

/// The consistent hashing table: a set of named containers placed on the
/// ring of `u32` values by the current hash strategy. A key is routed to the
/// container at the successor of the key's hash, wrapping around to the
/// smallest ring position when the key's hash exceeds every stored position.
///
/// The ring points live in a red-black tree keyed by ring position; a sorted
/// index of the stored positions is kept alongside it so that the successor
/// search is a verified binary-search descent.
pub struct ConsistentHashTable<H: HashStrategy> {
    containers: RingMap,
    keys: Vec<u32>,
    entries: std::collections::HashSet<u32>,
    hash_strategy: H,
}

/// Smallest index whose element exceeds `target`, or `keys.len()` when none
/// does: an O(log n) descent that narrows in on the best candidate from
/// above.
fn lower_bound_gt(keys: &Vec<u32>, target: u32) -> (r: usize)
    requires
        sorted_strict(keys@),
    ensures
        r <= keys@.len(),
        forall|i: int| 0 <= i < r ==> keys@[i] <= target,
        forall|i: int| r <= i < keys@.len() ==> keys@[i] > target,
{
    let mut lo: usize = 0;
    let mut hi: usize = keys.len();
    while lo < hi
        invariant
            lo <= hi <= keys@.len(),
            sorted_strict(keys@),
            forall|i: int| 0 <= i < lo ==> keys@[i] <= target,
            forall|i: int| hi <= i < keys@.len() ==> keys@[i] > target,
        decreases hi - lo,
    {
        let mid = lo + (hi - lo) / 2;
        if keys[mid] > target {
            hi = mid;
        } else {
            lo = mid + 1;
        }
    }
    lo
}

impl<H: HashStrategy> ConsistentHashTable<H> {
    /// The ring contents: ring position to container identifier.
    pub closed spec fn ring(self) -> Map<u32, Seq<char>> {
        rb_contents(self.containers)
    }

    /// The hash strategy used by subsequent operations.
    pub closed spec fn hasher(self) -> H {
        self.hash_strategy
    }

    /// The hashes recorded by `add_entry` (bookkeeping only; no effect on
    /// lookups).
    pub closed spec fn entry_hashes(self) -> Set<u32> {
        self.entries@
    }

    /// The sorted index mirrors exactly the positions stored in the tree,
    /// so the set of stored ring positions is finite.
    pub closed spec fn wf(self) -> bool {
        &&& sorted_strict(self.keys@)
        &&& rb_contents(self.containers).dom() == self.keys@.to_set()
        &&& rb_contents(self.containers).dom().finite()
    }

    /// A well-formed table stores finitely many ring positions, so the ring
    /// laws that ask for a finite domain apply to every real table.
    pub proof fn lemma_ring_finite(self)
        requires
            self.wf(),
        ensures
            self.ring().dom().finite(),
    {
    }

    pub fn new(strategy: H) -> (t: Self)
        ensures
            t.wf(),
            t.ring() == empty_ring(),
            t.hasher() == strategy,
            t.entry_hashes() == Set::<u32>::empty(),
    {
        let t = ConsistentHashTable {
            containers: rb_new(),
            keys: Vec::new(),
            entries: std::collections::HashSet::new(),
            hash_strategy: strategy,
        };
        proof {
            assert(t.keys@.to_set() =~= empty_ring().dom());
        }
        t
    }

    /// Swaps the strategy used by future operations. Stored ring points are
    /// not rehashed: swapping on a populated ring desynchronizes them from a
    /// fresh computation, so this is intended for setting up a deterministic
    /// strategy before containers are added.
    pub fn set_hash_function(&mut self, f: H)
        ensures
            final(self).wf() <==> old(self).wf(),
            final(self).ring() == old(self).ring(),
            final(self).entry_hashes() == old(self).entry_hashes(),
            final(self).hasher() == f,
    {
        self.hash_strategy = f;
    }

    /// Places `id` on the ring at its hash; an existing point at the same
    /// position is overwritten (last write wins).
    pub fn add_container(&mut self, id: String)
        requires
            old(self).wf(),
        ensures
            final(self).wf(),
            final(self).ring() == old(self).ring().insert(
                old(self).hasher().hash_spec(id@),
                id@,
            ),
            final(self).hasher() == old(self).hasher(),
            final(self).entry_hashes() == old(self).entry_hashes(),
    {
        let h = self.hash_strategy.hash(&id);
        let ghost old_keys = self.keys@;
        rb_insert(&mut self.containers, h, id);
        let p = lower_bound_gt(&self.keys, h);
        let already = p > 0 && self.keys[p - 1] == h;
        if already {
            proof {
                assert(old_keys.to_set().contains(old_keys[p - 1]));
                assert(rb_contents(self.containers).dom() =~= old_keys.to_set().insert(h));
                assert(old_keys.to_set().insert(h) =~= old_keys.to_set());
            }
        } else {
            self.keys.insert(p, h);
            proof {
                let ks = self.keys@;
                assert(ks == old_keys.insert(p as int, h));
                assert forall|i: int, j: int| 0 <= i < j < ks.len() implies ks[i] < ks[j] by {
                    lemma_inserted_index(old_keys, p as int, h, i);
                    lemma_inserted_index(old_keys, p as int, h, j);
                    if i < p && j == p && p > 0 {
                        assert(old_keys[p - 1] != h);
                        assert(old_keys[i] <= old_keys[p - 1]);
                    }
                }
                lemma_insert_to_set(old_keys, p as int, h);
                assert(rb_contents(self.containers).dom() =~= ks.to_set());
            }
        }
    }

    /// Removes the ring point at the hash of `id`, if one is there; removing
    /// an absent container is a no-op, not an error.
    pub fn remove_container(&mut self, id: String)
        requires
            old(self).wf(),
        ensures
            final(self).wf(),
            final(self).ring() == old(self).ring().remove(old(self).hasher().hash_spec(id@)),
            final(self).hasher() == old(self).hasher(),
            final(self).entry_hashes() == old(self).entry_hashes(),
    {
        let h = self.hash_strategy.hash(&id);
        let ghost old_keys = self.keys@;
        rb_remove(&mut self.containers, h);
        let p = lower_bound_gt(&self.keys, h);
        if p > 0 && self.keys[p - 1] == h {
            self.keys.remove(p - 1);
            proof {
                lemma_remove_to_set(old_keys, p - 1);
                assert(sorted_strict(self.keys@)) by {
                    let ks = self.keys@;
                    assert forall|i: int, j: int| 0 <= i < j < ks.len() implies ks[i] < ks[j] by {
                        lemma_removed_index(old_keys, p - 1, i);
                        lemma_removed_index(old_keys, p - 1, j);
                    }
                }
                assert(rb_contents(self.containers).dom() =~= self.keys@.to_set());
            }
        } else {
            proof {
                assert(!old_keys.to_set().contains(h)) by {
                    if old_keys.to_set().contains(h) {
                        let i = choose|i: int| 0 <= i < old_keys.len() && old_keys[i] == h;
                        if i < p - 1 {
                            assert(old_keys[i] < old_keys[p - 1]);
                            assert(old_keys[p - 1] <= h);
                        }
                    }
                }
                assert(rb_contents(self.containers).dom() =~= old_keys.to_set());
                assert(old(self).ring().remove(h).dom() =~= old(self).ring().dom().remove(h));
            }
        }
    }

    /// Records the hash of `key` in the entry-membership set. Pure
    /// bookkeeping: it has no effect on `get_container_id_for_entry`.
    pub fn add_entry(&mut self, key: String)
        ensures
            final(self).wf() <==> old(self).wf(),
            final(self).ring() == old(self).ring(),
            final(self).hasher() == old(self).hasher(),
            final(self).entry_hashes() == old(self).entry_hashes().insert(
                old(self).hasher().hash_spec(key@),
            ),
    {
        let h = self.hash_strategy.hash(&key);
        self.entries.insert(h);
    }

    /// Resolves a key to the container it belongs to: the container at the
    /// successor of the key's hash, or, when every stored position is at or
    /// below the key's hash, the container at the smallest stored position.
    /// Fails with `NoContainers` exactly when the ring is empty.
    pub fn get_container_id_for_entry(&self, entry_key: String) -> (r: Result<String, RingError>)
        requires
            self.wf(),
        ensures
            r is Err <==> self.ring().dom() == Set::<u32>::empty(),
            r is Err ==> r == Err::<String, RingError>(RingError::NoContainers),
            r matches Ok(id) ==> self.ring().dom().contains(
                resolved_hash(self.ring().dom(), self.hasher().hash_spec(entry_key@)),
            ) && id@ == self.ring()[resolved_hash(
                self.ring().dom(),
                self.hasher().hash_spec(entry_key@),
            )],
    {
        if self.keys.len() == 0 {
            proof {
                assert(self.ring().dom() =~= Set::<u32>::empty());
            }
            return Err(RingError::NoContainers);
        }
        let target_key = self.hash_strategy.hash(&entry_key);
        let r = lower_bound_gt(&self.keys, target_key);
        let closest_key: u32 = if r < self.keys.len() {
            self.keys[r]
        } else {
            self.keys[0]
        };
        proof {
            let dom = self.ring().dom();
            let ks = self.keys@;
            assert(dom.contains(ks[0]));
            let rr = r as int;
            if r < ks.len() {
                assert forall|j: u32| dom.contains(j) && j > target_key implies ks[rr] <= j by {
                    let idx = choose|idx: int| 0 <= idx < ks.len() && ks[idx] == j;
                    if idx < rr {
                        assert(ks[idx] <= target_key);
                    } else {
                        assert(ks[rr] <= ks[idx]);
                    }
                }
                assert(is_successor(dom, target_key, ks[rr]));
                lemma_successor_is(dom, target_key, ks[rr]);
            } else {
                assert(!has_successor(dom, target_key)) by {
                    if has_successor(dom, target_key) {
                        let j = choose|j: u32| dom.contains(j) && j > target_key;
                        let idx = choose|idx: int| 0 <= idx < ks.len() && ks[idx] == j;
                        assert(ks[idx] <= target_key);
                    }
                }
                assert forall|j: u32| dom.contains(j) implies ks[0] <= j by {
                    let idx = choose|idx: int| 0 <= idx < ks.len() && ks[idx] == j;
                    assert(ks[0] <= ks[idx]);
                }
                assert(is_minimum(dom, ks[0]));
                lemma_minimum_is(dom, ks[0]);
            }
            assert(dom.contains(closest_key));
        }
        match rb_get(&self.containers, closest_key) {
            Some(id) => Ok(id),
            None => {
                // Structurally unreachable: the resolved position was proved
                // to be a key of the tree.
                proof {
                    assert(false);
                }
                Err(RingError::NoContainers)
            },
        }
    }
}

/// Builds an empty table with the default FarmHash strategy.
pub fn new_hash_table() -> (t: ConsistentHashTable<RingHasher>)
    ensures
        t.wf(),
        t.ring() == empty_ring(),
        t.hasher() == RingHasher::Farm,
        t.entry_hashes() == Set::<u32>::empty(),
{
    ConsistentHashTable::new(RingHasher::Farm)
}

/// Distance between two ring positions: the absolute difference, which
/// cannot be written as a signed subtraction on `u32` values.
pub fn distance(num_a: u32, num_b: u32) -> (r: u32)
    ensures
        r == if num_a > num_b {
            num_a - num_b
        } else {
            num_b - num_a
        },
{
    if num_a > num_b {
        num_a - num_b
    } else {
        num_b - num_a
    }
}

// ---------------------------------------------------------------------------
// Laws of the ring
// ---------------------------------------------------------------------------

/// Determinism: for fixed ring contents and a fixed key hash, the resolved
/// ring position is one mathematical value, so two lookups of the same key
/// against the same ring agree.
pub proof fn lemma_resolve_deterministic(dom: Set<u32>, t: u32, r1: u32, r2: u32)
    requires
        r1 == resolved_hash(dom, t),
        r2 == resolved_hash(dom, t),
    ensures
        r1 == r2,
{
}

/// Successor correctness: when `hc` is the smallest stored position strictly
/// greater than the key hash `t`, the key resolves to `hc`. (A key whose
/// hash equals a container's position does not count that container as its
/// successor: the comparison is strict.)
pub proof fn lemma_successor_correct(dom: Set<u32>, t: u32, hc: u32)
    requires
        dom.contains(hc),
        t < hc,
        forall|j: u32| dom.contains(j) && j > t ==> hc <= j,
    ensures
        resolved_hash(dom, t) == hc,
{
    lemma_successor_is(dom, t, hc);
}

/// Wrap-around: when the key hash `t` is greater than every stored
/// position, the key resolves to the smallest stored position `m`.
pub proof fn lemma_wrap_around(dom: Set<u32>, t: u32, m: u32)
    requires
        is_minimum(dom, m),
        forall|j: u32| dom.contains(j) ==> j < t,
    ensures
        resolved_hash(dom, t) == m,
{
    assert(!has_successor(dom, t));
    lemma_minimum_is(dom, m);
}

/// A non-empty ring resolves every key to one of its stored positions; an
/// empty ring resolves nothing (see `get_container_id_for_entry`, which
/// fails with `NoContainers` exactly on the empty ring).
pub proof fn lemma_nonempty_resolves(dom: Set<u32>, t: u32, wit: u32)
    requires
        dom.finite(),
        dom.contains(wit),
    ensures
        dom.contains(resolved_hash(dom, t)),
{
    if has_successor(dom, t) {
        lemma_successor_exists(dom, t);
    } else {
        lemma_minimum_exists(dom, wit);
    }
}

/// Minimal disruption: removing the container at position `h` re-routes
/// only the keys that resolved to `h`; every other key keeps its container.
pub proof fn lemma_minimal_disruption(dom: Set<u32>, h: u32, t: u32)
    requires
        dom.finite(),
        dom.contains(h),
        resolved_hash(dom, t) != h,
    ensures
        resolved_hash(dom.remove(h), t) == resolved_hash(dom, t),
{
    let r = resolved_hash(dom, t);
    let dom2 = dom.remove(h);
    lemma_nonempty_resolves(dom, t, h);
    if has_successor(dom, t) {
        lemma_successor_exists(dom, t);
        assert(dom2.contains(r));
        assert forall|j: u32| dom2.contains(j) && j > t implies r <= j by {
            assert(dom.contains(j));
        }
        assert(is_successor(dom2, t, r));
        lemma_successor_is(dom2, t, r);
    } else {
        lemma_minimum_exists(dom, h);
        assert(is_minimum(dom, r)) by {
            lemma_minimum_is(dom, minimum_of(dom));
        }
        assert(!has_successor(dom2, t)) by {
            if has_successor(dom2, t) {
                let j = choose|j: u32| dom2.contains(j) && j > t;
                assert(dom.contains(j));
            }
        }
        assert(is_minimum(dom2, r));
        lemma_minimum_is(dom2, r);
    }
}

/// Minimal disruption, stated over the whole ring: after removing the
/// container at position `h`, a key that did not resolve to `h` resolves to
/// the same position and finds the same container identifier there.
pub proof fn lemma_minimal_disruption_ids(m: Map<u32, Seq<char>>, h: u32, t: u32)
    requires
        m.dom().finite(),
        m.dom().contains(h),
        resolved_hash(m.dom(), t) != h,
    ensures
        resolved_hash(m.remove(h).dom(), t) == resolved_hash(m.dom(), t),
        m.remove(h)[resolved_hash(m.remove(h).dom(), t)] == m[resolved_hash(m.dom(), t)],
{
    assert(m.remove(h).dom() =~= m.dom().remove(h));
    lemma_nonempty_resolves(m.dom(), t, h);
    lemma_minimal_disruption(m.dom(), h, t);
}

/// Idempotence, removal half: taking the same position off the ring twice
/// leaves the same ring as taking it off once.
pub proof fn lemma_remove_idempotent(m: Map<u32, Seq<char>>, h: u32)
    ensures
        m.remove(h).remove(h) == m.remove(h),
{
    assert(m.remove(h).remove(h) =~= m.remove(h));
}

/// Idempotence, addition half: placing the same identifier at the same
/// position twice leaves a ring with exactly one point there.
pub proof fn lemma_add_idempotent(m: Map<u32, Seq<char>>, h: u32, id: Seq<char>)
    ensures
        m.insert(h, id).insert(h, id) == m.insert(h, id),
{
    assert(m.insert(h, id).insert(h, id) =~= m.insert(h, id));
}

// ---------------------------------------------------------------------------
// Index bookkeeping lemmas
// ---------------------------------------------------------------------------

proof fn lemma_inserted_index(s: Seq<u32>, p: int, v: u32, i: int)
    requires
        0 <= p <= s.len(),
        0 <= i < s.len() + 1,
    ensures
        i < p ==> s.insert(p, v)[i] == s[i],
        i == p ==> s.insert(p, v)[i] == v,
        i > p ==> s.insert(p, v)[i] == s[i - 1],
{
}

proof fn lemma_removed_index(s: Seq<u32>, p: int, i: int)
    requires
        0 <= p < s.len(),
        0 <= i < s.len() - 1,
    ensures
        i < p ==> s.remove(p)[i] == s[i],
        i >= p ==> s.remove(p)[i] == s[i + 1],
{
}

proof fn lemma_insert_to_set(s: Seq<u32>, p: int, v: u32)
    requires
        0 <= p <= s.len(),
    ensures
        s.insert(p, v).to_set() == s.to_set().insert(v),
{
    let s2 = s.insert(p, v);
    assert forall|x: u32| s2.to_set().contains(x) implies s.to_set().insert(v).contains(x) by {
        let i = choose|i: int| 0 <= i < s2.len() && s2[i] == x;
        lemma_inserted_index(s, p, v, i);
        if i < p {
            assert(s.contains(x)) by {
                assert(s[i] == x);
            }
        } else if i > p {
            assert(s.contains(x)) by {
                assert(s[i - 1] == x);
            }
        }
    }
    assert forall|x: u32| s.to_set().insert(v).contains(x) implies s2.to_set().contains(x) by {
        if x == v {
            lemma_inserted_index(s, p, v, p);
            assert(s2.contains(x)) by {
                assert(s2[p] == x);
            }
        } else {
            let i = choose|i: int| 0 <= i < s.len() && s[i] == x;
            if i < p {
                lemma_inserted_index(s, p, v, i);
                assert(s2.contains(x)) by {
                    assert(s2[i] == x);
                }
            } else {
                lemma_inserted_index(s, p, v, i + 1);
                assert(s2.contains(x)) by {
                    assert(s2[i + 1] == x);
                }
            }
        }
    }
    assert(s2.to_set() =~= s.to_set().insert(v));
}

/// In a strictly sorted index each position occurs once, so dropping the one
/// slot that holds `s[p]` removes exactly that position from the set.
proof fn lemma_remove_to_set(s: Seq<u32>, p: int)
    requires
        sorted_strict(s),
        0 <= p < s.len(),
    ensures
        s.remove(p).to_set() == s.to_set().remove(s[p]),
{
    let s2 = s.remove(p);
    assert forall|x: u32| s2.to_set().contains(x) implies s.to_set().remove(s[p]).contains(x) by {
        let i = choose|i: int| 0 <= i < s2.len() && s2[i] == x;
        lemma_removed_index(s, p, i);
        if i < p {
            assert(s.contains(x)) by {
                assert(s[i] == x);
            }
            assert(s[i] < s[p]);
        } else {
            assert(s.contains(x)) by {
                assert(s[i + 1] == x);
            }
            assert(s[p] < s[i + 1]);
        }
    }
    assert forall|x: u32| s.to_set().remove(s[p]).contains(x) implies s2.to_set().contains(x) by {
        let i = choose|i: int| 0 <= i < s.len() && s[i] == x;
        assert(i != p);
        if i < p {
            lemma_removed_index(s, p, i);
            assert(s2.contains(x)) by {
                assert(s2[i] == x);
            }
        } else {
            lemma_removed_index(s, p, i - 1);
            assert(s2.contains(x)) by {
                assert(s2[i - 1] == x);
            }
        }
    }
    assert(s2.to_set() =~= s.to_set().remove(s[p]));
}

} // verus!

