//! The store of live cells.
//!
//! `LiveSet` is the single source of truth for one generation: a set of
//! cell coordinates with unique membership and average O(1) lookup.  It is
//! backed by a `std::collections::HashSet<u64>`, each cell packed into one
//! key by placing the `x` coordinate's bits in the high half and the `y`
//! coordinate's bits in the low half.  The view of a `LiveSet` is the
//! mathematical set of cells it holds.

use vstd::prelude::*;
use vstd::std_specs::iter::IteratorSpec;
use std::collections::HashSet;
use crate::cell::Cell;

verus! {

broadcast use vstd::std_specs::hash::group_hash_axioms;

/// The bit pattern of `x`, read as an unsigned number.
pub open spec fn u32_of_i32(x: i32) -> u32 {
    if x >= 0 {
        x as u32
    } else {
        (x + 0x1_0000_0000) as u32
    }
}

/// The inverse of `u32_of_i32`.
pub open spec fn i32_of_u32(u: u32) -> i32 {
    if u <= 0x7fff_ffff {
        u as i32
    } else {
        (u - 0x1_0000_0000) as i32
    }
}

/// The packed key of a cell: `x`'s bits in the high 32 bits of the key,
/// `y`'s bits in the low 32 bits.
pub open spec fn key_of(c: Cell) -> u64 {
    (u32_of_i32(c.0) * 0x1_0000_0000 + u32_of_i32(c.1)) as u64
}

/// The cell a packed key stands for.
pub open spec fn cell_of_key(k: u64) -> Cell {
    (i32_of_u32((k / 0x1_0000_0000) as u32), i32_of_u32((k % 0x1_0000_0000) as u32))
}

/// Unpacking inverts packing, so distinct cells have distinct keys.
pub proof fn lemma_cell_key_roundtrip(c: Cell)
    ensures
        cell_of_key(key_of(c)) == c,
{
    let hi = u32_of_i32(c.0) as int;
    let lo = u32_of_i32(c.1) as int;
    assert((hi * 0x1_0000_0000 + lo) / 0x1_0000_0000 == hi && (hi * 0x1_0000_0000 + lo)
        % 0x1_0000_0000 == lo) by (nonlinear_arith)
        requires
            0 <= hi < 0x1_0000_0000,
            0 <= lo < 0x1_0000_0000,
    ;
}

/// Packing inverts unpacking: every key stands for exactly one cell.
pub proof fn lemma_key_cell_roundtrip(k: u64)
    ensures
        key_of(cell_of_key(k)) == k,
{
    let hi = (k / 0x1_0000_0000) as int;
    let lo = (k % 0x1_0000_0000) as int;
    assert(hi * 0x1_0000_0000 + lo == k) by (nonlinear_arith)
        requires
            hi == k as int / 0x1_0000_0000,
            lo == k as int % 0x1_0000_0000,
    ;
}

/// Keys are injective over cells.
proof fn lemma_key_injective(k1: u64, k2: u64)
    requires
        cell_of_key(k1) == cell_of_key(k2),
    ensures
        k1 == k2,
{
    lemma_key_cell_roundtrip(k1);
    lemma_key_cell_roundtrip(k2);
}

/// Reading bits back as signed inverts reading them as unsigned.
pub proof fn lemma_i32_bits_roundtrip(x: i32)
    ensures
        i32_of_u32(u32_of_i32(x)) == x,
{
}

/// Reads an `i32`'s bit pattern as an unsigned number.
pub fn i32_to_u32_bits(x: i32) -> (u: u32)
    ensures
        u == u32_of_i32(x),
{
    if x >= 0 {
        x as u32
    } else {
        ((x as i64) + 0x1_0000_0000) as u32
    }
}

/// Reads an unsigned number's bit pattern back as an `i32`.
pub fn u32_to_i32_bits(u: u32) -> (x: i32)
    ensures
        x == i32_of_u32(u),
{
    if u <= 0x7fff_ffff {
        u as i32
    } else {
        ((u as i64) - 0x1_0000_0000) as i32
    }
}

/// Converts a cell to its packed key.
fn cell_key(c: Cell) -> (k: u64)
    ensures
        k == key_of(c),
{
    let hi = i32_to_u32_bits(c.0);
    let lo = i32_to_u32_bits(c.1);
    (hi as u64) * 0x1_0000_0000 + (lo as u64)
}

/// Converts a packed key back to its cell.
fn key_cell(k: u64) -> (c: Cell)
    ensures
        c == cell_of_key(k),
{
    let hi: u32 = (k / 0x1_0000_0000) as u32;
    let lo: u32 = (k % 0x1_0000_0000) as u32;
    (u32_to_i32_bits(hi), u32_to_i32_bits(lo))
}

/// The set of all currently-alive cells.  Mutated only by the merge phase
/// of a tick, or by insertion calls between ticks.
pub struct LiveSet {
    keys: HashSet<u64>,
}

impl View for LiveSet {
    type V = Set<Cell>;

    closed spec fn view(&self) -> Set<Cell> {
        self.keys@.map(|k: u64| cell_of_key(k))
    }
}

/// Membership in the view is membership of the packed key.
proof fn lemma_view_contains(ks: Set<u64>)
    ensures
        forall|c: Cell| ks.map(|k: u64| cell_of_key(k)).contains(c) <==> ks.contains(key_of(c)),
{
    let f = |k: u64| cell_of_key(k);
    assert forall|c: Cell| ks.map(f).contains(c) implies ks.contains(key_of(c)) by {
        let k = choose|k: u64| ks.contains(k) && c == f(k);
        lemma_key_cell_roundtrip(k);
    };
    assert forall|c: Cell| ks.contains(key_of(c)) implies ks.map(f).contains(c) by {
        lemma_cell_key_roundtrip(c);
        assert(ks.contains(key_of(c)) && c == f(key_of(c)));
    };
}

/// The view of a hash set is always a finite set.
proof fn lemma_hash_keys_finite(m: &HashSet<u64>)
    ensures
        m@.finite(),
{
    broadcast use vstd::seq_lib::seq_to_set_is_finite;

    let s = vstd::std_specs::hash::spec_hash_keys_iter(m).remaining().unref();
    assert(s.to_set() == m@);
}

/// Inserting an already-live cell changes nothing: the live set and its
/// population count stay as they were.
pub proof fn lemma_insert_idempotent(s: Set<Cell>, c: Cell)
    requires
        s.contains(c),
    ensures
        s.insert(c) == s,
        s.insert(c).len() == s.len(),
{
    assert(s.insert(c) =~= s);
}

impl LiveSet {
    /// Creates an empty live set.
    pub fn new() -> (s: LiveSet)
        ensures
            s@ == Set::<Cell>::empty(),
    {
        let s = LiveSet { keys: HashSet::new() };
        proof {
            let f = |k: u64| cell_of_key(k);
            assert forall|c: Cell| !s.keys@.map(f).contains(c) by {
                if s.keys@.map(f).contains(c) {
                    let k = choose|k: u64| s.keys@.contains(k) && c == f(k);
                }
            };
            assert(s@ =~= Set::<Cell>::empty());
        }
        s
    }

    /// Whether `c` is currently alive.
    pub fn contains(&self, c: &Cell) -> (r: bool)
        ensures
            r == self@.contains(*c),
    {
        let k = cell_key(*c);
        let r = self.keys.contains(&k);
        proof {
            lemma_view_contains(self.keys@);
        }
        r
    }

    /// Makes `c` alive; inserting an already-live cell changes nothing.
    pub fn insert(&mut self, c: Cell)
        ensures
            final(self)@ == old(self)@.insert(c),
    {
        let k = cell_key(c);
        self.keys.insert(k);
        proof {
            let f = |k: u64| cell_of_key(k);
            old(self).keys@.lemma_set_map_insert_commute(k, f);
            lemma_cell_key_roundtrip(c);
            assert(self@ =~= old(self)@.insert(c));
        }
    }

    /// Makes `c` dead; removing a dead cell changes nothing.
    pub fn remove(&mut self, c: Cell)
        ensures
            final(self)@ == old(self)@.remove(c),
    {
        let k = cell_key(c);
        self.keys.remove(&k);
        proof {
            let f = |k: u64| cell_of_key(k);
            lemma_view_contains(old(self).keys@);
            lemma_view_contains(self.keys@);
            lemma_cell_key_roundtrip(c);
            assert(self.keys@ == old(self).keys@.remove(k));
            assert forall|d: Cell|
                self@.contains(d) == old(self)@.remove(c).contains(d) by {
                lemma_cell_key_roundtrip(d);
            };
            assert(self@ =~= old(self)@.remove(c));
        }
    }

    /// The population count.
    pub fn len(&self) -> (n: usize)
        ensures
            n == self@.len(),
            self@.finite(),
    {
        let n = self.keys.len();
        proof {
            let f = |k: u64| cell_of_key(k);
            lemma_hash_keys_finite(&self.keys);
            assert forall|k1: u64, k2: u64|
                self.keys@.contains(k1) && self.keys@.contains(k2) && #[trigger] f(k1)
                    == #[trigger] f(k2) implies k1 == k2 by {
                lemma_key_injective(k1, k2);
            };
            vstd::set_lib::lemma_map_size(self.keys@, self@, f);
        }
        n
    }

    /// Makes every cell of `cells` alive.
    pub fn insert_all(&mut self, cells: &Vec<Cell>)
        ensures
            final(self)@ == old(self)@.union(cells@.to_set()),
    {
        let ghost s0 = self@;
        for i in 0..cells.len()
            invariant
                self@ == s0.union(cells@.take(i as int).to_set()),
        {
            self.insert(cells[i]);
            proof {
                broadcast use vstd::seq_lib::lemma_seq_contains_after_push;

                let t0 = cells@.take(i as int);
                let t1 = cells@.take(i + 1);
                let x = cells@[i as int];
                assert(t1 =~= t0.push(x));
                assert forall|d: Cell|
                    t1.to_set().contains(d) == (t0.to_set().contains(d) || d == x) by {
                    assert(t0.push(x).contains(d) <==> x == d || t0.contains(d));
                };
                assert(self@ =~= s0.union(t1.to_set()));
            }
        }
        proof {
            assert(cells@.take(cells@.len() as int) =~= cells@);
        }
    }

    /// An independent copy holding the same cells.
    pub fn duplicate(&self) -> (r: LiveSet)
        ensures
            r@ == self@,
    {
        let v = self.to_vec();
        let mut r = LiveSet::new();
        r.insert_all(&v);
        proof {
            assert(r@ =~= self@);
        }
        r
    }

    /// A copy of the live set as a vector, in no particular order and
    /// without duplicates.
    #[verifier::loop_isolation(false)]
    pub fn to_vec(&self) -> (v: Vec<Cell>)
        ensures
            v@.to_set() == self@,
            v@.no_duplicates(),
            v@.len() == self@.len(),
    {
        let mut v: Vec<Cell> = Vec::new();
        let ghost ks = vstd::std_specs::hash::spec_hash_keys_iter(&self.keys).remaining().unref();
        for k in it: self.keys.iter()
            invariant
                it.seq() == vstd::std_specs::hash::spec_hash_keys_iter(&self.keys).remaining(),
                v@.len() == it.index(),
                forall|j: int| 0 <= j < v@.len() ==> v@[j] == cell_of_key(#[trigger] ks[j]),
        {
            let ghost j = v@.len() as int;
            let c = key_cell(*k);
            proof {
                assert(ks[j] == *(it.seq()[j]));
            }
            v.push(c);
        }
        proof {
            let f = |k: u64| cell_of_key(k);
            assert(v@.len() == ks.len());
            assert(v@ =~= ks.map_values(f));
            ks.lemma_to_set_map_commutes(f);
            assert(ks.to_set() == self.keys@);
            assert(v@.to_set() =~= self@);
            assert forall|i: int, j: int| 0 <= i < v@.len() && 0 <= j < v@.len() && i != j
                implies v@[i] != v@[j] by {
                if v@[i] == v@[j] {
                    lemma_key_injective(ks[i], ks[j]);
                }
            };
            lemma_hash_keys_finite(&self.keys);
            assert forall|k1: u64, k2: u64|
                self.keys@.contains(k1) && self.keys@.contains(k2) && #[trigger] f(k1)
                    == #[trigger] f(k2) implies k1 == k2 by {
                lemma_key_injective(k1, k2);
            };
            vstd::set_lib::lemma_map_size(self.keys@, self@, f);
        }
        v
    }
}

} // verus!
