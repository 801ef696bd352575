//! Keys of the backing store and the cursor that hands them out.

use vstd::prelude::*;
use vstd::arithmetic::div_mod::lemma_small_mod;
use vstd::arithmetic::div_mod::lemma_fundamental_div_mod_converse;
use vstd::arithmetic::div_mod::lemma_fundamental_div_mod;
use vstd::arithmetic::div_mod::lemma_add_mod_noop_right;

verus! {

/// Two to the power 128: the weight of the high half of a key.
pub open spec fn half_weight() -> nat {
    (u128::MAX as nat) + 1
}

/// The number of keys: two to the power 256. Key arithmetic wraps at this bound.
pub open spec fn key_space() -> nat {
    half_weight() * half_weight()
}

/// The key that lies `cells` storage cells after the key numbered `base`.
pub open spec fn offset_key(base: nat, cells: nat) -> nat {
    (base + cells) % key_space()
}

/// A 256-bit address of one storage cell.
///
/// Two keys are equal exactly when their halves are equal.
#[derive(Clone, Copy, Debug, PartialEq, Eq, Structural)]
pub struct Key {
    /// The upper 128 bits.
    pub hi: u128,
    /// The lower 128 bits.
    pub lo: u128,
}

impl View for Key {
    type V = nat;

    /// The key as a number below `key_space()`.
    open spec fn view(&self) -> nat {
        (self.hi as nat) * half_weight() + (self.lo as nat)
    }
}

/// Every key denotes a number below `key_space()`.
pub proof fn lemma_key_in_space(key: Key)
    ensures
        key@ < key_space(),
{
    assert((key.hi as nat) * half_weight() + (key.lo as nat) < half_weight() * half_weight())
        by (nonlinear_arith)
        requires
            (key.hi as nat) <= half_weight() - 1,
            (key.lo as nat) < half_weight(),
    ;
}

/// Keys that denote the same number are the same key.
pub proof fn lemma_key_view_injective(a: Key, b: Key)
    ensures
        a@ == b@ <==> a == b,
{
    if a@ == b@ {
        assert(a.hi == b.hi && a.lo == b.lo) by (nonlinear_arith)
            requires
                (a.hi as nat) * half_weight() + (a.lo as nat) == (b.hi as nat) * half_weight() + (
                b.lo as nat),
                (a.lo as nat) < half_weight(),
                (b.lo as nat) < half_weight(),
        ;
    }
}

/// The key space holds more than 2^128 keys.
pub proof fn lemma_key_space_large()
    ensures
        key_space() >= half_weight(),
        half_weight() > u64::MAX * 64,
{
    assert(half_weight() * half_weight() >= half_weight()) by (nonlinear_arith)
        requires
            half_weight() >= 1,
    ;
}

/// Moving on by `a` cells and then by `b` cells is moving on by `a + b`.
pub proof fn lemma_offset_key_add(base: nat, a: nat, b: nat)
    ensures
        offset_key(offset_key(base, a), b) == offset_key(base, a + b),
{
    lemma_key_space_large();
    lemma_add_mod_noop_right(b as int, (base + a) as int, key_space() as int);
}

/// Moving on by nothing leaves a key where it is.
pub proof fn lemma_offset_key_zero(key: nat)
    requires
        key < key_space(),
    ensures
        offset_key(key, 0) == key,
{
    lemma_small_mod(key, key_space());
}

/// Moving on from any key leads to a key of the key space.
pub proof fn lemma_offset_key_in_space(base: nat, cells: nat)
    ensures
        offset_key(base, cells) < key_space(),
{
    lemma_key_space_large();
    lemma_fundamental_div_mod((base + cells) as int, key_space() as int);
    vstd::arithmetic::div_mod::lemma_mod_bound((base + cells) as int, key_space() as int);
}

/// Different offsets from one key, each smaller than the key space, lead to
/// different keys.
pub proof fn lemma_offset_key_injective(base: nat, a: nat, b: nat)
    requires
        a < key_space(),
        b < key_space(),
        a != b,
    ensures
        offset_key(base, a) != offset_key(base, b),
{
    lemma_key_space_large();
    let m = key_space() as int;
    let x = (base + a) as int;
    let y = (base + b) as int;
    lemma_fundamental_div_mod(x, m);
    lemma_fundamental_div_mod(y, m);
    if x % m == y % m {
        let qx = x / m;
        let qy = y / m;
        assert(false) by (nonlinear_arith)
            requires
                x == m * qx + x % m,
                y == m * qy + y % m,
                x % m == y % m,
                x != y,
                -m < x - y < m,
                m > 0,
        ;
    }
}

impl Key {
    /// The key with the given upper and lower halves.
    pub fn new(hi: u128, lo: u128) -> (key: Key)
        ensures
            key.hi == hi,
            key.lo == lo,
    {
        Key { hi, lo }
    }

    /// Returns `true` if both keys address the same cell.
    pub fn same(&self, other: &Key) -> (r: bool)
        ensures
            r == (self@ == other@),
    {
        proof {
            lemma_key_view_injective(*self, *other);
        }
        self.hi == other.hi && self.lo == other.lo
    }

    /// The key `cells` storage cells after this one, wrapping at the end of
    /// the key space.
    pub fn add_wide(&self, cells: u128) -> (key: Key)
        ensures
            key@ == offset_key(self@, cells as nat),
    {
        let ghost sum: nat = self@ + cells as nat;
        if self.lo <= u128::MAX - cells {
            let key = Key { hi: self.hi, lo: self.lo + cells };
            proof {
                lemma_key_in_space(key);
                lemma_small_mod(sum, key_space());
            }
            key
        } else {
            let lo: u128 = cells - (u128::MAX - self.lo) - 1;
            if self.hi < u128::MAX {
                let key = Key { hi: self.hi + 1, lo };
                proof {
                    lemma_key_in_space(key);
                    assert(key@ == sum) by (nonlinear_arith)
                        requires
                            key@ == (self.hi as nat + 1) * half_weight() + lo as nat,
                            sum == (self.hi as nat) * half_weight() + self.lo as nat + cells as nat,
                            lo as nat + half_weight() == self.lo as nat + cells as nat,
                    ;
                    lemma_small_mod(sum, key_space());
                }
                key
            } else {
                let key = Key { hi: 0, lo };
                proof {
                    lemma_key_in_space(key);
                    assert(sum as int == 1 * (key_space() as int) + key@ as int)
                        by (nonlinear_arith)
                        requires
                            key@ == lo as nat,
                            sum == (half_weight() - 1) * half_weight() + self.lo as nat
                                + cells as nat,
                            lo as nat + half_weight() == self.lo as nat + cells as nat,
                            key_space() == half_weight() * half_weight(),
                    ;
                    lemma_fundamental_div_mod_converse(
                        sum as int,
                        key_space() as int,
                        1,
                        key@ as int,
                    );
                }
                key
            }
        }
    }

    /// The key `cells` storage cells after this one, wrapping at the end of
    /// the key space.
    pub fn add(&self, cells: u64) -> (key: Key)
        ensures
            key@ == offset_key(self@, cells as nat),
    {
        self.add_wide(cells as u128)
    }
}

/// A position in the key space from which the fields of a composite value
/// take their keys, one after the other.
#[derive(Clone, Copy, Debug)]
pub struct KeyPtr {
    /// The key that the next field starts at.
    pub key: Key,
}

impl KeyPtr {
    /// A cursor that stands at `key`.
    pub fn new(key: Key) -> (ptr: KeyPtr)
        ensures
            ptr.key == key,
    {
        KeyPtr { key }
    }

    /// Hands out the key at which a value of the given footprint starts and
    /// moves the cursor past that value.
    pub fn next_for(&mut self, footprint: u64) -> (key: Key)
        ensures
            key == old(self).key,
            final(self).key@ == offset_key(old(self).key@, footprint as nat),
    {
        let key = self.key;
        self.key = key.add(footprint);
        key
    }

    /// As `next_for`, for a structure whose footprint may exceed 64 bits.
    pub fn next_for_wide(&mut self, footprint: u128) -> (key: Key)
        ensures
            key == old(self).key,
            final(self).key@ == offset_key(old(self).key@, footprint as nat),
    {
        let key = self.key;
        self.key = key.add_wide(footprint);
        key
    }
}

} // verus!
