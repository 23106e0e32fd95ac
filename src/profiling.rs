//! Space accounting of the structures, in bits and in larger units.
use vstd::prelude::*;

verus! {

/// `n`, or the largest `usize` when `n` is larger.
pub open spec fn capped(n: nat) -> nat {
    if n > usize::MAX { usize::MAX as nat } else { n }
}

/// `n / d` rounded up.
pub open spec fn ceil_by(n: nat, d: nat) -> nat {
    if n % d == 0 { n / d } else { n / d + 1 }
}

/// Capping the parts and then the sum is capping the sum.
pub proof fn lemma_capped_add(a: nat, b: nat)
    ensures
        capped(capped(a) + capped(b)) == capped(a + b),
{
}

/// `a + b`, or the largest `usize` when that does not fit.
pub fn add_capped(a: usize, b: usize) -> (r: usize)
    ensures
        r == capped((a + b) as nat),
{
    if a > usize::MAX - b {
        usize::MAX
    } else {
        a + b
    }
}

/// `n * unit`, or the largest `usize` when that does not fit.
pub fn mul_capped(n: usize, unit: usize) -> (r: usize)
    requires
        unit > 0,
    ensures
        r == capped((n * unit) as nat),
{
    if n > usize::MAX / unit {
        proof {
            assert(n * unit > usize::MAX) by (nonlinear_arith)
                requires
                    n > usize::MAX / unit,
                    unit > 0,
            ;
        }
        usize::MAX
    } else {
        proof {
            assert(n * unit <= usize::MAX) by (nonlinear_arith)
                requires
                    n <= usize::MAX / unit,
                    unit > 0,
            ;
        }
        n * unit
    }
}

/// The heap space a structure occupies.
pub trait HeapSize {
    /// Heap space in bits.
    spec fn heap_bits(&self) -> nat;

    /// Heap space in bits, capped at the largest `usize`.
    fn heap_size_in_bits(&self) -> (r: usize)
        ensures
            r == capped(self.heap_bits()),
    ;

    /// Heap space in bytes, rounded up.
    fn heap_size_in_bytes(&self) -> (r: usize)
        ensures
            r == ceil_by(capped(self.heap_bits()), 8),
    {
        let bits = self.heap_size_in_bits();
        bits / 8 + if bits % 8 == 0 { 0 } else { 1 }
    }

    /// Heap space in kibibytes, rounded up.
    fn heap_size_in_kib(&self) -> (r: usize)
        ensures
            r == ceil_by(ceil_by(capped(self.heap_bits()), 8), 1024),
    {
        let bytes = self.heap_size_in_bytes();
        bytes / 1024 + if bytes % 1024 == 0 { 0 } else { 1 }
    }

    /// Heap space in mebibytes, rounded up.
    fn heap_size_in_mib(&self) -> (r: usize)
        ensures
            r == ceil_by(ceil_by(ceil_by(capped(self.heap_bits()), 8), 1024), 1024),
    {
        let kib = self.heap_size_in_kib();
        kib / 1024 + if kib % 1024 == 0 { 0 } else { 1 }
    }

    /// Heap space in gibibytes, rounded up.
    fn heap_size_in_gib(&self) -> (r: usize)
        ensures
            r == ceil_by(ceil_by(ceil_by(ceil_by(capped(self.heap_bits()), 8), 1024), 1024), 1024),
    {
        let mib = self.heap_size_in_mib();
        mib / 1024 + if mib % 1024 == 0 { 0 } else { 1 }
    }
}

} // verus!
