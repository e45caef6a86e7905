//! The two algebras a lazy segment tree is parameterized over, and the
//! homomorphism laws that connect them.

use vstd::prelude::*;

verus! {

/// A monoid: an associative binary operator `sop` with identity `sid`.
///
/// Implementors supply the executable operator and identity together with
/// proofs of the monoid laws, so every tree instantiation carries verified
/// evidence that its algebra is lawful.
pub trait Monoid: Sized + Copy {
    /// The identity element, as a specification value.
    spec fn sid() -> Self;

    /// The binary operator, as a specification function.
    spec fn sop(a: Self, b: Self) -> Self;

    /// Executable identity element.
    fn id() -> (r: Self)
        ensures
            r == Self::sid(),
    ;

    /// Executable binary operator.
    fn op(a: &Self, b: &Self) -> (r: Self)
        ensures
            r == Self::sop(*a, *b),
    ;

    /// Executable test against the identity element.
    fn is_id(a: &Self) -> (r: bool)
        ensures
            r == (*a == Self::sid()),
    ;

    /// The operator is associative.
    proof fn lemma_assoc(a: Self, b: Self, c: Self)
        ensures
            Self::sop(Self::sop(a, b), c) == Self::sop(a, Self::sop(b, c)),
    ;

    /// `sid` is a two-sided identity.
    proof fn lemma_id(a: Self)
        ensures
            Self::sop(Self::sid(), a) == a,
            Self::sop(a, Self::sid()) == a,
    ;
}

/// Connects a combine monoid (`Self`) to an update monoid `L`: `sapply(v, l)`
/// is the aggregate `v` after the pending update `l` has been applied to
/// every leaf it summarizes.
pub trait LazyApply<L: Monoid>: Monoid {
    /// Applying an update to an aggregate, as a specification function.
    spec fn sapply(v: Self, l: L) -> Self;

    /// Executable application of an update to an aggregate.
    fn apply(v: &Self, l: &L) -> (r: Self)
        ensures
            r == Self::sapply(*v, *l),
    ;

    /// Composition law: applying two updates in sequence equals applying
    /// their composition.
    proof fn lemma_compose(v: Self, l1: L, l2: L)
        ensures
            Self::sapply(Self::sapply(v, l1), l2) == Self::sapply(v, L::sop(l1, l2)),
    ;

    /// Distributivity law: applying an update to a merged aggregate equals
    /// merging the individually-updated aggregates.
    proof fn lemma_distribute(v1: Self, v2: Self, l: L)
        ensures
            Self::sapply(Self::sop(v1, v2), l) == Self::sop(
                Self::sapply(v1, l),
                Self::sapply(v2, l),
            ),
    ;

    /// The identity update changes nothing.
    proof fn lemma_apply_id(v: Self)
        ensures
            Self::sapply(v, L::sid()) == v,
    ;
}

/// Range-maximum aggregate over `usize`, with identity `0`.
#[derive(Clone, Copy, PartialEq, Eq, Structural, Debug)]
pub struct MaxU {
    pub v: usize,
}

impl Monoid for MaxU {
    open spec fn sid() -> Self {
        MaxU { v: 0 }
    }

    open spec fn sop(a: Self, b: Self) -> Self {
        if a.v >= b.v {
            a
        } else {
            b
        }
    }

    fn id() -> (r: Self) {
        MaxU { v: 0 }
    }

    fn op(a: &Self, b: &Self) -> (r: Self) {
        if a.v >= b.v {
            *a
        } else {
            *b
        }
    }

    fn is_id(a: &Self) -> (r: bool) {
        a.v == 0
    }

    proof fn lemma_assoc(a: Self, b: Self, c: Self) {
    }

    proof fn lemma_id(a: Self) {
    }
}

/// Range-assignment update: either no pending change, or "overwrite every
/// leaf in range with this value". Composition keeps the later assignment.
#[derive(Clone, Copy, PartialEq, Eq, Structural, Debug)]
pub enum Assign {
    Keep,
    Overwrite(usize),
}

impl Monoid for Assign {
    open spec fn sid() -> Self {
        Assign::Keep
    }

    open spec fn sop(a: Self, b: Self) -> Self {
        match b {
            Assign::Keep => a,
            Assign::Overwrite(_) => b,
        }
    }

    fn id() -> (r: Self) {
        Assign::Keep
    }

    fn op(a: &Self, b: &Self) -> (r: Self) {
        match b {
            Assign::Keep => *a,
            Assign::Overwrite(_) => *b,
        }
    }

    fn is_id(a: &Self) -> (r: bool) {
        match a {
            Assign::Keep => true,
            Assign::Overwrite(_) => false,
        }
    }

    proof fn lemma_assoc(a: Self, b: Self, c: Self) {
    }

    proof fn lemma_id(a: Self) {
    }
}

impl LazyApply<Assign> for MaxU {
    open spec fn sapply(v: Self, l: Assign) -> Self {
        match l {
            Assign::Keep => v,
            Assign::Overwrite(x) => MaxU { v: x },
        }
    }

    fn apply(v: &Self, l: &Assign) -> (r: Self) {
        match l {
            Assign::Keep => *v,
            Assign::Overwrite(x) => MaxU { v: *x },
        }
    }

    proof fn lemma_compose(v: Self, l1: Assign, l2: Assign) {
    }

    proof fn lemma_distribute(v1: Self, v2: Self, l: Assign) {
    }

    proof fn lemma_apply_id(v: Self) {
    }
}

/// Rightmost-value-wins aggregate: combining keeps the right operand unless
/// it is the (empty) identity. Deliberately non-commutative, so a query's
/// left-to-right fold order is observable.
#[derive(Clone, Copy, PartialEq, Eq, Structural, Debug)]
pub enum LastU {
    Vacant,
    Filled(usize),
}

impl Monoid for LastU {
    open spec fn sid() -> Self {
        LastU::Vacant
    }

    open spec fn sop(a: Self, b: Self) -> Self {
        match b {
            LastU::Vacant => a,
            LastU::Filled(_) => b,
        }
    }

    fn id() -> (r: Self) {
        LastU::Vacant
    }

    fn op(a: &Self, b: &Self) -> (r: Self) {
        match b {
            LastU::Vacant => *a,
            LastU::Filled(_) => *b,
        }
    }

    fn is_id(a: &Self) -> (r: bool) {
        match a {
            LastU::Vacant => true,
            LastU::Filled(_) => false,
        }
    }

    proof fn lemma_assoc(a: Self, b: Self, c: Self) {
    }

    proof fn lemma_id(a: Self) {
    }
}

impl LazyApply<Assign> for LastU {
    open spec fn sapply(v: Self, l: Assign) -> Self {
        match l {
            Assign::Keep => v,
            Assign::Overwrite(x) => LastU::Filled(x),
        }
    }

    fn apply(v: &Self, l: &Assign) -> (r: Self) {
        match l {
            Assign::Keep => *v,
            Assign::Overwrite(x) => LastU::Filled(*x),
        }
    }

    proof fn lemma_compose(v: Self, l1: Assign, l2: Assign) {
    }

    proof fn lemma_distribute(v1: Self, v2: Self, l: Assign) {
    }

    proof fn lemma_apply_id(v: Self) {
    }
}

/// Addition modulo 2^64, as a specification function.
pub open spec fn wadd(a: u64, b: u64) -> u64 {
    ((a + b) % 0x1_0000_0000_0000_0000) as u64
}

/// Multiplication modulo 2^64, as a specification function.
pub open spec fn wmul(a: u64, b: u64) -> u64 {
    ((a * b) % 0x1_0000_0000_0000_0000) as u64
}

/// Executable wrapping addition, verified against `wadd`.
fn wrap_add(a: u64, b: u64) -> (r: u64)
    ensures
        r == wadd(a, b),
{
    proof {
        if a + b <= u64::MAX {
            vstd::arithmetic::div_mod::lemma_small_mod((a + b) as nat, 0x1_0000_0000_0000_0000);
        } else {
            vstd::arithmetic::div_mod::lemma_fundamental_div_mod_converse_mod(
                a + b,
                0x1_0000_0000_0000_0000,
                1,
                a + b - 0x1_0000_0000_0000_0000,
            );
        }
    }
    if b <= u64::MAX - a {
        a + b
    } else {
        b - (u64::MAX - a) - 1
    }
}

/// Executable wrapping multiplication, verified against `wmul`.
fn wrap_mul(a: u64, b: u64) -> (r: u64)
    ensures
        r == wmul(a, b),
{
    proof {
        assert((a as int) * (b as int) <= (0xFFFF_FFFF_FFFF_FFFF as int)
            * (0xFFFF_FFFF_FFFF_FFFF as int)) by (nonlinear_arith)
            requires
                a <= 0xFFFF_FFFF_FFFF_FFFF,
                b <= 0xFFFF_FFFF_FFFF_FFFF,
        ;
    }
    let p = (a as u128) * (b as u128);
    let m = p % 0x1_0000_0000_0000_0000u128;
    m as u64
}

/// `wadd` is associative and has identity `0`.
proof fn lemma_wadd_monoid(a: u64, b: u64, c: u64)
    ensures
        wadd(wadd(a, b), c) == wadd(a, wadd(b, c)),
        wadd(0, a) == a,
        wadd(a, 0) == a,
{
    let m: int = 0x1_0000_0000_0000_0000;
    vstd::arithmetic::div_mod::lemma_small_mod(a as nat, m as nat);
    vstd::arithmetic::div_mod::lemma_small_mod(b as nat, m as nat);
    vstd::arithmetic::div_mod::lemma_small_mod(c as nat, m as nat);
    vstd::arithmetic::div_mod::lemma_add_mod_noop(a + b, c as int, m);
    vstd::arithmetic::div_mod::lemma_add_mod_noop(a as int, b + c, m);
}

/// Range-sum aggregate: a (wrapping) sum together with the number of
/// leaves it covers, so that a range-add tag can act on it. The identity
/// is the empty aggregate `(0, 0)`; padded leaves therefore contribute
/// neither to the sum nor to the count.
#[derive(Clone, Copy, PartialEq, Eq, Structural, Debug)]
pub struct SumLen {
    pub s: u64,
    pub c: u64,
}

impl SumLen {
    /// A leaf cell holding the value `v` (a single covered position).
    pub fn unit(v: u64) -> (r: Self)
        ensures
            r == (SumLen { s: v, c: 1 }),
    {
        SumLen { s: v, c: 1 }
    }
}

impl Monoid for SumLen {
    open spec fn sid() -> Self {
        SumLen { s: 0, c: 0 }
    }

    open spec fn sop(a: Self, b: Self) -> Self {
        SumLen { s: wadd(a.s, b.s), c: wadd(a.c, b.c) }
    }

    fn id() -> (r: Self) {
        SumLen { s: 0, c: 0 }
    }

    fn op(a: &Self, b: &Self) -> (r: Self) {
        SumLen { s: wrap_add(a.s, b.s), c: wrap_add(a.c, b.c) }
    }

    fn is_id(a: &Self) -> (r: bool) {
        a.s == 0 && a.c == 0
    }

    proof fn lemma_assoc(a: Self, b: Self, c: Self) {
        lemma_wadd_monoid(a.s, b.s, c.s);
        lemma_wadd_monoid(a.c, b.c, c.c);
    }

    proof fn lemma_id(a: Self) {
        lemma_wadd_monoid(a.s, 0, 0);
        lemma_wadd_monoid(a.c, 0, 0);
    }
}

/// Range-add update: adds a constant to every covered leaf, so it adds
/// `a * count` to a `SumLen` aggregate (all arithmetic modulo 2^64).
#[derive(Clone, Copy, PartialEq, Eq, Structural, Debug)]
pub struct AddTag {
    pub a: u64,
}

impl Monoid for AddTag {
    open spec fn sid() -> Self {
        AddTag { a: 0 }
    }

    open spec fn sop(a: Self, b: Self) -> Self {
        AddTag { a: wadd(a.a, b.a) }
    }

    fn id() -> (r: Self) {
        AddTag { a: 0 }
    }

    fn op(a: &Self, b: &Self) -> (r: Self) {
        AddTag { a: wrap_add(a.a, b.a) }
    }

    fn is_id(a: &Self) -> (r: bool) {
        a.a == 0
    }

    proof fn lemma_assoc(a: Self, b: Self, c: Self) {
        lemma_wadd_monoid(a.a, b.a, c.a);
    }

    proof fn lemma_id(a: Self) {
        lemma_wadd_monoid(a.a, 0, 0);
    }
}

impl LazyApply<AddTag> for SumLen {
    open spec fn sapply(v: Self, l: AddTag) -> Self {
        SumLen { s: wadd(v.s, wmul(l.a, v.c)), c: v.c }
    }

    fn apply(v: &Self, l: &AddTag) -> (r: Self) {
        SumLen { s: wrap_add(v.s, wrap_mul(l.a, v.c)), c: v.c }
    }

    proof fn lemma_compose(v: Self, l1: AddTag, l2: AddTag) {
        let m: int = 0x1_0000_0000_0000_0000;
        let s: int = v.s as int;
        let c: int = v.c as int;
        let t1: int = l1.a as int;
        let t2: int = l2.a as int;
        vstd::arithmetic::div_mod::lemma_small_mod(v.s as nat, m as nat);
        vstd::arithmetic::div_mod::lemma_small_mod(l2.a as nat, m as nat);
        // Left side: ((s + t1*c) + t2*c) mod m.
        vstd::arithmetic::div_mod::lemma_add_mod_noop(s, t1 * c, m);
        vstd::arithmetic::div_mod::lemma_add_mod_noop(s + t1 * c, t2 * c, m);
        // Right side: (s + (t1 + t2)*c) mod m.
        vstd::arithmetic::div_mod::lemma_mul_mod_noop_left(t1 + t2, c, m);
        vstd::arithmetic::div_mod::lemma_add_mod_noop(s, (t1 + t2) * c, m);
        assert((t1 + t2) * c == t1 * c + t2 * c) by (nonlinear_arith);
    }

    proof fn lemma_distribute(v1: Self, v2: Self, l: AddTag) {
        let m: int = 0x1_0000_0000_0000_0000;
        let s1: int = v1.s as int;
        let s2: int = v2.s as int;
        let c1: int = v1.c as int;
        let c2: int = v2.c as int;
        let t: int = l.a as int;
        vstd::arithmetic::div_mod::lemma_small_mod(v1.s as nat, m as nat);
        vstd::arithmetic::div_mod::lemma_small_mod(v2.s as nat, m as nat);
        vstd::arithmetic::div_mod::lemma_small_mod(v1.c as nat, m as nat);
        vstd::arithmetic::div_mod::lemma_small_mod(v2.c as nat, m as nat);
        // Left side: ((s1 + s2) mod m) + (t*((c1 + c2) mod m)) mod m.
        vstd::arithmetic::div_mod::lemma_mul_mod_noop_right(t, c1 + c2, m);
        vstd::arithmetic::div_mod::lemma_add_mod_noop(s1 + s2, t * (c1 + c2), m);
        // Right side: ((s1 + t*c1) mod m) + ((s2 + t*c2) mod m), all mod m.
        vstd::arithmetic::div_mod::lemma_add_mod_noop(s1, t * c1, m);
        vstd::arithmetic::div_mod::lemma_add_mod_noop(s2, t * c2, m);
        vstd::arithmetic::div_mod::lemma_add_mod_noop(s1 + t * c1, s2 + t * c2, m);
        assert(t * (c1 + c2) == t * c1 + t * c2) by (nonlinear_arith);
    }

    proof fn lemma_apply_id(v: Self) {
        let m: int = 0x1_0000_0000_0000_0000;
        assert(0 * (v.c as int) == 0) by (nonlinear_arith);
        vstd::arithmetic::div_mod::lemma_small_mod(0, m as nat);
        vstd::arithmetic::div_mod::lemma_small_mod(v.s as nat, m as nat);
    }
}

} // verus!
