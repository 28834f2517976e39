use vstd::arithmetic::power::pow;
use vstd::prelude::*;

verus! {

/// 2 to the 64.
pub open spec fn limb() -> nat {
    0x1_0000_0000_0000_0000
}

/// 2 to the 256: the first value that does not fit.
pub open spec fn word() -> nat {
    limb() * limb() * limb() * limb()
}

/// An unsigned 256-bit integer, as four 64-bit limbs, least significant first.
#[derive(Debug, Clone, Copy, PartialEq, Eq, Hash, Default)]
pub struct U256(pub [u64; 4]);

impl U256 {
    /// The number that the limbs write.
    pub open spec fn value(&self) -> nat {
        self.0[0] as nat + self.0[1] as nat * limb() + self.0[2] as nat * limb() * limb()
            + self.0[3] as nat * limb() * limb() * limb()
    }

    pub proof fn lemma_bounded(&self)
        ensures
            self.value() < word(),
    {
        let a = self.0[0] as nat;
        let b = self.0[1] as nat;
        let c = self.0[2] as nat;
        let d = self.0[3] as nat;
        let l = limb();
        assert(a + b * l + c * l * l + d * l * l * l < l * l * l * l) by (nonlinear_arith)
            requires
                a < l,
                b < l,
                c < l,
                d < l,
        ;
    }

    /// The number `v`.
    pub fn from_u64(v: u64) -> (r: U256)
        ensures
            r.value() == v,
            r == U256([v, 0, 0, 0]),
    {
        U256([v, 0, 0, 0])
    }

    /// Zero.
    pub fn zero() -> (r: U256)
        ensures
            r.value() == 0,
            r == U256([0, 0, 0, 0]),
    {
        U256([0, 0, 0, 0])
    }

    pub fn is_zero(&self) -> (r: bool)
        ensures
            r == (self.value() == 0),
    {
        let ghost l = limb();
        let z = self.0[0] == 0 && self.0[1] == 0 && self.0[2] == 0 && self.0[3] == 0;
        assert(z ==> self.value() == 0);
        assert(!z ==> self.value() > 0) by (nonlinear_arith)
            requires
                z == (self.0[0] == 0 && self.0[1] == 0 && self.0[2] == 0 && self.0[3] == 0),
                l > 0,
                self.value() == self.0[0] as nat + self.0[1] as nat * l + self.0[2] as nat * l * l
                    + self.0[3] as nat * l * l * l,
        ;
        z
    }

    /// Are the two numbers equal?
    pub fn eq(&self, other: &U256) -> (r: bool)
        ensures
            r == (self.value() == other.value()),
    {
        let same = self.0[0] == other.0[0] && self.0[1] == other.0[1] && self.0[2] == other.0[2]
            && self.0[3] == other.0[3];
        proof {
            if self.value() == other.value() {
                lemma_limbs_unique(*self, *other);
            }
        }
        same
    }
}

proof fn lemma_limbs_unique(x: U256, y: U256)
    requires
        x.value() == y.value(),
    ensures
        x.0[0] == y.0[0] && x.0[1] == y.0[1] && x.0[2] == y.0[2] && x.0[3] == y.0[3],
{
    let l = limb() as int;
    let (a0, a1, a2, a3) = (x.0[0] as int, x.0[1] as int, x.0[2] as int, x.0[3] as int);
    let (b0, b1, b2, b3) = (y.0[0] as int, y.0[1] as int, y.0[2] as int, y.0[3] as int);
    let hx = a1 + a2 * l + a3 * l * l;
    let hy = b1 + b2 * l + b3 * l * l;
    assert(a0 + hx * l == b0 + hy * l) by (nonlinear_arith)
        requires
            a0 + a1 * l + a2 * l * l + a3 * l * l * l == b0 + b1 * l + b2 * l * l + b3 * l * l * l,
            hx == a1 + a2 * l + a3 * l * l,
            hy == b1 + b2 * l + b3 * l * l,
    ;
    lemma_digit(a0, hx, b0, hy, l);
    let gx = a2 + a3 * l;
    let gy = b2 + b3 * l;
    assert(a1 + gx * l == hx && b1 + gy * l == hy) by (nonlinear_arith)
        requires
            hx == a1 + a2 * l + a3 * l * l,
            hy == b1 + b2 * l + b3 * l * l,
            gx == a2 + a3 * l,
            gy == b2 + b3 * l,
    ;
    lemma_digit(a1, gx, b1, gy, l);
    lemma_digit(a2, a3, b2, b3, l);
}

proof fn lemma_digit(a: int, h: int, b: int, g: int, l: int)
    requires
        0 <= a < l,
        0 <= b < l,
        0 <= h,
        0 <= g,
        a + h * l == b + g * l,
    ensures
        a == b,
        h == g,
{
    if h < g {
        assert(g * l >= (h + 1) * l) by (nonlinear_arith)
            requires
                h + 1 <= g,
                l > 0,
        ;
        assert((h + 1) * l == h * l + l) by (nonlinear_arith);
    } else if h > g {
        assert(h * l >= (g + 1) * l) by (nonlinear_arith)
            requires
                g + 1 <= h,
                l > 0,
        ;
        assert((g + 1) * l == g * l + l) by (nonlinear_arith);
    }
}

/// Relies on `U256::checked_add` of the uint crate: the sum, or `None` when it does not fit
/// in 256 bits.
#[verifier::external_body]
pub(crate) fn checked_add(a: U256, b: U256) -> (r: Option<U256>)
    ensures
        a.value() + b.value() < word() ==> r is Some && r.unwrap().value() == a.value() + b.value(),
        a.value() + b.value() >= word() ==> r is None,
{
    ethereum_types::U256(a.0).checked_add(ethereum_types::U256(b.0)).map(|z| U256(z.0))
}

/// Relies on `U256::checked_sub` of the uint crate: the difference, or `None` when it would
/// be negative.
#[verifier::external_body]
pub(crate) fn checked_sub(a: U256, b: U256) -> (r: Option<U256>)
    ensures
        a.value() >= b.value() ==> r is Some && r.unwrap().value() == a.value() - b.value(),
        a.value() < b.value() ==> r is None,
{
    ethereum_types::U256(a.0).checked_sub(ethereum_types::U256(b.0)).map(|z| U256(z.0))
}

/// Relies on `U256::checked_mul` of the uint crate: the product, or `None` when it does
/// not fit in 256 bits.
#[verifier::external_body]
pub(crate) fn checked_mul(a: U256, b: U256) -> (r: Option<U256>)
    ensures
        a.value() * b.value() < word() ==> r is Some && r.unwrap().value() == a.value()
            * b.value(),
        a.value() * b.value() >= word() ==> r is None,
{
    ethereum_types::U256(a.0).checked_mul(ethereum_types::U256(b.0)).map(|z| U256(z.0))
}

/// Relies on `U256::checked_pow` of the uint crate: the power, or `None` when it does not
/// fit in 256 bits.
#[verifier::external_body]
pub(crate) fn checked_pow(a: U256, e: U256) -> (r: Option<U256>)
    ensures
        pow(a.value() as int, e.value()) < word() ==> r is Some && r.unwrap().value() == pow(
            a.value() as int,
            e.value(),
        ),
        pow(a.value() as int, e.value()) >= word() ==> r is None,
{
    ethereum_types::U256(a.0).checked_pow(ethereum_types::U256(e.0)).map(|z| U256(z.0))
}

/// Conversion into a 256-bit number together with the number of decimals it carries.
pub trait IntoU256 {
    /// The number, and how many of its last digits are decimals.
    spec fn amount(&self) -> (U256, usize);

    /// The number, and how many of its last digits are decimals.
    fn into_u256(self) -> (r: (U256, usize))
        ensures
            r == self.amount();
}

impl IntoU256 for u8 {
    open spec fn amount(&self) -> (U256, usize) {
        (U256([*self as u64, 0, 0, 0]), 0)
    }

    fn into_u256(self) -> (r: (U256, usize)) {
        (U256::from_u64(self as u64), 0)
    }
}

impl IntoU256 for u16 {
    open spec fn amount(&self) -> (U256, usize) {
        (U256([*self as u64, 0, 0, 0]), 0)
    }

    fn into_u256(self) -> (r: (U256, usize)) {
        (U256::from_u64(self as u64), 0)
    }
}

impl IntoU256 for u32 {
    open spec fn amount(&self) -> (U256, usize) {
        (U256([*self as u64, 0, 0, 0]), 0)
    }

    fn into_u256(self) -> (r: (U256, usize)) {
        (U256::from_u64(self as u64), 0)
    }
}

impl IntoU256 for u64 {
    open spec fn amount(&self) -> (U256, usize) {
        (U256([*self as u64, 0, 0, 0]), 0)
    }

    fn into_u256(self) -> (r: (U256, usize)) {
        (U256::from_u64(self), 0)
    }
}

impl IntoU256 for usize {
    open spec fn amount(&self) -> (U256, usize) {
        (U256([*self as u64, 0, 0, 0]), 0)
    }

    fn into_u256(self) -> (r: (U256, usize)) {
        (U256::from_u64(self as u64), 0)
    }
}

/// A negative number is no amount: it carries more decimals than any unit has, so that
/// every conversion refuses it.
impl IntoU256 for i8 {
    open spec fn amount(&self) -> (U256, usize) {
        if *self < 0 {
            (U256([0, 0, 0, 0]), usize::MAX)
        } else {
            (U256([*self as u64, 0, 0, 0]), 0)
        }
    }

    fn into_u256(self) -> (r: (U256, usize)) {
        if self < 0 {
            (U256::zero(), usize::MAX)
        } else {
            (U256::from_u64(self as u64), 0)
        }
    }
}

/// A negative number is no amount: it carries more decimals than any unit has, so that
/// every conversion refuses it.
impl IntoU256 for i16 {
    open spec fn amount(&self) -> (U256, usize) {
        if *self < 0 {
            (U256([0, 0, 0, 0]), usize::MAX)
        } else {
            (U256([*self as u64, 0, 0, 0]), 0)
        }
    }

    fn into_u256(self) -> (r: (U256, usize)) {
        if self < 0 {
            (U256::zero(), usize::MAX)
        } else {
            (U256::from_u64(self as u64), 0)
        }
    }
}

/// A negative number is no amount: it carries more decimals than any unit has, so that
/// every conversion refuses it.
impl IntoU256 for i32 {
    open spec fn amount(&self) -> (U256, usize) {
        if *self < 0 {
            (U256([0, 0, 0, 0]), usize::MAX)
        } else {
            (U256([*self as u64, 0, 0, 0]), 0)
        }
    }

    fn into_u256(self) -> (r: (U256, usize)) {
        if self < 0 {
            (U256::zero(), usize::MAX)
        } else {
            (U256::from_u64(self as u64), 0)
        }
    }
}

/// A negative number is no amount: it carries more decimals than any unit has, so that
/// every conversion refuses it.
impl IntoU256 for i64 {
    open spec fn amount(&self) -> (U256, usize) {
        if *self < 0 {
            (U256([0, 0, 0, 0]), usize::MAX)
        } else {
            (U256([*self as u64, 0, 0, 0]), 0)
        }
    }

    fn into_u256(self) -> (r: (U256, usize)) {
        if self < 0 {
            (U256::zero(), usize::MAX)
        } else {
            (U256::from_u64(self as u64), 0)
        }
    }
}

impl IntoU256 for U256 {
    open spec fn amount(&self) -> (U256, usize) {
        (*self, 0)
    }

    fn into_u256(self) -> (r: (U256, usize)) {
        (self, 0)
    }
}

/// `r` is `value`, which carries `decimals` decimals, in units of which 10 to the `exp`
/// make one: `None` when `decimals` exceeds `exp` or the result does not fit.
pub open spec fn scaled(value: U256, decimals: usize, exp: usize, r: Option<U256>) -> bool {
    &&& decimals > exp ==> r is None
    &&& decimals <= exp ==> {
        let want = value.value() * pow(10, (exp - decimals) as nat);
        &&& want < word() ==> (r matches Some(z) && z.value() == want)
        &&& want >= word() ==> r is None
    }
}

/// `value` carries `decimals` decimal digits; the number of units of which 10 to the `exp`
/// make one, or `None` when `decimals` exceeds `exp` or the result does not fit.
pub fn scale(value: U256, decimals: usize, exp: usize) -> (r: Option<U256>)
    ensures
        decimals > exp ==> r is None,
        decimals <= exp ==> {
            let want = value.value() * pow(10, (exp - decimals) as nat);
            &&& want < word() ==> (r matches Some(z) && z.value() == want)
            &&& want >= word() ==> r is None
        },
{
    if decimals > exp {
        return None;
    }
    let k = (exp - decimals) as u64;
    if value.is_zero() {
        assert(value.value() * pow(10, k as nat) == 0);
        return Some(U256::zero());
    }
    let p = match checked_pow(U256::from_u64(10), U256::from_u64(k)) {
        Some(p) => p,
        None => {
            assert(value.value() * pow(10, k as nat) >= word()) by (nonlinear_arith)
                requires
                    value.value() >= 1,
                    pow(10, k as nat) >= word(),
            ;
            return None;
        },
    };
    checked_mul(value, p)
}

/// Wei in `value` ether.
pub fn from_ether<V: IntoU256>(value: V) -> (r: Option<U256>)
    ensures
        scaled(value.amount().0, value.amount().1, 18, r),
{
    let (v, n) = value.into_u256();
    scale(v, n, 18)
}

/// Wei in `value` finney.
pub fn from_finney<V: IntoU256>(value: V) -> (r: Option<U256>)
    ensures
        scaled(value.amount().0, value.amount().1, 15, r),
{
    let (v, n) = value.into_u256();
    scale(v, n, 15)
}

/// Wei in `value` szabo.
pub fn from_szabo<V: IntoU256>(value: V) -> (r: Option<U256>)
    ensures
        scaled(value.amount().0, value.amount().1, 12, r),
{
    let (v, n) = value.into_u256();
    scale(v, n, 12)
}

/// Wei in `value` gwei.
pub fn from_gwei<V: IntoU256>(value: V) -> (r: Option<U256>)
    ensures
        scaled(value.amount().0, value.amount().1, 9, r),
{
    let (v, n) = value.into_u256();
    scale(v, n, 9)
}

/// Wei in `value` mwei.
pub fn from_mwei<V: IntoU256>(value: V) -> (r: Option<U256>)
    ensures
        scaled(value.amount().0, value.amount().1, 6, r),
{
    let (v, n) = value.into_u256();
    scale(v, n, 6)
}

/// Wei in `value` kwei.
pub fn from_kwei<V: IntoU256>(value: V) -> (r: Option<U256>)
    ensures
        scaled(value.amount().0, value.amount().1, 3, r),
{
    let (v, n) = value.into_u256();
    scale(v, n, 3)
}

} // verus!
