//! Conversion of a decimal's limbs to canonical big-endian two's-complement
//! bytes of at most 256 bits.
use vstd::prelude::*;
use vstd::arithmetic::power::pow;

verus! {

/// `256^n`.
pub open spec fn pow256(n: nat) -> nat
    decreases n,
{
    if n == 0 {
        1
    } else {
        256 * pow256((n - 1) as nat)
    }
}

/// The unsigned value of big-endian bytes.
pub open spec fn be_unsigned(s: Seq<u8>) -> nat
    decreases s.len(),
{
    if s.len() == 0 {
        0
    } else {
        be_unsigned(s.drop_last()) * 256 + s.last() as nat
    }
}

/// The two's-complement value of big-endian bytes.
pub open spec fn be_signed(s: Seq<u8>) -> int {
    if s.len() > 0 && s[0] >= 0x80 {
        be_unsigned(s) - pow256(s.len())
    } else {
        be_unsigned(s) as int
    }
}

/// The least value of 256 bits.
pub open spec fn min_i256() -> int {
    -(pow256(32) / 2)
}

/// The greatest value of 256 bits.
pub open spec fn max_i256() -> int {
    pow256(32) / 2 - 1
}

/// `v` fits in 256 signed bits.
pub open spec fn fits_i256(v: int) -> bool {
    min_i256() <= v <= max_i256()
}

/// A signed 256-bit integer, held as its 32 big-endian bytes.
#[derive(Clone, Copy)]
pub struct Int256 {
    pub be: [u8; 32],
}

impl View for Int256 {
    type V = int;

    open spec fn view(&self) -> int {
        be_signed(self.be@)
    }
}

/// What i256's signed `checked_mul` and `checked_mul_u64` give for the true
/// product `p`: `p` itself, or `None`, which they give only where `p` does
/// not fit. They multiply magnitudes and then check the sign; a negative
/// product whose magnitude is a little over 2^255 slips through that check
/// and comes back as `p + 2^256`, a positive value (the magnitudes' product
/// did not overflow).
pub open spec fn checked_mul_result(p: int, r: Option<Int256>) -> bool {
    &&& fits_i256(p) ==> (r is Some && r->0@ == p)
    &&& r is Some ==> (r->0@ == p || (p < min_i256() && r->0@ == p + pow256(32) && r->0@ > 0))
}

/// Relies on i256's `from_be_bytes`, `checked_mul_u64` and `to_be_bytes`:
/// see `checked_mul_result`.
#[verifier::external_body]
fn checked_mul_u64(a: Int256, n: u64) -> (r: Option<Int256>)
    ensures
        checked_mul_result(a@ * n, r),
{
    match i256::i256::from_be_bytes(a.be).checked_mul_u64(n) {
        Some(v) => Some(Int256 { be: v.to_be_bytes() }),
        None => None,
    }
}

/// Relies on i256's `from_be_bytes`, `checked_sub_u64` and `to_be_bytes`:
/// the difference, or `None` when it does not fit in 256 bits.
#[verifier::external_body]
fn checked_sub_u64(a: Int256, n: u64) -> (r: Option<Int256>)
    ensures
        r.is_some() <==> fits_i256(a@ - n),
        r matches Some(v) ==> v@ == a@ - n,
{
    match i256::i256::from_be_bytes(a.be).checked_sub_u64(n) {
        Some(v) => Some(Int256 { be: v.to_be_bytes() }),
        None => None,
    }
}

/// Relies on i256's `from_be_bytes`, `checked_neg` and `to_be_bytes`: the
/// negation, or `None` for the least value, whose negation does not fit.
#[verifier::external_body]
fn checked_neg(a: Int256) -> (r: Option<Int256>)
    ensures
        r.is_some() <==> fits_i256(-a@),
        r matches Some(v) ==> v@ == -a@,
{
    match i256::i256::from_be_bytes(a.be).checked_neg() {
        Some(v) => Some(Int256 { be: v.to_be_bytes() }),
        None => None,
    }
}

/// Relies on i256's `from_be_bytes`, `checked_mul` and `to_be_bytes`: see
/// `checked_mul_result`.
#[verifier::external_body]
fn checked_mul(a: Int256, b: Int256) -> (r: Option<Int256>)
    ensures
        checked_mul_result(a@ * b@, r),
{
    match i256::i256::from_be_bytes(a.be).checked_mul(i256::i256::from_be_bytes(b.be)) {
        Some(v) => Some(Int256 { be: v.to_be_bytes() }),
        None => None,
    }
}

/// Relies on i256's `from_be_bytes`, `checked_pow` and `to_be_bytes`: the
/// power, or `None` when it does not fit in 256 bits. With a base that is
/// not negative every partial product is not negative either, and i256
/// checks those exactly.
#[verifier::external_body]
fn checked_pow(a: Int256, exp: u32) -> (r: Option<Int256>)
    requires
        a@ >= 0,
    ensures
        r.is_some() <==> fits_i256(pow(a@, exp as nat)),
        r matches Some(v) ==> v@ == pow(a@, exp as nat),
{
    match i256::i256::from_be_bytes(a.be).checked_pow(exp) {
        Some(v) => Some(Int256 { be: v.to_be_bytes() }),
        None => None,
    }
}

proof fn lemma_be_unsigned_zeros(s: Seq<u8>)
    requires
        forall|i: int| 0 <= i < s.len() ==> s[i] == 0,
    ensures
        be_unsigned(s) == 0,
    decreases s.len(),
{
    if s.len() > 0 {
        lemma_be_unsigned_zeros(s.drop_last());
    }
}

proof fn lemma_be_unsigned_bound(s: Seq<u8>)
    ensures
        be_unsigned(s) < pow256(s.len()),
    decreases s.len(),
{
    if s.len() > 0 {
        let t = s.drop_last();
        lemma_be_unsigned_bound(t);
        let u = be_unsigned(t);
        let p = pow256(t.len());
        let l = s.last() as nat;
        assert(u * 256 + l < p * 256) by (nonlinear_arith)
            requires
                u < p,
                l < 256,
        ;
    }
}

/// The first byte of big-endian bytes weighs `256^(n - 1)`.
proof fn lemma_be_unsigned_front(s: Seq<u8>)
    requires
        s.len() >= 1,
    ensures
        be_unsigned(s) == s[0] * pow256((s.len() - 1) as nat) + be_unsigned(s.drop_first()),
    decreases s.len(),
{
    if s.len() > 1 {
        let t = s.drop_last();
        lemma_be_unsigned_front(t);
        assert(t.drop_first() =~= s.drop_first().drop_last());
        let p = pow256((t.len() - 1) as nat);
        let a = s[0] as nat;
        let r = be_unsigned(t.drop_first());
        assert(t[0] == s[0]);
        assert(s.drop_first().last() == s.last());
        assert(pow256((s.len() - 1) as nat) == 256 * p);
        assert((a * p + r) * 256 == a * (256 * p) + r * 256) by (nonlinear_arith);
    } else {
        assert(be_unsigned(s.drop_last()) == 0);
        assert(be_unsigned(s.drop_first()) == 0);
        assert(pow256((s.len() - 1) as nat) == 1);
    }
}

/// Every 32 bytes hold a value of 256 bits.
pub proof fn lemma_int256_fits(x: Int256)
    ensures
        fits_i256(x@),
{
    let s = x.be@;
    lemma_be_unsigned_front(s);
    lemma_be_unsigned_bound(s.drop_first());
    let p = pow256(31);
    assert(pow256(32) == 256 * p);
    let a = s[0] as nat;
    let r = be_unsigned(s.drop_first());
    if a >= 128 {
        assert(a * p + r >= 128 * p) by (nonlinear_arith)
            requires
                a >= 128,
        ;
        assert(a * p + r < 256 * p) by (nonlinear_arith)
            requires
                a < 256,
                r < p,
        ;
    } else {
        assert(a * p + r < 128 * p) by (nonlinear_arith)
            requires
                a < 128,
                r < p,
        ;
    }
}

proof fn lemma_be_unsigned_nonzero(s: Seq<u8>, k: int)
    requires
        0 <= k < s.len(),
        s[k] != 0,
    ensures
        be_unsigned(s) > 0,
    decreases s.len(),
{
    if k < s.len() - 1 {
        lemma_be_unsigned_nonzero(s.drop_last(), k);
    }
}

/// The first byte carries the sign.
proof fn lemma_int256_sign(x: Int256)
    ensures
        x.be@[0] >= 0x80 <==> x@ < 0,
{
    let s = x.be@;
    lemma_be_unsigned_front(s);
    lemma_be_unsigned_bound(s.drop_first());
    let p = pow256(31);
    assert(pow256(32) == 256 * p);
    let a = s[0] as nat;
    let r = be_unsigned(s.drop_first());
    if a >= 128 {
        assert(a * p + r < 256 * p) by (nonlinear_arith)
            requires
                a < 256,
                r < p,
        ;
    }
}

impl Int256 {
    /// The value is above zero.
    pub fn is_positive(&self) -> (r: bool)
        ensures
            r == (self@ > 0),
    {
        proof {
            lemma_int256_sign(*self);
        }
        if self.be[0] >= 0x80 {
            return false;
        }
        let mut i: usize = 0;
        while i < 32
            invariant
                0 <= i <= 32,
                self.be@[0] < 0x80,
                forall|j: int| 0 <= j < i ==> self.be@[j] == 0,
            decreases 32 - i,
        {
            if self.be[i] != 0 {
                proof {
                    lemma_be_unsigned_nonzero(self.be@, i as int);
                }
                return true;
            }
            i += 1;
        }
        proof {
            lemma_be_unsigned_zeros(self.be@);
        }
        false
    }

    /// The value of a byte.
    pub fn from_u8(x: u8) -> (r: Int256)
        ensures
            r@ == x as int,
    {
        let mut be: [u8; 32] = [0u8; 32];
        be[31] = x;
        proof {
            lemma_be_unsigned_zeros(be@.drop_last());
        }
        Int256 { be }
    }
}

/// The number that limbs give, least significant first, in `radix`.
pub open spec fn limbs_value(s: Seq<usize>, radix: nat) -> nat
    decreases s.len(),
{
    if s.len() == 0 {
        0
    } else {
        s[0] as nat + radix * limbs_value(s.drop_first(), radix)
    }
}

/// `2^255`, the magnitude of the least 256-bit value.
pub open spec fn half_range() -> nat {
    pow256(32) / 2
}

/// What `mpd_to_bigendian` writes: the limbs' number with the sign applied,
/// times `10^exp`, where that fits in 256 bits and `10^exp` does too.
pub open spec fn decimal_of(limbs: Seq<usize>, radix: nat, exp: nat, negative: bool) -> Option<int> {
    let m = limbs_value(limbs, radix) as int;
    let x = (if negative {
        -m
    } else {
        m
    }) * pow(10, exp);
    if fits_i256(x) && fits_i256(pow(10, exp)) {
        Some(x)
    } else {
        None
    }
}

proof fn lemma_half_range_big()
    ensures
        half_range() > usize::MAX,
        pow256(32) == 2 * half_range(),
{
    reveal_with_fuel(pow256, 33);
}

/// The value that limbs give when they are read, most significant (last)
/// first, as `v * radix - limb` from zero: the negated magnitude, which
/// reaches the least 256-bit value. `None` when a step leaves 256 bits.
spec fn reduce_of(s: Seq<usize>, radix: nat) -> Option<int>
    decreases s.len(),
{
    if s.len() == 0 {
        Some(0)
    } else {
        match reduce_of(s.drop_first(), radix) {
            None => None,
            Some(v) => if fits_i256(v * radix) && fits_i256(v * radix - s[0]) {
                Some(v * radix - s[0])
            } else {
                None
            },
        }
    }
}

/// A step that leaves 256 bits leaves the whole reduction without a value.
proof fn lemma_reduce_none(s: Seq<usize>, radix: nat, i: int)
    requires
        0 <= i <= s.len(),
        reduce_of(s.subrange(i, s.len() as int), radix) is None,
    ensures
        reduce_of(s, radix) is None,
    decreases i,
{
    if i > 0 {
        assert(s.subrange(i - 1, s.len() as int).drop_first() =~= s.subrange(i, s.len() as int));
        lemma_reduce_none(s, radix, i - 1);
    } else {
        assert(s.subrange(0, s.len() as int) =~= s);
    }
}

proof fn lemma_reduce_value(s: Seq<usize>, radix: nat)
    ensures
        reduce_of(s, radix) == if limbs_value(s, radix) <= half_range() {
            Some(-(limbs_value(s, radix) as int))
        } else {
            None::<int>
        },
    decreases s.len(),
{
    lemma_half_range_big();
    if s.len() > 0 {
        let t = s.drop_first();
        lemma_reduce_value(t, radix);
        let l = limbs_value(t, radix) as int;
        let h = half_range() as int;
        let s0 = s[0] as int;
        let r = radix as int;
        let m = limbs_value(s, radix) as int;
        assert(m == s0 + r * l);
        assert((-l) * r == -(l * r)) by (nonlinear_arith);
        assert(l * r == r * l) by (nonlinear_arith);
        assert(l * r >= 0) by (nonlinear_arith)
            requires
                l >= 0,
                r >= 0,
        ;
        if l > h {
            if r == 0 {
                assert(limbs_value(t, radix) == t[0] + 0 * limbs_value(t.drop_first(), radix));
            } else {
                assert(r * l >= l) by (nonlinear_arith)
                    requires
                        r >= 1,
                        l >= 0,
                ;
            }
        }
    }
}

/// Reduces limbs in `radix`, least significant first, to the negation of
/// the number they give, in 256 bits.
pub fn reduce_limbs(limbs: &[usize], radix: usize) -> (r: Option<Int256>)
    ensures
        r.is_some() <==> limbs_value(limbs@, radix as nat) <= half_range(),
        r matches Some(v) ==> v@ == -(limbs_value(limbs@, radix as nat) as int),
{
    proof {
        lemma_reduce_value(limbs@, radix as nat);
    }
    let mut value = Int256::from_u8(0);
    let n = limbs.len();
    let mut i: usize = n;
    assert(limbs@.subrange(n as int, n as int) =~= Seq::<usize>::empty());
    while i > 0
        invariant
            0 <= i <= n,
            n == limbs@.len(),
            reduce_of(limbs@.subrange(i as int, n as int), radix as nat) == Some(value@),
            value@ <= 0,
        decreases i,
    {
        let ghost rest = limbs@.subrange(i as int, n as int);
        assert(limbs@.subrange(i - 1, n as int).drop_first() =~= rest);
        let limb = limbs[i - 1];
        let product = checked_mul_u64(value, radix as u64);
        proof {
            assert(value@ * (radix as u64) <= 0) by (nonlinear_arith)
                requires
                    value@ <= 0,
            ;
        }
        let scaled = match product {
            Some(v) => v,
            None => {
                proof {
                    lemma_reduce_none(limbs@, radix as nat, i - 1);
                    lemma_reduce_value(limbs@, radix as nat);
                }
                return None;
            },
        };
        // The running value is never above zero, so neither is a true
        // product; a positive one is i256's wrapped overflow.
        if scaled.is_positive() {
            proof {
                lemma_reduce_none(limbs@, radix as nat, i - 1);
                lemma_reduce_value(limbs@, radix as nat);
            }
            return None;
        }
        value = match checked_sub_u64(scaled, limb as u64) {
            Some(v) => v,
            None => {
                proof {
                    lemma_reduce_none(limbs@, radix as nat, i - 1);
                    lemma_reduce_value(limbs@, radix as nat);
                }
                return None;
            },
        };
        i -= 1;
    }
    assert(limbs@.subrange(0, n as int) =~= limbs@);
    proof {
        lemma_reduce_value(limbs@, radix as nat);
    }
    Some(value)
}

/// The byte that pads a value of this sign.
pub open spec fn pad_of(negative: bool) -> u8 {
    if negative {
        0xFF
    } else {
        0
    }
}

/// Byte `k` only repeats the sign that byte `k + 1` carries.
pub open spec fn redundant_at(be: Seq<u8>, negative: bool, k: int) -> bool {
    be[k] == pad_of(negative) && (be[k + 1] >= 0x80) == negative
}

/// How many leading bytes can go, from `k` on, keeping at least two.
pub open spec fn skip_from(be: Seq<u8>, negative: bool, k: nat) -> nat
    decreases 30 - k,
{
    if k < 30 && redundant_at(be, negative, k as int) {
        skip_from(be, negative, k + 1)
    } else {
        k
    }
}

/// Writes the big-endian bytes of `value` into the front of `out`, without
/// the leading bytes that only repeat the sign given by `negative_hint`
/// (two bytes at least are kept), and returns how many it wrote. The rest
/// of `out` is untouched.
pub fn write_trimmed_bytes(value: Int256, negative_hint: bool, out: &mut [u8]) -> (r: usize)
    requires
        old(out)@.len() >= 32,
    ensures
        r == 32 - skip_from(value.be@, negative_hint, 0),
        2 <= r <= 32,
        be_signed(final(out)@.subrange(0, r as int)) == value@,
        (negative_hint <==> value@ < 0) ==> forall|k: int|
            2 <= k < r ==> be_signed(#[trigger] value.be@.subrange(32 - k, 32)) != value@,
        final(out)@ == value.be@.subrange(32 - r, 32) + old(out)@.subrange(
            r as int,
            old(out)@.len() as int,
        ),
{
    let be = value.be;
    let pad: u8 = if negative_hint {
        0xFF
    } else {
        0
    };
    let mut offset: usize = 0;
    while offset < 30 && be[offset] == pad && (be[offset + 1] >= 0x80) == negative_hint
        invariant
            0 <= offset <= 30,
            be@ == value.be@,
            pad == pad_of(negative_hint),
            skip_from(be@, negative_hint, offset as nat) == skip_from(be@, negative_hint, 0),
        decreases 30 - offset,
    {
        offset += 1;
    }
    let len = 32 - offset;
    let mut j: usize = 0;
    while j < len
        invariant
            0 <= j <= len,
            len + offset == 32,
            out@.len() == old(out)@.len(),
            old(out)@.len() >= 32,
            be@ == value.be@,
            forall|t: int| 0 <= t < j ==> out@[t] == be@[offset + t],
            forall|t: int| len <= t < out@.len() ==> out@[t] == old(out)@[t],
        decreases len - j,
    {
        out[j] = be[offset + j];
        j += 1;
    }
    assert(out@ =~= value.be@.subrange(offset as int, 32) + old(out)@.subrange(
        len as int,
        old(out)@.len() as int,
    ));
    proof {
        lemma_trimmed_keeps_value(value, negative_hint);
        assert(out@.subrange(0, len as int) =~= value.be@.subrange(offset as int, 32));
        if negative_hint == (value@ < 0) {
            assert forall|k: int| 2 <= k < len implies be_signed(
                #[trigger] value.be@.subrange(32 - k, 32),
            ) != value@ by {
                let t = value.be@.subrange(offset as int, 32);
                if be_signed(value.be@.subrange(32 - k, 32)) == value@ {
                    assert(t.subrange(t.len() - k, t.len() as int) =~= value.be@.subrange(32 - k, 32));
                    lemma_suffix_same_value(t, k);
                    assert(t[0] == be@[offset as int] && t[1] == be@[offset + 1]);
                }
            }
        }
    }
    len
}

/// Dropping a leading byte that only repeats the sign keeps the value.
proof fn lemma_drop_redundant(s: Seq<u8>, negative: bool)
    requires
        s.len() >= 2,
        redundant_at(s, negative, 0),
    ensures
        be_signed(s) == be_signed(s.drop_first()),
{
    lemma_be_unsigned_front(s);
    let t = s.drop_first();
    assert(t[0] == s[1]);
    let p = pow256((s.len() - 1) as nat);
    assert(pow256(s.len()) == 256 * p);
    assert(pow256(t.len()) == p);
    if negative {
        assert(255 * p - 256 * p == -p) by (nonlinear_arith);
    }
}

proof fn lemma_skip_keeps_value(be: Seq<u8>, negative: bool, k: nat)
    requires
        be.len() == 32,
        k <= 30,
    ensures
        k <= skip_from(be, negative, k) <= 30,
        be_signed(be.subrange(k as int, 32)) == be_signed(
            be.subrange(skip_from(be, negative, k) as int, 32),
        ),
    decreases 30 - k,
{
    if k < 30 && redundant_at(be, negative, k as int) {
        let s = be.subrange(k as int, 32);
        assert(s[0] == be[k as int] && s[1] == be[k + 1 as int]);
        lemma_drop_redundant(s, negative);
        assert(s.drop_first() =~= be.subrange(k + 1 as int, 32));
        lemma_skip_keeps_value(be, negative, k + 1);
    }
}

/// The trimmed bytes are still the value's two's complement: read back
/// with sign extension, they give the value, whatever the sign hint.
pub proof fn lemma_trimmed_keeps_value(value: Int256, negative: bool)
    ensures
        skip_from(value.be@, negative, 0) <= 30,
        be_signed(value.be@.subrange(skip_from(value.be@, negative, 0) as int, 32)) == value@,
{
    lemma_skip_keeps_value(value.be@, negative, 0);
    assert(value.be@.subrange(0, 32) =~= value.be@);
}

proof fn lemma_pow256_positive(n: nat)
    ensures
        pow256(n) >= 1,
    decreases n,
{
    if n > 0 {
        lemma_pow256_positive((n - 1) as nat);
    }
}

proof fn lemma_pow256_add(a: nat, b: nat)
    ensures
        pow256(a + b) == pow256(a) * pow256(b),
    decreases a,
{
    let y = pow256(b);
    if a > 0 {
        let a1 = (a - 1) as nat;
        lemma_pow256_add(a1, b);
        let x = pow256(a1);
        assert(pow256(a1 + b) == x * y);
        assert((a + b - 1) as nat == a1 + b);
        assert(pow256(a + b) == 256 * pow256(a1 + b));
        assert(pow256(a) == 256 * x);
        assert(256 * (x * y) == (256 * x) * y) by (nonlinear_arith);
    } else {
        assert(pow256(0) == 1);
        assert(a + b == b);
        assert(1 * y == y);
    }
}

/// Bytes before a suffix weigh `256^k` each step up.
proof fn lemma_be_unsigned_split(p: Seq<u8>, q: Seq<u8>)
    ensures
        be_unsigned(p + q) == be_unsigned(p) * pow256(q.len()) + be_unsigned(q),
    decreases q.len(),
{
    let up = be_unsigned(p);
    if q.len() == 0 {
        assert(p + q =~= p);
        assert(pow256(0) == 1);
        assert(be_unsigned(q) == 0);
        assert(up * 1 == up);
    } else {
        let q1 = q.drop_last();
        lemma_be_unsigned_split(p, q1);
        assert((p + q).drop_last() =~= p + q1);
        assert((p + q).last() == q.last());
        let x = pow256(q1.len());
        let uq = be_unsigned(q1);
        assert(be_unsigned(p + q1) == up * x + uq);
        assert(be_unsigned(p + q) == be_unsigned(p + q1) * 256 + q.last());
        assert(be_unsigned(q) == uq * 256 + q.last());
        assert(pow256(q.len()) == 256 * x);
        assert((up * x + uq) * 256 == up * (256 * x) + uq * 256) by (nonlinear_arith);
    }
}

proof fn lemma_be_unsigned_zero_bytes(s: Seq<u8>)
    requires
        be_unsigned(s) == 0,
    ensures
        forall|i: int| 0 <= i < s.len() ==> s[i] == 0,
{
    assert forall|i: int| 0 <= i < s.len() implies s[i] == 0 by {
        if s[i] != 0 {
            lemma_be_unsigned_nonzero(s, i);
        }
    }
}

proof fn lemma_be_unsigned_all_ff(s: Seq<u8>)
    requires
        be_unsigned(s) + 1 == pow256(s.len()),
    ensures
        forall|i: int| 0 <= i < s.len() ==> s[i] == 0xFF,
    decreases s.len(),
{
    if s.len() > 0 {
        let t = s.drop_last();
        lemma_be_unsigned_bound(t);
        let u = be_unsigned(t);
        let p = pow256(t.len());
        let l = s.last() as int;
        assert(u * 256 + l + 1 == 256 * p);
        assert(u + 1 == p && l == 255) by (nonlinear_arith)
            requires
                u * 256 + l + 1 == 256 * p,
                0 <= u < p,
                0 <= l < 256,
        ;
        lemma_be_unsigned_all_ff(t);
        assert forall|i: int| 0 <= i < s.len() implies s[i] == 0xFF by {
            if i < t.len() {
                assert(s[i] == t[i]);
            }
        }
    }
}

/// The first byte carries the sign, and `n` bytes hold values from
/// `-256^n / 2` up to `256^n / 2`.
proof fn lemma_be_signed_range(s: Seq<u8>)
    requires
        s.len() >= 1,
    ensures
        s[0] >= 0x80 <==> be_signed(s) < 0,
        s[0] >= 0x80 ==> be_signed(s) == be_unsigned(s) - pow256(s.len()),
        s[0] < 0x80 ==> be_signed(s) == be_unsigned(s),
{
    lemma_be_unsigned_front(s);
    lemma_be_unsigned_bound(s.drop_first());
    let p = pow256((s.len() - 1) as nat);
    assert(pow256(s.len()) == 256 * p);
    let a = s[0] as nat;
    let r = be_unsigned(s.drop_first());
    if a >= 128 {
        assert(a * p + r < 256 * p) by (nonlinear_arith)
            requires
                a < 256,
                r < p,
        ;
    }
}

/// Where a suffix already gives the value of the whole, the first byte only
/// repeats the sign.
proof fn lemma_suffix_same_value(s: Seq<u8>, k: int)
    requires
        1 <= k < s.len(),
        be_signed(s) == be_signed(s.subrange(s.len() - k, s.len() as int)),
    ensures
        redundant_at(s, be_signed(s) < 0, 0),
{
    let n = s.len() as int;
    let m = n - k;
    let p = s.subrange(0, m);
    let q = s.subrange(m, n);
    assert(p + q =~= s);
    lemma_be_unsigned_split(p, q);
    lemma_pow256_add(m as nat, k as nat);
    lemma_pow256_positive(k as nat);
    lemma_be_signed_range(s);
    lemma_be_signed_range(q);
    let up = be_unsigned(p) as int;
    let pk = pow256(k as nat) as int;
    let pm = pow256(m as nat) as int;
    assert(pow256(n as nat) == pm * pk);
    assert(q[0] == s[m]);
    if be_signed(s) >= 0 {
        assert(up * pk == 0);
        assert(up == 0) by (nonlinear_arith)
            requires
                up * pk == 0,
                pk >= 1,
                up >= 0,
        ;
        lemma_be_unsigned_zero_bytes(p);
        assert(s[0] == p[0]);
        if m >= 2 {
            assert(s[1] == p[1]);
        }
    } else {
        assert(up * pk + pk == pm * pk);
        assert(up + 1 == pm) by (nonlinear_arith)
            requires
                up * pk + pk == pm * pk,
                pk >= 1,
        ;
        lemma_be_unsigned_all_ff(p);
        assert(s[0] == p[0]);
        if m >= 2 {
            assert(s[1] == p[1]);
        }
    }
}

/// The value that the steps of `mpd_to_bigendian` reach: the limbs'
/// number, with the sign applied, times `10^exp`; `None` where a step leaves
/// 256 bits.
spec fn stepwise_decimal_of(limbs: Seq<usize>, radix: nat, exp: nat, negative: bool) -> Option<int> {
    match reduce_of(limbs, radix) {
        None => None,
        Some(v) => {
            let signed = if negative {
                v
            } else {
                -v
            };
            if !fits_i256(signed) {
                None
            } else if exp == 0 {
                Some(signed)
            } else if !fits_i256(pow(10, exp)) || !fits_i256(signed * pow(10, exp)) {
                None
            } else {
                Some(signed * pow(10, exp))
            }
        },
    }
}

proof fn lemma_decimal_direct(limbs: Seq<usize>, radix: nat, exp: nat, negative: bool)
    ensures
        stepwise_decimal_of(limbs, radix, exp, negative) == decimal_of(limbs, radix, exp, negative),
{
    lemma_reduce_value(limbs, radix);
    lemma_half_range_big();
    vstd::arithmetic::power::lemma_pow_positive(10, exp);
    let m = limbs_value(limbs, radix) as int;
    let p = pow(10, exp);
    if exp == 0 {
        vstd::arithmetic::power::lemma_pow0(10);
    }
    assert(m * p >= m) by (nonlinear_arith)
        requires
            m >= 0,
            p >= 1,
    ;
    assert((-m) * p == -(m * p)) by (nonlinear_arith);
}

/// Converts limbs (least significant first, in `radix`) with a sign and a
/// decimal exponent to 256-bit big-endian two's complement in the front of
/// `out`, without redundant sign bytes, and returns how many bytes it wrote;
/// the rest of `out` is untouched. `None`, with `out` untouched, where the
/// value does not fit in 256 bits.
pub fn mpd_to_bigendian(
    limbs: &[usize],
    radix: usize,
    exp: u32,
    negative: bool,
    out: &mut [u8],
) -> (r: Option<usize>)
    requires
        old(out)@.len() == 32,
    ensures
        r.is_some() <==> decimal_of(limbs@, radix as nat, exp as nat, negative).is_some(),
        r.is_none() ==> final(out)@ == old(out)@,
        r matches Some(len) ==> {
            &&& 2 <= len <= 32
            &&& Some(be_signed(final(out)@.subrange(0, len as int))) == decimal_of(
                limbs@,
                radix as nat,
                exp as nat,
                negative,
            )
            &&& final(out)@.subrange(len as int, 32) == old(out)@.subrange(len as int, 32)
            &&& (negative <==> be_signed(final(out)@.subrange(0, len as int)) < 0) ==> forall|k: int|
                2 <= k < len ==> be_signed(#[trigger] final(out)@.subrange(len - k, len as int))
                    != be_signed(final(out)@.subrange(0, len as int))
        },
        r matches Some(len) ==> exists|v: Int256| {
            &&& decimal_of(limbs@, radix as nat, exp as nat, negative) == Some(v@)
            &&& len == 32 - skip_from(v.be@, negative, 0)
            &&& final(out)@ == v.be@.subrange(32 - len, 32) + old(out)@.subrange(len as int, 32)
        },
{
    proof {
        lemma_decimal_direct(limbs@, radix as nat, exp as nat, negative);
        lemma_reduce_value(limbs@, radix as nat);
    }
    let mut value = match reduce_limbs(limbs, radix) {
        Some(v) => v,
        None => return None,
    };
    let ghost reduced = value@;
    proof {
        lemma_int256_fits(value);
    }
    if !negative {
        value = match checked_neg(value) {
            Some(v) => v,
            None => return None,
        };
    }
    let ghost signed = value@;
    assert(signed == if negative { reduced } else { -reduced });
    if exp > 0 {
        let ten = Int256::from_u8(10);
        let pow10 = match checked_pow(ten, exp) {
            Some(v) => v,
            None => return None,
        };
        assert(pow10@ == pow(10, exp as nat));
        proof {
            vstd::arithmetic::power::lemma_pow_positive(10, exp as nat);
            if value@ <= 0 {
                assert(value@ * pow10@ <= 0) by (nonlinear_arith)
                    requires
                        value@ <= 0,
                        pow10@ > 0,
                ;
            } else {
                assert(value@ * pow10@ > 0) by (nonlinear_arith)
                    requires
                        value@ > 0,
                        pow10@ > 0,
                ;
            }
        }
        let value_positive = value.is_positive();
        let product = match checked_mul(value, pow10) {
            Some(v) => v,
            None => return None,
        };
        // A value not above zero times a power of ten is not above zero
        // either; a positive result is i256's wrapped overflow.
        if !value_positive && product.is_positive() {
            return None;
        }
        proof {
            lemma_int256_fits(product);
        }
        value = product;
        assert(value@ == signed * pow(10, exp as nat));
    }
    assert(stepwise_decimal_of(limbs@, radix as nat, exp as nat, negative) == Some(value@));
    let ghost before = out@;
    let len = write_trimmed_bytes(value, negative, out);
    assert(out@ == value.be@.subrange(32 - len, 32) + before.subrange(len as int, before.len() as int));
    proof {
        lemma_trimmed_keeps_value(value, negative);
        assert(out@.subrange(0, len as int) =~= value.be@.subrange(32 - len, 32));
        assert(out@.subrange(len as int, 32) =~= before.subrange(len as int, 32));
        assert forall|k: int| 2 <= k < len implies #[trigger] out@.subrange(len - k, len as int)
            == value.be@.subrange(32 - k, 32) by {
            assert(out@.subrange(len - k, len as int) =~= value.be@.subrange(32 - k, 32));
        }
    }
    Some(len)
}

} // verus!
