use crate::error::DbError;
use vstd::bytes::*;
use vstd::prelude::*;
use core::cmp::Ordering;

verus! {

/// A 64-bit signed integer value.
#[derive(Debug, Clone, Copy, PartialEq, Eq, PartialOrd, Ord, Hash)]
pub struct Integer(i64);

impl View for Integer {
    type V = i64;

    closed spec fn view(&self) -> i64 {
        self.0
    }
}

/// The little-endian byte image of an `i64`, taken as its two's-complement `u64`.
pub open spec fn i64_le_bytes(v: i64) -> Seq<u8> {
    spec_u64_to_le_bytes(v as u64)
}

impl Integer {
    pub fn new(value: i64) -> (r: Self)
        ensures
            r@ == value,
    {
        Integer(value)
    }

    pub fn as_i64(self) -> (r: i64)
        ensures
            r == self@,
    {
        self.0
    }

    /// Sum, or `None` when it leaves the range of `i64`.
    pub fn checked_add(self, rhs: Self) -> (r: Option<Self>)
        ensures
            r is None <==> (self@ + rhs@ > i64::MAX || self@ + rhs@ < i64::MIN),
            r matches Some(v) ==> v@ == self@ + rhs@,
    {
        match self.0.checked_add(rhs.0) {
            Some(v) => Some(Integer(v)),
            None => None,
        }
    }

    /// Difference, or `None` when it leaves the range of `i64`.
    pub fn checked_sub(self, rhs: Self) -> (r: Option<Self>)
        ensures
            r is None <==> (self@ - rhs@ > i64::MAX || self@ - rhs@ < i64::MIN),
            r matches Some(v) ==> v@ == self@ - rhs@,
    {
        match self.0.checked_sub(rhs.0) {
            Some(v) => Some(Integer(v)),
            None => None,
        }
    }

    /// Product, or `None` when it leaves the range of `i64`.
    pub fn checked_mul(self, rhs: Self) -> (r: Option<Self>)
        ensures
            r is None <==> (self@ * rhs@ > i64::MAX || self@ * rhs@ < i64::MIN),
            r matches Some(v) ==> v@ == self@ * rhs@,
    {
        match self.0.checked_mul(rhs.0) {
            Some(v) => Some(Integer(v)),
            None => None,
        }
    }

    /// Quotient rounded toward zero, or `None` when `rhs` is zero or the
    /// quotient leaves the range of `i64` (`i64::MIN / -1`).
    pub fn checked_div(self, rhs: Self) -> (r: Option<Self>)
        ensures
            r is None <==> self@.checked_div(rhs@) is None,
            r matches Some(v) ==> self@.checked_div(rhs@) == Some(v@),
    {
        match self.0.checked_div(rhs.0) {
            Some(v) => Some(Integer(v)),
            None => None,
        }
    }

    pub fn to_le_bytes(self) -> (r: [u8; 8])
        ensures
            r@ == i64_le_bytes(self@),
    {
        let v = u64_to_le_bytes(self.0 as u64);
        let r = [v[0], v[1], v[2], v[3], v[4], v[5], v[6], v[7]];
        assert(r@ =~= v@);
        r
    }

    pub fn from_le_bytes(bytes: [u8; 8]) -> (r: Self)
        ensures
            r@ == spec_u64_from_le_bytes(bytes@) as i64,
            i64_le_bytes(r@) == bytes@,
    {
        let u = u64_from_le_bytes(bytes.as_slice());
        proof {
            lemma_auto_spec_u64_to_from_le_bytes();
            assert((u as i64) as u64 == u) by (bit_vector);
        }
        Integer(u as i64)
    }

    /// The integer a decimal text spells (see [`parse_decimal`]); any other
    /// text is a type mismatch.
    pub fn try_from_str(s: &str) -> (r: Result<Self, DbError>)
        ensures
            match parse_decimal(s@) {
                Some(v) => r matches Ok(x) && x@ == v,
                None => r matches Err(e) && e is TypeMismatch,
            },
    {
        match parse_i64(s) {
            Some(v) => Ok(Integer(v)),
            None => Err(DbError::type_mismatch("invalid integer")),
        }
    }
}

/// Whether every character is an ASCII digit.
pub open spec fn all_digits(d: Seq<char>) -> bool {
    forall|i: int| 0 <= i < d.len() ==> '0' <= #[trigger] d[i] <= '9'
}

/// The number that decimal digits spell.
pub open spec fn digits_value(d: Seq<char>) -> int
    decreases d.len(),
{
    if d.len() == 0 {
        0
    } else {
        digits_value(d.drop_last()) * 10 + (d.last() as int - '0' as int)
    }
}

/// The `i64` a text spells in decimal, as `str::parse::<i64>` reads it: an
/// optional `+` or `-`, then one or more ASCII digits, of a value that fits.
pub open spec fn parse_decimal(s: Seq<char>) -> Option<i64> {
    let neg = s.len() > 0 && s[0] == '-';
    let d = if s.len() > 0 && (s[0] == '-' || s[0] == '+') {
        s.drop_first()
    } else {
        s
    };
    let v = if neg {
        -digits_value(d)
    } else {
        digits_value(d)
    };
    if d.len() > 0 && all_digits(d) && i64::MIN <= v <= i64::MAX {
        Some(v as i64)
    } else {
        None
    }
}

proof fn lemma_digits_grow(d: Seq<char>, k: int)
    requires
        all_digits(d),
        0 <= k <= d.len(),
    ensures
        0 <= digits_value(d.subrange(0, k)) <= digits_value(d),
    decreases d.len() - k,
{
    if k < d.len() {
        lemma_digits_grow(d, k + 1);
        assert(d.subrange(0, k + 1).drop_last() =~= d.subrange(0, k));
        assert('0' <= d[k] <= '9');
    } else {
        assert(d.subrange(0, k) =~= d);
    }
    lemma_digits_nonneg(d.subrange(0, k));
}

proof fn lemma_digits_nonneg(d: Seq<char>)
    requires
        all_digits(d),
    ensures
        digits_value(d) >= 0,
    decreases d.len(),
{
    if d.len() > 0 {
        assert(all_digits(d.drop_last())) by {
            assert forall|i: int| 0 <= i < d.drop_last().len() implies '0' <= #[trigger] d.drop_last()[i] <= '9' by {
                assert(d.drop_last()[i] == d[i]);
            }
        }
        lemma_digits_nonneg(d.drop_last());
        assert('0' <= d[d.len() - 1] <= '9');
    }
}

/// Reads a decimal `i64` (see [`parse_decimal`]).
fn parse_i64(s: &str) -> (r: Option<i64>)
    ensures
        r == parse_decimal(s@),
{
    let n = s.unicode_len();
    let mut start: usize = 0;
    let mut neg = false;
    if n > 0 {
        let c = s.get_char(0);
        if c == '-' {
            neg = true;
            start = 1;
        } else if c == '+' {
            start = 1;
        }
    }
    let ghost d = if start == 1 { s@.drop_first() } else { s@ };
    proof {
        assert(d =~= s@.subrange(start as int, n as int));
        assert(d == (if s@.len() > 0 && (s@[0] == '-' || s@[0] == '+') {
            s@.drop_first()
        } else {
            s@
        }));
    }
    if start == n {
        return None;
    }
    // the magnitude, which may reach 2^63 for a negative value
    let limit: u64 = 0x8000_0000_0000_0000;
    let mut acc: u64 = 0;
    let mut i: usize = start;
    while i < n
        invariant
            n == s@.len(),
            start <= i <= n,
            d == s@.subrange(start as int, n as int),
            d == (if s@.len() > 0 && (s@[0] == '-' || s@[0] == '+') {
                s@.drop_first()
            } else {
                s@
            }),
            neg == (s@.len() > 0 && s@[0] == '-'),
            limit == 0x8000_0000_0000_0000u64,
            acc <= limit,
            acc as int == digits_value(s@.subrange(start as int, i as int)),
            all_digits(s@.subrange(start as int, i as int)),
        decreases n - i,
    {
        let c = s.get_char(i);
        let ghost pre = s@.subrange(start as int, i as int);
        let ghost next = s@.subrange(start as int, i + 1);
        proof {
            assert(next.drop_last() =~= pre);
            assert(next.last() == c);
        }
        if c < '0' || c > '9' {
            proof {
                assert(d[i - start] == c);
                assert(!('0' <= d[i - start] <= '9'));
                assert(!all_digits(d));
            }
            return None;
        }
        let digit = (c as u32 - '0' as u32) as u64;
        if acc > (limit - digit) / 10 {
            proof {
                assert(all_digits(next)) by {
                    assert forall|j: int| 0 <= j < next.len() implies '0' <= #[trigger] next[j] <= '9' by {
                        if j < pre.len() {
                            assert(next[j] == pre[j]);
                        }
                    }
                }
                assert(digits_value(next) > limit) by (nonlinear_arith)
                    requires
                        digits_value(next) == acc * 10 + digit,
                        acc > (limit - digit) / 10,
                        limit == 0x8000_0000_0000_0000,
                        digit <= 9,
                ;
                if all_digits(d) {
                    lemma_digits_grow(d, i + 1 - start);
                    assert(d.subrange(0, i + 1 - start) =~= next);
                }
            }
            return None;
        }
        acc = acc * 10 + digit;
        proof {
            assert(all_digits(next)) by {
                assert forall|j: int| 0 <= j < next.len() implies '0' <= #[trigger] next[j] <= '9' by {
                    if j < pre.len() {
                        assert(next[j] == pre[j]);
                    }
                }
            }
        }
        i = i + 1;
    }
    proof {
        assert(s@.subrange(start as int, n as int) =~= d);
    }
    if neg {
        if acc == limit {
            Some(i64::MIN)
        } else {
            Some(-(acc as i64))
        }
    } else if acc > 0x7fff_ffff_ffff_ffff {
        None
    } else {
        Some(acc as i64)
    }
}

/// Mask of the eleven exponent bits of an IEEE-754 double.
pub open spec fn exponent_bits(bits: u64) -> u64 {
    (bits >> 52u64) & 0x7ffu64
}

/// A double is finite exactly when its exponent bits are not all ones.
pub open spec fn is_finite_bits(bits: u64) -> bool {
    exponent_bits(bits) != 0x7ffu64
}

/// The magnitude part of a double (all bits but the sign).
pub open spec fn magnitude(bits: u64) -> int {
    (bits % 0x8000_0000_0000_0000u64) as int
}

pub open spec fn sign_set(bits: u64) -> bool {
    bits >= 0x8000_0000_0000_0000u64
}

/// For finite doubles, numeric order is the order of this key: the signed
/// magnitude (so that `-0.0` and `0.0` share the key 0).
pub open spec fn numeric_key(bits: u64) -> int {
    if sign_set(bits) {
        -magnitude(bits)
    } else {
        magnitude(bits)
    }
}

/// The key by which `f64::total_cmp` orders doubles: it differs from
/// [`numeric_key`] only in placing `-0.0` just below `0.0`.
pub open spec fn total_order_key(bits: u64) -> int {
    if sign_set(bits) {
        -1 - magnitude(bits)
    } else {
        magnitude(bits)
    }
}

/// A finite double, held by its IEEE-754 bit pattern.
#[derive(Debug, Clone, Copy)]
pub struct Float(u64);

impl View for Float {
    type V = u64;

    closed spec fn view(&self) -> u64 {
        self.0
    }
}

/// Doubles compare numerically: `0.0 == -0.0`.
impl PartialEq for Float {
    fn eq(&self, other: &Self) -> (r: bool) {
        self.numeric_key() == other.numeric_key()
    }
}

impl vstd::std_specs::cmp::PartialEqSpecImpl for Float {
    open spec fn obeys_eq_spec() -> bool {
        true
    }

    open spec fn eq_spec(&self, other: &Self) -> bool {
        numeric_key(self@) == numeric_key(other@)
    }
}

impl Float {
    #[verifier::type_invariant]
    spec fn finite(self) -> bool {
        is_finite_bits(self.0)
    }

    /// The value whose bit pattern is `bits`; NaN and the infinities are refused.
    pub fn try_from_bits(bits: u64) -> (r: Result<Self, DbError>)
        ensures
            r is Ok <==> is_finite_bits(bits),
            r matches Ok(f) ==> f@ == bits,
            r matches Err(e) ==> e is TypeMismatch,
    {
        if (bits >> 52u64) & 0x7ffu64 != 0x7ffu64 {
            Ok(Float(bits))
        } else {
            Err(DbError::type_mismatch("float must be finite (no NaN or infinity)"))
        }
    }

    pub fn to_bits(self) -> (r: u64)
        ensures
            r == self@,
            is_finite_bits(r),
    {
        proof {
            use_type_invariant(&self);
        }
        self.0
    }

    pub fn try_from_le_bytes(bytes: [u8; 8]) -> (r: Result<Self, DbError>)
        ensures
            r is Ok <==> is_finite_bits(spec_u64_from_le_bytes(bytes@)),
            r matches Ok(f) ==> f@ == spec_u64_from_le_bytes(bytes@),
            r matches Err(e) ==> e is TypeMismatch,
    {
        let bits = u64_from_le_bytes(bytes.as_slice());
        Self::try_from_bits(bits)
    }

    pub fn to_le_bytes(self) -> (r: [u8; 8])
        ensures
            r@ == spec_u64_to_le_bytes(self@),
    {
        let v = u64_to_le_bytes(self.0);
        let r = [v[0], v[1], v[2], v[3], v[4], v[5], v[6], v[7]];
        assert(r@ =~= v@);
        r
    }

    /// Whether the value is `0.0` or `-0.0`.
    pub fn is_zero(self) -> (r: bool)
        ensures
            r == (magnitude(self@) == 0),
    {
        self.0 % 0x8000_0000_0000_0000u64 == 0
    }

    /// The numeric-order key of the value (see [`numeric_key`]).
    pub fn numeric_key(self) -> (r: i64)
        ensures
            r == numeric_key(self@),
    {
        let m = self.0 % 0x8000_0000_0000_0000u64;
        if self.0 >= 0x8000_0000_0000_0000u64 {
            -(m as i64)
        } else {
            m as i64
        }
    }

    /// The `total_cmp` key of the value (see [`total_order_key`]).
    pub fn total_key(self) -> (r: i64)
        ensures
            r == total_order_key(self@),
    {
        let m = self.0 % 0x8000_0000_0000_0000u64;
        if self.0 >= 0x8000_0000_0000_0000u64 {
            -1 - (m as i64)
        } else {
            m as i64
        }
    }

    /// The IEEE total order of `f64::total_cmp`.
    pub fn total_cmp(&self, other: &Self) -> (r: Ordering)
        ensures
            (r == Ordering::Less) <==> total_order_key(self@) < total_order_key(other@),
            (r == Ordering::Equal) <==> total_order_key(self@) == total_order_key(other@),
            (r == Ordering::Greater) <==> total_order_key(self@) > total_order_key(other@),
    {
        let a = self.total_key();
        let b = other.total_key();
        if a < b {
            Ordering::Less
        } else if a == b {
            Ordering::Equal
        } else {
            Ordering::Greater
        }
    }
}

/// A text value.
#[derive(Debug, Clone, PartialEq, Eq, PartialOrd, Ord, Hash)]
pub struct Text(String);

impl View for Text {
    type V = Seq<char>;

    closed spec fn view(&self) -> Seq<char> {
        self.0@
    }
}

impl Text {
    pub fn new(value: String) -> (r: Self)
        ensures
            r@ == value@,
    {
        Text(value)
    }

    pub fn as_str(&self) -> (r: &str)
        ensures
            r@ == self@,
    {
        self.0.as_str()
    }

    /// The UTF-8 encoding of the text.
    pub fn as_bytes(&self) -> (r: &[u8])
        ensures
            r@ == vstd::utf8::encode_utf8(self@),
    {
        self.0.as_str().as_bytes()
    }

    pub fn duplicate(&self) -> (r: Self)
        ensures
            r@ == self@,
    {
        Text(self.0.clone())
    }
}

/// A binary value.
#[derive(Debug, Clone, PartialEq, Eq, PartialOrd, Ord, Hash)]
pub struct Blob(Vec<u8>);

impl View for Blob {
    type V = Seq<u8>;

    closed spec fn view(&self) -> Seq<u8> {
        self.0@
    }
}

impl Blob {
    pub fn new(value: Vec<u8>) -> (r: Self)
        ensures
            r@ == value@,
    {
        Blob(value)
    }

    pub fn as_slice(&self) -> (r: &[u8])
        ensures
            r@ == self@,
    {
        self.0.as_slice()
    }

    pub fn duplicate(&self) -> (r: Self)
        ensures
            r@ == self@,
    {
        Blob(self.0.clone())
    }

    /// A copy of the bytes.
    pub fn to_vec(&self) -> (r: Vec<u8>)
        ensures
            r@ == self@,
    {
        self.0.clone()
    }
}

} // verus!
