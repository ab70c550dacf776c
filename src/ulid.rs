use vstd::prelude::*;
use vstd::string::StringSliceAdditionalSpecFns;
use vstd::utf8::{encode_utf8, is_ascii_chars, is_ascii_chars_encode_utf8};

verus! {

/// `32^k`, the weight of the base-32 digit at position `k` (counted from the
/// least significant end).
pub open spec fn pow32(k: nat) -> nat
    decreases k,
{
    if k == 0 {
        1
    } else {
        32 * pow32((k - 1) as nat)
    }
}

/// The base-32 digit of `x` at position `k`, counted from the least
/// significant end.
pub open spec fn digit(x: nat, k: nat) -> nat {
    (x / pow32(k)) % 32
}

/// The 32 symbols of the canonical text form, in increasing digit order.
pub open spec fn symbols() -> Seq<char> {
    seq![
        '0', '1', '2', '3', '4', '5', '6', '7', '8', '9', 'A', 'B', 'C', 'D', 'E', 'F',
        'G', 'H', 'J', 'K', 'M', 'N', 'P', 'Q', 'R', 'S', 'T', 'V', 'W', 'X', 'Y', 'Z',
    ]
}

/// The canonical text of a 128-bit value: 26 symbols, one for each 5-bit
/// chunk, most significant chunk first.
pub open spec fn encode_spec(x: nat) -> Seq<char> {
    Seq::new(26, |i: int| symbols()[digit(x, (25 - i) as nat) as int])
}

proof fn lemma_pow32_pos(k: nat)
    ensures
        pow32(k) > 0,
    decreases k,
{
    if k > 0 {
        lemma_pow32_pos((k - 1) as nat);
    }
}

pub(crate) proof fn lemma_div_step(x: nat, k: nat)
    ensures
        x / pow32(k) / 32 == x / pow32(k + 1),
{
    lemma_pow32_pos(k);
    vstd::arithmetic::div_mod::lemma_div_denominator(x as int, pow32(k) as int, 32);
    assert(pow32(k + 1) == 32 * pow32(k));
    vstd::arithmetic::mul::lemma_mul_is_commutative(32, pow32(k) as int);
}

/// Canonical 26-symbol text of `value`.
pub fn encode(value: u128) -> (r: String)
    ensures
        r@ == encode_spec(value as nat),
{
    let mut digits: Vec<u8> = Vec::new();
    let mut v: u128 = value;
    assert(pow32(0) == 1);
    for i in 0..26usize
        invariant
            digits@.len() == i,
            v as nat == value as nat / pow32(i as nat),
            forall|j: int| 0 <= j < i ==> digits@[j] as nat == digit(value as nat, j as nat),
    {
        assert(v & 31 == v % 32) by (bit_vector);
        assert(v >> 5 == v / 32) by (bit_vector);
        digits.push((v & 31) as u8);
        proof {
            lemma_div_step(value as nat, i as nat);
        }
        v = v >> 5;
    }
    let alphabet = "0123456789ABCDEFGHJKMNPQRSTVWXYZ";
    proof {
        reveal_strlit("0123456789ABCDEFGHJKMNPQRSTVWXYZ");
        assert(alphabet@ =~= symbols());
    }
    let mut out = String::new();
    for i in 0..26usize
        invariant
            digits@.len() == 26,
            alphabet@ == symbols(),
            forall|j: int| 0 <= j < 26 ==> digits@[j] as nat == digit(value as nat, j as nat),
            out@ =~= encode_spec(value as nat).take(i as int),
    {
        let d = digits[25 - i] as usize;
        let s = alphabet.substring_char(d, d + 1);
        out.append(s);
        assert(out@ =~= encode_spec(value as nat).take(i + 1));
    }
    out
}


/// Error while reading the canonical text form.
#[derive(Debug, PartialEq, Eq, Structural, Hash, Copy, Clone)]
pub enum DecodeError {
    /// The text is not 26 bytes long.
    InvalidLength,
    /// A byte is not a symbol of the alphabet.
    InvalidChar,
}

impl DecodeError {
    /// A short description of the error.
    pub fn message(&self) -> (r: &'static str)
        ensures
            *self == DecodeError::InvalidLength ==> r@ == "invalid length"@,
            *self == DecodeError::InvalidChar ==> r@ == "invalid character"@,
    {
        match self {
            DecodeError::InvalidLength => "invalid length",
            DecodeError::InvalidChar => "invalid character",
        }
    }
}

/// `b` with a lower-case ASCII letter made upper case.
pub open spec fn upper(b: u8) -> nat {
    if 97 <= b <= 122 {
        (b - 32) as nat
    } else {
        b as nat
    }
}

/// Whether byte `b` spells digit `d`: it is `d`'s symbol, read without
/// regard to case.
pub open spec fn spells(b: u8, d: nat) -> bool {
    d < 32 && symbols()[d as int] as nat == upper(b)
}

/// The digit that byte `b` stands for: the index in the alphabet of its
/// upper-case form.  `I`, `L`, `O` and `U` are not symbols.
pub open spec fn digit_of(b: u8) -> Option<nat> {
    if exists|d: nat| spells(b, d) {
        Some(choose|d: nat| spells(b, d))
    } else {
        None
    }
}

/// The digit of `b` by the ranges of the alphabet.
spec fn digit_by_ranges(b: u8) -> Option<nat> {
    let u: nat = if 97 <= b <= 122 {
        (b - 32) as nat
    } else {
        b as nat
    };
    if 48 <= u <= 57 {
        Some((u - 48) as nat)
    } else if 65 <= u <= 72 {
        Some((u - 55) as nat)
    } else if 74 <= u <= 75 {
        Some((u - 56) as nat)
    } else if 77 <= u <= 78 {
        Some((u - 57) as nat)
    } else if 80 <= u <= 84 {
        Some((u - 58) as nat)
    } else if 86 <= u <= 90 {
        Some((u - 59) as nat)
    } else {
        None
    }
}

pub open spec fn all_digits(s: Seq<u8>) -> bool {
    forall|i: int| 0 <= i < s.len() ==> (#[trigger] digit_of(s[i])) is Some
}

/// The number that a sequence of digit bytes spells, most significant first.
pub open spec fn digits_value(s: Seq<u8>) -> nat
    decreases s.len(),
{
    if s.len() == 0 {
        0
    } else {
        digits_value(s.drop_last()) * 32 + match digit_of(s.last()) {
            Some(d) => d,
            None => 0,
        }
    }
}

/// `2^128`: the value read from 26 symbols is taken modulo this.
pub open spec fn u128_modulus() -> nat {
    u128::MAX as nat + 1
}

/// What reading the canonical text (as bytes) gives.
pub open spec fn decode_spec(s: Seq<u8>) -> Result<u128, DecodeError> {
    if s.len() != 26 {
        Err(DecodeError::InvalidLength)
    } else if !all_digits(s) {
        Err(DecodeError::InvalidChar)
    } else {
        Ok((digits_value(s) % u128_modulus()) as u128)
    }
}

proof fn lemma_symbol_code(d: nat)
    requires
        d < 32,
    ensures
        symbols()[d as int] as nat == symbol_code(d),
{
}

proof fn lemma_digit_of_ranges(b: u8)
    ensures
        digit_of(b) == digit_by_ranges(b),
{
    if exists|d: nat| spells(b, d) {
        let d = choose|d: nat| spells(b, d);
        lemma_symbol_code(d);
    } else {
        if let Some(d) = digit_by_ranges(b) {
            lemma_symbol_code(d);
            assert(spells(b, d));
        }
    }
}

fn digit_value(b: u8) -> (r: Option<u8>)
    ensures
        r matches Some(d) ==> digit_of(b) == Some(d as nat),
        r is None <==> digit_of(b) is None,
{
    proof {
        lemma_digit_of_ranges(b);
    }
    let u: u8 = if 97 <= b && b <= 122 {
        b - 32
    } else {
        b
    };
    if 48 <= u && u <= 57 {
        Some(u - 48)
    } else if 65 <= u && u <= 72 {
        Some(u - 55)
    } else if 74 <= u && u <= 75 {
        Some(u - 56)
    } else if 77 <= u && u <= 78 {
        Some(u - 57)
    } else if 80 <= u && u <= 84 {
        Some(u - 58)
    } else if 86 <= u && u <= 90 {
        Some(u - 59)
    } else {
        None
    }
}

proof fn lemma_shift_in(p: nat, v: nat, d: nat)
    requires
        v == p % u128_modulus(),
        d < 32,
    ensures
        (v % 0x800_0000_0000_0000_0000_0000_0000_0000) * 32 + d == (p * 32 + d) % u128_modulus(),
        (v % 0x800_0000_0000_0000_0000_0000_0000_0000) * 32 + d < u128_modulus(),
{
    let m: int = 0x800_0000_0000_0000_0000_0000_0000_0000;
    let q = p as int / m;
    let r = p as int % m;
    vstd::arithmetic::div_mod::lemma_fundamental_div_mod(p as int, m);
    vstd::arithmetic::div_mod::lemma_mod_mod(p as int, m, 32);
    assert(u128_modulus() == m * 32);
    assert(v as int % m == r);
    assert(p * 32 + d == q * u128_modulus() + (r * 32 + d)) by (nonlinear_arith)
        requires
            p == m * q + r,
            u128_modulus() == m * 32,
    ;
    assert(0 <= r * 32 + d < u128_modulus()) by (nonlinear_arith)
        requires
            0 <= r < m,
            d < 32,
            u128_modulus() == m * 32,
    ;
    vstd::arithmetic::div_mod::lemma_fundamental_div_mod_converse_mod(
        (p * 32 + d) as int,
        u128_modulus() as int,
        q,
        r * 32 + d,
    );
}

/// Reads the canonical text form; lower-case letters are accepted.
pub fn decode(encoded: &str) -> (r: Result<u128, DecodeError>)
    ensures
        r == decode_spec(encoded.spec_bytes()),
{
    let bytes = encoded.as_bytes();
    if bytes.len() != 26 {
        return Err(DecodeError::InvalidLength);
    }
    let ghost s = bytes@;
    let mut value: u128 = 0;
    for i in 0..26usize
        invariant
            s == bytes@,
            s == encoded.spec_bytes(),
            s.len() == 26,
            all_digits(s.take(i as int)),
            value as nat == digits_value(s.take(i as int)) % u128_modulus(),
    {
        match digit_value(bytes[i]) {
            Some(d) => {
                assert(s.take(i + 1).drop_last() =~= s.take(i as int));
                proof {
                    lemma_shift_in(digits_value(s.take(i as int)), value as nat, d as nat);
                }
                value = (value % 0x800_0000_0000_0000_0000_0000_0000_0000) * 32 + d as u128;
                assert(all_digits(s.take(i + 1))) by {
                    assert forall|j: int| 0 <= j < i + 1 implies (#[trigger] digit_of(
                        s.take(i + 1)[j],
                    )) is Some by {
                        if j < i {
                            assert(s.take(i + 1)[j] == s.take(i as int)[j]);
                        }
                    }
                }
            },
            None => {
                assert(digit_of(s[i as int]) is None);
                assert(!all_digits(s));
                return Err(DecodeError::InvalidChar);
            },
        }
    }
    assert(s.take(26) =~= s);
    Ok(value)
}


/// The character code of the symbol for digit `d`.
spec fn symbol_code(d: nat) -> nat {
    if d < 10 {
        48 + d
    } else if d < 18 {
        55 + d
    } else if d < 20 {
        56 + d
    } else if d < 22 {
        57 + d
    } else if d < 27 {
        58 + d
    } else {
        59 + d
    }
}

proof fn lemma_symbol_digit(d: nat)
    requires
        d < 32,
    ensures
        digit_of(symbols()[d as int] as u8) == Some(d),
        '0' <= symbols()[d as int] <= 'Z',
        symbols()[d as int] as nat == symbol_code(d),
{
    lemma_symbol_code(d);
    lemma_digit_of_ranges(symbols()[d as int] as u8);
}

proof fn lemma_pow32_26()
    ensures
        pow32(26) > u128::MAX,
{
    reveal_with_fuel(pow32, 27);
    assert(pow32(26) == 0x4_0000_0000_0000_0000_0000_0000_0000_0000);
}

proof fn lemma_prefix_value(x: nat, b: Seq<u8>, i: nat)
    requires
        x <= u128::MAX,
        b.len() == 26,
        i <= 26,
        forall|j: int| 0 <= j < 26 ==> #[trigger] digit_of(b[j]) == Some(digit(x, (25 - j) as nat)),
    ensures
        digits_value(b.take(i as int)) == x / pow32((26 - i) as nat),
    decreases i,
{
    if i == 0 {
        lemma_pow32_26();
        assert(b.take(0).len() == 0);
        vstd::arithmetic::div_mod::lemma_basic_div(x as int, pow32(26) as int);
    } else {
        let k = (26 - i) as nat;
        lemma_prefix_value(x, b, (i - 1) as nat);
        assert(b.take(i as int).drop_last() =~= b.take(i - 1));
        assert(b.take(i as int).last() == b[i - 1]);
        assert(digit_of(b[i - 1]) == Some(digit(x, k)));
        lemma_pow32_pos(k);
        let y = x / pow32(k);
        lemma_div_step(x, k);
        assert((k + 1) as nat == (26 - (i - 1)) as nat);
        vstd::arithmetic::div_mod::lemma_fundamental_div_mod(y as int, 32);
    }
}

/// Reading back the canonical text of any 128-bit value gives that value;
/// the text is always 26 symbols long.
pub proof fn lemma_decode_encode(x: u128)
    ensures
        encode_spec(x as nat).len() == 26,
        decode_spec(encode_utf8(encode_spec(x as nat))) == Ok::<u128, DecodeError>(x),
{
    let c = encode_spec(x as nat);
    assert forall|i: int| 0 <= i < c.len() implies '\0' <= #[trigger] c[i] <= '\u{7f}' by {
        lemma_symbol_digit(digit(x as nat, (25 - i) as nat));
    }
    assert(is_ascii_chars(c));
    is_ascii_chars_encode_utf8(c);
    let b = encode_utf8(c);
    assert forall|j: int| 0 <= j < 26 implies #[trigger] digit_of(b[j]) == Some(
        digit(x as nat, (25 - j) as nat),
    ) by {
        lemma_symbol_digit(digit(x as nat, (25 - j) as nat));
        assert(b[j] == c[j] as u8);
    }
    assert(all_digits(b));
    lemma_prefix_value(x as nat, b, 26);
    assert(b.take(26) =~= b);
    assert(pow32(0) == 1);
    assert(x as nat / 1 == x as nat);
    assert(digits_value(b) == x as nat);
    vstd::arithmetic::div_mod::lemma_small_mod(x as nat, u128_modulus());
    assert(b.len() == 26);
}


/// `a` comes strictly before `b` in lexicographic order.
pub open spec fn lex_lt(a: Seq<char>, b: Seq<char>) -> bool {
    ||| exists|i: int| 0 <= i < a.len() && i < b.len() && a.take(i) == b.take(i) && a[i] < b[i]
    ||| a.len() < b.len() && a == b.take(a.len() as int)
}

proof fn lemma_first_difference(x: nat, y: nat, k: nat)
    requires
        x < y <= u128::MAX,
        k < 26,
        x / pow32((26 - k) as nat) == y / pow32((26 - k) as nat),
        encode_spec(x).take(k as int) == encode_spec(y).take(k as int),
    ensures
        lex_lt(encode_spec(x), encode_spec(y)),
    decreases 26 - k,
{
    let ex = encode_spec(x);
    let ey = encode_spec(y);
    let e = (25 - k) as nat;
    let px = x / pow32(e);
    let py = y / pow32(e);
    lemma_pow32_pos(e);
    lemma_div_step(x, e);
    lemma_div_step(y, e);
    assert((e + 1) as nat == (26 - k) as nat);
    vstd::arithmetic::div_mod::lemma_fundamental_div_mod(px as int, 32);
    vstd::arithmetic::div_mod::lemma_fundamental_div_mod(py as int, 32);
    vstd::arithmetic::div_mod::lemma_div_is_ordered(x as int, y as int, pow32(e) as int);
    lemma_symbol_digit(px % 32);
    lemma_symbol_digit(py % 32);
    if px == py {
        assert(ex[k as int] == ey[k as int]);
        assert(ex.take((k + 1) as int) =~= ex.take(k as int).push(ex[k as int]));
        assert(ey.take((k + 1) as int) =~= ey.take(k as int).push(ey[k as int]));
        if k + 1 == 26 {
            assert(pow32(0) == 1);
            assert(x / 1 == x);
            assert(y / 1 == y);
        } else {
            lemma_first_difference(x, y, k + 1);
        }
    } else {
        assert(px % 32 < py % 32);
        assert(ex[k as int] < ey[k as int]);
    }
}

/// The canonical text preserves order: a smaller value has a
/// lexicographically smaller text.
pub proof fn lemma_encode_order(x: u128, y: u128)
    requires
        x < y,
    ensures
        lex_lt(encode_spec(x as nat), encode_spec(y as nat)),
{
    lemma_pow32_26();
    vstd::arithmetic::div_mod::lemma_basic_div(x as int, pow32(26) as int);
    vstd::arithmetic::div_mod::lemma_basic_div(y as int, pow32(26) as int);
    assert(encode_spec(x as nat).take(0) =~= encode_spec(y as nat).take(0));
    lemma_first_difference(x as nat, y as nat, 0);
}


/// `2^80`: the weight of the lowest millisecond bit.
pub open spec fn random_span() -> nat {
    0x1_0000_0000_0000_0000_0000
}

/// The millisecond field of an identifier: its top 48 bits.
pub open spec fn millis_of(v: u128) -> nat {
    v as nat / random_span()
}

/// The random field of an identifier: its low 80 bits.
pub open spec fn random_of(v: u128) -> nat {
    v as nat % random_span()
}

/// The 48 bits of a millisecond count that an identifier keeps.
pub open spec fn millis_bits(millis: i64) -> nat {
    (millis & 0xffff_ffff_ffff) as nat
}

/// An identifier made of a millisecond count and 80 random bits.
pub open spec fn compose(millis: i64, random: nat) -> nat {
    millis_bits(millis) * random_span() + random
}

/// What a generator whose last identifier is `prev` issues at time `millis`,
/// when a fresh draw would give the 80 bits `random`.
pub open spec fn generate_spec(prev: u128, millis: i64, random: nat) -> Result<u128, MonotonicError> {
    if millis <= millis_of(prev) {
        if random_of(prev) == random_span() - 1 {
            Err(MonotonicError::Overflow)
        } else {
            Ok((prev + 1) as u128)
        }
    } else {
        Ok(compose(millis, random) as u128)
    }
}

/// A 128-bit identifier: 48 bits of milliseconds, then 80 random bits.
#[derive(PartialOrd, Ord, PartialEq, Eq, Structural, Hash, Clone, Copy, Debug)]
pub struct Ulid {
    inner: u128,
}

impl View for Ulid {
    type V = u128;

    closed spec fn view(&self) -> u128 {
        self.inner
    }
}

/// Error while trying to generate a monotonic increment in the same millisecond.
#[derive(Debug, PartialEq, Eq, Structural, Hash, Copy, Clone)]
pub enum MonotonicError {
    /// Would overflow into the next millisecond.
    Overflow,
}

impl MonotonicError {
    /// A short description of the error.
    pub fn message(&self) -> (r: &'static str)
        ensures
            r@ == "Ulid random bits would overflow"@,
    {
        match self {
            MonotonicError::Overflow => "Ulid random bits would overflow",
        }
    }
}

impl From<u128> for Ulid {
    fn from(u: u128) -> (r: Ulid)
        ensures
            r@ == u,
    {
        Ulid { inner: u }
    }
}

impl vstd::std_specs::convert::FromSpecImpl<u128> for Ulid {
    open spec fn obeys_from_spec() -> bool {
        true
    }

    closed spec fn from_spec(u: u128) -> Ulid {
        Ulid { inner: u }
    }
}

impl std::str::FromStr for Ulid {
    type Err = DecodeError;

    fn from_str(s: &str) -> Result<Ulid, DecodeError> {
        Ulid::from_string(s)
    }
}

impl Default for Ulid {
    fn default() -> (r: Ulid)
        ensures
            r@ == 0,
    {
        Ulid { inner: 0 }
    }
}

impl Ulid {
    /// Builds an identifier from a millisecond count (its low 48 bits are kept)
    /// and 80 random bits, given as the high 16 and the low 64.
    pub fn from_datetime_with_source(millis: i64, rand_hi: u16, rand_lo: u64) -> (r: Ulid)
        ensures
            r@ == compose(millis, rand_hi as nat * 0x1_0000_0000_0000_0000 + rand_lo as nat),
    {
        let timebits = millis & 0xffff_ffff_ffff;
        assert(0 <= millis & 0xffff_ffff_ffff <= 0xffff_ffff_ffff) by (bit_vector);
        let inner = (timebits as u128) * 0x1_0000_0000_0000_0000_0000 + (rand_hi as u128)
            * 0x1_0000_0000_0000_0000 + rand_lo as u128;
        Ulid { inner }
    }

    /// The identifier one above this one, unless that would carry out of
    /// the random field.
    fn increment(&self) -> (r: Option<Ulid>)
        ensures
            random_of(self@) == random_span() - 1 ==> r is None,
            random_of(self@) != random_span() - 1 ==> r == Some(Ulid { inner: (self@ + 1) as u128 }),
    {
        let low = self.inner & 0xffff_ffff_ffff_ffff_ffff;
        let v = self.inner;
        assert(v & 0xffff_ffff_ffff_ffff_ffff == v % 0x1_0000_0000_0000_0000_0000) by (bit_vector);
        if low == 0xffff_ffff_ffff_ffff_ffff {
            None
        } else {
            assert(v < u128::MAX) by {
                assert(u128::MAX as nat % random_span() == random_span() - 1);
            }
            Some(Ulid { inner: self.inner + 1 })
        }
    }

    /// Reads an identifier from its canonical text.
    pub fn from_string(input: &str) -> (r: Result<Ulid, DecodeError>)
        ensures
            match decode_spec(input.spec_bytes()) {
                Ok(v) => r matches Ok(u) && u@ == v,
                Err(e) => r == Err::<Ulid, DecodeError>(e),
            },
    {
        match decode(input) {
            Ok(v) => Ok(Ulid { inner: v }),
            Err(e) => Err(e),
        }
    }

    pub fn from_u128(inner: u128) -> (r: Ulid)
        ensures
            r@ == inner,
    {
        Ulid { inner }
    }

    /// The value as an unsigned 128-bit integer.
    pub fn as_u128(&self) -> (r: u128)
        ensures
            r == self@,
    {
        self.inner
    }

    /// The millisecond field.
    pub fn timestamp_millis(&self) -> (r: i64)
        ensures
            r as int == millis_of(self@),
    {
        let v = self.inner;
        assert(v >> 80 == v / 0x1_0000_0000_0000_0000_0000) by (bit_vector);
        assert(v >> 80 <= 0xffff_ffff_ffff) by (bit_vector);
        (self.inner >> 80) as i64
    }

    /// The canonical text.
    pub fn to_string(&self) -> (r: String)
        ensures
            r@ == encode_spec(self@ as nat),
    {
        encode(self.inner)
    }
}


/// Relies on rand::random: a value drawn from the thread-local generator.
/// Nothing is promised of it.
pub assume_specification<T>[ rand::random::<T> ]() -> (r: T)
    where
        rand::distributions::Standard: rand::distributions::Distribution<T>,
;

/// Relies on chrono::Utc::now and DateTime::timestamp_millis: the current
/// time in milliseconds since the Unix epoch.  Nothing is promised of it.
#[verifier::external_body]
pub(crate) fn now_millis() -> (r: i64) {
    chrono::Utc::now().timestamp_millis()
}

/// A generation result with the identifier seen as its value.
pub open spec fn view_result(r: Result<Ulid, MonotonicError>) -> Result<u128, MonotonicError> {
    match r {
        Ok(u) => Ok(u@),
        Err(e) => Err(e),
    }
}

/// Issues strictly increasing identifiers.
pub struct UlidGenerator {
    previous: Ulid,
}

impl View for UlidGenerator {
    type V = u128;

    /// The identifier issued last (zero before the first).
    closed spec fn view(&self) -> u128 {
        self.previous@
    }
}

impl Default for UlidGenerator {
    fn default() -> (r: UlidGenerator)
        ensures
            r@ == 0,
    {
        UlidGenerator { previous: Ulid { inner: 0 } }
    }
}

impl UlidGenerator {
    pub fn new() -> (r: UlidGenerator)
        ensures
            r@ == 0,
    {
        UlidGenerator { previous: Ulid { inner: 0 } }
    }

    /// Issues an identifier for the current time.
    pub fn generate(&mut self) -> (r: Result<Ulid, MonotonicError>)
        ensures
            exists|millis: i64, random: nat|
                random < random_span() && #[trigger] generate_spec(old(self)@, millis, random)
                    == view_result(r),
            r matches Ok(u) ==> final(self)@ == u@,
            r is Err ==> final(self)@ == old(self)@,
    {
        self.generate_from_datetime(now_millis())
    }

    /// Issues an identifier for time `millis`, drawing fresh random bits
    /// when they are needed.
    pub fn generate_from_datetime(&mut self, millis: i64) -> (r: Result<Ulid, MonotonicError>)
        ensures
            exists|random: nat|
                random < random_span() && #[trigger] generate_spec(old(self)@, millis, random)
                    == view_result(r),
            r matches Ok(u) ==> final(self)@ == u@,
            r is Err ==> final(self)@ == old(self)@,
    {
        let rand_hi: u16 = rand::random();
        let rand_lo: u64 = rand::random();
        let r = self.generate_from_datetime_with_source(millis, rand_hi, rand_lo);
        assert(generate_spec(
            old(self)@,
            millis,
            rand_hi as nat * 0x1_0000_0000_0000_0000 + rand_lo as nat,
        ) == view_result(r));
        r
    }

    /// Issues an identifier for time `millis`.  When the time is not past
    /// the last identifier's millisecond, the last identifier plus one is
    /// issued (or `Overflow` when its random field is full); otherwise the
    /// time and the 80 bits `rand_hi`, `rand_lo` make the new identifier.
    pub fn generate_from_datetime_with_source(
        &mut self,
        millis: i64,
        rand_hi: u16,
        rand_lo: u64,
    ) -> (r: Result<Ulid, MonotonicError>)
        ensures
            generate_spec(old(self)@, millis, rand_hi as nat * 0x1_0000_0000_0000_0000 + rand_lo as nat)
                == view_result(r),
            r matches Ok(u) ==> final(self)@ == u@,
            r is Err ==> final(self)@ == old(self)@,
    {
        let last_millis = self.previous.timestamp_millis();
        if millis <= last_millis {
            match self.previous.increment() {
                Some(next) => {
                            self.previous = next;
                    Ok(next)
                },
                None => Err(MonotonicError::Overflow),
            }
        } else {
            let next = Ulid::from_datetime_with_source(millis, rand_hi, rand_lo);
            self.previous = next;
            Ok(next)
        }
    }
}


proof fn lemma_millis_bits_small(millis: i64)
    requires
        0 <= millis < 0x1_0000_0000_0000,
    ensures
        millis_bits(millis) == millis,
{
    assert(millis & 0xffff_ffff_ffff == millis) by (bit_vector)
        requires
            0 <= millis < 0x1_0000_0000_0000,
    ;
}

/// Every identifier a generator issues is strictly above the one it issued
/// before, and its canonical text is lexicographically above that one's.
/// This holds for every time below `2^48` milliseconds, whatever the random
/// bits.
pub proof fn lemma_generate_increases(prev: u128, millis: i64, random: nat)
    requires
        random < random_span(),
        millis < 0x1_0000_0000_0000,
    ensures
        generate_spec(prev, millis, random) matches Ok(v) ==> prev < v && lex_lt(
            encode_spec(prev as nat),
            encode_spec(v as nat),
        ),
{
    if let Ok(v) = generate_spec(prev, millis, random) {
        if millis > millis_of(prev) {
            lemma_millis_bits_small(millis);
            let m = millis_of(prev);
            vstd::arithmetic::div_mod::lemma_fundamental_div_mod(prev as int, random_span() as int);
            assert(prev < (m + 1) * random_span()) by (nonlinear_arith)
                requires
                    prev == random_span() * m + random_of(prev),
                    random_of(prev) < random_span(),
            ;
            assert((m + 1) * random_span() <= millis * random_span()) by (nonlinear_arith)
                requires
                    m + 1 <= millis,
            ;
        }
        lemma_encode_order(prev, v);
    }
}

/// The state of a generator that started at `prev` after a run of requests,
/// request `k` made at time `times[k]` with fresh random bits `randoms[k]`.
pub open spec fn run_state(prev: u128, times: Seq<i64>, randoms: Seq<nat>) -> u128
    decreases times.len(),
{
    if times.len() == 0 || randoms.len() < times.len() {
        prev
    } else {
        let before = run_state(prev, times.drop_last(), randoms);
        match generate_spec(before, times.last(), randoms[times.len() - 1]) {
            Ok(v) => v,
            Err(_) => before,
        }
    }
}

/// The identifiers issued during such a run, in order (failed requests
/// issue none).
pub open spec fn run_issued(prev: u128, times: Seq<i64>, randoms: Seq<nat>) -> Seq<u128>
    decreases times.len(),
{
    if times.len() == 0 || randoms.len() < times.len() {
        Seq::empty()
    } else {
        let before = run_state(prev, times.drop_last(), randoms);
        let issued = run_issued(prev, times.drop_last(), randoms);
        match generate_spec(before, times.last(), randoms[times.len() - 1]) {
            Ok(v) => issued.push(v),
            Err(_) => issued,
        }
    }
}

proof fn lemma_run_bounded(prev: u128, times: Seq<i64>, randoms: Seq<nat>)
    requires
        forall|k: int| 0 <= k < times.len() ==> times[k] < 0x1_0000_0000_0000,
        forall|k: int| 0 <= k < randoms.len() ==> randoms[k] < random_span(),
    ensures
        forall|k: int|
            0 <= k < run_issued(prev, times, randoms).len() ==> run_issued(prev, times, randoms)[k]
                <= run_state(prev, times, randoms),
        forall|i: int, j: int|
            0 <= i < j < run_issued(prev, times, randoms).len() ==> run_issued(prev, times, randoms)[i]
                < run_issued(prev, times, randoms)[j],
    decreases times.len(),
{
    if times.len() > 0 && randoms.len() >= times.len() {
        let t = times.drop_last();
        assert forall|k: int| 0 <= k < t.len() implies t[k] < 0x1_0000_0000_0000 by {
            assert(t[k] == times[k]);
        }
        lemma_run_bounded(prev, t, randoms);
        let before = run_state(prev, t, randoms);
        let issued = run_issued(prev, t, randoms);
        let r = randoms[times.len() - 1];
        assert(r < random_span());
        lemma_generate_increases(before, times.last(), r);
        match generate_spec(before, times.last(), r) {
            Ok(v) => {
                assert(run_issued(prev, times, randoms) == issued.push(v));
                assert(run_state(prev, times, randoms) == v);
                assert(before < v);
            },
            Err(_) => {
                assert(run_issued(prev, times, randoms) == issued);
                assert(run_state(prev, times, randoms) == before);
            },
        }
    }
}

/// For any run of requests at times below `2^48` milliseconds, the
/// identifiers issued are strictly increasing, and so are their canonical
/// texts, lexicographically.
pub proof fn lemma_run_increasing(prev: u128, times: Seq<i64>, randoms: Seq<nat>, i: int, j: int)
    requires
        forall|k: int| 0 <= k < times.len() ==> times[k] < 0x1_0000_0000_0000,
        forall|k: int| 0 <= k < randoms.len() ==> randoms[k] < random_span(),
        0 <= i < j < run_issued(prev, times, randoms).len(),
    ensures
        run_issued(prev, times, randoms)[i] < run_issued(prev, times, randoms)[j],
        lex_lt(
            encode_spec(run_issued(prev, times, randoms)[i] as nat),
            encode_spec(run_issued(prev, times, randoms)[j] as nat),
        ),
{
    lemma_run_bounded(prev, times, randoms);
    lemma_encode_order(run_issued(prev, times, randoms)[i], run_issued(prev, times, randoms)[j]);
}

/// Two identifiers asked for at the same millisecond: the second is the
/// first plus one, or, when the first's random field is full, the second
/// request fails with `Overflow`.
pub proof fn lemma_same_millisecond(prev: u128, millis: i64, r1: nat, r2: nat)
    requires
        r1 < random_span(),
        r2 < random_span(),
        millis < 0x1_0000_0000_0000,
        generate_spec(prev, millis, r1) is Ok,
    ensures
        ({
            let v = generate_spec(prev, millis, r1)->Ok_0;
            &&& random_of(v) != random_span() - 1 ==> generate_spec(v, millis, r2) == Ok::<
                u128,
                MonotonicError,
            >((v + 1) as u128)
            &&& random_of(v) == random_span() - 1 ==> generate_spec(v, millis, r2) == Err::<
                u128,
                MonotonicError,
            >(MonotonicError::Overflow)
        }),
{
    let v = generate_spec(prev, millis, r1)->Ok_0;
    let s = random_span() as int;
    if millis > millis_of(prev) {
        lemma_millis_bits_small(millis);
        vstd::arithmetic::div_mod::lemma_fundamental_div_mod_converse_div(
            v as int,
            s,
            millis as int,
            r1 as int,
        );
    } else {
        let m = millis_of(prev);
        vstd::arithmetic::div_mod::lemma_fundamental_div_mod(prev as int, s);
        vstd::arithmetic::div_mod::lemma_fundamental_div_mod_converse_div(
            v as int,
            s,
            m as int,
            random_of(prev) + 1 as int,
        );
    }
}


/// Every symbol of a canonical text is a digit or an upper-case letter.
pub proof fn lemma_encode_symbol_range(x: nat, t: int)
    requires
        0 <= t < 26,
    ensures
        '0' <= encode_spec(x)[t] <= 'Z',
{
    lemma_symbol_digit(digit(x, (25 - t) as nat));
}


proof fn lemma_pow32_adds(a: nat, b: nat)
    ensures
        pow32(a + b) == pow32(a) * pow32(b),
    decreases b,
{
    if b == 0 {
        assert(pow32(0) == 1);
        assert(a + b == a);
    } else {
        lemma_pow32_adds(a, (b - 1) as nat);
        assert(pow32(a + b) == 32 * pow32((a + b - 1) as nat));
        assert(pow32(b) == 32 * pow32((b - 1) as nat));
        vstd::arithmetic::mul::lemma_mul_is_associative(32, pow32(a) as int, pow32((b - 1) as nat) as int);
        vstd::arithmetic::mul::lemma_mul_is_commutative(32, pow32(a) as int);
        vstd::arithmetic::mul::lemma_mul_is_associative(pow32(a) as int, 32, pow32((b - 1) as nat) as int);
    }
}

/// The first `n` symbols of two canonical texts agree exactly when the two
/// values agree above their lowest `26 - n` base-32 digits.
pub proof fn lemma_prefix_digits(x: u128, y: u128, n: nat)
    requires
        n <= 26,
    ensures
        encode_spec(x as nat).take(n as int) == encode_spec(y as nat).take(n as int) <==> x as nat
            / pow32((26 - n) as nat) == y as nat / pow32((26 - n) as nat),
{
    let m = (26 - n) as nat;
    let ex = encode_spec(x as nat);
    let ey = encode_spec(y as nat);
    let bx = Seq::new(26, |i: int| ex[i] as u8);
    let by = Seq::new(26, |i: int| ey[i] as u8);
    assert forall|j: int| 0 <= j < 26 implies #[trigger] digit_of(bx[j]) == Some(
        digit(x as nat, (25 - j) as nat),
    ) by {
        lemma_symbol_digit(digit(x as nat, (25 - j) as nat));
    }
    assert forall|j: int| 0 <= j < 26 implies #[trigger] digit_of(by[j]) == Some(
        digit(y as nat, (25 - j) as nat),
    ) by {
        lemma_symbol_digit(digit(y as nat, (25 - j) as nat));
    }
    lemma_prefix_value(x as nat, bx, n);
    lemma_prefix_value(y as nat, by, n);
    if ex.take(n as int) == ey.take(n as int) {
        assert forall|i: int| 0 <= i < n implies bx.take(n as int)[i] == by.take(n as int)[i] by {
            assert(ex.take(n as int)[i] == ey.take(n as int)[i]);
        }
        assert(bx.take(n as int) =~= by.take(n as int));
    }
    if x as nat / pow32(m) == y as nat / pow32(m) {
        assert forall|i: int| 0 <= i < n implies ex.take(n as int)[i] == ey.take(n as int)[i] by {
            let k = (25 - i) as nat;
            let extra = (k - m) as nat;
            lemma_pow32_adds(m, extra);
            lemma_pow32_pos(m);
            lemma_pow32_pos(extra);
            vstd::arithmetic::div_mod::lemma_div_denominator(x as int, pow32(m) as int, pow32(extra) as int);
            vstd::arithmetic::div_mod::lemma_div_denominator(y as int, pow32(m) as int, pow32(extra) as int);
            assert(m + extra == k);
            assert(digit(x as nat, k) == digit(y as nat, k));
        }
        assert(ex.take(n as int) =~= ey.take(n as int));
    }
}

} // verus!
