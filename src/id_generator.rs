use vstd::arithmetic::power2::pow2;
use vstd::prelude::*;

use crate::ulid::{lemma_div_step, now_millis, pow32};

verus! {

/// The plain alphabet, in digit order; handy for reading identifiers.
pub const ALPHABET: &'static str = "abcdefghijklmnopqrstuvwxyzABCDEFGHIJKLMNOPQRSTUVWXYZ0123456789_-";

/// The alphabet used for issued identifiers, shuffled so that patterns are
/// harder to see.
pub const CRAZY_ALPHABET: &'static str = "pm1otTq7cI4J9Oy_Fd2aQezXVU5S3gYlrxnv6fPshHGRDbWjkuiLZ80wBNA-KCME";

/// Seconds that fit in the 30 time bits of an identifier.
pub const MAX_SECONDS: u32 = 0x4000_0000;

/// 2020-01-01T00:00:00Z in seconds since the Unix epoch: time zero of the
/// identifiers.
pub const OUR_EPOCH_SECONDS: i64 = 1577836800;

/// The alphabet index of the symbol at position `i` of an identifier,
/// counted from its last symbol.  The last six symbols carry five bits of
/// the time each, least significant first, and one random bit; the others
/// carry six random bits each.
pub open spec fn symbol_index(ts: nat, rn: nat, i: nat) -> nat {
    if i < 6 {
        (ts / pow32(i)) % 32 * 2 + (rn / pow2(i)) % 2
    } else {
        (rn / pow2(6 * (i - 5) as nat)) % 64
    }
}

/// The identifier of `len` symbols for time `ts` and random bits `rn`.
pub open spec fn id_spec(alpha: Seq<char>, len: nat, ts: nat, rn: nat) -> Seq<char> {
    Seq::new(len, |j: int| alpha[symbol_index(ts, rn, (len - 1 - j) as nat) as int])
}

proof fn lemma_pow2_step(rn: nat, k: nat, b: nat)
    requires
        b == 1 || b == 6,
    ensures
        rn / pow2(k) / pow2(b) == rn / pow2(k + b),
        pow2(b) == if b == 1 { 2nat } else { 64nat },
{
    vstd::arithmetic::power2::lemma2_to64();
    vstd::arithmetic::power2::lemma_pow2_pos(k);
    vstd::arithmetic::power2::lemma_pow2_pos(b);
    vstd::arithmetic::power2::lemma_pow2_adds(k, b);
    vstd::arithmetic::div_mod::lemma_div_denominator(rn as int, pow2(k) as int, pow2(b) as int);
}

/// Builds an identifier of `len` symbols of `alpha` from the time `ts`
/// (seconds since time zero) and the random bits `rn`.
pub fn id_from_ts_and_random(alpha: &str, len: usize, ts: u32, rn: u32) -> (r: String)
    requires
        ts < MAX_SECONDS,
        alpha@.len() == 64,
        alpha.is_ascii(),
    ensures
        r@ == id_spec(alpha@, len as nat, ts as nat, rn as nat),
{
    let mut vals: Vec<u8> = Vec::new();
    let mut ts_value: u32 = ts;
    let mut rn_value: u32 = rn;
    assert(pow32(0) == 1);
    assert(pow2(0) == 1) by {
        vstd::arithmetic::power2::lemma2_to64();
    }
    for i in 0..len
        invariant
            vals@.len() == i,
            i <= 6 ==> ts_value as nat == ts as nat / pow32(i as nat),
            i <= 6 ==> rn_value as nat == rn as nat / pow2(i as nat),
            i > 6 ==> rn_value as nat == rn as nat / pow2(6 * (i - 5) as nat),
            forall|j: int| 0 <= j < i ==> vals@[j] as nat == symbol_index(ts as nat, rn as nat, j as nat),
    {
        let v: u32;
        if i < 6 {
            let t = ts_value;
            let n = rn_value;
            assert(t & 0x1f == t % 32) by (bit_vector);
            assert(n & 1 == n % 2) by (bit_vector);
            assert(((t & 0x1f) << 1u32) | (n & 1) == (t & 0x1f) * 2 + (n & 1)) by (bit_vector);
            assert(t >> 5u32 == t / 32) by (bit_vector);
            assert(n >> 1u32 == n / 2) by (bit_vector);
            v = ((ts_value & 0x1f) << 1u32) | (rn_value & 0x01);
            ts_value = ts_value >> 5u32;
            rn_value = rn_value >> 1u32;
            proof {
                lemma_div_step(ts as nat, i as nat);
                lemma_pow2_step(rn as nat, i as nat, 1);
            }
        } else {
            let n = rn_value;
            assert(n & 0x3f == n % 64) by (bit_vector);
            assert(n >> 6u32 == n / 64) by (bit_vector);
            v = rn_value & 0x3f;
            rn_value = rn_value >> 6u32;
            proof {
                if i == 6 {
                    assert(6 * (6 - 5) == 6);
                } else {
                    assert(6 * (i - 5) + 6 == 6 * (i + 1 - 5));
                }
                lemma_pow2_step(rn as nat, (6 * (i - 5)) as nat, 6);
            }
        }
        vals.push(v as u8);
    }
    let mut out = String::new();
    for j in 0..len
        invariant
            vals@.len() == len,
            forall|k: int| 0 <= k < len ==> vals@[k] as nat == symbol_index(ts as nat, rn as nat, k as nat),
            forall|k: int| 0 <= k < len ==> vals@[k] < 64,
            alpha@.len() == 64,
            alpha.is_ascii(),
            out@ =~= id_spec(alpha@, len as nat, ts as nat, rn as nat).take(j as int),
    {
        let idx = vals[len - 1 - j] as usize;
        out.append(alpha.substring_ascii(idx, idx + 1));
        assert(out@ =~= id_spec(alpha@, len as nat, ts as nat, rn as nat).take(j + 1));
    }
    assert(out@ =~= id_spec(alpha@, len as nat, ts as nat, rn as nat));
    out
}


/// Issues short identifiers of a fixed length.
#[derive(Clone)]
pub struct IdGenerator {
    len: u8,
}

impl View for IdGenerator {
    type V = nat;

    /// The length of the identifiers issued.
    closed spec fn view(&self) -> nat {
        self.len as nat
    }
}

impl IdGenerator {
    /// A generator of identifiers of `len` symbols; `len` must be from 7
    /// to 20.
    pub fn new(len: u8) -> (r: IdGenerator)
        requires
            6 < len <= 20,
        ensures
            r@ == len,
    {
        IdGenerator { len }
    }

    /// The identifier for the time `now_millis` (milliseconds since the Unix
    /// epoch) and the random bits `rn`; `None` when the time is before time
    /// zero or its seconds do not fit in the time bits.
    pub fn gen_id_at(&self, now_millis: i64, rn: u32) -> (r: Option<String>)
        ensures
            now_millis < OUR_EPOCH_SECONDS * 1000 ==> r is None,
            now_millis >= OUR_EPOCH_SECONDS * 1000 ==> {
                let ts = (now_millis - OUR_EPOCH_SECONDS * 1000) / 1000;
                &&& ts >= MAX_SECONDS ==> r is None
                &&& ts < MAX_SECONDS ==> (r matches Some(s) && s@ == id_spec(
                    CRAZY_ALPHABET@,
                    self@,
                    ts as nat,
                    rn as nat,
                ))
            },
    {
        if now_millis < OUR_EPOCH_SECONDS * 1000 {
            return None;
        }
        let ts = (now_millis - OUR_EPOCH_SECONDS * 1000) / 1000;
        if ts >= MAX_SECONDS as i64 {
            return None;
        }
        proof {
            reveal_strlit("pm1otTq7cI4J9Oy_Fd2aQezXVU5S3gYlrxnv6fPshHGRDbWjkuiLZ80wBNA-KCME");
        }
        assert(CRAZY_ALPHABET@.len() == 64);
        assert(CRAZY_ALPHABET.is_ascii());
        Some(id_from_ts_and_random(CRAZY_ALPHABET, self.len as usize, ts as u32, rn))
    }

    /// An identifier for the current time and fresh random bits; `None`
    /// when the clock is outside the range that identifiers can hold.
    pub fn gen_id(&self) -> (r: Option<String>)
        ensures
            r matches Some(s) ==> exists|ts: nat, rn: nat|
                ts < MAX_SECONDS && rn <= u32::MAX && s@ == #[trigger] id_spec(
                    CRAZY_ALPHABET@,
                    self@,
                    ts,
                    rn,
                ),
    {
        let rn: u32 = rand::random();
        self.gen_id_at(now_millis(), rn)
    }
}

} // verus!
