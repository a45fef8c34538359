//! Small shared utilities: a clock-of-day formatter, a seeded pseudo-random
//! generator, two-digit log formatting, and a map keyed by enum variant.

use vstd::prelude::*;
use vstd::string::StringExecFns;
use vstd::arithmetic::div_mod::lemma_fundamental_div_mod;

use crate::numeral::{dec_chars, dec_digits, is_digit, lemma_dec_chars, lemma_dec_digits_token,
    u64_to_dec};

verus! {

/// Clock-of-day arithmetic for log timestamps. The caller supplies the
/// current unix epoch (in seconds); what reads the machine's clock stays
/// outside this crate.
pub struct Time;

impl Time {
    /// Hour, minute and second of the day for the given epoch, the hour
    /// displaced two hours east of UTC as the logs expect.
    pub fn hour(unix_epoch: usize) -> (r: (u8, u8, u8))
        ensures
            r.0 == (unix_epoch / 3600 + 2) % 24,
            r.1 == (unix_epoch / 60) % 60,
            r.2 == unix_epoch % 60,
    {
        proof {
            lemma_fundamental_div_mod(unix_epoch as int, 3600);
        }
        (
            ((unix_epoch / 3600 + 2) % 24) as u8,
            ((unix_epoch / 60) % 60) as u8,
            (unix_epoch % 60) as u8,
        )
    }
}

/// Multiplier of the linear congruential step.
pub const LCG_MULTIPLIER: u64 = 6364136223846793005;

/// Increment of the linear congruential step.
pub const LCG_INCREMENT: u64 = 1442695040888963407;

/// One step of the 64-bit linear congruential generator.
pub open spec fn lcg_next(s: u64) -> u64 {
    vstd::wrapping::u64_specs::wrapping_add(
        vstd::wrapping::u64_specs::wrapping_mul(s, LCG_MULTIPLIER),
        LCG_INCREMENT,
    )
}

/// The number drawn from a generator state: its high 32 bits.
pub open spec fn draw_of(s: u64) -> int {
    s as int / 4294967296
}

/// A deterministic pseudo-random generator (a 64-bit linear congruential
/// step), seeded explicitly so that runs can be reproduced.
#[derive(Debug)]
pub struct Random {
    pub state: u64,
}

impl Random {
    /// A generator starting from the given seed.
    pub fn seed(seed: usize) -> (r: Random)
        ensures
            r.state == seed as u64,
    {
        Random { state: seed as u64 }
    }

    /// The next pseudo-random number: the high half of the stepped state.
    pub fn any(&mut self) -> (r: usize)
        ensures
            final(self).state == lcg_next(old(self).state),
            r == draw_of(final(self).state),
    {
        self.state = self.state.wrapping_mul(LCG_MULTIPLIER).wrapping_add(LCG_INCREMENT);
        let hi = self.state / 4294967296;
        proof {
            lemma_fundamental_div_mod(self.state as int, 4294967296);
        }
        hi as usize
    }

    /// The next pseudo-random number below `i`.
    pub fn max(&mut self, i: usize) -> (r: usize)
        requires
            i > 0,
        ensures
            final(self).state == lcg_next(old(self).state),
            r == draw_of(lcg_next(old(self).state)) % (i as int),
            r < i,
    {
        self.any() % i
    }

    /// The next pseudo-random number in `min..max`.
    pub fn between(&mut self, min: usize, max: usize) -> (r: usize)
        requires
            min < max,
        ensures
            final(self).state == lcg_next(old(self).state),
            r == min + draw_of(lcg_next(old(self).state)) % (max - min),
            min <= r < max,
    {
        self.max(max - min) + min
    }
}

/// The text of one decimal digit.
fn digit_str(d: u8) -> (r: &'static str)
    requires
        is_digit(d),
    ensures
        r@ == seq![d as char],
{
    if d == 48 {
        proof {
            reveal_strlit("0");
        }
        "0"
    } else if d == 49 {
        proof {
            reveal_strlit("1");
        }
        "1"
    } else if d == 50 {
        proof {
            reveal_strlit("2");
        }
        "2"
    } else if d == 51 {
        proof {
            reveal_strlit("3");
        }
        "3"
    } else if d == 52 {
        proof {
            reveal_strlit("4");
        }
        "4"
    } else if d == 53 {
        proof {
            reveal_strlit("5");
        }
        "5"
    } else if d == 54 {
        proof {
            reveal_strlit("6");
        }
        "6"
    } else if d == 55 {
        proof {
            reveal_strlit("7");
        }
        "7"
    } else if d == 56 {
        proof {
            reveal_strlit("8");
        }
        "8"
    } else {
        proof {
            reveal_strlit("9");
        }
        "9"
    }
}

/// The decimal text of `n`.
fn u8_to_string(n: u8) -> (s: String)
    ensures
        s@ == dec_chars(n as nat),
{
    proof {
        lemma_dec_digits_token(n as nat);
        lemma_dec_chars(n as nat);
    }
    let digits = u64_to_dec(n as u64);
    let mut s = String::new();
    let mut i: usize = 0;
    while i < digits.len()
        invariant
            0 <= i <= digits@.len(),
            digits@ == dec_digits(n as nat),
            forall|j: int| 0 <= j < digits@.len() ==> is_digit(#[trigger] digits@[j]),
            dec_chars(n as nat).len() == digits@.len(),
            forall|j: int|
                0 <= j < digits@.len() ==> #[trigger] dec_chars(n as nat)[j] == digits@[j] as char,
            s@.len() == i,
            forall|j: int| 0 <= j < i ==> #[trigger] s@[j] == digits@[j] as char,
        decreases digits@.len() - i,
    {
        let piece = digit_str(digits[i]);
        s.append(piece);
        i = i + 1;
    }
    proof {
        assert(s@ =~= dec_chars(n as nat));
    }
    s
}

/// Two log "digits" of `n` in base `base`, each written as decimal text: the
/// higher digit `(n / base) % base`, then the lower digit `n % base`.
pub fn base_format(n: u8, base: u8) -> (r: String)
    requires
        base > 0,
    ensures
        r@ == dec_chars(((n / base) % base) as nat) + dec_chars((n % base) as nat),
{
    let s1 = u8_to_string((n / base) % base);
    let s2 = u8_to_string(n % base);
    s1.concat(s2.as_str())
}

/// Fallback behaviour a controllable thing runs when nothing drives it.
pub trait DefaultBehaviour {
    fn default_behaviour(&mut self);
}

/// Something that reacts to input events each tick; returns whether any
/// event was handled.
pub trait Controlable {
    fn handle_events(&mut self) -> bool;
}

/// Relies on `core::mem::discriminant`: a discriminant identifies an enum
/// value's variant, so equal values always have equal discriminants.
#[verifier::external_body]
fn variant_eq<K>(a: &K, b: &K) -> (r: bool)
    ensures
        a == b ==> r,
{
    core::mem::discriminant(a) == core::mem::discriminant(b)
}

/// A little association list keyed by enum variant: a lookup finds the first
/// entry whose key is the same variant as the query, whatever its fields.
/// Which variant a key is cannot be said in a contract, so the contracts
/// promise what they can: pushes are exact, a hit returns a stored value,
/// and a key that is present (equal, not merely variant-equal) is found.
#[derive(Clone, Debug)]
pub struct DiscriminantMap<Key, Value> {
    pub data: Vec<(Key, Value)>,
}

impl<Key, Value> Default for DiscriminantMap<Key, Value> {
    fn default() -> (r: Self)
        ensures
            r.data@ == Seq::<(Key, Value)>::empty(),
    {
        DiscriminantMap { data: Vec::new() }
    }
}

impl<Key, Value> DiscriminantMap<Key, Value> {
    /// Append an entry.
    pub fn push(&mut self, key: Key, value: Value)
        ensures
            final(self).data@ == old(self).data@.push((key, value)),
    {
        self.data.push((key, value));
    }

    /// The first stored value whose key is the query's variant.
    pub fn get(&self, what: &Key) -> (r: Option<&Value>)
        ensures
            r matches Some(v) ==> exists|i: int|
                0 <= i < self.data@.len() && *v == (#[trigger] self.data@[i]).1,
            (exists|i: int| 0 <= i < self.data@.len() && (#[trigger] self.data@[i]).0 == *what)
                ==> r is Some,
    {
        let mut i: usize = 0;
        while i < self.data.len()
            invariant
                0 <= i <= self.data@.len(),
                forall|j: int| 0 <= j < i ==> (#[trigger] self.data@[j]).0 != *what,
            decreases self.data@.len() - i,
        {
            if variant_eq(&self.data[i].0, what) {
                return Some(&self.data[i].1);
            }
            i = i + 1;
        }
        None
    }

    /// Mutable access to the first stored value whose key is the query's
    /// variant.
    pub fn get_mut(&mut self, what: &Key) -> (r: Option<&mut Value>)
        ensures
            r is None ==> final(self).data@ == old(self).data@ && (forall|i: int|
                0 <= i < old(self).data@.len() ==> (#[trigger] old(self).data@[i]).0 != *what),
            r matches Some(v) ==> exists|i: int|
                0 <= i < old(self).data@.len() && *v == (#[trigger] old(self).data@[i]).1 && final(self).data@ == old(self).data@.update(i, (old(self).data@[i].0, *final(v))),
    {
        let mut i: usize = 0;
        while i < self.data.len()
            invariant
                0 <= i <= self.data@.len(),
                self == old(self),
                forall|j: int| 0 <= j < i ==> (#[trigger] self.data@[j]).0 != *what,
            decreases self.data@.len() - i,
        {
            if variant_eq(&self.data[i].0, what) {
                let entry = &mut self.data[i];
                return Some(&mut entry.1);
            }
            i = i + 1;
        }
        None
    }

    /// Whether some entry's key is the query's variant.
    pub fn has_value_for(&self, what: Key) -> (r: bool)
        ensures
            (exists|i: int| 0 <= i < self.data@.len() && (#[trigger] self.data@[i]).0 == what)
                ==> r,
            self.data@.len() == 0 ==> !r,
    {
        let mut i: usize = 0;
        while i < self.data.len()
            invariant
                0 <= i <= self.data@.len(),
                forall|j: int| 0 <= j < i ==> (#[trigger] self.data@[j]).0 != what,
            decreases self.data@.len() - i,
        {
            if variant_eq(&self.data[i].0, &what) {
                return true;
            }
            i = i + 1;
        }
        false
    }
}

} // verus!
