//! Random secrets for signing dashboard sessions.
use vstd::prelude::*;
use crate::names::push_char;

verus! {

/// An ASCII letter or digit.
pub open spec fn is_alphanumeric_byte(b: u8) -> bool {
    ||| (0x41 <= b && b <= 0x5a)
    ||| (0x61 <= b && b <= 0x7a)
    ||| (0x30 <= b && b <= 0x39)
}

/// Draws one byte from `rand::distributions::Alphanumeric` with the thread's
/// generator. What comes back depends on chance; the contract states what
/// every outcome satisfies: the distribution only yields ASCII letters and
/// digits.
#[verifier::external_body]
fn sample_alphanumeric() -> (b: u8)
    ensures
        is_alphanumeric_byte(b),
{
    rand::Rng::sample(&mut rand::thread_rng(), rand::distributions::Alphanumeric)
}

/// A random string of `len` ASCII letters and digits.
pub fn generate_secret(len: usize) -> (s: String)
    ensures
        s@.len() == len,
        forall|i: int| 0 <= i < len ==> is_alphanumeric_byte(#[trigger] s@[i] as u8) && (s@[i] as u32) < 0x80,
{
    let mut s = String::new();
    let mut i: usize = 0;
    while i < len
        invariant
            i <= len,
            s@.len() == i,
            forall|k: int| 0 <= k < i ==> is_alphanumeric_byte(#[trigger] s@[k] as u8) && (s@[k] as u32) < 0x80,
        decreases len - i,
    {
        let b = sample_alphanumeric();
        let c = b as char;
        push_char(&mut s, c);
        i = i + 1;
    }
    s
}

} // verus!
