//! What a CMAF track's boxes say about its media: the frame rate a video track
//! runs at, and the sample entry a codec string names.

use vstd::prelude::*;

use crate::charseq::{chars_of, copy_range, decimal, find_char, first_index, push_decimal, string_of};

verus! {

/// `d` divides `n`.
pub open spec fn divides(d: int, n: int) -> bool {
    exists|k: int| n == #[trigger] (d * k)
}

/// The greatest common divisor of `a` and `b`, by Euclid's algorithm.
pub open spec fn gcd(a: nat, b: nat) -> nat
    decreases b,
{
    if b == 0 {
        a
    } else {
        gcd(b, a % b)
    }
}

proof fn lemma_common_divisors_of_remainder(a: int, b: int, d: int)
    requires
        a >= 0,
        b > 0,
    ensures
        (divides(d, a) && divides(d, b)) <==> (divides(d, b) && divides(d, a % b)),
{
    vstd::arithmetic::div_mod::lemma_fundamental_div_mod(a, b);
    let q = a / b;
    if divides(d, a) && divides(d, b) {
        let ka = choose|k: int| a == #[trigger] (d * k);
        let kb = choose|k: int| b == #[trigger] (d * k);
        assert(a % b == d * (ka - q * kb)) by (nonlinear_arith)
            requires
                a == b * q + a % b,
                a == d * ka,
                b == d * kb,
        ;
    }
    if divides(d, b) && divides(d, a % b) {
        let kb = choose|k: int| b == #[trigger] (d * k);
        let kr = choose|k: int| a % b == #[trigger] (d * k);
        assert(a == d * (q * kb + kr)) by (nonlinear_arith)
            requires
                a == b * q + a % b,
                b == d * kb,
                a % b == d * kr,
        ;
    }
}

/// Euclid's algorithm finds the greatest common divisor: the result divides
/// both numbers, every common divisor divides it, and it is 0 only for two zeros.
pub proof fn gcd_is_the_greatest_common_divisor(a: nat, b: nat)
    ensures
        divides(gcd(a, b) as int, a as int),
        divides(gcd(a, b) as int, b as int),
        forall|d: int| divides(d, a as int) && divides(d, b as int) ==> divides(d, gcd(a, b) as int),
        gcd(a, b) == 0 <==> (a == 0 && b == 0),
    decreases b,
{
    if b == 0 {
        assert(a as int == (a as int) * 1);
        assert(0 == (a as int) * 0);
    } else {
        vstd::arithmetic::div_mod::lemma_mod_bound(a as int, b as int);
        gcd_is_the_greatest_common_divisor(b, a % b);
        assert forall|d: int| divides(d, a as int) && divides(d, b as int) implies divides(
            d,
            gcd(a, b) as int,
        ) by {
            lemma_common_divisors_of_remainder(a as int, b as int, d);
        }
        lemma_common_divisors_of_remainder(a as int, b as int, gcd(a, b) as int);
    }
}

/// The greatest common divisor of `left` and `right`.
pub fn greatest_common_divisor(left: u32, right: u32) -> (g: u32)
    ensures
        g == gcd(left as nat, right as nat),
{
    let mut a = left;
    let mut b = right;
    while b != 0
        invariant
            gcd(a as nat, b as nat) == gcd(left as nat, right as nat),
        decreases b,
    {
        let r = a % b;
        a = b;
        b = r;
    }
    a
}

/// A video track carries no frame rate to read: no first sample duration, a
/// zero one, or a zero timescale.
#[derive(Debug, Clone, PartialEq, Eq)]
pub enum CmafError {
    MissingFrameRate,
}

/// `timescale / sample_duration` as a reduced fraction, `numerator/denominator`.
pub open spec fn frame_rate_text(timescale: u32, sample_duration: u32) -> Seq<char> {
    let g = gcd(timescale as nat, sample_duration as nat);
    decimal(timescale as nat / g) + seq!['/'] + decimal(sample_duration as nat / g)
}

/// The frame rate of a video track whose timescale is `timescale` and whose
/// first sample lasts `sample_duration`, as a reduced fraction such as `25/1` or
/// `30000/1001`. [`CmafError::MissingFrameRate`] where either is missing or 0.
pub fn frame_rate(timescale: u32, sample_duration: Option<u32>) -> (r: Result<String, CmafError>)
    ensures
        match sample_duration {
            Some(d) if d != 0 && timescale != 0 => r matches Ok(text) && text@ == frame_rate_text(
                timescale,
                d,
            ),
            _ => r matches Err(CmafError::MissingFrameRate),
        },
{
    let duration = match sample_duration {
        Some(d) if d != 0 => d,
        _ => return Err(CmafError::MissingFrameRate),
    };
    if timescale == 0 {
        return Err(CmafError::MissingFrameRate);
    }
    let divisor = greatest_common_divisor(timescale, duration);
    proof {
        gcd_is_the_greatest_common_divisor(timescale as nat, duration as nat);
    }
    let mut text: Vec<char> = Vec::new();
    push_decimal(&mut text, (timescale / divisor) as u64);
    text.push('/');
    push_decimal(&mut text, (duration / divisor) as u64);
    proof {
        assert(text@ =~= frame_rate_text(timescale, duration));
    }
    Ok(string_of(text.as_slice()))
}

/// What `sample_entry` reads out of `codec`: everything before its first `.`,
/// or all of it.
pub open spec fn sample_entry_of(codec: Seq<char>) -> Seq<char> {
    match first_index(codec, '.') {
        Some(i) => codec.take(i),
        None => codec,
    }
}

/// The sample entry an RFC 6381 codec string names: `avc1` of `avc1.64001f`,
/// and the whole string where it has no `.`.
pub fn sample_entry(codec: &str) -> (entry: String)
    ensures
        entry@ == sample_entry_of(codec@),
{
    let chars = chars_of(codec);
    match find_char(chars.as_slice(), '.') {
        Some(i) => {
            let entry = copy_range(chars.as_slice(), 0, i);
            proof {
                assert(entry@ =~= codec@.take(i as int));
            }
            string_of(entry.as_slice())
        },
        None => string_of(chars.as_slice()),
    }
}

} // verus!
