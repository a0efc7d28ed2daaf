use vstd::prelude::*;
use rand::SeedableRng;

verus! {

/// rand's standard seeded generator; it only passes through this library.
#[verifier::external_type_specification]
#[verifier::external_body]
pub struct ExStdRng(rand::rngs::StdRng);

/// Relies on rand's `SeedableRng::seed_from_u64` for `StdRng`: a generator
/// whose draws depend on the seed alone.
#[verifier::external_body]
pub(crate) fn seeded_rng(seed: u64) -> rand::rngs::StdRng {
    rand::rngs::StdRng::seed_from_u64(seed)
}

/// Relies on `rand::seq::index::sample`: `amount` distinct indices below
/// `length`, in random order. It panics when `amount > length`.
#[verifier::external_body]
pub(crate) fn sample_indices(rng: &mut rand::rngs::StdRng, length: usize, amount: usize) -> (r: Vec<
    usize,
>)
    requires
        amount <= length,
    ensures
        r@.len() == amount,
        forall|k: int| 0 <= k < r@.len() ==> r@[k] < length,
        r@.no_duplicates(),
{
    rand::seq::index::sample(rng, length, amount).into_vec()
}

/// A lower-case hexadecimal digit.
pub open spec fn hex_digit(d: nat) -> char {
    if d < 10 {
        (48 + d) as char
    } else {
        (87 + d) as char
    }
}

/// The last `n` hexadecimal digits of `v`, most significant first.
pub open spec fn hex_digits(v: nat, n: nat) -> Seq<char>
    decreases n,
{
    if n == 0 {
        seq![]
    } else {
        hex_digits(v / 16, (n - 1) as nat).push(hex_digit(v % 16))
    }
}

/// The text of the UUID whose upper half is zero and whose lower half is
/// `id`: 8-4-4-4-12 hexadecimal digits, the first sixteen zero.
pub open spec fn uuid_text(id: u64) -> Seq<char> {
    seq!['0', '0', '0', '0', '0', '0', '0', '0', '-', '0', '0', '0', '0', '-', '0', '0', '0', '0', '-']
        + hex_digits(id as nat / 0x1_0000_0000_0000, 4) + seq!['-'] + hex_digits(id as nat % 0x1_0000_0000_0000, 12)
}

/// Relies on uuid's `Uuid::from_u64_pair` and its `Display`: the hyphenated
/// lower-case text of the 128 bits, upper half first.
#[verifier::external_body]
pub(crate) fn id_text(id: u64) -> (r: String)
    ensures
        r@ == uuid_text(id),
{
    uuid::Uuid::from_u64_pair(0, id).to_string()
}

} // verus!
