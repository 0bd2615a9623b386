//! The officers' key: random words written out in digits of base 32.
use vstd::prelude::*;

verus! {

/// The digit of base 32 for a value below 32: `0` to `9`, then `a` to `v`.
pub open spec fn base32_digit(v: u32) -> char {
    if v < 10 {
        ('0' as u32 + v) as char
    } else {
        ('a' as u32 + v - 10) as char
    }
}

/// Five bits of `word`: those from bit `5 * k` upwards.
pub open spec fn chunk(word: u32, k: u32) -> u32 {
    (word >> (5 * k) as u32) & 0x1f
}

/// The key that `words` make: six digits of base 32 for each word, the
/// lowest five bits first. The two highest bits of a word are not used.
pub open spec fn key_text(words: Seq<u32>) -> Seq<char> {
    Seq::new(6 * words.len(), |i: int| base32_digit(chunk(words[i / 6], (i % 6) as u32)))
}

/// Whether `c` is a digit of base 32.
pub open spec fn is_base32_digit(c: char) -> bool {
    ('0' <= c && c <= '9') || ('a' <= c && c <= 'v')
}

/// `String::push` of std. Trusted: the character is appended, and the text
/// before it stays.
#[verifier::external_body]
fn push_char(text: &mut String, c: char)
    ensures
        final(text)@ == old(text)@.push(c),
{
    text.push(c);
}

/// `RngCore::next_u32` of rand, on the generator that `rand::rng` gives.
/// Trusted, and nothing is said of the number that comes back.
#[verifier::external_body]
fn random_word() -> u32 {
    rand::RngCore::next_u32(&mut rand::rng())
}

/// The digit of base 32 for five bits of `word`.
fn digit_of(word: u32, k: u32) -> (c: char)
    requires
        k < 6,
    ensures
        c == base32_digit(chunk(word, k)),
        is_base32_digit(c),
{
    let shift: u32 = 5 * k;
    let v: u32 = (word >> shift) & 0x1f;
    assert(v < 32) by (bit_vector)
        requires
            v == (word >> shift) & 0x1f,
    ;
    if v < 10 {
        (48u8 + v as u8) as char
    } else {
        (97u8 + (v as u8 - 10)) as char
    }
}

/// Writes `words` out as a key: see [`key_text`].
pub fn key_from_words(words: &Vec<u32>) -> (key: String)
    requires
        6 * words@.len() <= usize::MAX,
    ensures
        key@ == key_text(words@),
        forall|i: int| 0 <= i < key@.len() ==> is_base32_digit(#[trigger] key@[i]),
{
    let mut key = String::new();
    let mut w: usize = 0;
    while w < words.len()
        invariant
            w <= words@.len(),
            key@.len() == 6 * w,
            forall|i: int|
                0 <= i < key@.len() ==> (#[trigger] key@[i]) == base32_digit(
                    chunk(words@[i / 6], (i % 6) as u32),
                ) && is_base32_digit(key@[i]),
        decreases words@.len() - w,
    {
        let word: u32 = words[w];
        let mut k: u32 = 0;
        while k < 6
            invariant
                w < words@.len(),
                word == words@[w as int],
                k <= 6,
                key@.len() == 6 * w + k,
                forall|i: int|
                    0 <= i < key@.len() ==> (#[trigger] key@[i]) == base32_digit(
                        chunk(words@[i / 6], (i % 6) as u32),
                    ) && is_base32_digit(key@[i]),
            decreases 6 - k,
        {
            let c = digit_of(word, k);
            let ghost before = key@;
            push_char(&mut key, c);
            proof {
                let at = 6 * w + k;
                assert(at / 6 == w && at % 6 == k);
                assert forall|i: int| 0 <= i < key@.len() implies (#[trigger] key@[i]) == base32_digit(
                    chunk(words@[i / 6], (i % 6) as u32),
                ) && is_base32_digit(key@[i]) by {
                    if i < at {
                        assert(key@[i] == before[i]);
                    }
                }
            }
            k = k + 1;
        }
        w = w + 1;
    }
    assert(key@ =~= key_text(words@));
    key
}

/// A fresh key of 54 digits of base 32, made of nine random words.
pub fn generate_key() -> (key: String)
    ensures
        key@.len() == 54,
        forall|i: int| 0 <= i < key@.len() ==> is_base32_digit(#[trigger] key@[i]),
        exists|words: Seq<u32>| words.len() == 9 && key@ == key_text(words),
{
    let mut words: Vec<u32> = Vec::new();
    let mut n: usize = 0;
    while n < 9
        invariant
            n <= 9,
            words@.len() == n,
        decreases 9 - n,
    {
        words.push(random_word());
        n = n + 1;
    }
    key_from_words(&words)
}

} // verus!
