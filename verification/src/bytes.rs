//! Little-endian byte encodings of fixed-width integers.

use vstd::prelude::*;

verus! {

/// Size of a `u128`, in bytes.
pub const U128_SIZE: usize = 16;

/// The `len` low-order bytes of `n`, least significant first.
pub open spec fn le_bytes(n: nat, len: nat) -> Seq<u8>
    decreases len,
{
    if len == 0 {
        Seq::empty()
    } else {
        seq![(n % 256) as u8] + le_bytes(n / 256, (len - 1) as nat)
    }
}

/// The number that `s` spells, least significant byte first.
pub open spec fn le_value(s: Seq<u8>) -> nat
    decreases s.len(),
{
    if s.len() == 0 {
        0
    } else {
        s[0] as nat + 256 * le_value(s.subrange(1, s.len() as int))
    }
}

/// The encodings of the words of `words`, sixteen bytes each, one after another.
pub open spec fn le_words(words: Seq<u128>) -> Seq<u8>
    decreases words.len(),
{
    if words.len() == 0 {
        Seq::empty()
    } else {
        le_words(words.drop_last()) + le_bytes(words.last() as nat, 16)
    }
}

/// `s` followed by as many zero bytes as bring it to `len` bytes.
pub open spec fn zero_padded(s: Seq<u8>, len: nat) -> Seq<u8> {
    Seq::new(len, |i: int| if i < s.len() { s[i] } else { 0u8 })
}

/// Number of sixteen-byte words needed to hold `len` bytes.
pub open spec fn words_for(len: nat) -> nat {
    (len + 15) / 16
}

/// The words that `s` spells once padded with zeros to a whole number of words.
pub open spec fn le_words_of(s: Seq<u8>) -> Seq<u128> {
    Seq::new(
        words_for(s.len()),
        |k: int| le_value(zero_padded(s, 16 * words_for(s.len())).subrange(16 * k, 16 * k + 16)) as u128,
    )
}

pub proof fn lemma_le_bytes_len(n: nat, len: nat)
    ensures
        le_bytes(n, len).len() == len,
    decreases len,
{
    if len > 0 {
        lemma_le_bytes_len(n / 256, (len - 1) as nat);
    }
}

/// `256` to the power `k`.
pub open spec fn pow256(k: nat) -> nat
    decreases k,
{
    if k == 0 {
        1
    } else {
        256 * pow256((k - 1) as nat)
    }
}

/// A sequence of `k` bytes spells a number below `256^k`.
pub proof fn lemma_le_value_bound(s: Seq<u8>)
    ensures
        le_value(s) < pow256(s.len()),
        s.len() <= 8 ==> le_value(s) <= u64::MAX,
        s.len() <= 16 ==> le_value(s) <= u128::MAX,
    decreases s.len(),
{
    if s.len() > 0 {
        lemma_le_value_bound(s.subrange(1, s.len() as int));
    }
    lemma_pow256_grows(s.len(), 8);
    lemma_pow256_grows(s.len(), 16);
    lemma_pow256_values();
}

/// `256^k` for the widths the library uses.
pub proof fn lemma_pow256_values()
    ensures
        pow256(0) == 1,
        pow256(1) == 256,
        pow256(8) == 0x1_0000_0000_0000_0000,
        pow256(16) == 0x1_0000_0000_0000_0000_0000_0000_0000_0000,
        pow256(24) == 0x1_0000_0000_0000_0000_0000_0000_0000_0000_0000_0000_0000_0000,
        pow256(32) == 0x1_0000_0000_0000_0000_0000_0000_0000_0000_0000_0000_0000_0000_0000_0000_0000_0000,
{
    reveal_with_fuel(pow256, 9);
    assert(pow256(8) == 0x1_0000_0000_0000_0000);
    assert(pow256(16) == 0x1_0000_0000_0000_0000 * pow256(8));
    assert(pow256(24) == 0x1_0000_0000_0000_0000 * pow256(16));
    assert(pow256(32) == 0x1_0000_0000_0000_0000 * pow256(24));
}

pub proof fn lemma_pow256_grows(a: nat, b: nat)
    ensures
        pow256(a) >= 1,
        a <= b ==> pow256(a) <= pow256(b),
    decreases a + b,
{
    if a > 0 {
        lemma_pow256_grows((a - 1) as nat, b);
    }
    if a <= b && b > 0 {
        if a == b {
        } else {
            lemma_pow256_grows(a, (b - 1) as nat);
        }
    }
}

/// Encoding a number that fits and reading it back gives the number.
pub proof fn lemma_le_round_trip(n: nat, len: nat)
    requires
        n < pow256(len),
    ensures
        le_bytes(n, len).len() == len,
        le_value(le_bytes(n, len)) == n,
    decreases len,
{
    lemma_le_bytes_len(n, len);
    if len > 0 {
        let s = le_bytes(n, len);
        let rest = le_bytes(n / 256, (len - 1) as nat);
        lemma_le_bytes_len(n / 256, (len - 1) as nat);
        assert(s.subrange(1, s.len() as int) =~= rest);
        lemma_le_round_trip(n / 256, (len - 1) as nat);
    }
}

/// The encoding of words has sixteen bytes for each word, and the bytes of
/// the word at `k` stand from `16 * k` on.
pub proof fn lemma_le_words(words: Seq<u128>)
    ensures
        le_words(words).len() == 16 * words.len(),
        forall|k: int|
            0 <= k < words.len() ==> #[trigger] le_words(words).subrange(16 * k, 16 * k + 16)
                == le_bytes(words[k] as nat, 16),
    decreases words.len(),
{
    if words.len() > 0 {
        let head = words.drop_last();
        let last = le_bytes(words.last() as nat, 16);
        lemma_le_words(head);
        lemma_le_bytes_len(words.last() as nat, 16);
        assert forall|k: int| 0 <= k < words.len() implies #[trigger] le_words(words).subrange(
            16 * k,
            16 * k + 16,
        ) == le_bytes(words[k] as nat, 16) by {
            if k < head.len() {
                assert(le_words(words).subrange(16 * k, 16 * k + 16) =~= le_words(head).subrange(
                    16 * k,
                    16 * k + 16,
                ));
                assert(head[k] == words[k]);
            } else {
                assert(le_words(words).subrange(16 * k, 16 * k + 16) =~= last);
            }
        }
    }
}

/// Words that are written as bytes and read back are the words they were.
pub proof fn lemma_words_round_trip(words: Seq<u128>)
    ensures
        le_words_of(le_words(words)) == words,
{
    let bytes = le_words(words);
    lemma_le_words(words);
    lemma_pow256_values();
    assert(words_for(bytes.len()) == words.len());
    assert(zero_padded(bytes, 16 * words_for(bytes.len())) =~= bytes);
    assert forall|k: int| 0 <= k < words.len() implies le_words_of(bytes)[k] == words[k] by {
        assert(bytes.subrange(16 * k, 16 * k + 16) == le_bytes(words[k] as nat, 16));
        lemma_le_round_trip(words[k] as nat, 16);
    }
    assert(le_words_of(bytes) =~= words);
}

/// The eight bytes of `value`, least significant first.
pub fn u64_to_bytes(value: u64) -> (bytes: Vec<u8>)
    ensures
        bytes@ == le_bytes(value as nat, 8),
{
    let mut out: Vec<u8> = Vec::new();
    let mut rest: u64 = value;
    let mut i: usize = 0;
    while i < 8
        invariant
            i <= 8,
            out@ + le_bytes(rest as nat, (8 - i) as nat) == le_bytes(value as nat, 8),
        decreases 8 - i,
    {
        let ghost before = out@;
        out.push((rest % 256) as u8);
        proof {
            let tail = le_bytes((rest / 256) as nat, (8 - i - 1) as nat);
            assert(le_bytes(rest as nat, (8 - i) as nat) == seq![(rest % 256) as u8] + tail);
            assert(out@ + tail =~= before + (seq![(rest % 256) as u8] + tail));
        }
        rest = rest / 256;
        i += 1;
    }
    assert(out@ + le_bytes(rest as nat, 0) =~= out@);
    out
}

/// The sixteen bytes of `value`, least significant first.
pub fn u128_to_bytes(value: u128) -> (bytes: Vec<u8>)
    ensures
        bytes@ == le_bytes(value as nat, 16),
{
    let mut out: Vec<u8> = Vec::new();
    let mut rest: u128 = value;
    let mut i: usize = 0;
    while i < 16
        invariant
            i <= 16,
            out@ + le_bytes(rest as nat, (16 - i) as nat) == le_bytes(value as nat, 16),
        decreases 16 - i,
    {
        let ghost before = out@;
        out.push((rest % 256) as u8);
        proof {
            let tail = le_bytes((rest / 256) as nat, (16 - i - 1) as nat);
            assert(le_bytes(rest as nat, (16 - i) as nat) == seq![(rest % 256) as u8] + tail);
            assert(out@ + tail =~= before + (seq![(rest % 256) as u8] + tail));
        }
        rest = rest / 256;
        i += 1;
    }
    assert(out@ + le_bytes(rest as nat, 0) =~= out@);
    out
}

/// The bytes of every word of `u128s`, each word least significant byte first.
pub fn u128s_to_u8s(u128s: &[u128]) -> (u8s: Vec<u8>)
    ensures
        u8s@ == le_words(u128s@),
{
    let mut u8s: Vec<u8> = Vec::new();
    let mut i: usize = 0;
    while i < u128s.len()
        invariant
            i <= u128s.len(),
            u8s@ == le_words(u128s@.take(i as int)),
        decreases u128s.len() - i,
    {
        let mut word = u128_to_bytes(u128s[i]);
        proof {
            let next = u128s@.take(i + 1);
            assert(next.drop_last() =~= u128s@.take(i as int));
            assert(next.last() == u128s@[i as int]);
        }
        u8s.append(&mut word);
        i += 1;
    }
    assert(u128s@.take(i as int) =~= u128s@);
    u8s
}

/// Reads `u8s` as little-endian words of sixteen bytes; a last word that is
/// cut short counts as if zero bytes followed it.
pub fn u8s_to_u128s(u8s: &[u8]) -> (u128s: Vec<u128>)
    ensures
        u128s@ == le_words_of(u8s@),
{
    let len: usize = u8s.len();
    let count: usize = if len % 16 == 0 { len / 16 } else { len / 16 + 1 };
    let ghost padded = zero_padded(u8s@, 16 * words_for(len as nat));
    let mut u128s: Vec<u128> = Vec::new();
    let mut k: usize = 0;
    while k < count
        invariant
            len == u8s.len(),
            count == words_for(len as nat),
            padded == zero_padded(u8s@, 16 * words_for(len as nat)),
            k <= count,
            u128s@.len() == k,
            forall|j: int| 0 <= j < k ==> u128s@[j] == le_words_of(u8s@)[j],
        decreases count - k,
    {
        let ghost chunk = padded.subrange(16 * k, 16 * k + 16);
        let mut word: u128 = 0;
        let mut j: usize = 16;
        while j > 0
            invariant
                len == u8s.len(),
                k < count,
                count == words_for(len as nat),
                padded == zero_padded(u8s@, 16 * words_for(len as nat)),
                chunk == padded.subrange(16 * k, 16 * k + 16),
                j <= 16,
                word == le_value(chunk.subrange(j as int, 16)),
            decreases j,
        {
            j -= 1;
            let at: usize = k * 16 + j;
            let byte: u8 = if at < len { u8s[at] } else { 0 };
            proof {
                let tail = chunk.subrange(j as int, 16);
                assert(tail.subrange(1, tail.len() as int) =~= chunk.subrange(j + 1, 16));
                assert(tail[0] == byte);
                lemma_le_value_bound(tail);
            }
            word = byte as u128 + 256 * word;
        }
        proof {
            assert(chunk.subrange(0, 16) =~= chunk);
            lemma_le_value_bound(chunk);
        }
        u128s.push(word);
        k += 1;
    }
    assert(u128s@ =~= le_words_of(u8s@));
    u128s
}

} // verus!
