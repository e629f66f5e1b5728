use crate::languages::{
    reference_counts, score_below, sum_first, text_score, Frequencies, Language, Score, MAX_TOTAL,
};
use vstd::prelude::*;

verus! {

/// Each byte XORed with the same key byte.
pub open spec fn xor_single(b: Seq<u8>, k: u8) -> Seq<u8> {
    Seq::new(b.len(), |i: int| b[i] ^ k)
}

/// Byte `i` XORed with key byte `i mod len(key)`; nothing is left of the text under an empty key.
pub open spec fn xor_repeat(b: Seq<u8>, key: Seq<u8>) -> Seq<u8> {
    if key.len() == 0 {
        Seq::empty()
    } else {
        Seq::new(b.len(), |i: int| b[i] ^ key[i % (key.len() as int)])
    }
}

/// A cipher that turns bytes into bytes under a key of type `T`.
pub trait EncryptWith<T> {
    spec fn enciphered(text: Seq<u8>, key: T) -> Seq<u8>;

    fn encrypt_with(plaintext: &[u8], key: T) -> (r: Vec<u8>)
        ensures
            r@ == Self::enciphered(plaintext@, key),
    ;

    fn decrypt_with(crypttext: &[u8], key: T) -> (r: Vec<u8>)
        ensures
            r@ == Self::enciphered(crypttext@, key),
    ;
}

/// An attack that recovers a text from its enciphered form alone.
pub trait TryDecrypt {
    /// `plaintext` is a text that the attack may return for `crypttext`.
    spec fn recovers(crypttext: Seq<u8>, language: Language, plaintext: Seq<u8>) -> bool;

    /// The recovered text, with its score against the language.
    fn try_decrypt(crypttext: &[u8], language: Language) -> (r: (Vec<u8>, Score))
        requires
            crypttext@.len() <= MAX_TOTAL,
        ensures
            Self::recovers(crypttext@, language, r.0@),
            r.1@ == text_score(language, r.0@),
    ;
}

/// XOR with one key byte.
pub struct SingleByteXor;

/// XOR with a repeating key.
pub struct MultiByteXor;

impl EncryptWith<u8> for SingleByteXor {
    open spec fn enciphered(text: Seq<u8>, key: u8) -> Seq<u8> {
        xor_single(text, key)
    }

    fn encrypt_with(plaintext: &[u8], key: u8) -> (r: Vec<u8>) {
        let mut out: Vec<u8> = Vec::new();
        let mut i: usize = 0;
        while i < plaintext.len()
            invariant
                i <= plaintext@.len(),
                out@ =~= xor_single(plaintext@.take(i as int), key),
            decreases plaintext.len() - i,
        {
            out.push(plaintext[i] ^ key);
            i += 1;
        }
        assert(plaintext@.take(plaintext@.len() as int) =~= plaintext@);
        out
    }

    fn decrypt_with(crypttext: &[u8], key: u8) -> (r: Vec<u8>) {
        Self::encrypt_with(crypttext, key)
    }
}

impl<'a> EncryptWith<&'a [u8]> for MultiByteXor {
    open spec fn enciphered(text: Seq<u8>, key: &'a [u8]) -> Seq<u8> {
        xor_repeat(text, key@)
    }

    fn encrypt_with(plaintext: &[u8], key: &[u8]) -> (r: Vec<u8>) {
        let mut out: Vec<u8> = Vec::new();
        if key.len() == 0 {
            return out;
        }
        let mut i: usize = 0;
        while i < plaintext.len()
            invariant
                i <= plaintext@.len(),
                key@.len() > 0,
                out@ =~= xor_repeat(plaintext@.take(i as int), key@),
            decreases plaintext.len() - i,
        {
            out.push(plaintext[i] ^ key[i % key.len()]);
            i += 1;
        }
        assert(plaintext@.take(plaintext@.len() as int) =~= plaintext@);
        out
    }

    fn decrypt_with(crypttext: &[u8], key: &[u8]) -> (r: Vec<u8>) {
        Self::encrypt_with(crypttext, key)
    }
}

// ---------------------------------------------------------------- single-byte attack

/// The score of the text that key `k` makes of `crypttext`.
pub open spec fn key_score(crypttext: Seq<u8>, language: Language, k: u8) -> (int, int) {
    text_score(language, xor_single(crypttext, k))
}

/// `k` scores lowest of all 256 keys, and strictly lower than every smaller key.
pub open spec fn is_best_key(crypttext: Seq<u8>, language: Language, k: u8) -> bool {
    &&& forall|j: u8|
        !score_below(#[trigger] key_score(crypttext, language, j), key_score(crypttext, language, k))
    &&& forall|j: u8|
        j < k ==> score_below(
            key_score(crypttext, language, k),
            #[trigger] key_score(crypttext, language, j),
        )
}

proof fn lemma_same_scale(a: (int, int), b: (int, int))
    requires
        a.1 == b.1,
        a.1 > 0,
    ensures
        score_below(a, b) <==> a.0 < b.0,
{
    assert(score_below(a, b) <==> a.0 < b.0) by (nonlinear_arith)
        requires
            a.1 == b.1,
            a.1 > 0,
    ;
}

/// Tries every key byte on `crypttext` and keeps the first that scores lowest.
fn best_single_byte(crypttext: &[u8], language: Language) -> (r: (u8, Vec<u8>, Score))
    requires
        crypttext@.len() <= MAX_TOTAL,
    ensures
        is_best_key(crypttext@, language, r.0),
        r.1@ == xor_single(crypttext@, r.0),
        r.2@ == key_score(crypttext@, language, r.0),
{
    let reference = language.frequencies();
    let ghost ct = crypttext@;
    let first = SingleByteXor::decrypt_with(crypttext, 0);
    let first_score = reference.compare(Frequencies::from_bytes(first.as_slice()));
    let mut best_key: u8 = 0;
    let mut best_text = first;
    let mut best_score = first_score;
    let ghost scale = best_score@.1;
    proof {
        let t = sum_first(reference_counts(language), 256);
        let n = ct.len();
        if t != 0 && n != 0 {
            assert(t * n > 0) by (nonlinear_arith)
                requires
                    t > 0,
                    n > 0,
            ;
        }
    }
    let mut k: u32 = 1;
    while k < 256
        invariant
            1 <= k <= 256,
            ct == crypttext@,
            ct.len() <= MAX_TOTAL,
            reference.wf(),
            reference.counts() == reference_counts(language),
            reference.spec_total() == sum_first(reference.counts(), 256),
            (best_key as u32) < k,
            best_text@ == xor_single(ct, best_key),
            best_score@ == key_score(ct, language, best_key),
            scale > 0,
            forall|j: u8| #[trigger] key_score(ct, language, j).1 == scale,
            forall|j: u8|
                (j as u32) < k ==> !score_below(
                    #[trigger] key_score(ct, language, j),
                    key_score(ct, language, best_key),
                ),
            forall|j: u8|
                j < best_key ==> score_below(
                    key_score(ct, language, best_key),
                    #[trigger] key_score(ct, language, j),
                ),
        decreases 256 - k,
    {
        let text = SingleByteXor::decrypt_with(crypttext, k as u8);
        let score = reference.compare(Frequencies::from_bytes(text.as_slice()));
        assert(score@ == key_score(ct, language, k as u8));
        proof {
            lemma_same_scale(score@, best_score@);
            lemma_same_scale(best_score@, score@);
        }
        if score.distance < best_score.distance {
            best_key = k as u8;
            best_text = text;
            best_score = score;
        }
        k += 1;
    }
    (best_key, best_text, best_score)
}

/// The key byte that makes the text of `crypttext` closest to the language.
pub fn single_byte_xor_get_key(crypttext: &[u8], language: Language) -> (r: u8)
    requires
        crypttext@.len() <= MAX_TOTAL,
    ensures
        is_best_key(crypttext@, language, r),
{
    best_single_byte(crypttext, language).0
}

impl TryDecrypt for SingleByteXor {
    /// The text under the key byte that scores best.
    open spec fn recovers(crypttext: Seq<u8>, language: Language, plaintext: Seq<u8>) -> bool {
        exists|k: u8| is_best_key(crypttext, language, k) && plaintext == xor_single(crypttext, k)
    }

    fn try_decrypt(crypttext: &[u8], language: Language) -> (r: (Vec<u8>, Score)) {
        let (_, text, score) = best_single_byte(crypttext, language);
        (text, score)
    }
}

// ---------------------------------------------------------------- multi-byte attack

/// The number of bits set in a byte.
pub open spec fn bits_set(x: u8) -> nat
    decreases x,
{
    if x == 0 {
        0
    } else {
        (x % 2) as nat + bits_set(x / 2)
    }
}

/// The number of differing bits between the first `k` byte pairs.
pub open spec fn differing_bits(a: Seq<u8>, b: Seq<u8>, k: int) -> nat
    decreases k,
{
    if k <= 0 {
        0
    } else {
        differing_bits(a, b, k - 1) + bits_set(a[k - 1] ^ b[k - 1])
    }
}

fn count_ones(x: u8) -> (r: u32)
    ensures
        r == bits_set(x),
        r <= 8,
{
    proof {
        lemma_bits_set_bound(x);
    }
    let mut y: u8 = x;
    let mut n: u32 = 0;
    while y != 0
        invariant
            n + bits_set(y) == bits_set(x),
            bits_set(x) <= 8,
        decreases y,
    {
        n = n + (y % 2) as u32;
        y = y / 2;
    }
    n
}

/// The number of differing bits of two byte sequences of equal length; `None` where the
/// lengths differ.
fn hamming_distance(a: &[u8], b: &[u8]) -> (r: Option<u64>)
    requires
        a@.len() < 0x2000_0000_0000_0000,
    ensures
        a@.len() != b@.len() ==> r is None,
        a@.len() == b@.len() ==> r == Some(differing_bits(a@, b@, a@.len() as int) as u64),
{
    if a.len() != b.len() {
        return None;
    }
    let mut acc: u64 = 0;
    let mut i: usize = 0;
    while i < a.len()
        invariant
            i <= a@.len(),
            a@.len() == b@.len(),
            a@.len() < 0x2000_0000_0000_0000,
            acc == differing_bits(a@, b@, i as int),
            acc <= 8 * i,
        decreases a.len() - i,
    {
        acc = acc + count_ones(a[i] ^ b[i]) as u64;
        i += 1;
    }
    Some(acc)
}

/// The largest key length tried, plus one: `min(40, n / 2)` for `n` bytes.
pub open spec fn length_bound(n: nat) -> int {
    if n / 2 < 40 {
        (n / 2) as int
    } else {
        40
    }
}

/// The differing bits between the first two blocks of `l` bytes.
pub open spec fn block_distance(c: Seq<u8>, l: int) -> nat {
    differing_bits(c.subrange(0, l), c.subrange(l, 2 * l), l)
}

/// `l` has the least block distance per byte among the lengths from 2 below the bound,
/// and strictly less than every smaller one. Where no length is tried, the key is one byte.
pub open spec fn is_key_length(c: Seq<u8>, l: int) -> bool {
    if length_bound(c.len()) <= 2 {
        l == 1
    } else {
        &&& 2 <= l < length_bound(c.len())
        &&& forall|m: int|
            2 <= m < length_bound(c.len()) ==> !(#[trigger] block_distance(c, m) * l
                < block_distance(c, l) * m)
        &&& forall|m: int|
            2 <= m < l ==> block_distance(c, l) * m < #[trigger] block_distance(c, m) * l
    }
}

/// The bytes at positions `start`, `start + l`, `start + 2l`, ...
pub open spec fn column(c: Seq<u8>, l: int, start: int) -> Seq<u8>
    decreases if start < c.len() {
        c.len() - start
    } else {
        0
    },
{
    if l <= 0 || start < 0 || start >= c.len() {
        Seq::empty()
    } else {
        seq![c[start]] + column(c, l, start + l)
    }
}

/// Each byte of `key` is the best single-byte key of its column, for a key length chosen as
/// `is_key_length` says.
pub open spec fn is_recovered_key(c: Seq<u8>, language: Language, key: Seq<u8>) -> bool {
    &&& is_key_length(c, key.len() as int)
    &&& forall|i: int|
        0 <= i < key.len() ==> is_best_key(column(c, key.len() as int, i), language, #[trigger] key[i])
}

/// Picks the key length whose first two blocks differ least per byte.
fn guess_key_length(crypttext: &[u8]) -> (r: usize)
    ensures
        is_key_length(crypttext@, r as int),
        1 <= r,
        r <= 40,
        r == 1 || r <= crypttext@.len(),
{
    let n = crypttext.len();
    let end: usize = if n / 2 < 40 {
        n / 2
    } else {
        40
    };
    if end <= 2 {
        return 1;
    }
    let ghost c = crypttext@;
    let mut best_len: usize = 2;
    let mut best_dist: u64 = 0;
    let mut l: usize = 2;
    while l < end
        invariant
            c == crypttext@,
            n == c.len(),
            end == length_bound(n as nat),
            2 < end <= 40,
            2 <= l <= end,
            l == 2 ==> best_len == 2,
            l > 2 ==> 2 <= best_len < l && best_dist == block_distance(c, best_len as int),
            best_dist <= 8 * 40,
            forall|m: int|
                2 <= m < l ==> !(#[trigger] block_distance(c, m) * best_len < block_distance(
                    c,
                    best_len as int,
                ) * m),
            forall|m: int|
                2 <= m < best_len ==> block_distance(c, best_len as int) * m
                    < #[trigger] block_distance(c, m) * best_len,
        decreases end - l,
    {
        let first = vstd::slice::slice_subrange(crypttext, 0, l);
        let second = vstd::slice::slice_subrange(crypttext, l, 2 * l);
        let d = match hamming_distance(first, second) {
            Some(d) => d,
            None => 0,
        };
        proof {
            assert(first@ == c.subrange(0, l as int));
            assert(second@ == c.subrange(l as int, 2 * l as int));
            lemma_differing_bits_bound(first@, second@, l as int);
        }
        assert(d == block_distance(c, l as int));
        assert(d <= 8 * 40);
        assert(d * (best_len as u64) <= 320 * 40 && best_dist * (l as u64) <= 320 * 40)
            by (nonlinear_arith)
            requires
                d <= 320,
                best_dist <= 320,
                best_len <= 40,
                l <= 40,
        ;
        if l == 2 || d * (best_len as u64) < best_dist * (l as u64) {
            proof {
                if l > 2 {
                    assert forall|m: int| 2 <= m < l implies block_distance(c, l as int) * m
                        < #[trigger] block_distance(c, m) * l by {
                        lemma_ratio_below(
                            block_distance(c, m) as int,
                            m,
                            best_dist as int,
                            best_len as int,
                            d as int,
                            l as int,
                        );
                    }
                }
            }
            best_len = l;
            best_dist = d;
        }
        l += 1;
    }
    best_len
}

/// Where `db / b <= dm / m` and `dl / l < db / b`, also `dl / l < dm / m`.
proof fn lemma_ratio_below(dm: int, m: int, db: int, b: int, dl: int, l: int)
    requires
        m > 0,
        b > 0,
        l > 0,
        dm * b >= db * m,
        dl * b < db * l,
    ensures
        dl * m < dm * l,
{
    assert(dm * b * l >= db * m * l) by (nonlinear_arith)
        requires
            dm * b >= db * m,
            l > 0,
    ;
    assert(db * l * m > dl * b * m) by (nonlinear_arith)
        requires
            dl * b < db * l,
            m > 0,
    ;
    assert(dm * l * b > dl * m * b) by (nonlinear_arith)
        requires
            dm * b * l >= db * m * l,
            db * l * m > dl * b * m,
    ;
    assert(dl * m < dm * l) by (nonlinear_arith)
        requires
            dm * l * b > dl * m * b,
            b > 0,
    ;
}

proof fn lemma_differing_bits_bound(a: Seq<u8>, b: Seq<u8>, k: int)
    requires
        0 <= k <= a.len(),
        k <= b.len(),
    ensures
        differing_bits(a, b, k) <= 8 * k,
    decreases k,
{
    if k > 0 {
        lemma_differing_bits_bound(a, b, k - 1);
        lemma_bits_set_bound(a[k - 1] ^ b[k - 1]);
    }
}

proof fn lemma_bits_set_bound(x: u8)
    ensures
        bits_set(x) <= 8,
{
    assert(bits_set(x) <= 8) by {
        reveal_with_fuel(bits_set, 9);
        assert(x / 2 / 2 / 2 / 2 / 2 / 2 / 2 / 2 == 0);
    }
}

/// The recovered repeating key: a key length is chosen, the text is cut into one column for
/// each key byte, and each column gets its best single-byte key.
pub fn multi_byte_xor_get_key(crypttext: &[u8], language: Language) -> (r: Vec<u8>)
    requires
        crypttext@.len() <= MAX_TOTAL,
    ensures
        is_recovered_key(crypttext@, language, r@),
{
    let n = crypttext.len();
    let keysize = guess_key_length(crypttext);
    let ghost c = crypttext@;
    let mut key: Vec<u8> = Vec::new();
    let mut col_start: usize = 0;
    while col_start < keysize
        invariant
            c == crypttext@,
            n == c.len(),
            n <= MAX_TOTAL,
            1 <= keysize <= 40,
            keysize == 1 || keysize <= n,
            col_start <= keysize,
            key@.len() == col_start,
            forall|i: int|
                0 <= i < col_start ==> is_best_key(
                    column(c, keysize as int, i),
                    language,
                    #[trigger] key@[i],
                ),
        decreases keysize - col_start,
    {
        let mut block: Vec<u8> = Vec::new();
        let mut pos: usize = col_start;
        assert(block@ + column(c, keysize as int, pos as int) =~= column(
            c,
            keysize as int,
            col_start as int,
        ));
        while pos < n
            invariant
                c == crypttext@,
                n == c.len(),
                n <= MAX_TOTAL,
                1 <= keysize <= 40,
                col_start <= pos <= n,
                block@.len() <= pos,
                block@ + column(c, keysize as int, pos as int) == column(
                    c,
                    keysize as int,
                    col_start as int,
                ),
            decreases n - pos,
        {
            let ghost before = block@;
            block.push(crypttext[pos]);
            let next = if n - pos <= keysize {
                n
            } else {
                pos + keysize
            };
            assert(column(c, keysize as int, next as int) =~= column(c, keysize as int, pos + keysize));
            assert(block@ + column(c, keysize as int, next as int) =~= before + column(
                c,
                keysize as int,
                pos as int,
            ));
            pos = next;
        }
        assert(column(c, keysize as int, pos as int) =~= Seq::empty());
        assert(block@ =~= column(c, keysize as int, col_start as int));
        let k = single_byte_xor_get_key(block.as_slice(), language);
        key.push(k);
        col_start += 1;
    }
    key
}

impl TryDecrypt for MultiByteXor {
    /// The text under the recovered repeating key.
    open spec fn recovers(crypttext: Seq<u8>, language: Language, plaintext: Seq<u8>) -> bool {
        exists|key: Seq<u8>|
            is_recovered_key(crypttext, language, key) && plaintext == xor_repeat(crypttext, key)
    }

    fn try_decrypt(crypttext: &[u8], language: Language) -> (r: (Vec<u8>, Score)) {
        let key = multi_byte_xor_get_key(crypttext, language);
        let plaintext = Self::decrypt_with(crypttext, key.as_slice());
        let score = language.compare(plaintext.as_slice());
        (plaintext, score)
    }
}

// ---------------------------------------------------------------- laws

/// Repeating-key XOR undoes itself: applying it twice with the same non-empty key gives the
/// text back.
pub proof fn lemma_xor_repeat_involution(b: Seq<u8>, key: Seq<u8>)
    requires
        key.len() > 0,
    ensures
        xor_repeat(xor_repeat(b, key), key) == b,
{
    let once = xor_repeat(b, key);
    assert forall|i: int| 0 <= i < b.len() implies #[trigger] xor_repeat(once, key)[i] == b[i] by {
        let x = b[i];
        let k = key[i % (key.len() as int)];
        assert((x ^ k) ^ k == x) by (bit_vector);
    }
    assert(xor_repeat(once, key) =~= b);
}

/// Single-byte XOR undoes itself.
pub proof fn lemma_xor_single_involution(b: Seq<u8>, k: u8)
    ensures
        xor_single(xor_single(b, k), k) == b,
{
    assert forall|i: int| 0 <= i < b.len() implies #[trigger] xor_single(
        xor_single(b, k),
        k,
    )[i] == b[i] by {
        let x = b[i];
        assert((x ^ k) ^ k == x) by (bit_vector);
    }
    assert(xor_single(xor_single(b, k), k) =~= b);
}

} // verus!
