use vstd::prelude::*;

verus! {

/// How many times `v` occurs in `b`.
pub open spec fn occurrences(b: Seq<u8>, v: u8) -> nat
    decreases b.len(),
{
    if b.len() == 0 {
        0
    } else {
        occurrences(b.drop_last(), v) + if b.last() == v {
            1nat
        } else {
            0nat
        }
    }
}

/// The number of occurrences of each of the 256 byte values.
pub open spec fn byte_counts(b: Seq<u8>) -> Seq<nat> {
    Seq::new(256, |v: int| occurrences(b, v as u8))
}

/// The sum of the first `k` counts.
pub open spec fn sum_first(c: Seq<nat>, k: int) -> nat
    decreases k,
{
    if k <= 0 {
        0
    } else {
        sum_first(c, k - 1) + c[k - 1]
    }
}

pub open spec fn abs(x: int) -> nat {
    if x < 0 {
        (-x) as nat
    } else {
        x as nat
    }
}

/// The first `k` terms of the distance between two histograms, each scaled by both totals:
/// `|c1[v] * t2 - c2[v] * t1|`.
pub open spec fn scaled_differences(c1: Seq<nat>, t1: nat, c2: Seq<nat>, t2: nat, k: int) -> nat
    decreases k,
{
    if k <= 0 {
        0
    } else {
        scaled_differences(c1, t1, c2, t2, k - 1) + abs(c1[k - 1] * t2 - c2[k - 1] * t1)
    }
}

/// The distance between two histograms as a fraction `(distance, scale)`: the sum over all
/// byte values of the absolute difference of their relative frequencies. Where a total is
/// zero there are no frequencies, and the distance is the largest there can be, 2.
pub open spec fn distance_between(c1: Seq<nat>, t1: nat, c2: Seq<nat>, t2: nat) -> (int, int) {
    if t1 == 0 || t2 == 0 {
        (2, 1)
    } else {
        (scaled_differences(c1, t1, c2, t2, 256) as int, (t1 * t2) as int)
    }
}

/// A distance between byte distributions, the fraction `distance / scale`; lower is closer.
#[derive(Clone, Copy, Debug, PartialEq, Eq)]
pub struct Score {
    pub distance: u128,
    pub scale: u128,
}

impl Score {
    pub open spec fn view(&self) -> (int, int) {
        (self.distance as int, self.scale as int)
    }
}

/// Strictly lower, comparing the fractions.
pub open spec fn score_below(a: (int, int), b: (int, int)) -> bool {
    a.0 * b.1 < b.0 * a.1
}

/// The largest total a histogram may hold, so that distances fit in 128 bits.
pub const MAX_TOTAL: u64 = 0x4000_0000_0000_0000;

/// How often each byte value occurs in a text, with the text's length.
#[derive(Debug)]
pub struct Frequencies {
    histogram: Vec<u64>,
    total: u64,
}

impl Frequencies {
    pub closed spec fn counts(&self) -> Seq<nat> {
        self.histogram@.map_values(|x: u64| x as nat)
    }

    pub closed spec fn spec_total(&self) -> nat {
        self.total as nat
    }

    pub closed spec fn wf(&self) -> bool {
        &&& self.histogram@.len() == 256
        &&& self.total == sum_first(self.counts(), 256)
        &&& self.total <= MAX_TOTAL
    }
}

proof fn lemma_sum_first_monotone(c: Seq<nat>, j: int, k: int)
    requires
        0 <= j <= k <= c.len(),
    ensures
        sum_first(c, j) <= sum_first(c, k),
    decreases k - j,
{
    if j < k {
        lemma_sum_first_monotone(c, j, k - 1);
    }
}

proof fn lemma_count_below_sum(c: Seq<nat>, v: int, k: int)
    requires
        0 <= v < k <= c.len(),
    ensures
        c[v] <= sum_first(c, k),
{
    lemma_sum_first_monotone(c, v + 1, k);
}

proof fn lemma_sum_first_update(c: Seq<nat>, v: int, x: nat, k: int)
    requires
        0 <= v < c.len(),
        0 <= k <= c.len(),
    ensures
        v < k ==> sum_first(c.update(v, x), k) + c[v] == sum_first(c, k) + x,
        v >= k ==> sum_first(c.update(v, x), k) == sum_first(c, k),
    decreases k,
{
    if k > 0 {
        lemma_sum_first_update(c, v, x, k - 1);
    }
}

impl Frequencies {
    /// Counts each byte value of `bytes`.
    pub fn from_bytes(bytes: &[u8]) -> (r: Frequencies)
        requires
            bytes@.len() <= MAX_TOTAL,
        ensures
            r.wf(),
            r.counts() == byte_counts(bytes@),
            r.spec_total() == bytes@.len(),
            r.counts().len() == 256,
    {
        let mut histogram: Vec<u64> = Vec::new();
        let mut v: usize = 0;
        while v < 256
            invariant
                v <= 256,
                histogram@.len() == v,
                forall|j: int| 0 <= j < v ==> histogram@[j] == 0,
            decreases 256 - v,
        {
            histogram.push(0);
            v += 1;
        }
        proof {
            assert(histogram@.map_values(|x: u64| x as nat) =~= byte_counts(bytes@.take(0)));
            lemma_zero_sum(histogram@.map_values(|x: u64| x as nat), 256);
        }
        let mut total: u64 = 0;
        let mut i: usize = 0;
        while i < bytes.len()
            invariant
                i <= bytes@.len(),
                bytes@.len() <= MAX_TOTAL,
                histogram@.len() == 256,
                histogram@.map_values(|x: u64| x as nat) == byte_counts(bytes@.take(i as int)),
                total == i,
                sum_first(histogram@.map_values(|x: u64| x as nat), 256) == total,
            decreases bytes.len() - i,
        {
            let b = bytes[i];
            let ghost before = histogram@.map_values(|x: u64| x as nat);
            proof {
                lemma_count_below_sum(before, b as int, 256);
            }
            let c = histogram[b as usize];
            histogram.set(b as usize, c + 1);
            total = total + 1;
            proof {
                let after = histogram@.map_values(|x: u64| x as nat);
                assert(after =~= before.update(b as int, before[b as int] + 1));
                lemma_sum_first_update(before, b as int, before[b as int] + 1, 256);
                let t = bytes@.take(i + 1);
                assert(t.drop_last() =~= bytes@.take(i as int));
                assert(after =~= byte_counts(t));
            }
            i += 1;
        }
        assert(bytes@.take(bytes@.len() as int) =~= bytes@);
        Frequencies { histogram: histogram, total: total }
    }

    /// The distance between the two distributions; see `distance_between`.
    pub fn compare(&self, other: Frequencies) -> (r: Score)
        requires
            self.wf(),
            other.wf(),
        ensures
            r@ == distance_between(
                self.counts(),
                self.spec_total(),
                other.counts(),
                other.spec_total(),
            ),
    {
        let sum_x = self.total;
        let sum_y = other.total;
        if sum_x == 0 || sum_y == 0 {
            return Score { distance: 2, scale: 1 };
        }
        let ghost c1 = self.counts();
        let ghost c2 = other.counts();
        let t1 = sum_x as u128;
        let t2 = sum_y as u128;
        let mut acc: u128 = 0;
        let mut v: usize = 0;
        while v < 256
            invariant
                v <= 256,
                self.wf(),
                other.wf(),
                c1 == self.counts(),
                c2 == other.counts(),
                t1 == self.total,
                t2 == other.total,
                0 < t1 <= MAX_TOTAL,
                0 < t2 <= MAX_TOTAL,
                acc == scaled_differences(c1, t1 as nat, c2, t2 as nat, v as int),
                acc <= t2 * sum_first(c1, v as int) + t1 * sum_first(c2, v as int),
            decreases 256 - v,
        {
            let x = self.histogram[v] as u128;
            let y = other.histogram[v] as u128;
            assert(c1[v as int] == x && c2[v as int] == y);
            proof {
                lemma_sum_first_monotone(c1, v + 1, 256);
                lemma_sum_first_monotone(c2, v + 1, 256);
                let s1 = sum_first(c1, v + 1);
                let s2 = sum_first(c2, v + 1);
                assert(s1 == sum_first(c1, v as int) + x);
                assert(s2 == sum_first(c2, v as int) + y);
                assert(t2 * s1 + t1 * s2 <= 2 * 0x4000_0000_0000_0000 * 0x4000_0000_0000_0000)
                    by (nonlinear_arith)
                    requires
                        s1 <= t1,
                        s2 <= t2,
                        t1 <= 0x4000_0000_0000_0000,
                        t2 <= 0x4000_0000_0000_0000,
                ;
                assert(x * t2 <= t2 * s1 && y * t1 <= t1 * s2) by (nonlinear_arith)
                    requires
                        x <= s1,
                        y <= s2,
                ;
                assert(t2 * s1 == t2 * sum_first(c1, v as int) + t2 * x) by (nonlinear_arith)
                    requires
                        s1 == sum_first(c1, v as int) + x,
                ;
                assert(t1 * s2 == t1 * sum_first(c2, v as int) + t1 * y) by (nonlinear_arith)
                    requires
                        s2 == sum_first(c2, v as int) + y,
                ;
            }
            let a = x * t2;
            let b = y * t1;
            let diff = if a > b {
                a - b
            } else {
                b - a
            };
            assert(diff <= a + b);
            assert(acc + diff <= t2 * sum_first(c1, v + 1) + t1 * sum_first(c2, v + 1))
                by (nonlinear_arith)
                requires
                    acc <= t2 * sum_first(c1, v as int) + t1 * sum_first(c2, v as int),
                    diff <= a + b,
                    a == x * t2,
                    b == y * t1,
                    sum_first(c1, v + 1) == sum_first(c1, v as int) + x,
                    sum_first(c2, v + 1) == sum_first(c2, v as int) + y,
            ;
            acc = acc + diff;
            v += 1;
        }
        assert(t1 * t2 <= 0x4000_0000_0000_0000 * 0x4000_0000_0000_0000) by (nonlinear_arith)
            requires
                t1 <= 0x4000_0000_0000_0000,
                t2 <= 0x4000_0000_0000_0000,
        ;
        Score { distance: acc, scale: t1 * t2 }
    }
}

proof fn lemma_zero_sum(c: Seq<nat>, k: int)
    requires
        0 <= k <= c.len(),
        forall|j: int| 0 <= j < c.len() ==> c[j] == 0,
    ensures
        sum_first(c, k) == 0,
    decreases k,
{
    if k > 0 {
        lemma_zero_sum(c, k - 1);
    }
}

/// Byte counts of a large body of English text, read as UTF-8.
pub const ENGLISH_UTF8: [u32; 256] = [
    13, 2, 0, 0, 0, 0, 0, 0,
    0, 0, 0, 0, 0, 0, 0, 0,
    0, 0, 0, 0, 0, 0, 11, 0,
    0, 0, 0, 0, 0, 0, 0, 0,
    384035805, 1123327, 7321259, 14835, 28553, 4135, 165612, 4830175,
    963365, 965784, 419617, 88192, 31583405, 7372705, 21790098, 98002,
    1437354, 2840886, 1899425, 1527604, 1452646, 1410993, 1363304, 1264624,
    1311226, 1122150, 991787, 4093888, 31901, 100809, 32710, 1165544,
    11296, 5633685, 2871772, 3294048, 2039758, 3729813, 1910711, 1875503,
    3540484, 8040216, 1250024, 647512, 2414273, 3527972, 2585121, 2394119,
    2242129, 146172, 2964304, 4777371, 6295483, 752026, 706806, 2631954,
    200577, 965475, 86984, 562022, 1423, 554950, 9351, 3465454,
    2340, 130884173, 23438350, 42243181, 69024434, 210634657, 38708937, 31191472,
    100015788, 110295057, 1536641, 10939137, 65914244, 39493750, 116305618, 126880206,
    28589079, 1731052, 100440282, 104205185, 149461559, 46929093, 16342510, 34023166,
    2754435, 30591688, 1063748, 11025, 223609, 10426, 9606, 1,
    8392, 4143, 984, 443, 1145, 251, 4024, 884,
    919, 5633, 191, 198, 162, 1623, 284, 106,
    181, 680, 263, 1081, 1492, 33, 641, 208,
    49, 2516, 1157, 432, 2485, 1902, 376, 35,
    22703, 18820, 19806, 8549, 4281, 225, 16019, 7986,
    17220, 405194, 7526, 3797, 496, 6050, 3462, 2489,
    12434, 8146, 1211, 4675, 7051, 700, 9283, 2496,
    264, 2568, 4495, 2517, 8480, 2700, 1332, 1498,
    3, 0, 372566, 254259, 35, 868, 18, 0,
    0, 19, 0, 2, 773, 26, 5453, 3236,
    0, 0, 0, 2, 0, 0, 3, 148,
    0, 0, 0, 0, 0, 0, 7, 0,
    130, 1582, 7723, 0, 132, 0, 180, 87,
    226, 1144, 106, 87, 4, 6, 7, 64,
    0, 259, 3, 7, 86, 0, 149, 2,
    0, 9, 6, 32, 91, 0, 19, 0,
];

/// A reference language whose byte distribution texts are scored against.
#[derive(Clone, Copy, Debug, PartialEq, Eq)]
pub enum Language {
    EnglishUtf8,
}

/// The reference counts of a language.
pub open spec fn reference_counts(language: Language) -> Seq<nat> {
    match language {
        Language::EnglishUtf8 => ENGLISH_UTF8@.map_values(|x: u32| x as nat),
    }
}

impl Language {
    /// The language's reference distribution.
    pub fn frequencies(&self) -> (r: Frequencies)
        ensures
            r.wf(),
            r.counts() == reference_counts(*self),
            r.spec_total() == sum_first(r.counts(), 256),
    {
        let table = match *self {
            Language::EnglishUtf8 => ENGLISH_UTF8,
        };
        let mut histogram: Vec<u64> = Vec::new();
        let mut total: u64 = 0;
        let mut v: usize = 0;
        while v < 256
            invariant
                v <= 256,
                table@ == match *self {
                    Language::EnglishUtf8 => ENGLISH_UTF8@,
                },
                table@.len() == 256,
                histogram@.len() == v,
                forall|j: int| 0 <= j < v ==> histogram@[j] == table@[j],
                total == sum_first(histogram@.map_values(|x: u64| x as nat), v as int),
                total <= v * 0x1_0000_0000,
            decreases 256 - v,
        {
            let ghost before = histogram@.map_values(|x: u64| x as nat);
            histogram.push(table[v] as u64);
            total = total + table[v] as u64;
            proof {
                let after = histogram@.map_values(|x: u64| x as nat);
                lemma_sum_first_prefix(after, before, v as int);
            }
            v += 1;
        }
        assert(histogram@.map_values(|x: u64| x as nat) =~= reference_counts(*self));
        Frequencies { histogram: histogram, total: total }
    }

    /// The distance of the byte distribution of `bytes` from the language's reference.
    pub fn compare(&self, bytes: &[u8]) -> (r: Score)
        requires
            bytes@.len() <= MAX_TOTAL,
        ensures
            r@ == text_score(*self, bytes@),
    {
        self.frequencies().compare(Frequencies::from_bytes(bytes))
    }
}

/// The score of a text against a language's reference distribution.
pub open spec fn text_score(language: Language, b: Seq<u8>) -> (int, int) {
    let reference = reference_counts(language);
    distance_between(reference, sum_first(reference, 256), byte_counts(b), b.len())
}

proof fn lemma_sum_first_prefix(a: Seq<nat>, b: Seq<nat>, k: int)
    requires
        0 <= k <= b.len() <= a.len(),
        forall|j: int| 0 <= j < k ==> a[j] == b[j],
    ensures
        sum_first(a, k) == sum_first(b, k),
    decreases k,
{
    if k > 0 {
        lemma_sum_first_prefix(a, b, k - 1);
    }
}

// ---------------------------------------------------------------- laws

proof fn lemma_scaled_differences_self(c: Seq<nat>, t: nat, k: int)
    requires
        0 <= k <= c.len(),
    ensures
        scaled_differences(c, t, c, t, k) == 0,
    decreases k,
{
    if k > 0 {
        lemma_scaled_differences_self(c, t, k - 1);
        assert(c[k - 1] * t - c[k - 1] * t == 0);
    }
}

proof fn lemma_scaled_differences_symmetric(c1: Seq<nat>, t1: nat, c2: Seq<nat>, t2: nat, k: int)
    requires
        0 <= k,
    ensures
        scaled_differences(c1, t1, c2, t2, k) == scaled_differences(c2, t2, c1, t1, k),
    decreases k,
{
    if k > 0 {
        lemma_scaled_differences_symmetric(c1, t1, c2, t2, k - 1);
    }
}

/// A histogram with a nonzero total is at distance zero from itself.
pub proof fn lemma_compare_self(h: Frequencies)
    requires
        h.wf(),
        h.spec_total() > 0,
    ensures
        distance_between(h.counts(), h.spec_total(), h.counts(), h.spec_total()).0 == 0,
{
    lemma_scaled_differences_self(h.counts(), h.spec_total(), 256);
}

/// The distance between two histograms does not depend on their order.
pub proof fn lemma_compare_symmetric(h1: Frequencies, h2: Frequencies)
    requires
        h1.wf(),
        h2.wf(),
    ensures
        distance_between(h1.counts(), h1.spec_total(), h2.counts(), h2.spec_total())
            == distance_between(h2.counts(), h2.spec_total(), h1.counts(), h1.spec_total()),
{
    lemma_scaled_differences_symmetric(h1.counts(), h1.spec_total(), h2.counts(), h2.spec_total(), 256);
    assert(h1.spec_total() * h2.spec_total() == h2.spec_total() * h1.spec_total()) by (nonlinear_arith);
}

} // verus!
