//! The split of the hash space into bands that are folded side by side.
use vstd::prelude::*;
use vstd::arithmetic::div_mod::{
    lemma_div_is_ordered, lemma_div_multiples_vanish, lemma_fundamental_div_mod,
};

verus! {

/// How many hashes there are.
pub open spec fn hash_span() -> int {
    0x1_0000_0000_0000_0000
}

/// Where band `band` of `count` begins; it ends just before band `band + 1`.
pub open spec fn band_start(band: int, count: int) -> int {
    hash_span() * band / count
}

/// How many bands are made when `count` are asked for.
pub open spec fn band_count(count: int) -> int {
    if count < 1 {
        1
    } else {
        count
    }
}

/// The inclusive range of band `band` of `count`.
pub open spec fn band_range(band: int, count: int) -> (u64, u64) {
    (band_start(band, count) as u64, (band_start(band + 1, count) - 1) as u64)
}

/// Whether a hash lies in an inclusive range.
pub open spec fn in_band(hash: u64, band: (u64, u64)) -> bool {
    band.0 <= hash <= band.1
}

/// Uniform partition of the u64 hash space into `count` inclusive ranges, and
/// into one range where none is asked for.
pub fn hash_bands(count: usize) -> (bands: Vec<(u64, u64)>)
    ensures
        bands@ == Seq::new(
            band_count(count as int) as nat,
            |band: int| band_range(band, band_count(count as int)),
        ),
        bands@.len() == if count < 1 {
            1
        } else {
            count as int
        },
        forall|k: int|
            0 <= k < bands@.len() ==> {
                let n = bands@.len();
                let (lo, hi) = #[trigger] bands@[k];
                &&& n * lo <= 0x1_0000_0000_0000_0000 * k < n * (lo + 1)
                &&& n * (hi + 1) <= 0x1_0000_0000_0000_0000 * (k + 1) < n * (hi + 2)
            },
{
    let bands_wanted: usize = if count < 1 {
        1
    } else {
        count
    };
    let total: u128 = bands_wanted as u128;
    let span: u128 = (u64::MAX as u128) + 1;
    let mut bands: Vec<(u64, u64)> = Vec::with_capacity(bands_wanted);
    let mut band: u128 = 0;
    while band < total
        invariant
            0 <= band <= total,
            total == band_count(count as int),
            total <= u64::MAX,
            span == hash_span(),
            bands@ == Seq::new(band as nat, |b: int| band_range(b, total as int)),
        decreases total - band,
    {
        proof {
            lemma_band_is_range(band as int, total as int);
            assert(span * band <= span * total) by (nonlinear_arith)
                requires
                    band < total,
            ;
            assert(span * (band + 1) <= span * total) by (nonlinear_arith)
                requires
                    band + 1 <= total,
            ;
            assert(span * total <= 0x1_0000_0000_0000_0000 * 0xFFFF_FFFF_FFFF_FFFF)
                by (nonlinear_arith)
                requires
                    span == 0x1_0000_0000_0000_0000,
                    total <= 0xFFFF_FFFF_FFFF_FFFF,
            ;
        }
        let lo: u64 = (span * band / total) as u64;
        let hi: u64 = (span * (band + 1) / total - 1) as u64;
        bands.push((lo, hi));
        band = band + 1;
        proof {
            assert(bands@ =~= Seq::new(band as nat, |b: int| band_range(b, total as int)));
        }
    }
    proof {
        let n = bands@.len() as int;
        assert forall|k: int| 0 <= k < n implies {
            let (lo, hi) = #[trigger] bands@[k];
            &&& n * lo <= 0x1_0000_0000_0000_0000 * k < n * (lo + 1)
            &&& n * (hi + 1) <= 0x1_0000_0000_0000_0000 * (k + 1) < n * (hi + 2)
        } by {
            bands_are_even_parts(n, k);
        }
    }
    bands
}

/// A band is a non-empty range of hashes.
pub proof fn lemma_band_is_range(band: int, count: int)
    requires
        0 <= band < count <= u64::MAX,
    ensures
        0 <= band_start(band, count) < band_start(band + 1, count) <= hash_span(),
{
    let span = hash_span();
    assert(span * band >= 0) by (nonlinear_arith)
        requires
            span >= 0,
            band >= 0,
    ;
    assert(span * (band + 1) == span * band + span) by (nonlinear_arith);
    assert(span * count == count * span) by (nonlinear_arith);
    assert(span * (band + 1) <= span * count) by (nonlinear_arith)
        requires
            band + 1 <= count,
            span >= 0,
    ;
    lemma_div_is_ordered(span * (band + 1), span * count, count);
    lemma_div_multiples_vanish(span, count);
    lemma_div_is_ordered(span * band + count, span * (band + 1), count);
    assert((span * band + count) / count == span * band / count + 1) by (nonlinear_arith)
        requires
            count > 0,
    ;
    vstd::arithmetic::div_mod::lemma_div_pos_is_pos(span * band, count);
}

/// The bands cover the whole hash space without gap or overlap: the first
/// begins at 0, the last ends at the greatest hash, each begins just after the
/// one before it, and none is empty.
pub proof fn bands_are_contiguous(count: int, band: int)
    requires
        1 <= count <= u64::MAX,
        0 <= band < count,
    ensures
        band_range(0, count).0 == 0,
        band_range(count - 1, count).1 == u64::MAX,
        band_range(band, count).0 <= band_range(band, count).1,
        band + 1 < count ==> band_range(band, count).1 + 1 == band_range(band + 1, count).0,
{
    lemma_band_is_range(band, count);
    lemma_band_is_range(0, count);
    lemma_band_is_range(count - 1, count);
    assert(hash_span() * 0 == 0);
    assert(hash_span() * count == count * hash_span()) by (nonlinear_arith);
    lemma_div_multiples_vanish(hash_span(), count);
    if band + 1 < count {
        lemma_band_is_range(band + 1, count);
    }
}

/// Later bands begin after earlier ones end.
proof fn lemma_bands_ascend(count: int, low: int, high: int)
    requires
        1 <= count <= u64::MAX,
        0 <= low < high < count,
    ensures
        band_range(low, count).1 < band_range(high, count).0,
    decreases high - low,
{
    bands_are_contiguous(count, low);
    if low + 1 < high {
        lemma_bands_ascend(count, low + 1, high);
        bands_are_contiguous(count, low + 1);
    }
}

proof fn lemma_some_band_holds(count: int, hash: u64, bands: int) -> (band: int)
    requires
        1 <= bands <= count <= u64::MAX,
        hash <= band_range(bands - 1, count).1,
    ensures
        0 <= band < bands,
        in_band(hash, band_range(band, count)),
    decreases bands,
{
    bands_are_contiguous(count, bands - 1);
    if band_range(bands - 1, count).0 <= hash {
        bands - 1
    } else {
        bands_are_contiguous(count, bands - 2);
        lemma_some_band_holds(count, hash, bands - 1)
    }
}

/// Every hash lies in exactly one band.
pub proof fn each_hash_has_one_band(count: int, hash: u64) -> (band: int)
    requires
        1 <= count <= u64::MAX,
    ensures
        0 <= band < count,
        in_band(hash, band_range(band, count)),
        forall|other: int|
            0 <= other < count && #[trigger] in_band(hash, band_range(other, count)) ==> other
                == band,
{
    bands_are_contiguous(count, count - 1);
    let band = lemma_some_band_holds(count, hash, count);
    assert forall|other: int|
        0 <= other < count && #[trigger] in_band(hash, band_range(other, count)) implies other
        == band by {
        if other < band {
            lemma_bands_ascend(count, other, band);
        }
        if band < other {
            lemma_bands_ascend(count, band, other);
        }
    }
    band
}

/// The partition is uniform: the sizes of two bands differ by at most one.
pub proof fn bands_are_uniform(count: int, a: int, b: int)
    requires
        1 <= count <= u64::MAX,
        0 <= a < count,
        0 <= b < count,
    ensures
        (band_start(a + 1, count) - band_start(a, count)) - (band_start(b + 1, count) - band_start(
            b,
            count,
        )) <= 1,
{
    lemma_band_size(count, a);
    lemma_band_size(count, b);
}

proof fn lemma_band_size(count: int, band: int)
    requires
        1 <= count <= u64::MAX,
        0 <= band < count,
    ensures
        hash_span() / count <= band_start(band + 1, count) - band_start(band, count) <= hash_span()
            / count + 1,
{
    let span = hash_span();
    assert(span * (band + 1) == span * band + span) by (nonlinear_arith);
    let x = span * band;
    lemma_fundamental_div_mod(x, count);
    lemma_fundamental_div_mod(span, count);
    lemma_fundamental_div_mod(x + span, count);
    let p = x / count;
    let q = span / count;
    let r = (x + span) / count;
    assert(q <= r - p <= q + 1) by (nonlinear_arith)
        requires
            count > 0,
            x == count * p + x % count,
            span == count * q + span % count,
            x + span == count * r + (x + span) % count,
            0 <= x % count < count,
            0 <= span % count < count,
            0 <= (x + span) % count < count,
    ;
}

/// A band begins at the first hash at which its share of the hash space is
/// reached, and ends just before the share of the next one: of `count` even
/// shares, `band` lie before it.
pub proof fn bands_are_even_parts(count: int, band: int)
    requires
        1 <= count <= u64::MAX,
        0 <= band < count,
    ensures
        ({
            let (lo, hi) = band_range(band, count);
            &&& count * lo <= 0x1_0000_0000_0000_0000 * band < count * (lo + 1)
            &&& count * (hi + 1) <= 0x1_0000_0000_0000_0000 * (band + 1) < count * (hi + 2)
        }),
{
    let span = 0x1_0000_0000_0000_0000int;
    lemma_band_is_range(band, count);
    let a = span * band;
    let b = span * (band + 1);
    lemma_fundamental_div_mod(a, count);
    lemma_fundamental_div_mod(b, count);
    let (lo, hi) = band_range(band, count);
    assert(lo == a / count);
    assert(hi + 1 == b / count);
    assert(count * (lo + 1) == count * lo + count) by (nonlinear_arith);
    assert(count * (hi + 2) == count * (hi + 1) + count) by (nonlinear_arith);
}

/// As many bands are made as are asked for, and never none.
pub proof fn bands_are_as_many_as_asked(count: int)
    ensures
        count >= 1 ==> band_count(count) == count,
        count < 1 ==> band_count(count) == 1,
{
}

/// A hash lies in a band from its first to its last hash.
pub proof fn bands_hold_their_ends(hash: u64, lo: u64, hi: u64)
    ensures
        in_band(hash, (lo, hi)) <==> lo <= hash && hash <= hi,
{
}

} // verus!
