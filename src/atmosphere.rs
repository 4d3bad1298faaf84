use vstd::prelude::*;
use itertools::Itertools;
use crate::types::{Fraction, HazeError, Image, Rgb};

verus! {

/// Index `i` ranks before index `j`: its darkness value is higher, or the
/// values are equal and `i` comes first.
pub open spec fn ranks_before(dark: Seq<u8>, i: int, j: int) -> bool {
    dark[i] > dark[j] || (dark[i] == dark[j] && i < j)
}

/// `order` lists the indices of `dark` from the most haze-opaque down.
/// There is exactly one such list (`lemma_ranking_unique`).
pub open spec fn is_ranking(dark: Seq<u8>, order: Seq<usize>) -> bool {
    &&& order.len() == dark.len()
    &&& forall|a: int| 0 <= a < order.len() ==> #[trigger] order[a] < dark.len()
    &&& forall|a: int, b: int|
        0 <= a < b < order.len() ==> ranks_before(dark, #[trigger] order[a] as int, #[trigger] order[b] as int)
}

/// How many of `n` pixels are candidates: `n * frac` rounded to the nearest
/// integer, halves upwards.
pub open spec fn candidate_count(n: int, frac: Fraction) -> int {
    (2 * n * frac.num + frac.den) / (2 * frac.den as int)
}

pub open spec fn white() -> Rgb {
    Rgb { r: 255, g: 255, b: 255 }
}

/// Scans `cands` in order and keeps the first pixel whose brightest sample
/// strictly exceeds every one before it, starting from intensity 0 and white.
/// Yields the intensity kept and its pixel.
pub open spec fn brightest_scan(pixels: Seq<Rgb>, cands: Seq<usize>) -> (int, Rgb)
    decreases cands.len(),
{
    if cands.len() == 0 {
        (0, white())
    } else {
        let best = brightest_scan(pixels, cands.drop_last());
        let p = pixels[cands.last() as int];
        if p.brightest() > best.0 {
            (p.brightest(), p)
        } else {
            best
        }
    }
}

/// The atmospheric light chosen from the first `k` entries of a ranking.
pub open spec fn atmospheric_of(pixels: Seq<Rgb>, order: Seq<usize>, k: int) -> Rgb {
    brightest_scan(pixels, order.take(k)).1
}

/// The pairs are in ascending lexicographic order.
pub open spec fn pairs_ascending(s: Seq<(u8, usize)>) -> bool {
    forall|a: int, b: int|
        0 <= a < b < s.len() ==> (#[trigger] s[a]).0 < (#[trigger] s[b]).0 || (s[a].0 == s[b].0
            && s[a].1 <= s[b].1)
}

/// Relies on itertools::Itertools::sorted, which collects the items and sorts
/// them with std's `slice::sort`: the same items, in ascending order of the
/// tuples' lexicographic `Ord`.
#[verifier::external_body]
fn sorted_pairs(v: Vec<(u8, usize)>) -> (r: Vec<(u8, usize)>)
    ensures
        r@.to_multiset() == v@.to_multiset(),
        pairs_ascending(r@),
{
    v.into_iter().sorted().collect()
}

/// The indices of `dark` in ranking order.
fn rank_by_darkness(dark: &Vec<u8>) -> (r: Vec<usize>)
    ensures
        is_ranking(dark@, r@),
{
    let n = dark.len();
    let mut keys: Vec<(u8, usize)> = Vec::with_capacity(n);
    let mut i: usize = 0;
    while i < n
        invariant
            n == dark@.len(),
            i <= n,
            keys@.len() == i,
            forall|j: int| 0 <= j < i ==> #[trigger] keys@[j] == ((255 - dark@[j]) as u8, j as usize),
        decreases n - i,
    {
        keys.push((255 - dark[i], i));
        i = i + 1;
    }
    let ghost k0 = keys@;
    let sorted = sorted_pairs(keys);
    let ghost s = sorted@;
    proof {
        broadcast use vstd::seq_lib::group_to_multiset_ensures;
        assert(k0.no_duplicates());
        k0.lemma_multiset_has_no_duplicates();
        s.lemma_multiset_has_no_duplicates_conv();
        assert(s.len() == n) by {
            assert(s.to_multiset().len() == k0.to_multiset().len());
        }
        assert forall|a: int| 0 <= a < s.len() implies #[trigger] s[a].1 < n && s[a].0 == 255
            - dark@[s[a].1 as int] by {
            assert(s.to_multiset().count(s[a]) > 0);
            assert(k0.contains(s[a]));
        }
    }
    let mut order: Vec<usize> = Vec::with_capacity(n);
    let mut a: usize = 0;
    while a < sorted.len()
        invariant
            sorted@ == s,
            s.len() == n,
            n == dark@.len(),
            a <= n,
            order@.len() == a,
            forall|j: int| 0 <= j < a ==> #[trigger] order@[j] == s[j].1,
        decreases n - a,
    {
        order.push(sorted[a].1);
        a = a + 1;
    }
    proof {
        assert forall|a: int, b: int| 0 <= a < b < order@.len() implies ranks_before(
            dark@,
            #[trigger] order@[a] as int,
            #[trigger] order@[b] as int,
        ) by {
            assert(s[a] != s[b]);
            assert(s[a].1 < n && s[a].0 == 255 - dark@[s[a].1 as int]);
            assert(s[b].1 < n && s[b].0 == 255 - dark@[s[b].1 as int]);
        }
        assert forall|a: int| 0 <= a < order@.len() implies #[trigger] order@[a] < dark@.len() by {
            assert(s[a].1 < n);
        }
    }
    order
}

/// The number of candidates among `n` pixels.
fn count_candidates(n: usize, frac: Fraction) -> (r: usize)
    requires
        frac.in_half_open_unit(),
    ensures
        r == candidate_count(n as int, frac),
        r <= n,
{
    let num = frac.num as u128;
    let den = frac.den as u128;
    let nn = n as u128;
    proof {
        let (ni, ui, di) = (n as int, num as int, den as int);
        assert(2 * ni * ui + di <= 2 * ni * di + di) by (nonlinear_arith)
            requires 0 <= ni, ui <= di;
        assert(ni <= 0xffff_ffff_ffff_ffff);
        assert(2 * ni * ui + di <= 0x1_0000_0000_0000_0000_0000_0000_0000) by (nonlinear_arith)
            requires 0 <= ni <= 0xffff_ffff_ffff_ffff, 0 <= ui <= 0xffff_ffff, 0 <= di <= 0xffff_ffff;
        assert(2 * ni * ui == 2 * (ni * ui)) by (nonlinear_arith);
        assert((2 * ni * di + di) / (2 * di) == ni) by (nonlinear_arith)
            requires 0 < di, 0 <= ni;
        vstd::arithmetic::div_mod::lemma_div_is_ordered(2 * ni * ui + di, 2 * ni * di + di, 2 * di);
    }
    ((2 * nn * num + den) / (2 * den)) as usize
}

/// Picks the atmospheric light: among the `round(n * a_proportion)` pixels
/// ranked highest in `dark_map`, scanned in ranking order, the first of
/// strictly greatest brightness above zero; white when there is none.
pub fn get_atmospheric(dark_map: &Vec<u8>, image: &Image, a_proportion: Fraction) -> (r: Result<Rgb, HazeError>)
    ensures
        match r {
            Ok(a) => exists|order: Seq<usize>|
                is_ranking(dark_map@, order) && a == atmospheric_of(
                    image.pixels@,
                    order,
                    candidate_count(dark_map@.len() as int, a_proportion),
                ),
            Err(e) => if !image.wf() || dark_map@.len() != image.pixels@.len() {
                e == HazeError::InvalidDimensions
            } else {
                e == HazeError::InvalidParameter && !a_proportion.in_half_open_unit()
            },
        },
        r.is_ok() <==> image.wf() && dark_map@.len() == image.pixels@.len()
            && a_proportion.in_half_open_unit(),
{
    if !image.is_valid() || dark_map.len() != image.pixels.len() {
        return Err(HazeError::InvalidDimensions);
    }
    if !(0 < a_proportion.num && a_proportion.num <= a_proportion.den) {
        return Err(HazeError::InvalidParameter);
    }
    let order = rank_by_darkness(dark_map);
    let k = count_candidates(dark_map.len(), a_proportion);
    let ghost cands = order@.take(k as int);
    let mut best_i: u8 = 0;
    let mut best_px = Rgb { r: 255, g: 255, b: 255 };
    let mut a: usize = 0;
    while a < k
        invariant
            is_ranking(dark_map@, order@),
            dark_map@.len() == image.pixels@.len(),
            k <= order@.len(),
            cands == order@.take(k as int),
            a <= k,
            brightest_scan(image.pixels@, cands.take(a as int)) == (best_i as int, best_px),
        decreases k - a,
    {
        let i = order[a];
        let px = image.pixels[i];
        let intensity = px.max_channel();
        proof {
            assert(cands.take(a as int + 1).drop_last() == cands.take(a as int));
        }
        if intensity > best_i {
            best_i = intensity;
            best_px = px;
        }
        a = a + 1;
    }
    proof {
        assert(cands.take(k as int) == cands);
    }
    Ok(best_px)
}

proof fn lemma_gray_scan(pixels: Seq<Rgb>, cands: Seq<usize>, k: u8)
    requires
        k > 0,
        cands.len() > 0,
        forall|a: int| 0 <= a < cands.len() ==> #[trigger] cands[a] < pixels.len(),
        forall|i: int| 0 <= i < pixels.len() ==> #[trigger] pixels[i] == (Rgb { r: k, g: k, b: k }),
    ensures
        brightest_scan(pixels, cands) == (k as int, Rgb { r: k, g: k, b: k }),
    decreases cands.len(),
{
    let rest = cands.drop_last();
    assert(pixels[cands.last() as int] == (Rgb { r: k, g: k, b: k }));
    if rest.len() > 0 {
        assert forall|a: int| 0 <= a < rest.len() implies #[trigger] rest[a] < pixels.len() by {
            assert(rest[a] == cands[a]);
        }
        lemma_gray_scan(pixels, rest, k);
    } else {
        assert(brightest_scan(pixels, rest) == (0int, white()));
    }
    assert(pixels[cands.last() as int].brightest() == k);
}

/// On an image whose every pixel is the gray `(k, k, k)` with `k > 0`, the
/// atmospheric light is that gray, provided at least one candidate is taken.
pub proof fn lemma_uniform_light(pixels: Seq<Rgb>, dark: Seq<u8>, order: Seq<usize>, frac: Fraction, k: u8)
    requires
        k > 0,
        dark.len() == pixels.len(),
        forall|i: int| 0 <= i < pixels.len() ==> #[trigger] pixels[i] == (Rgb { r: k, g: k, b: k }),
        is_ranking(dark, order),
        frac.in_half_open_unit(),
        candidate_count(pixels.len() as int, frac) >= 1,
    ensures
        atmospheric_of(pixels, order, candidate_count(pixels.len() as int, frac)) == (Rgb {
            r: k,
            g: k,
            b: k,
        }),
{
    let n = pixels.len() as int;
    let c = candidate_count(n, frac);
    let (ui, di) = (frac.num as int, frac.den as int);
    assert(2 * n * ui + di <= 2 * n * di + di) by (nonlinear_arith)
        requires 0 <= n, ui <= di;
    assert((2 * n * di + di) / (2 * di) == n) by (nonlinear_arith)
        requires 0 < di, 0 <= n;
    vstd::arithmetic::div_mod::lemma_div_is_ordered(2 * n * ui + di, 2 * n * di + di, 2 * di);
    let cands = order.take(c);
    assert forall|a: int| 0 <= a < cands.len() implies #[trigger] cands[a] < pixels.len() by {
        assert(cands[a] == order[a]);
    }
    lemma_gray_scan(pixels, cands, k);
}

spec fn lists(order: Seq<usize>, j: int) -> bool {
    exists|a: int| 0 <= a < order.len() && #[trigger] order[a] as int == j
}

/// A ranking lists every index of the map.
proof fn lemma_ranking_covers(dark: Seq<u8>, order: Seq<usize>)
    requires
        is_ranking(dark, order),
    ensures
        forall|j: int| 0 <= j < dark.len() ==> #[trigger] lists(order, j),
{
    let n = dark.len() as int;
    let oi = Seq::new(order.len(), |a: int| order[a] as int);
    assert forall|a: int, b: int| 0 <= a < oi.len() && 0 <= b < oi.len() && a != b implies oi[a] != oi[b] by {
        if a < b {
            assert(ranks_before(dark, order[a] as int, order[b] as int));
        } else {
            assert(ranks_before(dark, order[b] as int, order[a] as int));
        }
    }
    assert(oi.no_duplicates());
    oi.unique_seq_to_set();
    vstd::set_lib::lemma_int_range(0, n);
    let full = vstd::set_lib::set_int_range(0, n);
    assert forall|v: int| oi.to_set().contains(v) implies full.contains(v) by {
        let a = choose|a: int| 0 <= a < oi.len() && oi[a] == v;
        assert(order[a] < dark.len());
    }
    broadcast use vstd::seq_lib::seq_to_set_is_finite;
    vstd::set_lib::lemma_subset_equality(oi.to_set(), full);
    assert forall|j: int| 0 <= j < n implies #[trigger] lists(order, j) by {
        assert(full.contains(j));
        assert(oi.to_set().contains(j));
        let a = choose|a: int| 0 <= a < oi.len() && oi[a] == j;
        assert(order[a] as int == j);
    }
}

proof fn lemma_rankings_agree_below(dark: Seq<u8>, o1: Seq<usize>, o2: Seq<usize>, k: int)
    requires
        is_ranking(dark, o1),
        is_ranking(dark, o2),
        0 <= k <= o1.len(),
    ensures
        forall|a: int| 0 <= a < k ==> o1[a] == o2[a],
    decreases k,
{
    if k > 0 {
        lemma_rankings_agree_below(dark, o1, o2, k - 1);
        let a = k - 1;
        let (x, y) = (o1[a], o2[a]);
        if x != y {
            lemma_ranking_covers(dark, o1);
            lemma_ranking_covers(dark, o2);
            assert(x < dark.len() && y < dark.len());
            assert(lists(o2, x as int) && lists(o1, y as int));
            let b = choose|b: int| 0 <= b < o2.len() && #[trigger] o2[b] as int == x as int;
            let c = choose|c: int| 0 <= c < o1.len() && #[trigger] o1[c] as int == y as int;
            if b < a {
                assert(o1[b] == x);
                assert(ranks_before(dark, o1[b] as int, o1[a] as int));
            }
            if c < a {
                assert(o2[c] == y);
                assert(ranks_before(dark, o2[c] as int, o2[a] as int));
            }
            assert(ranks_before(dark, o2[a] as int, o2[b] as int));
            assert(ranks_before(dark, o1[a] as int, o1[c] as int));
        }
    }
}

/// A ranking is unique: two rankings of one darkness map are equal.
pub proof fn lemma_ranking_unique(dark: Seq<u8>, o1: Seq<usize>, o2: Seq<usize>)
    requires
        is_ranking(dark, o1),
        is_ranking(dark, o2),
    ensures
        o1 == o2,
{
    lemma_rankings_agree_below(dark, o1, o2, o1.len() as int);
    assert(o1 =~= o2);
}

} // verus!
