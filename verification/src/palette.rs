//! The greedy choice of a palette from ranked colours.

use crate::color::Color;
use crate::ranking::{
    lemma_ranking_distinct, lemma_ranking_exists, outranks, rank_colors, ranking,
};
use crate::raster::{colors_of, nearest_grid, triples, Raster, GRID};
use crate::ratio::Ratio;
use crate::similarity::{lemma_similar_extremes, lemma_similar_monotone, lemma_similar_symmetric, similar};
use vstd::prelude::*;

verus! {

/// Whether the colour `c` is similar to one of the colours kept so far.
pub open spec fn clashes(kept: Seq<Color>, c: Color, tolerance: real) -> bool {
    exists|i: int| 0 <= i < kept.len() && similar(#[trigger] kept[i], c, tolerance)
}

/// The colours that a walk along `ranked` keeps: each one that is similar to
/// none of those kept before it.
pub open spec fn select(ranked: Seq<Color>, tolerance: real) -> Seq<Color>
    decreases ranked.len(),
{
    if ranked.len() == 0 {
        Seq::empty()
    } else {
        let kept = select(ranked.drop_last(), tolerance);
        if clashes(kept, ranked.last(), tolerance) {
            kept
        } else {
            kept.push(ranked.last())
        }
    }
}

/// The palette of a sequence of samples: what `select` keeps of their
/// ranking.
pub open spec fn palette(samples: Seq<Color>, tolerance: real) -> Seq<Color> {
    select(ranking(samples), tolerance)
}

/// Whether, among the colours of `colors`, a colour that is similar under
/// `upper` to one that is similar under `lower` to a third is similar under
/// `upper` to the third. With both tolerances equal this says that similarity
/// is transitive; it holds of every `upper` where `lower` is negative, and of
/// every `lower` where `upper` is 50 or more.
pub open spec fn chains(colors: Seq<Color>, lower: real, upper: real) -> bool {
    forall|x: Color, y: Color, z: Color|
        colors.contains(x) && colors.contains(y) && colors.contains(z) && #[trigger] similar(
            x,
            y,
            upper,
        ) && #[trigger] similar(y, z, lower) ==> similar(x, z, upper)
}

/// Whether no two of the colours, at different places, are similar.
pub open spec fn dissimilar(colors: Seq<Color>, tolerance: real) -> bool {
    forall|i: int, j: int|
        0 <= i < colors.len() && 0 <= j < colors.len() && i != j ==> !similar(
            #[trigger] colors[i],
            #[trigger] colors[j],
            tolerance,
        )
}

/// What is kept of a sequence extends what is kept of each of its prefixes.
proof fn lemma_select_step(ranked: Seq<Color>, c: Color, tolerance: real)
    ensures
        select(ranked.push(c), tolerance) == if clashes(select(ranked, tolerance), c, tolerance) {
            select(ranked, tolerance)
        } else {
            select(ranked, tolerance).push(c)
        },
{
    assert(ranked.push(c).drop_last() =~= ranked);
}

/// Every colour that is kept is one of the ranked colours, and there are no
/// more of them.
pub proof fn lemma_select_within(ranked: Seq<Color>, tolerance: real)
    ensures
        select(ranked, tolerance).len() <= ranked.len(),
        forall|c: Color| #[trigger] select(ranked, tolerance).contains(c) ==> ranked.contains(c),
    decreases ranked.len(),
{
    if ranked.len() > 0 {
        let rest = ranked.drop_last();
        lemma_select_within(rest, tolerance);
        let kept = select(rest, tolerance);
        assert forall|c: Color| #[trigger] select(ranked, tolerance).contains(c) implies ranked.contains(c) by {
            let i = choose|i: int| 0 <= i < select(ranked, tolerance).len() && select(ranked, tolerance)[i] == c;
            if i < kept.len() {
                assert(kept[i] == c);
                assert(kept.contains(c));
                let k = choose|k: int| 0 <= k < rest.len() && rest[k] == c;
                assert(ranked[k] == c);
            } else {
                assert(ranked[ranked.len() - 1] == c);
            }
        }
    }
}

/// No two colours that are kept are similar.
pub proof fn lemma_select_dissimilar(ranked: Seq<Color>, tolerance: real)
    ensures
        dissimilar(select(ranked, tolerance), tolerance),
    decreases ranked.len(),
{
    if ranked.len() > 0 {
        let rest = ranked.drop_last();
        lemma_select_dissimilar(rest, tolerance);
        let kept = select(rest, tolerance);
        let all = select(ranked, tolerance);
        assert forall|i: int, j: int| 0 <= i < all.len() && 0 <= j < all.len() && i != j implies !similar(
            #[trigger] all[i],
            #[trigger] all[j],
            tolerance,
        ) by {
            lemma_similar_symmetric(all[i], all[j], tolerance);
            if i < kept.len() && j < kept.len() {
                assert(!similar(kept[i], kept[j], tolerance));
            } else if i < kept.len() {
                assert(all[i] == kept[i]);
            } else {
                assert(all[j] == kept[j]);
            }
        }
    }
}

/// Every ranked colour is kept or is similar to a colour that is kept.
pub proof fn lemma_select_covers(ranked: Seq<Color>, tolerance: real)
    ensures
        forall|c: Color|
            #[trigger] ranked.contains(c) ==> select(ranked, tolerance).contains(c) || clashes(
                select(ranked, tolerance),
                c,
                tolerance,
            ),
    decreases ranked.len(),
{
    if ranked.len() > 0 {
        let rest = ranked.drop_last();
        lemma_select_covers(rest, tolerance);
        let kept = select(rest, tolerance);
        let all = select(ranked, tolerance);
        assert forall|c: Color| #[trigger] ranked.contains(c) implies all.contains(c) || clashes(
            all,
            c,
            tolerance,
        ) by {
            let k = choose|k: int| 0 <= k < ranked.len() && ranked[k] == c;
            if k < rest.len() {
                assert(rest[k] == c);
                assert(rest.contains(c));
                if kept.contains(c) {
                    let i = choose|i: int| 0 <= i < kept.len() && kept[i] == c;
                    assert(all[i] == c);
                } else {
                    let i = choose|i: int| 0 <= i < kept.len() && similar(#[trigger] kept[i], c, tolerance);
                    assert(all[i] == kept[i]);
                }
            } else if !clashes(kept, c, tolerance) {
                assert(all[all.len() - 1] == c);
            } else {
                let i = choose|i: int| 0 <= i < kept.len() && similar(#[trigger] kept[i], c, tolerance);
                assert(all[i] == kept[i]);
            }
        }
    }
}

/// Whether `x` stands before `y` somewhere in `colors`.
pub open spec fn stands_before(colors: Seq<Color>, x: Color, y: Color) -> bool {
    exists|a: int, b: int|
        0 <= a < b < colors.len() && #[trigger] colors[a] == x && #[trigger] colors[b] == y
}

/// The colours that are kept stand in the order in which they are ranked.
pub proof fn lemma_select_ordered(ranked: Seq<Color>, tolerance: real)
    ensures
        forall|i: int, j: int|
            0 <= i < j < select(ranked, tolerance).len() ==> stands_before(
                ranked,
                #[trigger] select(ranked, tolerance)[i],
                #[trigger] select(ranked, tolerance)[j],
            ),
    decreases ranked.len(),
{
    if ranked.len() > 0 {
        let rest = ranked.drop_last();
        lemma_select_ordered(rest, tolerance);
        lemma_select_within(rest, tolerance);
        let kept = select(rest, tolerance);
        let all = select(ranked, tolerance);
        assert forall|i: int, j: int| 0 <= i < j < all.len() implies stands_before(
            ranked,
            #[trigger] all[i],
            #[trigger] all[j],
        ) by {
            if j < kept.len() {
                assert(stands_before(rest, kept[i], kept[j]));
                let (a, b) = choose|a: int, b: int|
                    0 <= a < b < rest.len() && #[trigger] rest[a] == kept[i] && #[trigger] rest[b]
                        == kept[j];
                assert(ranked[a] == all[i] && ranked[b] == all[j]);
            } else {
                assert(kept.contains(kept[i]));
                let a = choose|a: int| 0 <= a < rest.len() && rest[a] == kept[i];
                let b = ranked.len() - 1;
                assert(ranked[a] == all[i] && ranked[b] == all[j]);
            }
        }
    }
}

/// Every ranked colour that is not kept is similar to a colour that is kept
/// and is ranked before it.
pub proof fn lemma_select_absorbs(ranked: Seq<Color>, tolerance: real, k: int)
    requires
        0 <= k < ranked.len(),
    ensures
        select(ranked, tolerance).contains(ranked[k]) || exists|m: int|
            0 <= m < k && select(ranked, tolerance).contains(#[trigger] ranked[m]) && similar(
                ranked[m],
                ranked[k],
                tolerance,
            ),
    decreases ranked.len(),
{
    let rest = ranked.drop_last();
    let kept = select(rest, tolerance);
    let all = select(ranked, tolerance);
    assert forall|c: Color| #[trigger] kept.contains(c) implies all.contains(c) by {
        let i = choose|i: int| 0 <= i < kept.len() && kept[i] == c;
        assert(all[i] == c);
    }
    if k < rest.len() {
        lemma_select_absorbs(rest, tolerance, k);
        assert(rest[k] == ranked[k]);
        if !kept.contains(ranked[k]) {
            let m = choose|m: int|
                0 <= m < k && kept.contains(#[trigger] rest[m]) && similar(
                    rest[m],
                    rest[k],
                    tolerance,
                );
            assert(ranked[m] == rest[m]);
        }
    } else if clashes(kept, ranked[k], tolerance) {
        lemma_select_within(rest, tolerance);
        let i = choose|i: int| 0 <= i < kept.len() && similar(#[trigger] kept[i], ranked[k], tolerance);
        assert(kept.contains(kept[i]));
        let m = choose|m: int| 0 <= m < rest.len() && rest[m] == kept[i];
        assert(ranked[m] == kept[i]);
    } else {
        assert(all[all.len() - 1] == ranked[k]);
    }
}

/// Under a negative tolerance every ranked colour is kept; under a tolerance
/// of 50 or more only the first is.
pub proof fn lemma_select_extremes(ranked: Seq<Color>, tolerance: real)
    ensures
        tolerance < 0real ==> select(ranked, tolerance) == ranked,
        tolerance >= 50real && ranked.len() > 0 ==> select(ranked, tolerance) == seq![ranked[0]],
        ranked.len() > 0 ==> select(ranked, tolerance).len() > 0 && select(ranked, tolerance)[0]
            == ranked[0],
    decreases ranked.len(),
{
    if ranked.len() > 0 {
        let rest = ranked.drop_last();
        let c = ranked.last();
        lemma_select_extremes(rest, tolerance);
        let kept = select(rest, tolerance);
        if tolerance < 0real {
            assert forall|i: int| 0 <= i < kept.len() implies !similar(#[trigger] kept[i], c, tolerance) by {
                lemma_similar_extremes(kept[i], c, tolerance);
            }
            assert(select(ranked, tolerance) =~= ranked);
        }
        if tolerance >= 50real && rest.len() > 0 {
            lemma_similar_extremes(kept[0], c, tolerance);
            assert(rest[0] == ranked[0]);
        }
        if rest.len() == 0 {
            assert(select(ranked, tolerance) =~= seq![ranked[0]]);
        } else {
            assert(rest[0] == ranked[0]);
        }
    }
}

/// Where similarity under two tolerances chains over the ranked colours,
/// every colour kept under the larger is kept under the smaller, so that no
/// more are kept under the larger.
pub proof fn lemma_select_monotone(ranked: Seq<Color>, lower: real, upper: real)
    requires
        lower <= upper,
        chains(ranked, lower, upper),
    ensures
        select(ranked, upper).len() <= select(ranked, lower).len(),
        forall|c: Color| #[trigger] select(ranked, upper).contains(c) ==> select(ranked, lower).contains(c),
    decreases ranked.len(),
{
    if ranked.len() > 0 {
        let rest = ranked.drop_last();
        let c = ranked.last();
        assert(ranked.contains(c)) by {
            assert(ranked[ranked.len() - 1] == c);
        }
        assert forall|x: Color| #[trigger] rest.contains(x) implies ranked.contains(x) by {
            let k = choose|k: int| 0 <= k < rest.len() && rest[k] == x;
            assert(ranked[k] == x);
        }
        assert(chains(rest, lower, upper));
        lemma_select_monotone(rest, lower, upper);
        let wide = select(rest, upper);
        let narrow = select(rest, lower);
        lemma_select_within(rest, lower);
        lemma_select_within(rest, upper);
        lemma_select_covers(rest, upper);
        if !clashes(wide, c, upper) && clashes(narrow, c, lower) {
            let i = choose|i: int| 0 <= i < narrow.len() && similar(#[trigger] narrow[i], c, lower);
            let y = narrow[i];
            assert(narrow.contains(y));
            assert(rest.contains(y));
            lemma_similar_monotone(y, c, lower, upper);
            if wide.contains(y) {
                let k = choose|k: int| 0 <= k < wide.len() && wide[k] == y;
                assert(similar(wide[k], c, upper));
            } else {
                let k = choose|k: int| 0 <= k < wide.len() && similar(#[trigger] wide[k], y, upper);
                assert(wide.contains(wide[k]));
                assert(similar(wide[k], c, upper));
            }
            assert(false);
        }
        let all_wide = select(ranked, upper);
        let all_narrow = select(ranked, lower);
        assert forall|x: Color| #[trigger] all_wide.contains(x) implies all_narrow.contains(x) by {
            let k = choose|k: int| 0 <= k < all_wide.len() && all_wide[k] == x;
            if k < wide.len() {
                assert(wide[k] == x);
                assert(wide.contains(x));
                let m = choose|m: int| 0 <= m < narrow.len() && narrow[m] == x;
                assert(all_narrow[m] == x);
            } else {
                assert(all_narrow[all_narrow.len() - 1] == x);
            }
        }
    }
}

/// No two entries of a palette are similar.
pub proof fn lemma_palette_dissimilar(samples: Seq<Color>, tolerance: real)
    ensures
        dissimilar(palette(samples, tolerance), tolerance),
{
    lemma_select_dissimilar(ranking(samples), tolerance);
}

/// Every entry of a palette is a colour of the samples, and every colour of
/// the samples is an entry or similar to one. The palette of samples that are
/// not empty begins with the colour that outranks all others.
pub proof fn lemma_palette_represents(samples: Seq<Color>, tolerance: real)
    ensures
        forall|c: Color| #[trigger] palette(samples, tolerance).contains(c) ==> samples.contains(c),
        forall|c: Color|
            #[trigger] samples.contains(c) ==> palette(samples, tolerance).contains(c) || clashes(
                palette(samples, tolerance),
                c,
                tolerance,
            ),
        palette(samples, tolerance).len() <= ranking(samples).len(),
        samples.len() > 0 ==> palette(samples, tolerance).len() > 0 && palette(
            samples,
            tolerance,
        )[0] == ranking(samples)[0],
        samples.len() == 0 ==> palette(samples, tolerance).len() == 0,
{
    let ranked = ranking(samples);
    lemma_ranking_exists(samples);
    lemma_select_within(ranked, tolerance);
    lemma_select_covers(ranked, tolerance);
    lemma_select_extremes(ranked, tolerance);
    if samples.len() > 0 {
        assert(samples.contains(samples[0]));
        assert(ranked.contains(samples[0]));
    }
    if ranked.len() > 0 {
        assert(ranked.contains(ranked[0]));
    }
}

/// The entries of a palette stand in the order of their rank: each outranks
/// those behind it, so that none occurs more rarely than a later one and none
/// stands twice.
pub proof fn lemma_palette_ordered(samples: Seq<Color>, tolerance: real)
    ensures
        forall|i: int, j: int|
            0 <= i < j < palette(samples, tolerance).len() ==> outranks(
                samples,
                #[trigger] palette(samples, tolerance)[i],
                #[trigger] palette(samples, tolerance)[j],
            ),
{
    let ranked = ranking(samples);
    let kept = palette(samples, tolerance);
    lemma_ranking_exists(samples);
    lemma_select_ordered(ranked, tolerance);
    assert forall|i: int, j: int| 0 <= i < j < kept.len() implies outranks(
        samples,
        #[trigger] kept[i],
        #[trigger] kept[j],
    ) by {
        assert(stands_before(ranked, kept[i], kept[j]));
        let (a, b) = choose|a: int, b: int|
            0 <= a < b < ranked.len() && #[trigger] ranked[a] == kept[i] && #[trigger] ranked[b]
                == kept[j];
        assert(outranks(samples, ranked[a], ranked[b]));
    }
}

/// Every colour of the samples that is no entry of the palette is similar to
/// an entry that outranks it: each entry is the first in rank of the colours
/// that it stands for.
pub proof fn lemma_palette_absorbs(samples: Seq<Color>, tolerance: real, c: Color)
    requires
        samples.contains(c),
    ensures
        palette(samples, tolerance).contains(c) || exists|p: Color|
            #[trigger] palette(samples, tolerance).contains(p) && similar(p, c, tolerance)
                && outranks(samples, p, c),
{
    let ranked = ranking(samples);
    lemma_ranking_exists(samples);
    assert(ranked.contains(c));
    let k = choose|k: int| 0 <= k < ranked.len() && ranked[k] == c;
    lemma_select_absorbs(ranked, tolerance, k);
    if !palette(samples, tolerance).contains(c) {
        let m = choose|m: int|
            0 <= m < k && select(ranked, tolerance).contains(#[trigger] ranked[m]) && similar(
                ranked[m],
                ranked[k],
                tolerance,
            );
        assert(outranks(samples, ranked[m], ranked[k]));
        assert(palette(samples, tolerance).contains(ranked[m]));
    }
}

/// Under a negative tolerance the palette is the whole ranking; under a
/// tolerance of 50 or more it is the first colour of the ranking alone.
pub proof fn lemma_palette_extremes(samples: Seq<Color>, tolerance: real)
    ensures
        tolerance < 0real ==> palette(samples, tolerance) == ranking(samples),
        tolerance >= 50real && samples.len() > 0 ==> palette(samples, tolerance) == seq![
            ranking(samples)[0],
        ],
{
    lemma_select_extremes(ranking(samples), tolerance);
    lemma_palette_represents(samples, tolerance);
}

/// Samples that all hold one colour have that colour alone as their palette.
pub proof fn lemma_palette_uniform(samples: Seq<Color>, c: Color, tolerance: real)
    requires
        samples.len() > 0,
        forall|i: int| 0 <= i < samples.len() ==> samples[i] == c,
    ensures
        palette(samples, tolerance) == seq![c],
{
    let ranked = ranking(samples);
    lemma_ranking_exists(samples);
    lemma_ranking_distinct(samples, ranked);
    assert(samples.contains(samples[0]));
    assert(ranked.contains(c));
    assert forall|i: int| 0 <= i < ranked.len() implies #[trigger] ranked[i] == c by {
        assert(ranked.contains(ranked[i]));
        assert(samples.contains(ranked[i]));
    }
    if ranked.len() > 1 {
        assert(ranked[0] == ranked[1]);
    }
    assert(ranked =~= seq![c]);
    lemma_select_extremes(ranked, tolerance);
    lemma_select_within(ranked, tolerance);
    assert(palette(samples, tolerance) =~= seq![c]);
}

/// A larger tolerance gives no longer a palette, and none with another
/// entry, where similarity under the two tolerances chains over the colours
/// of the samples.
pub proof fn lemma_palette_monotone(samples: Seq<Color>, lower: real, upper: real)
    requires
        lower <= upper,
        chains(samples, lower, upper),
    ensures
        palette(samples, upper).len() <= palette(samples, lower).len(),
        forall|c: Color| #[trigger]
            palette(samples, upper).contains(c) ==> palette(samples, lower).contains(c),
{
    let ranked = ranking(samples);
    lemma_ranking_exists(samples);
    assert(chains(ranked, lower, upper));
    lemma_select_monotone(ranked, lower, upper);
}

/// Similarity chains over all colours where the smaller tolerance is negative
/// or the larger one is 50 or more.
pub proof fn lemma_chains_at_extremes(colors: Seq<Color>, lower: real, upper: real)
    requires
        lower < 0real || upper >= 50real,
    ensures
        chains(colors, lower, upper),
{
    assert forall|x: Color, y: Color, z: Color|
        colors.contains(x) && colors.contains(y) && colors.contains(z) && #[trigger] similar(
            x,
            y,
            upper,
        ) && #[trigger] similar(y, z, lower) implies similar(x, z, upper) by {
        lemma_similar_extremes(x, z, upper);
        lemma_similar_extremes(y, z, lower);
    }
}

/// Whether `c` is similar to one of the colours kept so far.
fn clashes_with(kept: &Vec<Color>, c: Color, tolerance: Ratio) -> (found: bool)
    ensures
        found == clashes(kept@, c, tolerance@),
{
    let mut i: usize = 0;
    while i < kept.len()
        invariant
            0 <= i <= kept.len(),
            forall|k: int| 0 <= k < i ==> !similar(#[trigger] kept[k], c, tolerance@),
        decreases kept.len() - i,
    {
        if kept[i].is_similar(c, tolerance) {
            return true;
        }
        i = i + 1;
    }
    false
}

/// Walks along the ranked colours and keeps each one that is similar to none
/// of those kept before it.
pub fn select_palette(ranked: &Vec<Color>, tolerance: Ratio) -> (kept: Vec<Color>)
    ensures
        kept@ == select(ranked@, tolerance@),
        kept.len() <= ranked.len(),
        dissimilar(kept@, tolerance@),
{
    proof {
        lemma_select_within(ranked@, tolerance@);
        lemma_select_dissimilar(ranked@, tolerance@);
    }
    let mut kept: Vec<Color> = Vec::new();
    let mut i: usize = 0;
    assert(ranked@.take(0) =~= Seq::<Color>::empty());
    while i < ranked.len()
        invariant
            0 <= i <= ranked.len(),
            kept@ == select(ranked@.take(i as int), tolerance@),
        decreases ranked.len() - i,
    {
        let c = ranked[i];
        proof {
            lemma_select_step(ranked@.take(i as int), c, tolerance@);
            assert(ranked@.take(i + 1) =~= ranked@.take(i as int).push(c));
        }
        if !clashes_with(&kept, c, tolerance) {
            kept.push(c);
        }
        i = i + 1;
    }
    assert(ranked@.take(i as int) =~= ranked@);
    kept
}

/// The palette of a sequence of samples: their colours ranked by frequency,
/// and of those each one that is similar to none kept before it.
pub fn palette_of_samples(samples: &Vec<Color>, tolerance: Ratio) -> (kept: Vec<Color>)
    ensures
        kept@ == palette(samples@, tolerance@),
        kept.len() <= samples.len(),
        dissimilar(kept@, tolerance@),
        forall|c: Color| #[trigger] kept@.contains(c) ==> samples@.contains(c),
{
    proof {
        lemma_palette_represents(samples@, tolerance@);
    }
    let ranked = rank_colors(samples);
    select_palette(&ranked, tolerance)
}

/// The palette of an image: that of the samples which resampling to the grid
/// takes from it, and empty for an image without a pixel.
pub fn get_palette(image: &Raster, tolerance: Ratio) -> (kept: Vec<Color>)
    ensures
        kept@ == if image.cols() == 0 || image.rows() == 0 {
            Seq::<Color>::empty()
        } else {
            palette(
                triples(nearest_grid(image.cols() as u32, image.rows() as u32, image.bytes())),
                tolerance@,
            )
        },
        kept.len() <= GRID * GRID,
        dissimilar(kept@, tolerance@),
        forall|c: Color| #[trigger] kept@.contains(c) ==> image.colors().contains(c),
{
    match image.downsample() {
        None => Vec::new(),
        Some(grid) => {
            let bytes = grid.pixels();
            let samples = colors_of(bytes);
            proof {
                lemma_palette_represents(samples@, tolerance@);
                assert forall|c: Color| #[trigger]
                    palette(samples@, tolerance@).contains(c) implies image.colors().contains(c) by {
                    assert(samples@.contains(c));
                    let i = choose|i: int| 0 <= i < samples.len() && samples[i] == c;
                    assert(triples(bytes@)[i] == c);
                }
            }
            palette_of_samples(&samples, tolerance)
        },
    }
}

} // verus!
