//! Counting the colours of a sequence of samples and ranking them by how
//! often they occur.

use crate::color::Color;
use std::collections::HashMap;
use vstd::prelude::*;

verus! {

/// How many of the samples hold the colour `c`.
pub open spec fn occurrences(samples: Seq<Color>, c: Color) -> nat
    decreases samples.len(),
{
    if samples.len() == 0 {
        0
    } else {
        occurrences(samples.drop_last(), c) + if samples.last() == c {
            1nat
        } else {
            0nat
        }
    }
}

/// The least index at which the colour `c` stands among the samples, or the
/// number of samples if it stands nowhere.
pub open spec fn first_seen(samples: Seq<Color>, c: Color) -> int
    decreases samples.len(),
{
    if samples.len() == 0 {
        0
    } else {
        let earlier = first_seen(samples.drop_last(), c);
        if earlier < samples.len() - 1 || samples.last() == c {
            earlier
        } else {
            samples.len() as int
        }
    }
}

/// Whether the colour `x` ranks before the colour `y`: it occurs more often,
/// or as often and is seen first.
pub open spec fn outranks(samples: Seq<Color>, x: Color, y: Color) -> bool {
    occurrences(samples, x) > occurrences(samples, y) || (occurrences(samples, x) == occurrences(
        samples,
        y,
    ) && first_seen(samples, x) < first_seen(samples, y))
}

/// Whether `ranked` lists each colour of the samples once, every colour
/// before those that it outranks.
pub open spec fn is_ranking(samples: Seq<Color>, ranked: Seq<Color>) -> bool {
    &&& forall|c: Color| ranked.contains(c) <==> samples.contains(c)
    &&& forall|i: int, j: int|
        0 <= i < j < ranked.len() ==> outranks(samples, #[trigger] ranked[i], #[trigger] ranked[j])
}

/// The ranking of the samples' colours: the one sequence for which
/// `is_ranking` holds.
pub open spec fn ranking(samples: Seq<Color>) -> Seq<Color> {
    choose|ranked: Seq<Color>| is_ranking(samples, ranked)
}

/// What `first_seen` finds: the colour stands there and nowhere before.
pub proof fn lemma_first_seen(samples: Seq<Color>, c: Color)
    ensures
        0 <= first_seen(samples, c) <= samples.len(),
        first_seen(samples, c) < samples.len() <==> samples.contains(c),
        first_seen(samples, c) < samples.len() ==> samples[first_seen(samples, c)] == c,
        forall|j: int| 0 <= j < first_seen(samples, c) && j < samples.len() ==> samples[j] != c,
    decreases samples.len(),
{
    if samples.len() > 0 {
        let before = samples.drop_last();
        lemma_first_seen(before, c);
        let f = first_seen(samples, c);
        if before.contains(c) {
            let k = choose|k: int| 0 <= k < before.len() && before[k] == c;
            assert(samples[k] == c);
        }
        if samples.contains(c) && !(f < samples.len()) {
            let k = choose|k: int| 0 <= k < samples.len() && samples[k] == c;
            assert(before[k] == c);
        }
        assert forall|j: int| 0 <= j < f && j < samples.len() implies samples[j] != c by {
            if j < before.len() {
                assert(before[j] == samples[j]);
            }
        }
    }
}

/// A colour occurs at most as often as there are samples, and at least once
/// exactly if it stands among them.
pub proof fn lemma_occurrences(samples: Seq<Color>, c: Color)
    ensures
        occurrences(samples, c) <= samples.len(),
        occurrences(samples, c) > 0 <==> samples.contains(c),
    decreases samples.len(),
{
    if samples.len() > 0 {
        let before = samples.drop_last();
        lemma_occurrences(before, c);
        if before.contains(c) {
            let k = choose|k: int| 0 <= k < before.len() && before[k] == c;
            assert(samples[k] == c);
        }
        if samples.last() == c {
            assert(samples[samples.len() - 1] == c);
        }
        if samples.contains(c) && samples.last() != c {
            let k = choose|k: int| 0 <= k < samples.len() && samples[k] == c;
            assert(before[k] == c);
        }
    }
}

/// No colour outranks itself, and no two colours outrank each other.
pub proof fn lemma_outranks_strict(samples: Seq<Color>, x: Color, y: Color)
    ensures
        !outranks(samples, x, x),
        !(outranks(samples, x, y) && outranks(samples, y, x)),
{
}

/// Of two different colours of the samples, one outranks the other.
pub proof fn lemma_outranks_total(samples: Seq<Color>, x: Color, y: Color)
    requires
        samples.contains(x),
        samples.contains(y),
        x != y,
    ensures
        outranks(samples, x, y) || outranks(samples, y, x),
{
    lemma_first_seen(samples, x);
    lemma_first_seen(samples, y);
}

/// Two sequences that hold the same colours, each in the order of `outranks`,
/// are equal.
proof fn lemma_ordered_equal(samples: Seq<Color>, left: Seq<Color>, right: Seq<Color>)
    requires
        forall|c: Color| left.contains(c) <==> right.contains(c),
        forall|i: int, j: int|
            0 <= i < j < left.len() ==> outranks(samples, #[trigger] left[i], #[trigger] left[j]),
        forall|i: int, j: int|
            0 <= i < j < right.len() ==> outranks(
                samples,
                #[trigger] right[i],
                #[trigger] right[j],
            ),
    ensures
        left == right,
    decreases left.len(),
{
    if left.len() == 0 {
        if right.len() > 0 {
            assert(right.contains(right[0]));
            assert(left.contains(right[0]));
        }
        assert(left =~= right);
    } else {
        let top = left[0];
        assert(left.contains(top));
        assert(right.contains(top));
        let k = choose|k: int| 0 <= k < right.len() && right[k] == top;
        if k > 0 {
            assert(outranks(samples, right[0], right[k]));
            assert(right.contains(right[0]));
            let m = choose|m: int| 0 <= m < left.len() && left[m] == right[0];
            lemma_outranks_strict(samples, top, right[0]);
            if m > 0 {
                assert(outranks(samples, left[0], left[m]));
            }
            assert(false);
        }
        let left_rest = left.drop_first();
        let right_rest = right.drop_first();
        assert forall|c: Color| left_rest.contains(c) <==> right_rest.contains(c) by {
            lemma_outranks_strict(samples, c, c);
            if left_rest.contains(c) {
                let i = choose|i: int| 0 <= i < left_rest.len() && left_rest[i] == c;
                assert(left[i + 1] == c);
                assert(outranks(samples, left[0], left[i + 1]));
                assert(left.contains(c));
                let j = choose|j: int| 0 <= j < right.len() && right[j] == c;
                assert(j > 0);
                assert(right_rest[j - 1] == c);
            }
            if right_rest.contains(c) {
                let i = choose|i: int| 0 <= i < right_rest.len() && right_rest[i] == c;
                assert(right[i + 1] == c);
                assert(outranks(samples, right[0], right[i + 1]));
                assert(right.contains(c));
                let j = choose|j: int| 0 <= j < left.len() && left[j] == c;
                assert(j > 0);
                assert(left_rest[j - 1] == c);
            }
        }
        assert forall|i: int, j: int| 0 <= i < j < left_rest.len() implies outranks(
            samples,
            #[trigger] left_rest[i],
            #[trigger] left_rest[j],
        ) by {
            assert(outranks(samples, left[i + 1], left[j + 1]));
        }
        assert forall|i: int, j: int| 0 <= i < j < right_rest.len() implies outranks(
            samples,
            #[trigger] right_rest[i],
            #[trigger] right_rest[j],
        ) by {
            assert(outranks(samples, right[i + 1], right[j + 1]));
        }
        lemma_ordered_equal(samples, left_rest, right_rest);
        assert(left =~= seq![top] + left_rest);
        assert(right =~= seq![top] + right_rest);
    }
}

/// The samples have one ranking only.
pub proof fn lemma_ranking_unique(samples: Seq<Color>, ranked: Seq<Color>)
    requires
        is_ranking(samples, ranked),
    ensures
        ranking(samples) == ranked,
{
    let chosen = ranking(samples);
    assert(is_ranking(samples, chosen));
    lemma_ordered_equal(samples, chosen, ranked);
}

/// Where a colour of the samples goes among others that stand in the order of
/// `outranks`: behind those that outrank it, before those that it outranks.
proof fn lemma_slot(samples: Seq<Color>, ordered: Seq<Color>, x: Color) -> (slot: int)
    requires
        samples.contains(x),
        forall|i: int| 0 <= i < ordered.len() ==> samples.contains(#[trigger] ordered[i]),
        forall|i: int| 0 <= i < ordered.len() ==> #[trigger] ordered[i] != x,
        forall|i: int, j: int|
            0 <= i < j < ordered.len() ==> outranks(
                samples,
                #[trigger] ordered[i],
                #[trigger] ordered[j],
            ),
    ensures
        0 <= slot <= ordered.len(),
        forall|i: int| 0 <= i < slot ==> outranks(samples, #[trigger] ordered[i], x),
        forall|i: int| slot <= i < ordered.len() ==> outranks(samples, x, #[trigger] ordered[i]),
    decreases ordered.len(),
{
    if ordered.len() == 0 {
        0
    } else if outranks(samples, ordered.last(), x) {
        assert forall|i: int| 0 <= i < ordered.len() implies outranks(
            samples,
            #[trigger] ordered[i],
            x,
        ) by {
            if i < ordered.len() - 1 {
                assert(outranks(samples, ordered[i], ordered[ordered.len() - 1]));
            }
        }
        ordered.len() as int
    } else {
        let rest = ordered.drop_last();
        assert forall|i: int, j: int| 0 <= i < j < rest.len() implies outranks(
            samples,
            #[trigger] rest[i],
            #[trigger] rest[j],
        ) by {
            assert(outranks(samples, ordered[i], ordered[j]));
        }
        let slot = lemma_slot(samples, rest, x);
        assert forall|i: int| slot <= i < ordered.len() implies outranks(
            samples,
            x,
            #[trigger] ordered[i],
        ) by {
            if i < rest.len() {
                assert(outranks(samples, x, rest[i]));
            } else {
                lemma_outranks_total(samples, x, ordered[i]);
            }
        }
        assert forall|i: int| 0 <= i < slot implies outranks(samples, #[trigger] ordered[i], x) by {
            assert(outranks(samples, rest[i], x));
        }
        slot
    }
}

/// The colours of the first `upto` samples, in the order of `outranks`.
proof fn lemma_order_exists(samples: Seq<Color>, upto: int) -> (ordered: Seq<Color>)
    requires
        0 <= upto <= samples.len(),
    ensures
        forall|c: Color| #[trigger] ordered.contains(c) <==> samples.take(upto).contains(c),
        forall|i: int, j: int|
            0 <= i < j < ordered.len() ==> outranks(
                samples,
                #[trigger] ordered[i],
                #[trigger] ordered[j],
            ),
    decreases upto,
{
    if upto == 0 {
        let ordered = Seq::<Color>::empty();
        assert(samples.take(0) =~= ordered);
        ordered
    } else {
        let rest = lemma_order_exists(samples, upto - 1);
        let x = samples[upto - 1];
        let seen = samples.take(upto - 1);
        let grown = samples.take(upto);
        assert(grown =~= seen.push(x));
        assert forall|c: Color| #[trigger] grown.contains(c) <==> seen.contains(c) || c == x by {
            if grown.contains(c) {
                let k = choose|k: int| 0 <= k < grown.len() && grown[k] == c;
                if k < upto - 1 {
                    assert(seen[k] == c);
                }
            }
            if seen.contains(c) {
                let k = choose|k: int| 0 <= k < seen.len() && seen[k] == c;
                assert(grown[k] == c);
            }
            if c == x {
                assert(grown[upto - 1] == c);
            }
        }
        if rest.contains(x) {
            rest
        } else {
            assert forall|i: int| 0 <= i < rest.len() implies samples.contains(#[trigger] rest[i])
                && rest[i] != x by {
                assert(rest.contains(rest[i]));
                let k = choose|k: int| 0 <= k < seen.len() && seen[k] == rest[i];
                assert(samples[k] == rest[i]);
            }
            assert(samples[upto - 1] == x);
            let slot = lemma_slot(samples, rest, x);
            let ordered = rest.insert(slot, x);
            assert forall|c: Color| #[trigger] ordered.contains(c) <==> grown.contains(c) by {
                if ordered.contains(c) {
                    let k = choose|k: int| 0 <= k < ordered.len() && ordered[k] == c;
                    if k < slot {
                        assert(rest[k] == c);
                        assert(rest.contains(c));
                    } else if k > slot {
                        assert(rest[k - 1] == c);
                        assert(rest.contains(c));
                    }
                }
                if seen.contains(c) {
                    assert(rest.contains(c));
                    let k = choose|k: int| 0 <= k < rest.len() && rest[k] == c;
                    if k < slot {
                        assert(ordered[k] == c);
                    } else {
                        assert(ordered[k + 1] == c);
                    }
                }
                if c == x {
                    assert(ordered[slot] == c);
                }
            }
            assert forall|i: int, j: int| 0 <= i < j < ordered.len() implies outranks(
                samples,
                #[trigger] ordered[i],
                #[trigger] ordered[j],
            ) by {
                if j < slot {
                    assert(outranks(samples, rest[i], rest[j]));
                } else if j == slot {
                    assert(outranks(samples, rest[i], x));
                } else if i < slot {
                    assert(outranks(samples, rest[i], rest[j - 1]));
                } else if i == slot {
                    assert(outranks(samples, x, rest[j - 1]));
                } else {
                    assert(outranks(samples, rest[i - 1], rest[j - 1]));
                }
            }
            ordered
        }
    }
}

/// Every sequence of samples has a ranking.
pub proof fn lemma_ranking_exists(samples: Seq<Color>)
    ensures
        is_ranking(samples, ranking(samples)),
{
    let ordered = lemma_order_exists(samples, samples.len() as int);
    assert(samples.take(samples.len() as int) =~= samples);
    assert(is_ranking(samples, ordered));
}

/// A ranking holds no colour twice.
pub proof fn lemma_ranking_distinct(samples: Seq<Color>, ranked: Seq<Color>)
    requires
        is_ranking(samples, ranked),
    ensures
        ranked.no_duplicates(),
{
    assert forall|i: int, j: int| 0 <= i < ranked.len() && 0 <= j < ranked.len() && i != j implies ranked[i] != ranked[j] by {
        lemma_outranks_strict(samples, ranked[i], ranked[j]);
        if i < j {
            assert(outranks(samples, ranked[i], ranked[j]));
        } else {
            assert(outranks(samples, ranked[j], ranked[i]));
        }
    }
}

/// A ranking holds no more colours than there are samples.
pub proof fn lemma_ranking_length(samples: Seq<Color>, ranked: Seq<Color>)
    requires
        is_ranking(samples, ranked),
    ensures
        ranked.len() <= samples.len(),
{
    lemma_ranking_distinct(samples, ranked);
    ranked.unique_seq_to_set();
    samples.lemma_cardinality_of_set();
    vstd::seq_lib::seq_to_set_is_finite(samples);
    assert(ranked.to_set().subset_of(samples.to_set())) by {
        assert forall|c: Color| ranked.to_set().contains(c) implies samples.to_set().contains(c) by {
            assert(ranked.contains(c));
            assert(samples.contains(c));
        }
    }
    vstd::set_lib::lemma_len_subset(ranked.to_set(), samples.to_set());
}

/// Appending a sample raises the count of its colour by one and leaves the
/// others; the colour is first seen there if it was not seen before.
proof fn lemma_push(samples: Seq<Color>, x: Color, c: Color)
    ensures
        occurrences(samples.push(x), c) == occurrences(samples, c) + if x == c {
            1nat
        } else {
            0nat
        },
        first_seen(samples.push(x), c) == if samples.contains(c) || x == c {
            first_seen(samples, c)
        } else {
            samples.len() as int + 1
        },
{
    assert(samples.push(x).drop_last() =~= samples);
    lemma_first_seen(samples, c);
}

/// A colour of the samples with the number of samples that hold it and the
/// index of the first of them.
#[derive(Clone, Copy, Debug)]
pub(crate) struct PaletteEntry {
    pub color: Color,
    pub count: usize,
    pub first: usize,
}

/// The key under which a colour is looked up: its channels as the digits of a
/// number in base 256.
pub(crate) open spec fn color_key(c: Color) -> u32 {
    (c.0 * 65536 + c.1 * 256 + c.2) as u32
}

/// Whether the entries are the tally of the samples: one entry for each
/// colour, in the order in which the colours are first seen.
pub(crate) open spec fn is_tally(samples: Seq<Color>, entries: Seq<PaletteEntry>) -> bool {
    &&& forall|c: Color|
        samples.contains(c) ==> exists|i: int| 0 <= i < entries.len() && (#[trigger] entries[i]).color == c
    &&& forall|i: int|
        0 <= i < entries.len() ==> {
            &&& (#[trigger] entries[i]).count == occurrences(samples, entries[i].color)
            &&& entries[i].first == first_seen(samples, entries[i].color)
            &&& entries[i].first < samples.len()
        }
    &&& forall|i: int, j: int|
        0 <= i < j < entries.len() ==> (#[trigger] entries[i]).first < (#[trigger] entries[j]).first
}

/// Whether the entry `x` goes before the entry `y`: by the larger count, then
/// by the smaller first index.
pub(crate) open spec fn goes_before(x: PaletteEntry, y: PaletteEntry) -> bool {
    x.count > y.count || (x.count == y.count && x.first < y.first)
}

/// The key under which the colour is looked up.
fn key_of(c: Color) -> (k: u32)
    ensures
        k == color_key(c),
{
    (c.0 as u32) * 65536 + (c.1 as u32) * 256 + (c.2 as u32)
}

/// The tally of the samples.
pub(crate) fn tally(samples: &Vec<Color>) -> (entries: Vec<PaletteEntry>)
    ensures
        is_tally(samples@, entries@),
{
    broadcast use vstd::std_specs::hash::group_hash_axioms;

    let mut entries: Vec<PaletteEntry> = Vec::new();
    let mut places: HashMap<u32, usize> = HashMap::new();
    let mut n: usize = 0;
    assert(samples@.take(0) =~= Seq::<Color>::empty());
    while n < samples.len()
        invariant
            0 <= n <= samples.len(),
            is_tally(samples@.take(n as int), entries@),
            forall|k: u32| #[trigger]
                places@.contains_key(k) ==> places@[k] < entries.len() && color_key(
                    entries[places@[k] as int].color,
                ) == k,
            forall|i: int|
                0 <= i < entries.len() ==> places@.contains_key(
                    color_key((#[trigger] entries[i]).color),
                ) && places@[color_key(entries[i].color)] == i,
        decreases samples.len() - n,
    {
        let c = samples[n];
        let key = key_of(c);
        let ghost seen = samples@.take(n as int);
        let ghost grown = samples@.take(n + 1);
        let ghost before = entries@;
        proof {
            assert(grown =~= seen.push(c));
            assert forall|x: Color| grown.contains(x) implies seen.contains(x) || x == c by {
                let k = choose|k: int| 0 <= k < grown.len() && grown[k] == x;
                if k < n {
                    assert(seen[k] == x);
                }
            }
            assert forall|i: int| 0 <= i < before.len() implies seen.contains(
                (#[trigger] before[i]).color,
            ) by {
                lemma_first_seen(seen, before[i].color);
            }
        }
        let found = places.get(&key);
        match found {
            Some(place) => {
                let at = *place;
                let entry = entries[at];
                proof {
                    assert(entry.color == c);
                    lemma_occurrences(seen, c);
                    assert forall|i: int| 0 <= i < before.len() implies {
                        &&& occurrences(grown, (#[trigger] before[i]).color) == before[i].count + if i
                            == at {
                            1nat
                        } else {
                            0nat
                        }
                        &&& first_seen(grown, before[i].color) == before[i].first
                    } by {
                        lemma_push(seen, c, before[i].color);
                    }
                }
                entries.set(at, PaletteEntry { color: entry.color, count: entry.count + 1, first: entry.first });
                proof {
                    assert forall|x: Color| grown.contains(x) implies exists|i: int|
                        0 <= i < entries.len() && (#[trigger] entries[i]).color == x by {
                        if x == c {
                            assert(entries[at as int].color == x);
                        } else {
                            let i = choose|i: int| 0 <= i < before.len() && (#[trigger] before[i]).color == x;
                            assert(entries[i].color == x);
                        }
                    }
                    assert forall|i: int| 0 <= i < entries.len() implies {
                        &&& (#[trigger] entries[i]).count == occurrences(grown, entries[i].color)
                        &&& entries[i].first == first_seen(grown, entries[i].color)
                        &&& entries[i].first < grown.len()
                    } by {
                        assert(before[i].first < seen.len());
                    }
                    assert forall|i: int, j: int| 0 <= i < j < entries.len() implies (#[trigger] entries[i]).first < (#[trigger] entries[j]).first by {
                        assert(before[i].first < before[j].first);
                    }
                    assert forall|i: int| 0 <= i < entries.len() implies places@.contains_key(
                        color_key((#[trigger] entries[i]).color),
                    ) && places@[color_key(entries[i].color)] == i by {
                        assert(before[i].color == entries[i].color);
                    }
                }
            },
            None => {
                proof {
                    assert forall|i: int| 0 <= i < before.len() implies (#[trigger] before[i]).color != c by {
                        assert(places@.contains_key(color_key(before[i].color)));
                    }
                    if seen.contains(c) {
                        let i = choose|i: int| 0 <= i < before.len() && (#[trigger] before[i]).color == c;
                        assert(false);
                    }
                    lemma_occurrences(seen, c);
                    lemma_first_seen(seen, c);
                    lemma_push(seen, c, c);
                    assert forall|i: int| 0 <= i < before.len() implies {
                        &&& occurrences(grown, (#[trigger] before[i]).color) == before[i].count
                        &&& first_seen(grown, before[i].color) == before[i].first
                    } by {
                        lemma_push(seen, c, before[i].color);
                    }
                }
                let place = entries.len();
                entries.push(PaletteEntry { color: c, count: 1, first: n });
                places.insert(key, place);
                proof {
                    assert forall|x: Color| grown.contains(x) implies exists|i: int|
                        0 <= i < entries.len() && (#[trigger] entries[i]).color == x by {
                        if x == c {
                            assert(entries[place as int].color == x);
                        } else {
                            let i = choose|i: int| 0 <= i < before.len() && (#[trigger] before[i]).color == x;
                            assert(entries[i].color == x);
                        }
                    }
                    assert forall|i: int| 0 <= i < entries.len() implies {
                        &&& (#[trigger] entries[i]).count == occurrences(grown, entries[i].color)
                        &&& entries[i].first == first_seen(grown, entries[i].color)
                        &&& entries[i].first < grown.len()
                    } by {
                        if i < place {
                            assert(entries[i] == before[i]);
                            assert(before[i].first < seen.len());
                        }
                    }
                    assert forall|i: int, j: int| 0 <= i < j < entries.len() implies (#[trigger] entries[i]).first < (#[trigger] entries[j]).first by {
                        assert(entries[i] == before[i]);
                        assert(before[i].first < seen.len());
                        if j < place {
                            assert(entries[j] == before[j]);
                        }
                    }
                    assert forall|i: int| 0 <= i < entries.len() implies places@.contains_key(
                        color_key((#[trigger] entries[i]).color),
                    ) && places@[color_key(entries[i].color)] == i by {
                        if i < place {
                            assert(entries[i] == before[i]);
                        }
                    }
                }
            },
        }
        n = n + 1;
    }
    assert(samples@.take(n as int) =~= samples@);
    entries
}

/// The entries in the order of `goes_before`.
pub(crate) fn arrange(entries: &Vec<PaletteEntry>) -> (ranked: Vec<PaletteEntry>)
    requires
        forall|i: int, j: int|
            0 <= i < j < entries.len() ==> (#[trigger] entries[i]).first < (#[trigger] entries[j]).first,
    ensures
        ranked@.to_multiset() == entries@.to_multiset(),
        forall|i: int, j: int|
            0 <= i < j < ranked.len() ==> goes_before(#[trigger] ranked[i], #[trigger] ranked[j]),
{
    let mut ranked: Vec<PaletteEntry> = Vec::new();
    let mut n: usize = 0;
    assert(entries@.take(0) =~= ranked@);
    while n < entries.len()
        invariant
            0 <= n <= entries.len(),
            forall|i: int, j: int|
                0 <= i < j < entries.len() ==> (#[trigger] entries[i]).first < (#[trigger] entries[j]).first,
            ranked@.to_multiset() == entries@.take(n as int).to_multiset(),
            forall|i: int, j: int|
                0 <= i < j < ranked.len() ==> goes_before(#[trigger] ranked[i], #[trigger] ranked[j]),
        decreases entries.len() - n,
    {
        let entry = entries[n];
        let mut place: usize = ranked.len();
        while place > 0 && ranked[place - 1].count < entry.count
            invariant
                0 <= place <= ranked.len(),
                forall|i: int| place <= i < ranked.len() ==> (#[trigger] ranked[i]).count < entry.count,
            decreases place,
        {
            place = place - 1;
        }
        let ghost before = ranked@;
        let ghost taken = entries@.take(n as int);
        ranked.insert(place, entry);
        proof {
            assert forall|i: int| 0 <= i < before.len() implies (#[trigger] before[i]).first
                < entry.first by {
                assert(before.contains(before[i]));
                vstd::seq_lib::to_multiset_contains(before, before[i]);
                vstd::seq_lib::to_multiset_contains(taken, before[i]);
                let k = choose|k: int| 0 <= k < taken.len() && taken[k] == before[i];
                assert(entries[k].first < entries[n as int].first);
            }
            vstd::seq_lib::to_multiset_insert(before, place as int, entry);
            assert(entries@.take(n + 1) =~= taken.push(entry));
            vstd::seq_lib::to_multiset_build(taken, entry);
            assert forall|i: int, j: int| 0 <= i < j < ranked.len() implies goes_before(
                #[trigger] ranked[i],
                #[trigger] ranked[j],
            ) by {
                if j < place {
                    assert(goes_before(before[i], before[j]));
                } else if j == place {
                    assert(ranked[i] == before[i]);
                    if i < place - 1 {
                        assert(goes_before(before[i], before[place - 1]));
                    }
                } else if i < place {
                    assert(goes_before(before[i], before[j - 1]));
                } else if i == place {
                    assert(ranked[j] == before[j - 1]);
                } else {
                    assert(goes_before(before[i - 1], before[j - 1]));
                }
            }
        }
        n = n + 1;
    }
    assert(entries@.take(n as int) =~= entries@);
    ranked
}

/// The colours of the samples, each once, every colour before those that it
/// outranks: the more frequent first, and of two that are equally frequent
/// the one that is seen first.
pub fn rank_colors(samples: &Vec<Color>) -> (ranked: Vec<Color>)
    ensures
        is_ranking(samples@, ranked@),
        ranked@ == ranking(samples@),
        ranked.len() <= samples.len(),
{
    let entries = tally(samples);
    let ordered = arrange(&entries);
    let mut ranked: Vec<Color> = Vec::new();
    let mut i: usize = 0;
    while i < ordered.len()
        invariant
            0 <= i <= ordered.len(),
            ranked.len() == i,
            forall|k: int| 0 <= k < i ==> #[trigger] ranked[k] == ordered[k].color,
        decreases ordered.len() - i,
    {
        ranked.push(ordered[i].color);
        i = i + 1;
    }
    proof {
        assert forall|i: int| 0 <= i < ordered.len() implies {
            &&& (#[trigger] ordered[i]).count == occurrences(samples@, ordered[i].color)
            &&& ordered[i].first == first_seen(samples@, ordered[i].color)
            &&& ordered[i].first < samples.len()
        } by {
            assert(ordered@.contains(ordered[i]));
            vstd::seq_lib::to_multiset_contains(ordered@, ordered[i]);
            vstd::seq_lib::to_multiset_contains(entries@, ordered[i]);
            let k = choose|k: int| 0 <= k < entries.len() && entries[k] == ordered[i];
            assert(entries[k].first < samples.len());
        }
        assert forall|c: Color| ranked@.contains(c) <==> samples@.contains(c) by {
            if ranked@.contains(c) {
                let i = choose|i: int| 0 <= i < ranked.len() && ranked[i] == c;
                assert(ordered[i].first < samples.len());
                lemma_first_seen(samples@, c);
            }
            if samples@.contains(c) {
                let k = choose|k: int| 0 <= k < entries.len() && (#[trigger] entries[k]).color == c;
                assert(entries@.contains(entries[k]));
                vstd::seq_lib::to_multiset_contains(entries@, entries[k]);
                vstd::seq_lib::to_multiset_contains(ordered@, entries[k]);
                let i = choose|i: int| 0 <= i < ordered.len() && ordered[i] == entries[k];
                assert(ranked[i] == c);
            }
        }
        assert forall|i: int, j: int| 0 <= i < j < ranked.len() implies outranks(
            samples@,
            #[trigger] ranked[i],
            #[trigger] ranked[j],
        ) by {
            assert(goes_before(ordered[i], ordered[j]));
        }
        lemma_ranking_unique(samples@, ranked@);
        lemma_ranking_length(samples@, ranked@);
    }
    ranked
}

} // verus!
