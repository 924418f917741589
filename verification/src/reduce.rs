//! The distinct colours of a picture.

use crate::color::{lemma_pack_injective, spec_pack, Color};
use crate::raster::Raster;
use std::collections::HashSet;
use vstd::prelude::*;

verus! {

broadcast use vstd::std_specs::hash::group_hash_axioms;

/// The colours of the pixels, each once, in the order in which they first
/// occur.
pub open spec fn distinct(pixels: Seq<Color>) -> Seq<Color>
    decreases pixels.len(),
{
    if pixels.len() == 0 {
        Seq::empty()
    } else {
        let before = distinct(pixels.drop_last());
        if before.contains(pixels.last()) {
            before
        } else {
            before.push(pixels.last())
        }
    }
}

/// The distinct colours of some pixels are exactly the colours that occur
/// among the pixels, and none of them is listed twice.
pub proof fn lemma_distinct(pixels: Seq<Color>)
    ensures
        distinct(pixels).no_duplicates(),
        forall|c: Color| distinct(pixels).contains(c) <==> pixels.contains(c),
        distinct(pixels).len() <= pixels.len(),
    decreases pixels.len(),
{
    if pixels.len() > 0 {
        let rest = pixels.drop_last();
        let last = pixels.last();
        let before = distinct(rest);
        lemma_distinct(rest);
        assert forall|c: Color| distinct(pixels).contains(c) <==> pixels.contains(c) by {
            if pixels.contains(c) {
                let i = choose|i: int| 0 <= i < pixels.len() && pixels[i] == c;
                if i < rest.len() {
                    assert(rest[i] == c);
                    assert(rest.contains(c));
                    let j = choose|j: int| 0 <= j < before.len() && before[j] == c;
                    assert(distinct(pixels)[j] == c);
                } else {
                    assert(c == last);
                    if !before.contains(last) {
                        assert(distinct(pixels)[before.len() as int] == c);
                    }
                }
            }
            if distinct(pixels).contains(c) {
                let j = choose|j: int| 0 <= j < distinct(pixels).len() && distinct(pixels)[j] == c;
                if j < before.len() {
                    assert(before[j] == c);
                    assert(before.contains(c));
                    assert(rest.contains(c));
                    let i = choose|i: int| 0 <= i < rest.len() && rest[i] == c;
                    assert(pixels[i] == c);
                } else {
                    assert(pixels[pixels.len() - 1] == c);
                }
            }
        }
    }
}

/// A picture of one colour has one distinct colour.
pub proof fn lemma_distinct_of_solid(pixels: Seq<Color>, c: Color)
    requires
        pixels.len() > 0,
        forall|i: int| 0 <= i < pixels.len() ==> pixels[i] == c,
    ensures
        distinct(pixels) == seq![c],
    decreases pixels.len(),
{
    let rest = pixels.drop_last();
    if rest.len() == 0 {
        assert(distinct(rest) =~= Seq::<Color>::empty());
        assert(distinct(pixels) =~= seq![c]);
    } else {
        lemma_distinct_of_solid(rest, c);
        assert(seq![c][0] == c);
        assert(distinct(rest).contains(pixels.last()));
    }
}

/// The distinct colours of the picture, see [`distinct`].
pub fn distinct_colors(image: &Raster) -> (colors: Vec<Color>)
    ensures
        colors@ == distinct(image@),
{
    let pixels = image.pixels();
    let n = pixels.len();
    let mut seen: HashSet<u32> = HashSet::new();
    let mut colors: Vec<Color> = Vec::new();
    let mut i: usize = 0;
    while i < n
        invariant
            i <= n,
            n == pixels@.len(),
            colors@ == distinct(pixels@.take(i as int)),
            forall|c: Color| seen@.contains(spec_pack(c)) <==> colors@.contains(c),
        decreases n - i,
    {
        let p = pixels[i];
        proof {
            assert(pixels@.take(i + 1).drop_last() == pixels@.take(i as int));
            assert(pixels@.take(i + 1).last() == p);
        }
        let ghost before = colors@;
        let fresh = seen.insert(p.pack());
        if fresh {
            colors.push(p);
        }
        proof {
            assert forall|c: Color| seen@.contains(spec_pack(c)) <==> colors@.contains(c) by {
                if spec_pack(c) == spec_pack(p) {
                    lemma_pack_injective(c, p);
                    if fresh {
                        assert(colors@[before.len() as int] == p);
                    }
                } else {
                    if before.contains(c) {
                        let j = choose|j: int| 0 <= j < before.len() && before[j] == c;
                        assert(colors@[j] == c);
                    }
                    if colors@.contains(c) {
                        let j = choose|j: int| 0 <= j < colors@.len() && colors@[j] == c;
                        assert(before[j] == c);
                    }
                }
            }
        }
        i += 1;
    }
    assert(pixels@.take(n as int) == pixels@);
    colors
}

} // verus!
