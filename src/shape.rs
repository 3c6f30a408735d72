//! Shaping a run: map, cut at holes, substitute each segment, flatten.

use allsorts::error::ShapingError;
use allsorts::tables::cmap::CmapSubtable;
use crate::glyph::{
    admits, first_error, is_fresh, lookup, map_chars, mapped_index, mapped_pairs, pair_of, run_of,
    Glyph,
};
use crate::segment::{
    lemma_all_holes_no_segment, lemma_hole_splits, lemma_no_hole_one_segment, lemma_segments_items,
    lemma_segments_map, map_present, present, segments, split_segments,
};
use crate::tables::{apply_gsub, cmap_contents, cmap_lookup, substituted, GsubTables};
use vstd::prelude::*;

verus! {

/// The dotted circle, whose glyph marks unsupported combining sequences.
pub const DOTTED_CIRCLE: u32 = 0x25CC;

/// The placeholder glyph handed to substitution: the dotted circle's, or 0
/// where the font has none.
pub open spec fn dotted_index(c: CmapSubtable) -> u16 {
    match lookup(c, DOTTED_CIRCLE) {
        Ok(Some(i)) => i,
        _ => 0,
    }
}

/// What the substitution pass gives for `run`, where it returns.
pub open spec fn substitution(
    t: GsubTables,
    dc: u16,
    script_tag: u32,
    opt_lang_tag: Option<u32>,
    num_glyphs: u16,
    run: Seq<(char, u16)>,
) -> Result<Seq<u16>, ShapingError> {
    substituted(t, dc, script_tag, opt_lang_tag, num_glyphs, run)->Some_0
}

/// The runs that the substitution pass is handed, one per segment of
/// `chars`, each as the characters and glyphs of its records.
pub open spec fn run_segments(c: CmapSubtable, chars: Seq<char>) -> Seq<Seq<(char, u16)>> {
    segments(mapped_pairs(c, chars))
}

/// Substitutes each of `runs` on its own, in order, and joins the results;
/// the first failing run gives its error.
pub open spec fn shape_runs(
    t: GsubTables,
    dc: u16,
    script_tag: u32,
    opt_lang_tag: Option<u32>,
    num_glyphs: u16,
    runs: Seq<Seq<(char, u16)>>,
) -> Result<Seq<u16>, ShapingError>
    decreases runs.len(),
{
    if runs.len() == 0 {
        Ok(seq![])
    } else {
        match shape_runs(t, dc, script_tag, opt_lang_tag, num_glyphs, runs.drop_last()) {
            Err(e) => Err(e),
            Ok(w) => match substitution(t, dc, script_tag, opt_lang_tag, num_glyphs, runs.last()) {
                Err(e) => Err(e),
                Ok(v) => Ok(w + v),
            },
        }
    }
}

/// What shaping `chars` gives: the first failing character lookup's error;
/// else nothing where no segment exists; else the dotted circle's lookup
/// error if it fails; else the substituted segments joined in order.
pub open spec fn shaped(
    c: CmapSubtable,
    t: GsubTables,
    num_glyphs: u16,
    script_tag: u32,
    opt_lang_tag: Option<u32>,
    chars: Seq<char>,
) -> Result<Seq<u16>, ShapingError> {
    match first_error(c, chars) {
        Some(e) => Err(ShapingError::Parse(e)),
        None => if run_segments(c, chars).len() == 0 {
            Ok(seq![])
        } else {
            match lookup(c, DOTTED_CIRCLE) {
                Err(e) => Err(ShapingError::Parse(e)),
                Ok(_) => shape_runs(t, dotted_index(c), script_tag, opt_lang_tag, num_glyphs, run_segments(c, chars)),
            }
        },
    }
}

proof fn lemma_shape_runs_err_stays(
    t: GsubTables,
    dc: u16,
    script_tag: u32,
    opt_lang_tag: Option<u32>,
    num_glyphs: u16,
    pre: Seq<Seq<(char, u16)>>,
    all: Seq<Seq<(char, u16)>>,
)
    requires
        shape_runs(t, dc, script_tag, opt_lang_tag, num_glyphs, pre) is Err,
        pre.len() <= all.len(),
        pre == all.subrange(0, pre.len() as int),
    ensures
        shape_runs(t, dc, script_tag, opt_lang_tag, num_glyphs, all) == shape_runs(t, dc, script_tag, opt_lang_tag, num_glyphs, pre),
    decreases all.len() - pre.len(),
{
    if pre.len() < all.len() {
        let next = all.subrange(0, pre.len() + 1 as int);
        assert(next.drop_last() =~= pre);
        assert(next.subrange(0, pre.len() as int) =~= pre);
        assert(all.subrange(0, next.len() as int) =~= next);
        lemma_shape_runs_err_stays(t, dc, script_tag, opt_lang_tag, num_glyphs, next, all);
    } else {
        assert(all =~= pre);
    }
}

/// Substituting two lists of runs one after the other gives the two results
/// joined.
pub proof fn lemma_shape_runs_concat(
    t: GsubTables,
    dc: u16,
    script_tag: u32,
    opt_lang_tag: Option<u32>,
    num_glyphs: u16,
    r1: Seq<Seq<(char, u16)>>,
    r2: Seq<Seq<(char, u16)>>,
)
    requires
        shape_runs(t, dc, script_tag, opt_lang_tag, num_glyphs, r1) is Ok,
        shape_runs(t, dc, script_tag, opt_lang_tag, num_glyphs, r2) is Ok,
    ensures
        shape_runs(t, dc, script_tag, opt_lang_tag, num_glyphs, r1 + r2) matches Ok(w) && w
            == shape_runs(t, dc, script_tag, opt_lang_tag, num_glyphs, r1)->Ok_0 + shape_runs(
            t,
            dc,
            script_tag,
            opt_lang_tag,
            num_glyphs,
            r2,
        )->Ok_0,
    decreases r2.len(),
{
    if r2.len() == 0 {
        assert(r1 + r2 =~= r1);
        assert(shape_runs(t, dc, script_tag, opt_lang_tag, num_glyphs, r1)->Ok_0 + Seq::<u16>::empty()
            =~= shape_runs(t, dc, script_tag, opt_lang_tag, num_glyphs, r1)->Ok_0);
    } else {
        let p2 = r2.drop_last();
        assert((r1 + r2).drop_last() =~= r1 + p2);
        assert((r1 + r2).last() == r2.last());
        lemma_shape_runs_concat(t, dc, script_tag, opt_lang_tag, num_glyphs, r1, p2);
        let a = shape_runs(t, dc, script_tag, opt_lang_tag, num_glyphs, r1)->Ok_0;
        let b = shape_runs(t, dc, script_tag, opt_lang_tag, num_glyphs, p2)->Ok_0;
        let v = substitution(t, dc, script_tag, opt_lang_tag, num_glyphs, r2.last())->Ok_0;
        assert(a + b + v =~= a + (b + v));
    }
}

/// With no character the font lacks, the whole mapped run is one segment,
/// holding one record per character, and shaping substitutes it as a whole:
/// with no failing lookup, the output is exactly what the pass gives for the
/// whole run, so a conjunct that the pass forms comes out as its one glyph.
pub proof fn lemma_no_hole_one_run(
    c: CmapSubtable,
    t: GsubTables,
    num_glyphs: u16,
    script_tag: u32,
    opt_lang_tag: Option<u32>,
    chars: Seq<char>,
)
    requires
        chars.len() > 0,
        forall|i: int| 0 <= i < chars.len() ==> mapped_index(c, #[trigger] chars[i]) is Some,
    ensures
        run_segments(c, chars) == seq![present(mapped_pairs(c, chars))],
        present(mapped_pairs(c, chars)).len() == chars.len(),
        shape_runs(t, dotted_index(c), script_tag, opt_lang_tag, num_glyphs, run_segments(c, chars))
            == substitution(t, dotted_index(c), script_tag, opt_lang_tag, num_glyphs, present(mapped_pairs(c, chars))),
        first_error(c, chars) is None && lookup(c, DOTTED_CIRCLE) is Ok ==> shaped(
            c,
            t,
            num_glyphs,
            script_tag,
            opt_lang_tag,
            chars,
        ) == substitution(t, dotted_index(c), script_tag, opt_lang_tag, num_glyphs, present(mapped_pairs(c, chars))),
{
    let s = mapped_pairs(c, chars);
    assert forall|i: int| 0 <= i < s.len() implies (#[trigger] s[i]) is Some by {
        assert(mapped_index(c, chars[i]) is Some);
    }
    lemma_no_hole_one_segment(s);
    let runs = run_segments(c, chars);
    assert(runs.drop_last() =~= Seq::<Seq<(char, u16)>>::empty());
    let dc = dotted_index(c);
    assert(shape_runs(t, dc, script_tag, opt_lang_tag, num_glyphs, runs.drop_last()) == Ok::<Seq<u16>, ShapingError>(seq![]));
    assert(runs.last() == present(s));
    match substitution(t, dc, script_tag, opt_lang_tag, num_glyphs, runs.last()) {
        Ok(v) => {
            assert(Seq::<u16>::empty() + v =~= v);
        },
        Err(_) => {},
    }
}

/// A character the font lacks is a hard boundary: the segments are those of
/// the characters before it followed by those after it, and where both sides
/// shape, the output is their two outputs joined, so no substitution spans it.
pub proof fn lemma_hole_shapes_apart(
    c: CmapSubtable,
    t: GsubTables,
    num_glyphs: u16,
    script_tag: u32,
    opt_lang_tag: Option<u32>,
    before: Seq<char>,
    missing: char,
    after: Seq<char>,
)
    requires
        mapped_index(c, missing) is None,
    ensures
        run_segments(c, before.push(missing) + after) == run_segments(c, before) + run_segments(c, after),
        shape_runs(t, dotted_index(c), script_tag, opt_lang_tag, num_glyphs, run_segments(c, before)) is Ok
            && shape_runs(t, dotted_index(c), script_tag, opt_lang_tag, num_glyphs, run_segments(c, after)) is Ok
            ==> shape_runs(t, dotted_index(c), script_tag, opt_lang_tag, num_glyphs, run_segments(c, before.push(missing) + after))
            == Ok::<Seq<u16>, ShapingError>(
                shape_runs(t, dotted_index(c), script_tag, opt_lang_tag, num_glyphs, run_segments(c, before))->Ok_0
                    + shape_runs(t, dotted_index(c), script_tag, opt_lang_tag, num_glyphs, run_segments(c, after))->Ok_0,
            ),
{
    assert(mapped_pairs(c, before.push(missing) + after) =~= mapped_pairs(c, before).push(None) + mapped_pairs(c, after));
    lemma_hole_splits(mapped_pairs(c, before), mapped_pairs(c, after));
    let dc = dotted_index(c);
    if shape_runs(t, dc, script_tag, opt_lang_tag, num_glyphs, run_segments(c, before)) is Ok
        && shape_runs(t, dc, script_tag, opt_lang_tag, num_glyphs, run_segments(c, after)) is Ok {
        lemma_shape_runs_concat(t, dc, script_tag, opt_lang_tag, num_glyphs, run_segments(c, before), run_segments(c, after));
    }
}

/// Where the font has a glyph for no character of `chars`, which holds of
/// an empty run too, nothing is handed to substitution and, with no failing
/// lookup, shaping gives nothing.
pub proof fn lemma_unmapped_no_segment(
    c: CmapSubtable,
    t: GsubTables,
    num_glyphs: u16,
    script_tag: u32,
    opt_lang_tag: Option<u32>,
    chars: Seq<char>,
)
    requires
        forall|i: int| 0 <= i < chars.len() ==> mapped_index(c, #[trigger] chars[i]) is None,
    ensures
        run_segments(c, chars).len() == 0,
        first_error(c, chars) is None ==> shaped(c, t, num_glyphs, script_tag, opt_lang_tag, chars)
            == Ok::<Seq<u16>, ShapingError>(Seq::<u16>::empty()),
{
    let s = mapped_pairs(c, chars);
    assert forall|i: int| 0 <= i < s.len() implies (#[trigger] s[i]) is None by {
        assert(mapped_index(c, chars[i]) is None);
    }
    lemma_all_holes_no_segment(s);
}

/// The glyph indices of `glyphs`, in order.
pub fn glyph_indices(glyphs: &Vec<Glyph>) -> (r: Vec<u16>)
    ensures
        r@ == glyphs@.map_values(|g: Glyph| g.glyph_index),
{
    let mut r: Vec<u16> = Vec::new();
    let mut j: usize = 0;
    while j < glyphs.len()
        invariant
            j <= glyphs@.len(),
            r@ == glyphs@.subrange(0, j as int).map_values(|g: Glyph| g.glyph_index),
        decreases glyphs@.len() - j,
    {
        r.push(glyphs[j].glyph_index);
        j += 1;
        assert(r@ =~= glyphs@.subrange(0, j as int).map_values(|g: Glyph| g.glyph_index));
    }
    assert(glyphs@.subrange(0, j as int) =~= glyphs@);
    r
}

/// Shapes `chars`, already pre-processed for the script: maps each
/// character, cuts the run at every character the font lacks, applies the
/// substitution rules to each segment on its own, and returns the glyph
/// indices of all segments in order.
///
/// A failing character lookup gives its parse error, and a failing
/// substitution pass its own error; a missing glyph is no error. Where no
/// character has a glyph, the placeholder is not looked up and the result is
/// empty.
pub fn shape_chars(
    cmap_subtable: &CmapSubtable,
    tables: &GsubTables,
    num_glyphs: u16,
    script_tag: u32,
    opt_lang_tag: Option<u32>,
    chars: &Vec<char>,
) -> (r: Result<Vec<u16>, ShapingError>)
    requires
        forall|i: int| 0 <= i < chars@.len() ==> admits(*cmap_subtable, #[trigger] chars@[i]),
        run_segments(*cmap_subtable, chars@).len() > 0 ==> cmap_contents(*cmap_subtable).contains_key(
            DOTTED_CIRCLE,
        ),
        forall|k: int| 0 <= k < run_segments(*cmap_subtable, chars@).len() ==> substituted(
            *tables,
            dotted_index(*cmap_subtable),
            script_tag,
            opt_lang_tag,
            num_glyphs,
            #[trigger] run_segments(*cmap_subtable, chars@)[k],
        ) is Some,
    ensures
        r matches Ok(v) ==> (shaped(*cmap_subtable, *tables, num_glyphs, script_tag, opt_lang_tag, chars@)
            matches Ok(w) && w == v@),
        r matches Err(e) ==> (shaped(*cmap_subtable, *tables, num_glyphs, script_tag, opt_lang_tag, chars@)
            matches Err(x) && x == e),
{
    let ghost c = *cmap_subtable;
    let slots = match map_chars(cmap_subtable, chars) {
        Ok(slots) => slots,
        Err(e) => return Err(ShapingError::Parse(e)),
    };
    let ghost f = |g: Glyph| pair_of(g);
    let ghost fresh = |g: Glyph| is_fresh(g);
    proof {
        assert forall|i: int| 0 <= i < slots@.len() implies (#[trigger] slots@[i] matches Some(g) ==> fresh(g)) by {
            match slots@[i] {
                Some(g) => {
                    assert(g.unicodes@ =~= seq![chars@[i]]);
                },
                None => {},
            }
        }
        assert forall|i: int| 0 <= i < slots@.len() implies #[trigger] map_present(slots@, f)[i] == mapped_pairs(c, chars@)[i] by {
            match slots@[i] {
                Some(g) => {
                    assert(g.unicodes@ =~= seq![chars@[i]]);
                },
                None => {},
            }
        }
        assert(map_present(slots@, f) =~= mapped_pairs(c, chars@));
        lemma_segments_map(slots@, f);
        lemma_segments_items(slots@, fresh);
    }
    let ghost gsegs = segments(slots@);
    let mut segs = split_segments(slots);
    let ghost runs = run_segments(c, chars@);
    proof {
        assert forall|k: int| 0 <= k < segs@.len() implies run_of(#[trigger] segs@[k]@) == runs[k] by {
            assert(run_of(segs@[k]@) =~= gsegs[k].map_values(f));
        }
    }
    if segs.len() == 0 {
        return Ok(Vec::new());
    }
    let dotted_circle_index = match cmap_lookup(cmap_subtable, DOTTED_CIRCLE) {
        Ok(Some(index)) => index,
        Ok(None) => 0,
        Err(e) => return Err(ShapingError::Parse(e)),
    };
    let ghost all = segs@;
    let n: usize = segs.len();
    let ghost count = segs@.len();
    let mut out: Vec<u16> = Vec::new();
    let mut k: usize = 0;
    while segs.len() > 0
        invariant
            c == *cmap_subtable,
            count == runs.len(),
            count == n,
            all.len() == count,
            runs == run_segments(c, chars@),
            first_error(c, chars@) is None,
            lookup(c, DOTTED_CIRCLE) is Ok,
            dotted_circle_index == dotted_index(c),
            k <= count,
            segs@ == all.subrange(k as int, count as int),
            forall|q: int| 0 <= q < count ==> run_of(#[trigger] all[q]@) == runs[q],
            forall|q: int| 0 <= q < count ==> substituted(*tables, dotted_circle_index, script_tag, opt_lang_tag, num_glyphs, #[trigger] runs[q]) is Some,
            forall|q: int, j: int| 0 <= q < count && 0 <= j < all[q]@.len() ==> is_fresh(#[trigger] all[q]@[j]),
            shape_runs(*tables, dotted_circle_index, script_tag, opt_lang_tag, num_glyphs, runs.subrange(0, k as int))
                == Ok::<Seq<u16>, ShapingError>(out@),
        decreases segs@.len(),
    {
        let ghost pre = runs.subrange(0, k as int);
        let ghost next = runs.subrange(0, k + 1 as int);
        let mut seg = segs.remove(0);
        assert(seg == all[k as int]);
        assert(next.drop_last() =~= pre);
        assert(next.last() == runs[k as int]);
        match apply_gsub(tables, dotted_circle_index, script_tag, opt_lang_tag, num_glyphs, &mut seg) {
            Ok(()) => {},
            Err(e) => {
                proof {
                    lemma_shape_runs_err_stays(*tables, dotted_circle_index, script_tag, opt_lang_tag, num_glyphs, next, runs);
                    assert(runs.subrange(0, count as int) =~= runs);
                }
                return Err(e);
            },
        }
        let mut indices = glyph_indices(&seg);
        out.append(&mut indices);
        k += 1;
        assert(segs@ =~= all.subrange(k as int, count as int));
    }
    assert(runs.subrange(0, k as int) =~= runs);
    Ok(out)
}

} // verus!
