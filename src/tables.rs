//! The font tables of `allsorts` that shaping reads, and the calls into it.

use std::rc::Rc;

use allsorts::error::{IndicError, ParseError, ShapingError};

use allsorts::gsub::{self, FeatureMask, Features, GlyphOrigin, RawGlyph};
use allsorts::layout::{GDEFTable, LayoutCache, GSUB};
use allsorts::tables::cmap::CmapSubtable;
use allsorts::unicode::VariationSelector;
use crate::glyph::{is_fresh, run_of, Glyph};
use vstd::prelude::*;

verus! {

/// Why a font table could not be read.
#[verifier::external_type_specification]
pub struct ExParseError(ParseError);

/// A failure of the substitution pass.
#[verifier::external_type_specification]
pub struct ExShapingError(ShapingError);

#[verifier::external_type_specification]
#[verifier::external_body]
pub struct ExIndicError(IndicError);

/// Where a glyph record came from: a character, or a substitution.
#[verifier::external_type_specification]
pub struct ExGlyphOrigin(GlyphOrigin);

#[verifier::external_type_specification]
#[verifier::external_body]
pub struct ExVariationSelector(VariationSelector);

/// A character-to-glyph subtable of a font.
#[verifier::external_type_specification]
#[verifier::external_body]
pub struct ExCmapSubtable<'a>(CmapSubtable<'a>);

/// What looking each code point up in the subtable gives: its glyph, no
/// glyph, or the error met reading the subtable. A code point whose lookup
/// overflows on a malformed subtable (which panics) is not in the domain.
pub uninterp spec fn cmap_contents(c: CmapSubtable) -> Map<u32, Result<Option<u16>, ParseError>>;

/// Relies on `CmapSubtable::map_glyph`, which reads the subtable and nothing
/// else: the same code point gives the same result.
#[verifier::external_body]
pub(crate) fn cmap_lookup(c: &CmapSubtable, u: u32) -> (r: Result<Option<u16>, ParseError>)
    requires
        cmap_contents(*c).contains_key(u),
    ensures
        r == cmap_contents(*c)[u],
{
    c.map_glyph(u)
}

/// One glyph bound to its shaping state, as the substitution pass takes it.
#[verifier::external_type_specification]
#[verifier::external_body]
#[verifier::reject_recursive_types(T)]
pub struct ExRawGlyph<T>(RawGlyph<T>);

/// The rule cache and glyph-class table of one font, shared by every segment
/// of a call and never changed by shaping.
///
/// Held opaque: the cache's type is bounded by a trait of `allsorts`, which
/// cannot be declared here.
#[verifier::external_body]
pub struct GsubTables {
    pub gsub_cache: LayoutCache<GSUB>,
    pub gdef_table: Option<Rc<GDEFTable>>,
}

/// What the substitution pass gives for a run of fresh records, each given
/// by its character and glyph: the glyph indices after substitution, or the
/// pass's error. `None` where the pass does not return: some well-formed
/// rule sets make it panic, as a nested ligature that reaches past the end
/// of its context.
pub uninterp spec fn substituted(
    tables: GsubTables,
    dotted_circle_index: u16,
    script_tag: u32,
    opt_lang_tag: Option<u32>,
    num_glyphs: u16,
    run: Seq<(char, u16)>,
) -> Option<Result<Seq<u16>, ShapingError>>;

/// Relies on `allsorts::gsub::apply` with the default features: it applies the
/// script's substitution rules to `glyphs` in place, or fails, by its
/// arguments alone. Records made from a character are required, since the
/// Indic pass panics on one that is not, and a run on which the pass returns.
#[verifier::external_body]
pub(crate) fn apply_gsub(
    tables: &GsubTables,
    dotted_circle_index: u16,
    script_tag: u32,
    opt_lang_tag: Option<u32>,
    num_glyphs: u16,
    glyphs: &mut Vec<Glyph>,
) -> (r: Result<(), ShapingError>)
    requires
        forall|j: int| 0 <= j < old(glyphs)@.len() ==> is_fresh(#[trigger] old(glyphs)@[j]),
        substituted(*tables, dotted_circle_index, script_tag, opt_lang_tag, num_glyphs, run_of(old(glyphs)@)) is Some,
    ensures
        r is Ok <==> substituted(*tables, dotted_circle_index, script_tag, opt_lang_tag, num_glyphs, run_of(old(glyphs)@)) matches Some(Ok(_)),
        r is Ok ==> (
            substituted(*tables, dotted_circle_index, script_tag, opt_lang_tag, num_glyphs, run_of(old(glyphs)@)) matches Some(Ok(v))
                && v == final(glyphs)@.map_values(|g: Glyph| g.glyph_index)
        ),
        r matches Err(e) ==> (
            substituted(*tables, dotted_circle_index, script_tag, opt_lang_tag, num_glyphs, run_of(old(glyphs)@)) matches Some(Err(x)) && x == e
        ),
{
    let mut raw: Vec<RawGlyph<()>> = glyphs.drain(..).map(Glyph::into_raw).collect();
    let features = Features::Mask(FeatureMask::default());
    let gdef = tables.gdef_table.as_deref();
    let r = gsub::apply(dotted_circle_index, &tables.gsub_cache, gdef, script_tag, opt_lang_tag, &features, num_glyphs, &mut raw);
    glyphs.extend(raw.into_iter().map(Glyph::from_raw));
    r
}

} // verus!
