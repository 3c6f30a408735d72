//! Glyph records, and the mapping of characters to them.

use allsorts::error::ParseError;
use allsorts::gsub::{GlyphOrigin, RawGlyph};
use allsorts::tables::cmap::CmapSubtable;
use allsorts::unicode::VariationSelector;
use crate::tables::{cmap_contents, cmap_lookup};
use vstd::prelude::*;

verus! {

/// The zero-width non-joiner.
pub const ZWNJ: char = '\u{200C}';

/// The code point of SPACE, the stand-in for a missing non-joiner glyph.
pub const SPACE: u32 = 0x20;

/// One font glyph bound to its shaping state.
pub struct Glyph {
    /// The characters this glyph stands for; several after a ligature forms.
    pub unicodes: Vec<char>,
    pub glyph_index: u16,
    /// Where a glyph sits among the components of a ligature; 0 outside one.
    pub liga_component_pos: u16,
    pub glyph_origin: GlyphOrigin,
    pub small_caps: bool,
    pub multi_subst_dup: bool,
    pub is_vert_alt: bool,
    pub ligature: bool,
    pub fake_bold: bool,
    pub fake_italic: bool,
    pub variation: Option<VariationSelector>,
}

impl Glyph {
    /// The same record in the form the substitution pass takes.
    #[verifier::external_body]
    pub(crate) fn into_raw(self) -> RawGlyph<()> {
        RawGlyph {
            unicodes: self.unicodes.into_iter().collect(),
            glyph_index: self.glyph_index,
            liga_component_pos: self.liga_component_pos,
            glyph_origin: self.glyph_origin,
            small_caps: self.small_caps,
            multi_subst_dup: self.multi_subst_dup,
            is_vert_alt: self.is_vert_alt,
            ligature: self.ligature,
            fake_bold: self.fake_bold,
            fake_italic: self.fake_italic,
            variation: self.variation,
            extra_data: (),
        }
    }

    /// The record that the substitution pass handed back.
    #[verifier::external_body]
    pub(crate) fn from_raw(g: RawGlyph<()>) -> Glyph {
        Glyph {
            unicodes: g.unicodes.to_vec(),
            glyph_index: g.glyph_index,
            liga_component_pos: g.liga_component_pos,
            glyph_origin: g.glyph_origin,
            small_caps: g.small_caps,
            multi_subst_dup: g.multi_subst_dup,
            is_vert_alt: g.is_vert_alt,
            ligature: g.ligature,
            fake_bold: g.fake_bold,
            fake_italic: g.fake_italic,
            variation: g.variation,
        }
    }
}

/// `g` is the fresh record of glyph `index` for the character `ch`: it stands
/// for `ch` alone, is part of no ligature, and carries no flag and no
/// variation selector.
pub open spec fn is_fresh_glyph(g: Glyph, ch: char, index: u16) -> bool {
    &&& g.unicodes@ == seq![ch]
    &&& g.glyph_index == index
    &&& g.liga_component_pos == 0
    &&& g.glyph_origin == GlyphOrigin::Char(ch)
    &&& !g.small_caps
    &&& !g.multi_subst_dup
    &&& !g.is_vert_alt
    &&& !g.ligature
    &&& !g.fake_bold
    &&& !g.fake_italic
    &&& g.variation is None
}

/// `g` is a fresh record of its own character and glyph.
pub open spec fn is_fresh(g: Glyph) -> bool {
    g.unicodes@.len() == 1 && is_fresh_glyph(g, g.unicodes@[0], g.glyph_index)
}

/// The character and glyph of a record.
pub open spec fn pair_of(g: Glyph) -> (char, u16) {
    (g.unicodes@[0], g.glyph_index)
}

/// The characters and glyphs of a run of records.
pub open spec fn run_of(gs: Seq<Glyph>) -> Seq<(char, u16)> {
    gs.map_values(|g: Glyph| pair_of(g))
}

/// What looking up the code point `u` gives.
pub open spec fn lookup(c: CmapSubtable, u: u32) -> Result<Option<u16>, ParseError> {
    cmap_contents(c)[u]
}

/// The lookup found no glyph, and did not fail.
pub open spec fn is_absent(r: Result<Option<u16>, ParseError>) -> bool {
    r matches Ok(None)
}

/// The lookups that mapping `ch` makes return rather than panic.
pub open spec fn admits(c: CmapSubtable, ch: char) -> bool {
    &&& cmap_contents(c).contains_key(ch as u32)
    &&& ch == ZWNJ && is_absent(lookup(c, ch as u32))
        ==> cmap_contents(c).contains_key(SPACE)
}

/// What mapping `ch` gives: its own lookup, or, for a non-joiner that the font
/// lacks, the lookup of SPACE; a failing lookup gives its own error.
pub open spec fn mapped(c: CmapSubtable, ch: char) -> Result<Option<u16>, ParseError> {
    if ch == ZWNJ && is_absent(lookup(c, ch as u32)) {
        lookup(c, SPACE)
    } else {
        lookup(c, ch as u32)
    }
}

/// The glyph that `ch` maps to, where it maps to one.
pub open spec fn mapped_index(c: CmapSubtable, ch: char) -> Option<u16> {
    match mapped(c, ch) {
        Ok(o) => o,
        Err(_) => None,
    }
}

/// `slot` is what mapping `ch` gives when it does not fail.
pub open spec fn is_slot_of(slot: Option<Glyph>, c: CmapSubtable, ch: char) -> bool {
    match mapped_index(c, ch) {
        Some(i) => slot matches Some(g) && is_fresh_glyph(g, ch, i),
        None => slot is None,
    }
}

/// The error of the first character of `chars` whose mapping fails, if any.
pub open spec fn first_error(c: CmapSubtable, chars: Seq<char>) -> Option<ParseError>
    decreases chars.len(),
{
    if chars.len() == 0 {
        None
    } else {
        match first_error(c, chars.drop_last()) {
            Some(e) => Some(e),
            None => match mapped(c, chars.last()) {
                Err(e) => Some(e),
                Ok(_) => None,
            },
        }
    }
}

/// The character and glyph of each character of `chars` that the font maps.
pub open spec fn mapped_pairs(c: CmapSubtable, chars: Seq<char>) -> Seq<Option<(char, u16)>> {
    chars.map_values(|ch: char| match mapped_index(c, ch) {
        Some(i) => Some((ch, i)),
        None => None,
    })
}

/// The non-joiner falls back to SPACE only where the font lacks it: a glyph
/// of its own, or a failing lookup of it, is final, with no lookup of SPACE;
/// without one, the glyph of SPACE stands in and the record still names the
/// non-joiner.
pub proof fn lemma_zwnj_fallback(c: CmapSubtable, slot: Option<Glyph>)
    requires
        is_slot_of(slot, c, ZWNJ),
    ensures
        !is_absent(lookup(c, ZWNJ as u32)) ==> mapped(c, ZWNJ) == lookup(
            c,
            ZWNJ as u32,
        ),
        is_absent(lookup(c, ZWNJ as u32)) ==> mapped(c, ZWNJ) == lookup(
            c,
            SPACE,
        ),
        is_absent(lookup(c, ZWNJ as u32)) ==> (lookup(c, SPACE) matches Ok(Some(j)) ==> slot matches Some(g) && g.glyph_index == j && g.unicodes@ == seq![ZWNJ]
            && g.glyph_origin == GlyphOrigin::Char(ZWNJ)),
{
}

/// The record of glyph `glyph_index` for the character `ch`, before any
/// substitution.
pub fn make_glyph(ch: char, glyph_index: u16) -> (g: Glyph)
    ensures
        is_fresh_glyph(g, ch, glyph_index),
{
    let unicodes: Vec<char> = vec![ch];
    assert(unicodes@ =~= seq![ch]);
    Glyph {
        unicodes,
        glyph_index,
        liga_component_pos: 0,
        glyph_origin: GlyphOrigin::Char(ch),
        small_caps: false,
        multi_subst_dup: false,
        is_vert_alt: false,
        ligature: false,
        fake_bold: false,
        fake_italic: false,
        variation: None,
    }
}

/// The record for `ch`, or `None` where the font has no glyph for it. A
/// non-joiner the font lacks takes the glyph of SPACE and keeps its own
/// character. A failing lookup fails the call with its own error.
pub fn map_glyph(cmap_subtable: &CmapSubtable, ch: char) -> (r: Result<Option<Glyph>, ParseError>)
    requires
        admits(*cmap_subtable, ch),
    ensures
        mapped(*cmap_subtable, ch) matches Err(e) ==> (r matches Err(x) && x == e),
        mapped(*cmap_subtable, ch) is Ok ==> (r matches Ok(slot) && is_slot_of(slot, *cmap_subtable, ch)),
{
    if ch == ZWNJ {
        match cmap_lookup(cmap_subtable, ch as u32)? {
            Some(index) => Ok(Some(make_glyph(ch, index))),
            None => match cmap_lookup(cmap_subtable, SPACE)? {
                Some(index) => Ok(Some(make_glyph(ch, index))),
                None => Ok(None),
            },
        }
    } else {
        match cmap_lookup(cmap_subtable, ch as u32)? {
            Some(index) => Ok(Some(make_glyph(ch, index))),
            None => Ok(None),
        }
    }
}

/// Once some character of `pre` fails, nothing after it changes the error.
proof fn lemma_first_error_stays(c: CmapSubtable, pre: Seq<char>, all: Seq<char>)
    requires
        first_error(c, pre) is Some,
        pre.len() <= all.len(),
        pre == all.subrange(0, pre.len() as int),
    ensures
        first_error(c, all) == first_error(c, pre),
    decreases all.len() - pre.len(),
{
    if pre.len() < all.len() {
        let next = all.subrange(0, pre.len() + 1 as int);
        assert(next.drop_last() =~= pre);
        assert(next.subrange(0, pre.len() as int) =~= pre);
        assert(all.subrange(0, next.len() as int) =~= next);
        lemma_first_error_stays(c, next, all);
    } else {
        assert(all =~= pre);
    }
}

/// Maps each character in turn; the first failing lookup fails the whole with
/// its own error.
pub fn map_chars(cmap_subtable: &CmapSubtable, chars: &Vec<char>) -> (r: Result<Vec<Option<Glyph>>, ParseError>)
    requires
        forall|i: int| 0 <= i < chars@.len() ==> admits(*cmap_subtable, #[trigger] chars@[i]),
    ensures
        first_error(*cmap_subtable, chars@) matches Some(e) ==> (r matches Err(x) && x == e),
        first_error(*cmap_subtable, chars@) is None ==> r is Ok,
        r matches Ok(slots) ==> slots@.len() == chars@.len(),
        r matches Ok(slots) ==> forall|i: int| 0 <= i < chars@.len()
            ==> is_slot_of(#[trigger] slots@[i], *cmap_subtable, chars@[i]),
{
    let mut slots: Vec<Option<Glyph>> = Vec::new();
    let mut i: usize = 0;
    while i < chars.len()
        invariant
            i <= chars@.len(),
            slots@.len() == i,
            forall|k: int| 0 <= k < chars@.len() ==> admits(*cmap_subtable, #[trigger] chars@[k]),
            first_error(*cmap_subtable, chars@.subrange(0, i as int)) is None,
            forall|k: int| 0 <= k < i ==> is_slot_of(#[trigger] slots@[k], *cmap_subtable, chars@[k]),
        decreases chars@.len() - i,
    {
        let ghost pre = chars@.subrange(0, i as int);
        let ghost next = chars@.subrange(0, i + 1);
        assert(next.drop_last() =~= pre);
        match map_glyph(cmap_subtable, chars[i]) {
            Ok(slot) => {
                slots.push(slot);
            },
            Err(e) => {
                proof {
                    lemma_first_error_stays(*cmap_subtable, next, chars@);
                }
                return Err(e);
            },
        }
        i += 1;
    }
    assert(chars@.subrange(0, i as int) =~= chars@);
    Ok(slots)
}

} // verus!
