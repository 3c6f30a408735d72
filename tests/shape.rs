use allsorts::binary::read::ReadScope;
use allsorts::error::ShapingError;
use allsorts::gsub::GlyphOrigin;
use allsorts::layout::{new_layout_cache, LayoutTable, GSUB};
use allsorts::tables::cmap::CmapSubtable;
use indic_shape::glyph::{make_glyph, map_chars, map_glyph, Glyph};
use indic_shape::segment::split_segments;
use indic_shape::shape::{glyph_indices, shape_chars};
use indic_shape::tables::GsubTables;

const LATN: u32 = 0x6C61_746E;
const ZWNJ: char = '\u{200C}';

/// A format 12 subtable holding `groups` of (first code, last code, first glyph).
fn cmap12(groups: &[(u32, u32, u32)]) -> Vec<u8> {
    let mut b = Vec::new();
    b.extend_from_slice(&12u16.to_be_bytes());
    b.extend_from_slice(&0u16.to_be_bytes());
    b.extend_from_slice(&(16 + 12 * groups.len() as u32).to_be_bytes());
    b.extend_from_slice(&0u32.to_be_bytes());
    b.extend_from_slice(&(groups.len() as u32).to_be_bytes());
    for &(start, end, glyph) in groups {
        b.extend_from_slice(&start.to_be_bytes());
        b.extend_from_slice(&end.to_be_bytes());
        b.extend_from_slice(&glyph.to_be_bytes());
    }
    b
}

fn read_cmap(data: &[u8]) -> CmapSubtable<'_> {
    ReadScope::new(data).read::<CmapSubtable<'_>>().unwrap()
}

fn tables_from(gsub: &[u8]) -> GsubTables {
    let table = ReadScope::new(gsub).read::<LayoutTable<GSUB>>().unwrap();
    GsubTables {
        gsub_cache: new_layout_cache::<GSUB>(table),
        gdef_table: None,
    }
}

/// A GSUB table with no script, feature or lookup.
fn empty_tables() -> GsubTables {
    tables_from(&[0, 1, 0, 0, 0, 0, 0, 0, 0, 0])
}

/// A GSUB table with, for `script`, one `feature` whose lookup ligates
/// `first` followed by `rest` into `lig`.
fn ligature_tables(script: u32, feature: u32, first: u16, rest: &[u16], lig: u16) -> GsubTables {
    let mut words: Vec<u16> = vec![
        1, 0, 10, 30, 44, // header
        1, (script >> 16) as u16, script as u16, 8, // script list
        4, 0, 0, 0xFFFF, 1, 0, // script, default language system
        1, (feature >> 16) as u16, feature as u16, 8, // feature list
        0, 1, 0, // feature
        1, 4, // lookup list
        4, 0, 1, 8, // lookup: ligature substitution
        1, 8, 1, 14, // subtable
        1, 1, first, // coverage
        1, 4, // ligature set
        lig, rest.len() as u16 + 1, // ligature
    ];
    words.extend_from_slice(rest);
    let mut b = Vec::new();
    for w in words.iter() {
        b.extend_from_slice(&w.to_be_bytes());
    }
    tables_from(&b)
}

/// A GSUB table whose one `liga` lookup, for Latin, turns glyphs 1, 2 into 9.
fn liga_tables() -> GsubTables {
    ligature_tables(LATN, 0x6C69_6761, 1, &[2], 9)
}

/// 'a' -> 1, 'b' -> 2, 'c' -> 3, 'd' -> 4, SPACE -> 5; a lookup of U+E000 fails.
fn latin_cmap() -> Vec<u8> {
    cmap12(&[(0x20, 0x20, 5), (0x61, 0x64, 1), (0xE000, 0xE000, 70000)])
}

fn fields(g: &Glyph) -> (Vec<char>, u16, u16, bool) {
    let flags = g.small_caps || g.multi_subst_dup || g.is_vert_alt || g.ligature
        || g.fake_bold || g.fake_italic || g.variation.is_some();
    (g.unicodes.clone(), g.glyph_index, g.liga_component_pos, flags)
}

#[test]
fn make_glyph_sets_defaults() {
    let g = make_glyph('ক', 42);
    assert_eq!(fields(&g), (vec!['ক'], 42, 0, false));
    assert!(matches!(g.glyph_origin, GlyphOrigin::Char('ক')));
}

#[test]
fn map_glyph_direct_and_absent() {
    let data = latin_cmap();
    let cmap = read_cmap(&data);
    let g = map_glyph(&cmap, 'c').unwrap().unwrap();
    assert_eq!(fields(&g), (vec!['c'], 3, 0, false));
    assert!(map_glyph(&cmap, 'z').unwrap().is_none());
}

#[test]
fn map_glyph_fails_on_unreadable_entry() {
    let data = latin_cmap();
    let cmap = read_cmap(&data);
    assert!(map_glyph(&cmap, '\u{E000}').is_err());
}

#[test]
fn zwnj_direct_glyph_skips_space() {
    // SPACE cannot be read here, so the call would fail if SPACE were looked up.
    let data = cmap12(&[(0x20, 0x20, 70000), (0x200C, 0x200C, 7)]);
    let cmap = read_cmap(&data);
    let g = map_glyph(&cmap, ZWNJ).unwrap().unwrap();
    assert_eq!(fields(&g), (vec![ZWNJ], 7, 0, false));
}

#[test]
fn zwnj_falls_back_to_space() {
    let data = latin_cmap();
    let cmap = read_cmap(&data);
    let g = map_glyph(&cmap, ZWNJ).unwrap().unwrap();
    assert_eq!(fields(&g), (vec![ZWNJ], 5, 0, false));
    assert!(matches!(g.glyph_origin, GlyphOrigin::Char(ZWNJ)));
}

#[test]
fn zwnj_without_space_is_absent() {
    let data = cmap12(&[(0x61, 0x61, 1)]);
    let cmap = read_cmap(&data);
    assert!(map_glyph(&cmap, ZWNJ).unwrap().is_none());
}

#[test]
fn map_chars_keeps_positions() {
    let data = latin_cmap();
    let cmap = read_cmap(&data);
    let slots = map_chars(&cmap, &vec!['a', 'x', 'd']).unwrap();
    let idx: Vec<Option<u16>> = slots.iter().map(|s| s.as_ref().map(|g| g.glyph_index)).collect();
    assert_eq!(idx, vec![Some(1), None, Some(4)]);
    assert!(map_chars(&cmap, &vec!['a', '\u{E000}']).is_err());
}

#[test]
fn split_at_hole() {
    let segs = split_segments(vec![Some(1), Some(2), None, Some(3), Some(4)]);
    assert_eq!(segs, vec![vec![1, 2], vec![3, 4]]);
}

#[test]
fn split_without_hole_is_one_segment() {
    assert_eq!(split_segments(vec![Some(1), Some(2), Some(3)]), vec![vec![1, 2, 3]]);
}

#[test]
fn split_holes_at_ends_and_in_a_row() {
    let segs = split_segments(vec![None, Some(1), None, None, Some(2), None]);
    assert_eq!(segs, vec![vec![1], vec![2]]);
    assert!(split_segments::<u8>(vec![None, None, None]).is_empty());
    assert!(split_segments::<u8>(vec![None]).is_empty());
    assert!(split_segments::<u8>(vec![]).is_empty());
}

#[test]
fn glyph_indices_in_order() {
    let gs = vec![make_glyph('a', 3), make_glyph('b', 1)];
    assert_eq!(glyph_indices(&gs), vec![3, 1]);
}

#[test]
fn shape_empty_input() {
    let data = latin_cmap();
    let cmap = read_cmap(&data);
    let r = shape_chars(&cmap, &empty_tables(), 10, LATN, None, &vec![]);
    assert_eq!(r.unwrap(), Vec::<u16>::new());
}

#[test]
fn shape_all_unmapped_input() {
    let data = latin_cmap();
    let cmap = read_cmap(&data);
    let r = shape_chars(&cmap, &liga_tables(), 10, LATN, None, &vec!['x', 'y', 'z']);
    assert_eq!(r.unwrap(), Vec::<u16>::new());
}

#[test]
fn shape_drops_holes_and_keeps_order() {
    let data = latin_cmap();
    let cmap = read_cmap(&data);
    let r = shape_chars(&cmap, &empty_tables(), 10, LATN, None, &vec!['x', 'd', 'c', 'y', 'a', 'z']);
    assert_eq!(r.unwrap(), vec![4, 3, 1]);
}

#[test]
fn shape_forms_ligature_within_segment() {
    let data = latin_cmap();
    let cmap = read_cmap(&data);
    let r = shape_chars(&cmap, &liga_tables(), 10, LATN, None, &vec!['a', 'b', 'c']);
    assert_eq!(r.unwrap(), vec![9, 3]);
}

#[test]
fn shape_no_ligature_across_hole() {
    let data = latin_cmap();
    let cmap = read_cmap(&data);
    let r = shape_chars(&cmap, &liga_tables(), 10, LATN, None, &vec!['a', 'x', 'b', 'a', 'b']);
    assert_eq!(r.unwrap(), vec![1, 2, 9]);
}

#[test]
fn shape_is_repeatable() {
    let data = latin_cmap();
    let cmap = read_cmap(&data);
    let tables = liga_tables();
    let chars = vec!['a', 'b', 'x', 'c', 'd'];
    let first = shape_chars(&cmap, &tables, 10, LATN, None, &chars).unwrap();
    let second = shape_chars(&cmap, &tables, 10, LATN, None, &chars).unwrap();
    assert_eq!(first, second);
    assert_eq!(first, vec![9, 3, 4]);
}

#[test]
fn shape_fails_on_unreadable_entry() {
    let data = latin_cmap();
    let cmap = read_cmap(&data);
    let r = shape_chars(&cmap, &empty_tables(), 10, LATN, None, &vec!['a', '\u{E000}']);
    assert!(matches!(r, Err(ShapingError::Parse(_))));
}

#[test]
fn shape_fails_on_unreadable_dotted_circle() {
    let data = cmap12(&[(0x61, 0x61, 1), (0x25CC, 0x25CC, 70000)]);
    let cmap = read_cmap(&data);
    let r = shape_chars(&cmap, &empty_tables(), 10, LATN, None, &vec!['a']);
    assert!(matches!(r, Err(ShapingError::Parse(_))));
    // With no segment the placeholder is never looked up.
    let r = shape_chars(&cmap, &empty_tables(), 10, LATN, None, &vec!['q']);
    assert_eq!(r.unwrap(), Vec::<u16>::new());
}


const BENG: u32 = 0x6265_6E67;

/// KA -> 10, VIRAMA -> 11, SSA -> 12.
fn bengali_cmap() -> Vec<u8> {
    cmap12(&[(0x0995, 0x0995, 10), (0x09CD, 0x09CD, 11), (0x09B7, 0x09B7, 12)])
}

#[test]
fn shape_indic_with_holes_at_ends() {
    let data = bengali_cmap();
    let cmap = read_cmap(&data);
    let chars = vec!['x', 'ক', 'y', 'z', 'ষ', 'w'];
    let r = shape_chars(&cmap, &empty_tables(), 20, BENG, None, &chars);
    assert_eq!(r.unwrap(), vec![10, 12]);
}

#[test]
fn shape_bengali_conjunct() {
    let data = bengali_cmap();
    let cmap = read_cmap(&data);
    let tables = ligature_tables(0x626E_6732, 0x616B_686E, 10, &[11, 12], 20);
    let r = shape_chars(&cmap, &tables, 30, BENG, None, &vec!['ক', '্', 'ষ']);
    assert_eq!(r.unwrap(), vec![20]);
}

#[test]
fn shape_indic_empty_input() {
    let data = bengali_cmap();
    let cmap = read_cmap(&data);
    let r = shape_chars(&cmap, &empty_tables(), 20, BENG, None, &vec![]);
    assert_eq!(r.unwrap(), Vec::<u16>::new());
}

#[test]
fn shape_bengali_conjunct_split_by_hole() {
    let data = bengali_cmap();
    let cmap = read_cmap(&data);
    let tables = ligature_tables(0x626E_6732, 0x616B_686E, 10, &[11, 12], 20);
    let r = shape_chars(&cmap, &tables, 30, BENG, None, &vec!['ক', '্', 'x', 'ষ']);
    assert_eq!(r.unwrap(), vec![10, 11, 12]);
}
