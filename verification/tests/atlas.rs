use tetris_graphics::atlas::{
    AtlasError, FontAtlas, GlyphAttributes, RasterGlyph, DEFAULTCHARS, STARTINGSIZE,
};
use tetris_graphics::vec2::Vec2;

fn glyph(width: usize, height: usize, advance_x: u32, first: u8) -> RasterGlyph {
    let bitmap = (0..width * height).map(|i| first.wrapping_add(i as u8)).collect();
    RasterGlyph { width, height, advance_x, bitmap }
}

fn attrs(x: u16, y: u16, w: u16, h: u16, advance_x: u32) -> GlyphAttributes {
    GlyphAttributes { pos: Vec2::new(x, y), size: Vec2::new(w, h), advance_x }
}

#[test]
fn texture_atlas() {
    let mut atlas = FontAtlas::new(Vec2::new(STARTINGSIZE, STARTINGSIZE));
    assert_eq!((atlas.tex().w, atlas.tex().h), (128, 128));
    assert_eq!(atlas.tex().data, vec![0u8; 128 * 128]);
    let mut glyphs = Vec::new();
    for (i, c) in DEFAULTCHARS.chars().enumerate() {
        glyphs.push((c, glyph(8 + i % 5, 12, 9, i as u8)));
    }
    assert_eq!(glyphs.len(), 92);
    let rejected = atlas.load("mono", glyphs);
    assert_eq!(rejected, Vec::<char>::new());
    for (i, c) in DEFAULTCHARS.chars().enumerate() {
        let got = atlas.glyph("mono", c).unwrap();
        assert_eq!((got.size.x, got.size.y), (8 + (i % 5) as u16, 12));
        assert_eq!(got.advance_x, 9);
        assert!(got.pos.x + got.size.x <= 128 && got.pos.y + got.size.y <= 128);
    }
}

#[test]
fn loaded_glyph_is_found_with_its_metrics() {
    let mut atlas = FontAtlas::new(Vec2::new(128, 128));
    assert_eq!(atlas.loadchar('A', "font1", glyph(3, 2, 5, 1)), Ok(()));
    assert_eq!(atlas.glyph("font1", 'A'), Ok(attrs(0, 0, 3, 2, 5)));
}

#[test]
fn glyphs_are_placed_side_by_side_in_the_first_row() {
    let mut atlas = FontAtlas::new(Vec2::new(128, 128));
    assert_eq!(atlas.loadchar('A', "font1", glyph(3, 2, 5, 1)), Ok(()));
    assert_eq!(atlas.loadchar('B', "font1", glyph(3, 2, 6, 7)), Ok(()));
    assert_eq!(atlas.loadchar('C', "font1", glyph(4, 3, 7, 20)), Ok(()));
    assert_eq!(atlas.glyph("font1", 'A'), Ok(attrs(0, 0, 3, 2, 5)));
    assert_eq!(atlas.glyph("font1", 'B'), Ok(attrs(3, 0, 3, 2, 6)));
    // Too high for the rest of the first row: the glyph starts a new one.
    assert_eq!(atlas.glyph("font1", 'C'), Ok(attrs(0, 2, 4, 3, 7)));
}

#[test]
fn bitmap_is_copied_to_the_place_of_the_glyph() {
    let mut atlas = FontAtlas::new(Vec2::new(8, 4));
    assert_eq!(atlas.loadchar('A', "f", glyph(3, 2, 1, 1)), Ok(()));
    assert_eq!(atlas.loadchar('B', "f", glyph(2, 2, 1, 11)), Ok(()));
    // The surface is wider than high beyond the first glyph, so a column
    // was cut for it, and the second glyph goes below it.
    assert_eq!(atlas.glyph("f", 'B'), Ok(attrs(0, 2, 2, 2, 1)));
    assert_eq!(
        atlas.tex().data,
        vec![
            1, 2, 3, 0, 0, 0, 0, 0, //
            4, 5, 6, 0, 0, 0, 0, 0, //
            11, 12, 0, 0, 0, 0, 0, 0, //
            13, 14, 0, 0, 0, 0, 0, 0, //
        ]
    );
}

#[test]
fn missing_glyph_is_reported() {
    let mut atlas = FontAtlas::new(Vec2::new(128, 128));
    assert_eq!(atlas.glyph("font1", 'A'), Err(AtlasError::GlyphNotLoaded));
    assert_eq!(atlas.loadchar('A', "font1", glyph(3, 2, 5, 1)), Ok(()));
    assert_eq!(atlas.glyph("font1", 'B'), Err(AtlasError::GlyphNotLoaded));
    assert_eq!(atlas.glyph("font2", 'A'), Err(AtlasError::GlyphNotLoaded));
    assert_eq!(atlas.glyph("font", 'A'), Err(AtlasError::GlyphNotLoaded));
    assert_eq!(atlas.glyph("", 'A'), Err(AtlasError::GlyphNotLoaded));
}

#[test]
fn glyph_that_does_not_fit_is_refused_and_nothing_changes() {
    let mut atlas = FontAtlas::new(Vec2::new(16, 16));
    assert_eq!(atlas.loadchar('A', "f", glyph(10, 10, 1, 1)), Ok(()));
    let before = atlas.tex().data.clone();
    assert_eq!(atlas.loadchar('W', "f", glyph(17, 1, 1, 1)), Err(AtlasError::GlyphDoesNotFit));
    assert_eq!(atlas.loadchar('X', "f", glyph(10, 10, 1, 1)), Err(AtlasError::GlyphDoesNotFit));
    assert_eq!(atlas.glyph("f", 'W'), Err(AtlasError::GlyphNotLoaded));
    assert_eq!(atlas.glyph("f", 'X'), Err(AtlasError::GlyphNotLoaded));
    assert_eq!(atlas.tex().data, before);
    // What still fits is still taken.
    assert_eq!(atlas.loadchar('Y', "f", glyph(6, 10, 1, 1)), Ok(()));
    assert_eq!(atlas.glyph("f", 'Y'), Ok(attrs(10, 0, 6, 10, 1)));
}

#[test]
fn fonts_keep_their_glyphs_apart() {
    let mut atlas = FontAtlas::new(Vec2::new(64, 64));
    assert_eq!(atlas.loadchar('A', "serif", glyph(5, 5, 6, 1)), Ok(()));
    assert_eq!(atlas.loadchar('A', "sans", glyph(4, 5, 5, 1)), Ok(()));
    assert_eq!(atlas.loadchar('B', "serif", glyph(5, 5, 7, 1)), Ok(()));
    assert_eq!(atlas.glyph("serif", 'A'), Ok(attrs(0, 0, 5, 5, 6)));
    assert_eq!(atlas.glyph("sans", 'A'), Ok(attrs(5, 0, 4, 5, 5)));
    assert_eq!(atlas.glyph("serif", 'B'), Ok(attrs(9, 0, 5, 5, 7)));
    assert_eq!(atlas.glyph("sans", 'B'), Err(AtlasError::GlyphNotLoaded));
}

#[test]
fn loading_a_glyph_again_replaces_its_entry() {
    let mut atlas = FontAtlas::new(Vec2::new(64, 64));
    assert_eq!(atlas.loadchar('A', "f", glyph(5, 5, 6, 1)), Ok(()));
    assert_eq!(atlas.loadchar('A', "f", glyph(7, 5, 8, 1)), Ok(()));
    assert_eq!(atlas.glyph("f", 'A'), Ok(attrs(5, 0, 7, 5, 8)));
}

#[test]
fn empty_glyph_is_loaded_without_taking_room() {
    let mut atlas = FontAtlas::new(Vec2::new(8, 8));
    assert_eq!(atlas.loadchar(' ', "f", glyph(0, 0, 4, 0)), Ok(()));
    assert_eq!(atlas.glyph("f", ' '), Ok(attrs(0, 0, 0, 0, 4)));
    assert_eq!(atlas.tex().data, vec![0u8; 64]);
    assert_eq!(atlas.loadchar('#', "f", glyph(8, 8, 8, 1)), Ok(()));
    assert_eq!(atlas.glyph("f", '#'), Ok(attrs(0, 0, 8, 8, 8)));
}

#[test]
fn load_reports_the_characters_that_did_not_fit() {
    let mut atlas = FontAtlas::new(Vec2::new(10, 10));
    let rejected = atlas.load(
        "f",
        vec![
            ('a', glyph(10, 4, 1, 1)),
            ('b', glyph(11, 1, 1, 1)),
            ('c', glyph(10, 4, 1, 1)),
            ('d', glyph(10, 4, 1, 1)),
            ('e', glyph(10, 2, 1, 1)),
            ('f', glyph(1, 1, 1, 1)),
        ],
    );
    assert_eq!(rejected, vec!['b', 'd', 'f']);
    assert_eq!(atlas.glyph("f", 'a'), Ok(attrs(0, 0, 10, 4, 1)));
    assert_eq!(atlas.glyph("f", 'c'), Ok(attrs(0, 4, 10, 4, 1)));
    assert_eq!(atlas.glyph("f", 'e'), Ok(attrs(0, 8, 10, 2, 1)));
    assert_eq!(atlas.glyph("f", 'b'), Err(AtlasError::GlyphNotLoaded));
    assert_eq!(atlas.glyph("f", 'd'), Err(AtlasError::GlyphNotLoaded));
    assert_eq!(atlas.glyph("f", 'f'), Err(AtlasError::GlyphNotLoaded));
}

#[test]
fn load_of_nothing_changes_nothing() {
    let mut atlas = FontAtlas::new(Vec2::new(10, 10));
    assert_eq!(atlas.load("f", Vec::new()), Vec::<char>::new());
    assert_eq!(atlas.glyph("f", 'a'), Err(AtlasError::GlyphNotLoaded));
}

#[test]
fn glyphs_of_an_atlas_do_not_overlap() {
    let mut atlas = FontAtlas::new(Vec2::new(64, 64));
    let mut placed: Vec<GlyphAttributes> = Vec::new();
    for (i, c) in DEFAULTCHARS.chars().enumerate() {
        let g = glyph(3 + (i * 7) % 11, 4 + (i * 5) % 9, 1, i as u8);
        let bitmap = g.bitmap.clone();
        if atlas.loadchar(c, "f", g).is_ok() {
            let a = atlas.glyph("f", c).unwrap();
            for b in placed.iter() {
                let apart = a.pos.x + a.size.x <= b.pos.x
                    || b.pos.x + b.size.x <= a.pos.x
                    || a.pos.y + a.size.y <= b.pos.y
                    || b.pos.y + b.size.y <= a.pos.y;
                assert!(apart, "{:?} overlaps {:?}", a, b);
            }
            // The surface shows the bitmap at the place of the glyph.
            for row in 0..a.size.y as usize {
                for col in 0..a.size.x as usize {
                    let at = (a.pos.y as usize + row) * 64 + a.pos.x as usize + col;
                    assert_eq!(atlas.tex().data[at], bitmap[row * a.size.x as usize + col]);
                }
            }
            placed.push(a);
        }
    }
    assert!(placed.len() > 20);
}

#[test]
fn default_characters_are_the_configured_set() {
    assert_eq!(DEFAULTCHARS.chars().count(), 92);
    assert!(DEFAULTCHARS.starts_with("abcdefghijklmnopqrstuvwxyzABCDEFGHIJKLMNOPQRSTUVWXYZ1234567890"));
    assert!(DEFAULTCHARS.ends_with("&* :"));
    assert!(DEFAULTCHARS.contains('\\') && DEFAULTCHARS.contains('"') && DEFAULTCHARS.contains('\''));
    assert_eq!(STARTINGSIZE, 128);
}
