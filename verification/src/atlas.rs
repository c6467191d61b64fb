//! The glyph atlas.
//!
//! One single-channel surface holds the bitmaps of all glyphs. A packer
//! gives every bitmap a region of its own; a table keeps, for each font and
//! character, where the glyph lies and how far the pen moves after it.

use std::collections::HashMap;
use vstd::prelude::*;
use crate::packer::{
    free_after, lemma_request_keeps_regions, placement, regions_ok, Node, Rectangle,
};
use crate::tex::{blit, lemma_blit_at, Channels, Tex};
use crate::vec2::Vec2;

verus! {

/// The characters that are loaded with every font.
pub const DEFAULTCHARS: &'static str =
    "abcdefghijklmnopqrstuvwxyzABCDEFGHIJKLMNOPQRSTUVWXYZ1234567890[]{}()/\\=+\'\"<>,.-_?|!@#$%^&* :";

/// Side of the square surface that an atlas starts with by default.
pub const STARTINGSIZE: u32 = 128;

/// Where a glyph lies in the atlas, and its advance.
#[derive(Copy, Clone, Debug, PartialEq)]
pub struct GlyphAttributes {
    pub pos: Vec2<u16>,
    pub size: Vec2<u16>,
    pub advance_x: u32,
}

impl GlyphAttributes {
    /// The region of the surface that holds the glyph.
    pub open spec fn region(self) -> Rectangle {
        Rectangle {
            x: self.pos.x as u32,
            y: self.pos.y as u32,
            w: self.size.x as u32,
            h: self.size.y as u32,
        }
    }
}

/// A glyph as the rasterizer hands it over: its extent, its advance, and its
/// coverage bitmap, one byte per pixel, row by row.
#[derive(Clone, Debug)]
pub struct RasterGlyph {
    pub width: usize,
    pub height: usize,
    pub advance_x: u32,
    pub bitmap: Vec<u8>,
}

impl RasterGlyph {
    /// The bitmap has one byte for every pixel of the glyph.
    pub open spec fn wf(&self) -> bool {
        self.bitmap.len() == self.width * self.height
    }
}

/// What the atlas can fail at.
#[derive(Copy, Clone, Debug, PartialEq, Eq, Structural)]
pub enum AtlasError {
    /// No free region of the atlas can hold the glyph.
    GlyphDoesNotFit,
    /// The atlas has no glyph for the font and character.
    GlyphNotLoaded,
}

/// What an atlas holds: the surface, the packer's free and placed regions,
/// and the glyph table.
pub struct AtlasView {
    pub w: int,
    pub h: int,
    pub pixels: Seq<u8>,
    pub free: Seq<Rectangle>,
    pub placed: Set<Rectangle>,
    pub glyphs: Map<(Seq<char>, char), GlyphAttributes>,
}

impl AtlasView {
    /// The whole surface as a region.
    pub open spec fn bounds(self) -> Rectangle {
        Rectangle { x: 0, y: 0, w: self.w as u32, h: self.h as u32 }
    }

    /// The surface is small enough for glyph attributes to address it, the
    /// packer's regions lie inside it and apart, and every glyph of the
    /// table lies in a placed region that it shares with no other glyph.
    pub open spec fn wf(self) -> bool {
        &&& 0 <= self.w <= u16::MAX
        &&& 0 <= self.h <= u16::MAX
        &&& self.pixels.len() == self.h * self.w
        &&& regions_ok(self.free, self.placed, self.bounds())
        &&& forall|k: (Seq<char>, char)| #[trigger]
            self.glyphs.contains_key(k) ==> self.placed.contains(self.glyphs[k].region())
        &&& forall|k1: (Seq<char>, char), k2: (Seq<char>, char)|
            #![trigger self.glyphs.contains_key(k1), self.glyphs.contains_key(k2)]
            self.glyphs.contains_key(k1) && self.glyphs.contains_key(k2) && k1 != k2
                ==> !self.glyphs[k1].region().overlaps(self.glyphs[k2].region())
    }

    /// The atlas has a free region that can hold the glyph.
    pub open spec fn fits(self, glyph: RasterGlyph) -> bool {
        &&& glyph.width <= u32::MAX
        &&& glyph.height <= u32::MAX
        &&& placement(self.free, glyph.width as u32, glyph.height as u32) is Some
    }

    /// The region that the glyph is given.
    pub open spec fn spot(self, glyph: RasterGlyph) -> Rectangle
        recommends
            self.fits(glyph),
    {
        placement(self.free, glyph.width as u32, glyph.height as u32).unwrap()
    }

    /// The table entry of a glyph that is given the region `r`.
    pub open spec fn entry(r: Rectangle, glyph: RasterGlyph) -> GlyphAttributes {
        GlyphAttributes {
            pos: Vec2 { x: r.x as u16, y: r.y as u16 },
            size: Vec2 { x: r.w as u16, y: r.h as u16 },
            advance_x: glyph.advance_x,
        }
    }

    /// The atlas after the glyph has been loaded for the font and
    /// character: where it fits, its region is taken from the packer, its
    /// bitmap stands in the surface there, and the table has its entry;
    /// where it does not fit, nothing has changed.
    pub open spec fn with_glyph(self, font: Seq<char>, c: char, glyph: RasterGlyph) -> AtlasView {
        if self.fits(glyph) {
            let r = self.spot(glyph);
            AtlasView {
                w: self.w,
                h: self.h,
                pixels: blit(self.pixels, self.w, glyph.bitmap@, r.x as int, r.y as int, r.h as int),
                free: free_after(self.free, r.w, r.h),
                placed: self.placed.insert(r),
                glyphs: self.glyphs.insert((font, c), Self::entry(r, glyph)),
            }
        } else {
            self
        }
    }

    /// The atlas after the glyphs have been loaded for the font, one after
    /// the other.
    pub open spec fn with_glyphs(self, font: Seq<char>, glyphs: Seq<(char, RasterGlyph)>) -> AtlasView
        decreases glyphs.len(),
    {
        if glyphs.len() == 0 {
            self
        } else {
            self.with_glyphs(font, glyphs.drop_last()).with_glyph(
                font,
                glyphs.last().0,
                glyphs.last().1,
            )
        }
    }

    /// The characters among `glyphs` whose glyph did not fit when its turn
    /// came, in the order of `glyphs`.
    pub open spec fn rejected(self, font: Seq<char>, glyphs: Seq<(char, RasterGlyph)>) -> Seq<char>
        decreases glyphs.len(),
    {
        if glyphs.len() == 0 {
            Seq::empty()
        } else {
            let before = self.rejected(font, glyphs.drop_last());
            if self.with_glyphs(font, glyphs.drop_last()).fits(glyphs.last().1) {
                before
            } else {
                before.push(glyphs.last().0)
            }
        }
    }

    /// Loading a glyph keeps the atlas well formed. A glyph that fits is
    /// then in the table under its font and character, with the extent that
    /// the rasterizer gave and at a place inside the surface.
    pub proof fn lemma_with_glyph(self, font: Seq<char>, c: char, glyph: RasterGlyph)
        requires
            self.wf(),
        ensures
            self.with_glyph(font, c, glyph).wf(),
            self.fits(glyph) ==> {
                let got = self.with_glyph(font, c, glyph).glyphs[(font, c)];
                &&& self.with_glyph(font, c, glyph).glyphs.contains_key((font, c))
                &&& got.size.x == glyph.width
                &&& got.size.y == glyph.height
                &&& got.advance_x == glyph.advance_x
                &&& got.pos.x + got.size.x <= self.w
                &&& got.pos.y + got.size.y <= self.h
                &&& got.region() == self.spot(glyph)
            },
    {
        if self.fits(glyph) {
            let w = glyph.width as u32;
            let h = glyph.height as u32;
            let r = self.spot(glyph);
            let after = self.with_glyph(font, c, glyph);
            lemma_request_keeps_regions(self.free, self.placed, self.bounds(), w, h);
            assert(r.within(self.bounds()));
            assert(Self::entry(r, glyph).region() == r);
            assert forall|k: (Seq<char>, char)| #[trigger]
                after.glyphs.contains_key(k) implies after.placed.contains(
                after.glyphs[k].region(),
            ) by {
                if k != (font, c) {
                    assert(self.glyphs.contains_key(k));
                }
            }
            assert forall|k1: (Seq<char>, char), k2: (Seq<char>, char)|
                #![trigger after.glyphs.contains_key(k1), after.glyphs.contains_key(k2)]
                after.glyphs.contains_key(k1) && after.glyphs.contains_key(k2) && k1
                    != k2 implies !after.glyphs[k1].region().overlaps(after.glyphs[k2].region()) by {
                if k1 == (font, c) {
                    assert(self.glyphs.contains_key(k2));
                    assert(self.placed.contains(self.glyphs[k2].region()));
                } else if k2 == (font, c) {
                    assert(self.glyphs.contains_key(k1));
                    assert(self.placed.contains(self.glyphs[k1].region()));
                } else {
                    assert(self.glyphs.contains_key(k1));
                    assert(self.glyphs.contains_key(k2));
                }
            }
        }
    }

    /// The pixel in column `col` of row `row`.
    pub open spec fn pixel(self, row: int, col: int) -> u8 {
        self.pixels[row * self.w + col]
    }

    /// After a glyph that fits has been loaded, the surface shows its
    /// bitmap in its region, row by row, and is as before everywhere else.
    pub proof fn lemma_with_glyph_pixels(
        self,
        font: Seq<char>,
        c: char,
        glyph: RasterGlyph,
        row: int,
        col: int,
    )
        requires
            self.wf(),
            glyph.wf(),
            self.fits(glyph),
            0 <= row < self.h,
            0 <= col < self.w,
        ensures
            self.with_glyph(font, c, glyph).pixel(row, col) == if self.spot(glyph).y <= row
                < self.spot(glyph).bottom() && self.spot(glyph).x <= col < self.spot(glyph).right() {
                glyph.bitmap@[(row - self.spot(glyph).y) * glyph.width + (col - self.spot(glyph).x)]
            } else {
                self.pixel(row, col)
            },
    {
        let r = self.spot(glyph);
        if glyph.height > 0 {
            vstd::arithmetic::div_mod::lemma_div_by_multiple(glyph.width as int, glyph.height as int);
        }
        lemma_blit_at(
            self.pixels,
            self.w,
            self.h,
            glyph.bitmap@,
            r.x as int,
            r.y as int,
            r.h as int,
            row,
            col,
        );
    }

    /// Loading a glyph leaves the pixels of every glyph that the table
    /// already has as they are.
    pub proof fn lemma_with_glyph_keeps_others(
        self,
        font: Seq<char>,
        c: char,
        glyph: RasterGlyph,
        k: (Seq<char>, char),
        row: int,
        col: int,
    )
        requires
            self.wf(),
            glyph.wf(),
            self.glyphs.contains_key(k),
            self.glyphs[k].region().y <= row < self.glyphs[k].region().bottom(),
            self.glyphs[k].region().x <= col < self.glyphs[k].region().right(),
        ensures
            self.with_glyph(font, c, glyph).pixel(row, col) == self.pixel(row, col),
    {
        if self.fits(glyph) {
            let q = self.glyphs[k].region();
            assert(self.placed.contains(q));
            assert(q.within(self.bounds()));
            lemma_request_keeps_regions(
                self.free,
                self.placed,
                self.bounds(),
                glyph.width as u32,
                glyph.height as u32,
            );
            assert(!self.spot(glyph).overlaps(q));
            self.lemma_with_glyph_pixels(font, c, glyph, row, col);
        }
    }

    /// Loading glyphs, any number of them, keeps the atlas well formed.
    pub proof fn lemma_with_glyphs(self, font: Seq<char>, glyphs: Seq<(char, RasterGlyph)>)
        requires
            self.wf(),
        ensures
            self.with_glyphs(font, glyphs).wf(),
        decreases glyphs.len(),
    {
        if glyphs.len() > 0 {
            self.lemma_with_glyphs(font, glyphs.drop_last());
            self.with_glyphs(font, glyphs.drop_last()).lemma_with_glyph(
                font,
                glyphs.last().0,
                glyphs.last().1,
            );
        }
    }
}

/// The glyphs of one font, by character code.
struct FontGlyphs {
    name: String,
    glyphs: HashMap<u32, GlyphAttributes>,
}

/// No two fonts of the table have the same name.
spec fn names_distinct(fonts: Seq<FontGlyphs>) -> bool {
    forall|i: int, j: int| 0 <= i < j < fonts.len() ==> fonts[i].name@ != fonts[j].name@
}

/// A font of the table is called `name`.
spec fn has_font(fonts: Seq<FontGlyphs>, name: Seq<char>, i: int) -> bool {
    0 <= i < fonts.len() && fonts[i].name@ == name
}

/// What the table holds for a font name and a character.
spec fn lookup(fonts: Seq<FontGlyphs>, name: Seq<char>, c: char) -> Option<GlyphAttributes> {
    if exists|i: int| has_font(fonts, name, i) {
        let i = choose|i: int| has_font(fonts, name, i);
        if fonts[i].glyphs@.contains_key(c as u32) {
            Some(fonts[i].glyphs@[c as u32])
        } else {
            None
        }
    } else {
        None
    }
}

/// The table as a map from font name and character to the glyph.
spec fn glyph_map(fonts: Seq<FontGlyphs>) -> Map<(Seq<char>, char), GlyphAttributes> {
    Map::new(
        |k: (Seq<char>, char)| lookup(fonts, k.0, k.1) is Some,
        |k: (Seq<char>, char)| lookup(fonts, k.0, k.1).unwrap(),
    )
}

/// With distinct names, a lookup reads the one font that has the name.
proof fn lemma_lookup_in(fonts: Seq<FontGlyphs>, name: Seq<char>, c: char, i: int)
    requires
        names_distinct(fonts),
        has_font(fonts, name, i),
    ensures
        lookup(fonts, name, c) == if fonts[i].glyphs@.contains_key(c as u32) {
            Some(fonts[i].glyphs@[c as u32])
        } else {
            None
        },
{
    let k = choose|k: int| has_font(fonts, name, k);
    assert(has_font(fonts, name, k));
    if k < i {
        assert(fonts[k].name@ != fonts[i].name@);
    } else if i < k {
        assert(fonts[i].name@ != fonts[k].name@);
    }
}

/// Whether two texts are the same, character by character.
fn same_text(a: &str, b: &str) -> (same: bool)
    ensures
        same == (a@ == b@),
{
    broadcast use vstd::utf8::encode_utf8_decode_utf8;

    let x = a.as_bytes();
    let y = b.as_bytes();
    assert(x@ == vstd::utf8::encode_utf8(a@));
    assert(y@ == vstd::utf8::encode_utf8(b@));
    if x.len() != y.len() {
        return false;
    }
    let mut i: usize = 0;
    while i < x.len()
        invariant
            i <= x@.len(),
            x@.len() == y@.len(),
            x@ == vstd::utf8::encode_utf8(a@),
            y@ == vstd::utf8::encode_utf8(b@),
            forall|k: int| 0 <= k < i ==> x@[k] == y@[k],
        decreases x@.len() - i,
    {
        if x[i] != y[i] {
            assert(x@[i as int] != y@[i as int]);
            return false;
        }
        i += 1;
    }
    assert(x@ =~= y@);
    assert(vstd::utf8::decode_utf8(vstd::utf8::encode_utf8(a@)) == a@);
    assert(vstd::utf8::decode_utf8(vstd::utf8::encode_utf8(b@)) == b@);
    true
}

/// Position of the font called `name` in the table.
fn find_font(fonts: &Vec<FontGlyphs>, name: &str) -> (at: Option<usize>)
    ensures
        match at {
            Some(i) => i < fonts@.len() && fonts@[i as int].name@ == name@,
            None => forall|j: int| 0 <= j < fonts@.len() ==> fonts@[j].name@ != name@,
        },
{
    let mut i: usize = 0;
    while i < fonts.len()
        invariant
            i <= fonts@.len(),
            forall|j: int| 0 <= j < i ==> fonts@[j].name@ != name@,
        decreases fonts@.len() - i,
    {
        if same_text(fonts[i].name.as_str(), name) {
            return Some(i);
        }
        i += 1;
    }
    None
}

/// Enters a glyph into the table, in place of what the table had for the
/// same font and character.
fn record(fonts: &mut Vec<FontGlyphs>, name: &str, c: char, attrs: GlyphAttributes)
    requires
        names_distinct(old(fonts)@),
    ensures
        names_distinct(final(fonts)@),
        glyph_map(final(fonts)@) == glyph_map(old(fonts)@).insert((name@, c), attrs),
{
    let ghost before = fonts@;
    match find_font(fonts, name) {
        Some(i) => {
            fonts[i].glyphs.insert(c as u32, attrs);
            proof {
                let after = fonts@;
                assert(after.len() == before.len());
                assert(after[i as int].name@ == name@);
                assert(after[i as int].glyphs@ == before[i as int].glyphs@.insert(c as u32, attrs));
                assert forall|j: int| 0 <= j < before.len() && j != i implies after[j] == before[j] by {}
                assert forall|j: int| 0 <= j < before.len() implies #[trigger] after[j].name@
                    == before[j].name@ by {}
                assert forall|n: Seq<char>, ch: char| #[trigger]
                    lookup(after, n, ch) == if n == name@ && ch == c {
                        Some(attrs)
                    } else {
                        lookup(before, n, ch)
                    } by {
                    lemma_same_char(ch, c);
                    if exists|j: int| has_font(before, n, j) {
                        let j = choose|j: int| has_font(before, n, j);
                        assert(has_font(after, n, j));
                        lemma_lookup_in(after, n, ch, j);
                        lemma_lookup_in(before, n, ch, j);
                        if n == name@ {
                            if j < i {
                                assert(before[j].name@ != before[i as int].name@);
                            } else if i < j {
                                assert(before[i as int].name@ != before[j].name@);
                            }
                        }
                    } else {
                        if exists|k: int| has_font(after, n, k) {
                            let k = choose|k: int| has_font(after, n, k);
                            assert(has_font(before, n, k));
                        }
                        assert(!has_font(before, n, i as int));
                    }
                }
                assert(glyph_map(after) =~= glyph_map(before).insert((name@, c), attrs));
            }
        },
        None => {
            let mut glyphs: HashMap<u32, GlyphAttributes> = HashMap::new();
            glyphs.insert(c as u32, attrs);
            fonts.push(FontGlyphs { name: name.to_owned(), glyphs });
            proof {
                let after = fonts@;
                let last = before.len() as int;
                assert(after[last].name@ == name@);
                assert(after[last].glyphs@ == Map::<u32, GlyphAttributes>::empty().insert(
                    c as u32,
                    attrs,
                ));
                assert forall|n: Seq<char>, ch: char| #[trigger]
                    lookup(after, n, ch) == if n == name@ && ch == c {
                        Some(attrs)
                    } else {
                        lookup(before, n, ch)
                    } by {
                    lemma_same_char(ch, c);
                    if n == name@ {
                        assert(has_font(after, n, last));
                        lemma_lookup_in(after, n, ch, last);
                        assert(!exists|k: int| has_font(before, n, k));
                    } else if exists|j: int| has_font(before, n, j) {
                        let j = choose|j: int| has_font(before, n, j);
                        assert(has_font(after, n, j));
                        lemma_lookup_in(after, n, ch, j);
                        lemma_lookup_in(before, n, ch, j);
                    } else {
                        if exists|k: int| has_font(after, n, k) {
                            let k = choose|k: int| has_font(after, n, k);
                            assert(has_font(before, n, k));
                        }
                    }
                }
                assert(glyph_map(after) =~= glyph_map(before).insert((name@, c), attrs));
            }
        },
    }
}

/// Characters with the same code are the same character.
proof fn lemma_same_char(a: char, b: char)
    ensures
        a as u32 == b as u32 <==> a == b,
{
    vstd::utf8::char_u32_cast(a, a as u32);
    vstd::utf8::char_u32_cast(b, b as u32);
}

/// The glyph atlas.
pub struct FontAtlas {
    tex: Tex,
    fonts: Vec<FontGlyphs>,
    places: Node,
}

impl View for FontAtlas {
    type V = AtlasView;

    closed spec fn view(&self) -> AtlasView {
        AtlasView {
            w: self.tex.w as int,
            h: self.tex.h as int,
            pixels: self.tex.data@,
            free: self.places.free(),
            placed: self.places.placed(),
            glyphs: glyph_map(self.fonts@),
        }
    }
}

impl FontAtlas {
    /// The parts of the atlas agree with each other: the surface has one
    /// channel, the packer covers exactly the surface, no font is in the
    /// table twice, and the atlas as a whole is well formed.
    pub closed spec fn wf(&self) -> bool {
        &&& self.tex.wf()
        &&& self.tex.channels == Channels::GRAYSCALE
        &&& self.places.wf()
        &&& self.places.region() == self@.bounds()
        &&& names_distinct(self.fonts@)
        &&& self@.wf()
    }

    /// A well-formed atlas has a well-formed view.
    pub proof fn lemma_wf_view(&self)
        requires
            self.wf(),
        ensures
            self@.wf(),
    {
    }

    /// An atlas without glyphs over a surface of `size`, every pixel zero.
    pub fn new(size: Vec2<u32>) -> (atlas: FontAtlas)
        requires
            size.x <= u16::MAX,
            size.y <= u16::MAX,
        ensures
            atlas.wf(),
            atlas@.w == size.x,
            atlas@.h == size.y,
            atlas@.pixels == Seq::new((size.x * size.y) as nat, |j: int| 0u8),
            atlas@.free == seq![atlas@.bounds()],
            atlas@.placed == Set::<Rectangle>::empty(),
            atlas@.glyphs == Map::<(Seq<char>, char), GlyphAttributes>::empty(),
    {
        assert(size.x * size.y <= 0xffff * 0xffff) by (nonlinear_arith)
            requires
                size.x <= 0xffff,
                size.y <= 0xffff,
        ;
        assert(size.x * size.y * 1 == size.y * size.x) by (nonlinear_arith);
        let tex = Tex::new(size.x as usize, size.y as usize, Channels::GRAYSCALE);
        let places = Node::new(Vec2::new(0, 0), size);
        let atlas = FontAtlas { tex, fonts: Vec::new(), places };
        proof {
            atlas.places.lemma_regions_ok();
            assert(atlas@.pixels =~= Seq::new((size.x * size.y) as nat, |j: int| 0u8));
            assert(atlas@.glyphs =~= Map::<(Seq<char>, char), GlyphAttributes>::empty());
        }
        atlas
    }

    /// The surface that holds the glyphs.
    pub fn tex(&self) -> (tex: &Tex)
        ensures
            tex.w == self@.w,
            tex.h == self@.h,
            tex.data@ == self@.pixels,
            self.wf() ==> tex.wf() && tex.channels == Channels::GRAYSCALE,
    {
        &self.tex
    }

    /// Loads one glyph for a font and character: gives it a region,
    /// copies its bitmap there and enters it into the table, in place of
    /// what the table had for the font and character. A glyph that no free
    /// region can hold is refused, and nothing changes.
    pub fn loadchar(&mut self, character: char, font: &str, glyph: RasterGlyph) -> (res: Result<
        (),
        AtlasError,
    >)
        requires
            old(self).wf(),
            glyph.wf(),
        ensures
            final(self).wf(),
            final(self)@ == old(self)@.with_glyph(font@, character, glyph),
            res is Ok <==> old(self)@.fits(glyph),
            res matches Err(e) ==> e == AtlasError::GlyphDoesNotFit,
    {
        let ghost before = self@;
        proof {
            before.lemma_with_glyph(font@, character, glyph);
        }
        if glyph.width > u32::MAX as usize || glyph.height > u32::MAX as usize {
            return Err(AtlasError::GlyphDoesNotFit);
        }
        let size = Vec2::new(glyph.width as u32, glyph.height as u32);
        match self.places.pack(&size) {
            None => Err(AtlasError::GlyphDoesNotFit),
            Some(r) => {
                proof {
                    if glyph.height > 0 {
                        vstd::arithmetic::div_mod::lemma_div_by_multiple(
                            glyph.width as int,
                            glyph.height as int,
                        );
                    }
                    assert(self.tex.channels.count() == 1);
                    assert(self.tex.stride() == self.tex.w);
                    assert(r.within(before.bounds()));
                }
                self.tex.draw(
                    glyph.bitmap,
                    Vec2::new(r.x as usize, r.y as usize),
                    r.h as usize,
                );
                assert(self.tex.data@ == blit(
                    before.pixels,
                    before.w,
                    glyph.bitmap@,
                    r.x as int,
                    r.y as int,
                    r.h as int,
                ));
                record(
                    &mut self.fonts,
                    font,
                    character,
                    GlyphAttributes {
                        size: Vec2::new(r.w as u16, r.h as u16),
                        pos: Vec2::new(r.x as u16, r.y as u16),
                        advance_x: glyph.advance_x,
                    },
                );
                Ok(())
            },
        }
    }

    /// Loads the glyphs of a font, one after the other, and returns the
    /// characters whose glyph did not fit when its turn came. The glyphs
    /// that fit are loaded whatever became of the others.
    pub fn load(&mut self, name: &str, glyphs: Vec<(char, RasterGlyph)>) -> (rejected: Vec<char>)
        requires
            old(self).wf(),
            forall|i: int| 0 <= i < glyphs@.len() ==> (#[trigger] glyphs@[i]).1.wf(),
        ensures
            final(self).wf(),
            final(self)@ == old(self)@.with_glyphs(name@, glyphs@),
            rejected@ == old(self)@.rejected(name@, glyphs@),
    {
        let ghost before = self@;
        let ghost all = glyphs@;
        let mut rejected: Vec<char> = Vec::new();
        for item in it: glyphs
            invariant
                it.seq() == all,
                forall|i: int| 0 <= i < all.len() ==> (#[trigger] all[i]).1.wf(),
                self.wf(),
                self@ == before.with_glyphs(name@, all.take(it.index())),
                rejected@ == before.rejected(name@, all.take(it.index())),
        {
            let ghost done = all.take(it.index());
            let ghost next = all.take(it.index() + 1);
            proof {
                assert(next.drop_last() =~= done);
                assert(next.last() == item);
                assert(all[it.index()].1.wf());
            }
            let (character, glyph) = item;
            if self.loadchar(character, name, glyph).is_err() {
                rejected.push(character);
            }
        }
        assert(all.take(all.len() as int) =~= all);
        rejected
    }

    /// Looks up the glyph of a font and character.
    pub fn glyph(&self, font: &str, character: char) -> (res: Result<GlyphAttributes, AtlasError>)
        requires
            self.wf(),
        ensures
            match res {
                Ok(attrs) => self@.glyphs.contains_key((font@, character)) && attrs
                    == self@.glyphs[(font@, character)],
                Err(e) => e == AtlasError::GlyphNotLoaded && !self@.glyphs.contains_key(
                    (font@, character),
                ),
            },
    {
        match find_font(&self.fonts, font) {
            None => {
                assert(!exists|k: int| has_font(self.fonts@, font@, k));
                Err(AtlasError::GlyphNotLoaded)
            },
            Some(i) => {
                proof {
                    lemma_lookup_in(self.fonts@, font@, character, i as int);
                }
                let code = character as u32;
                match self.fonts[i].glyphs.get(&code) {
                    Some(attrs) => Ok(*attrs),
                    None => Err(AtlasError::GlyphNotLoaded),
                }
            },
        }
    }
}

} // verus!
