use vstd::prelude::*;
use std::collections::HashMap;
use crate::cmap::{cmap_mappings, get_maps, lemma_cmap_errors, lemma_sentinel_last};
use crate::error::FontError;
use crate::glyph::{
    glyph_list, glyph_views, lemma_glyph_list, lemma_glyph_list_errors, lemma_outline_index,
    read_glyphs, GlyphData, GlyphView,
};
use crate::loca::{get_glyph_locations, glyph_locatable, glyph_location};
use crate::metrics::{
    advance_width_at, head_long_offsets, head_readable, head_units_per_em,
    hhea_long_metric_count, left_side_bearing_at, maxp_glyph_count, metric_count,
    metrics_readable, read_glyph_count, read_head, read_long_metric_count, read_metrics,
    HorizontalMetric,
};
use crate::reader::{readable, Reader};
use crate::tables::{
    directory, directory_readable, read_table_locations, required_table_offsets,
    required_tables, TableOffsets,
};

verus! {

broadcast use vstd::std_specs::hash::group_hash_axioms;

/// A parsed font: the glyph of every mapped code point, the glyph that is
/// shown for all others, and the scale of the coordinates.
pub struct Font {
    glyphs: HashMap<u32, GlyphData>,
    missing_glyph: GlyphData,
    units_per_em: u32,
}

/// What a `Font` holds, as plain mathematical values.
pub struct FontView {
    /// Code point to glyph.
    pub glyphs: Map<u32, GlyphView>,
    /// The glyph with index 0, shown for a code point that is not mapped.
    pub missing_glyph: GlyphView,
    /// The number of design units per em.
    pub units_per_em: u32,
}

impl FontView {
    /// The glyph that the font shows for `code`: the one it maps `code` to,
    /// or the missing glyph.
    pub open spec fn lookup(self, code: u32) -> GlyphView {
        if self.glyphs.contains_key(code) {
            self.glyphs[code]
        } else {
            self.missing_glyph
        }
    }
}

/// `g` with the metrics `m`.
pub open spec fn with_metrics(g: GlyphView, m: HorizontalMetric) -> GlyphView {
    GlyphView {
        advance_width: m.advance_width as i32,
        left_side_bearing: m.left_side_bearing as i32,
        ..g
    }
}

/// Whether `metrics` has an entry for the index of every glyph.
pub open spec fn metrics_cover(glyphs: Seq<GlyphView>, metrics: Seq<HorizontalMetric>) -> bool {
    forall|i: int| 0 <= i < glyphs.len() ==> (#[trigger] glyphs[i]).index < metrics.len()
}

/// Every glyph with the metrics that `metrics` holds under its index.
pub open spec fn merged(glyphs: Seq<GlyphView>, metrics: Seq<HorizontalMetric>) -> Seq<GlyphView> {
    Seq::new(glyphs.len(), |i: int| with_metrics(glyphs[i], metrics[glyphs[i].index as int]))
}

/// Code point to glyph: where several glyphs have one code point, the last
/// of them stays.
pub open spec fn glyph_map(glyphs: Seq<GlyphView>) -> Map<u32, GlyphView>
    decreases glyphs.len(),
{
    if glyphs.len() == 0 {
        Map::empty()
    } else {
        glyph_map(glyphs.drop_last()).insert(glyphs.last().unicode, glyphs.last())
    }
}

/// The last glyph with index 0, if there is one.
pub open spec fn last_notdef(glyphs: Seq<GlyphView>) -> Option<GlyphView>
    decreases glyphs.len(),
{
    if glyphs.len() == 0 {
        None
    } else if glyphs.last().index == 0 {
        Some(glyphs.last())
    } else {
        last_notdef(glyphs.drop_last())
    }
}

/// The font made of `glyphs`, once each has its metrics. `OutOfBounds` where
/// a glyph has no metrics, `MissingNotdefGlyph` where none has index 0.
pub open spec fn assembled(
    glyphs: Seq<GlyphView>,
    metrics: Seq<HorizontalMetric>,
    units_per_em: u32,
) -> Result<FontView, FontError> {
    if !metrics_cover(glyphs, metrics) {
        Err(FontError::OutOfBounds)
    } else {
        match last_notdef(merged(glyphs, metrics)) {
            None => Err(FontError::MissingNotdefGlyph),
            Some(missing_glyph) => Ok(
                FontView { glyphs: glyph_map(merged(glyphs, metrics)), missing_glyph, units_per_em },
            ),
        }
    }
}

/// The missing glyph of an assembled font has index 0, and so has every
/// glyph that the font shows for a code point that it does not map; a glyph
/// that it shows for a code point that it maps stands under that code point.
pub proof fn lemma_missing_glyph(
    glyphs: Seq<GlyphView>,
    metrics: Seq<HorizontalMetric>,
    units_per_em: u32,
    code: u32,
)
    requires
        assembled(glyphs, metrics, units_per_em) is Ok,
    ensures
        assembled(glyphs, metrics, units_per_em).unwrap().missing_glyph.index == 0,
        !assembled(glyphs, metrics, units_per_em).unwrap().glyphs.contains_key(code) ==> assembled(
            glyphs,
            metrics,
            units_per_em,
        ).unwrap().lookup(code).index == 0,
        assembled(glyphs, metrics, units_per_em).unwrap().glyphs.contains_key(code) ==> assembled(
            glyphs,
            metrics,
            units_per_em,
        ).unwrap().lookup(code).unicode == code,
{
    lemma_last_notdef(merged(glyphs, metrics));
    if glyph_map(merged(glyphs, metrics)).contains_key(code) {
        lemma_glyph_map_keys(merged(glyphs, metrics), code);
    }
}

/// The last glyph with index 0 has index 0.
pub proof fn lemma_last_notdef(glyphs: Seq<GlyphView>)
    ensures
        last_notdef(glyphs) matches Some(g) ==> g.index == 0,
    decreases glyphs.len(),
{
    if glyphs.len() > 0 {
        lemma_last_notdef(glyphs.drop_last());
    }
}

/// Where each of the first `count` glyphs starts.
pub open spec fn glyph_locations(b: Seq<u8>, t: TableOffsets, count: int, long_offsets: bool) -> Seq<
    u32,
> {
    Seq::new(
        count as nat,
        |g: int| glyph_location(b, t.loca as int, t.glyf as int, long_offsets, g) as u32,
    )
}

/// Whether each of the first `count` glyphs can be located.
pub open spec fn glyphs_locatable(b: Seq<u8>, t: TableOffsets, count: int, long_offsets: bool) -> bool {
    forall|g: int|
        0 <= g < count ==> #[trigger] glyph_locatable(
            b,
            t.loca as int,
            t.glyf as int,
            long_offsets,
            g,
        )
}

/// The horizontal metrics of every glyph index, as `hmtx` gives them.
pub open spec fn horizontal_metrics(b: Seq<u8>, hmtx: int, long_count: int, glyph_count: int) -> Seq<
    HorizontalMetric,
> {
    Seq::new(
        metric_count(long_count, glyph_count) as nat,
        |g: int|
            HorizontalMetric {
                advance_width: advance_width_at(b, hmtx, long_count, g) as u16,
                left_side_bearing: left_side_bearing_at(b, hmtx, long_count, g) as i16,
            },
    )
}

/// The glyphs of the font whose tables stand at `t`, one for each entry of
/// its character map, before they have their metrics. Header, glyph
/// locations, character map and outlines are read in this order, and the
/// first that fails gives the error.
#[verifier::opaque]
pub open spec fn parsed_glyphs(b: Seq<u8>, t: TableOffsets) -> Result<Seq<GlyphView>, FontError> {
    if !head_readable(b, t.head as int) || !readable(b, t.maxp + 4, 2) || !glyphs_locatable(
        b,
        t,
        maxp_glyph_count(b, t.maxp as int),
        head_long_offsets(b, t.head as int),
    ) {
        Err(FontError::OutOfBounds)
    } else {
        match cmap_mappings(b, t.cmap as int) {
            Err(e) => Err(e),
            Ok(maps) => glyph_list(
                b,
                glyph_locations(
                    b,
                    t,
                    maxp_glyph_count(b, t.maxp as int),
                    head_long_offsets(b, t.head as int),
                ),
                maps,
            ),
        }
    }
}

/// The font whose tables stand at `t`: its glyphs, then their metrics, then
/// the assembly.
#[verifier::opaque]
pub open spec fn parsed_tables(b: Seq<u8>, t: TableOffsets) -> Result<FontView, FontError> {
    match parsed_glyphs(b, t) {
        Err(e) => Err(e),
        Ok(glyphs) => if !readable(b, t.hhea + 34, 2) || !metrics_readable(
            b,
            t.hmtx as int,
            hhea_long_metric_count(b, t.hhea as int),
            maxp_glyph_count(b, t.maxp as int),
        ) {
            Err(FontError::OutOfBounds)
        } else {
            assembled(
                glyphs,
                horizontal_metrics(
                    b,
                    t.hmtx as int,
                    hhea_long_metric_count(b, t.hhea as int),
                    maxp_glyph_count(b, t.maxp as int),
                ),
                head_units_per_em(b, t.head as int) as u32,
            )
        },
    }
}

/// The font that the bytes `b` of a font file hold. The table directory is
/// read first, then the seven required tables are looked up, then the
/// tables are parsed.
#[verifier::opaque]
pub open spec fn parsed_font(b: Seq<u8>) -> Result<FontView, FontError> {
    if !directory_readable(b, 0) {
        Err(FontError::OutOfBounds)
    } else {
        match required_tables(directory(b, 0)) {
            Err(e) => Err(e),
            Ok(t) => parsed_tables(b, t),
        }
    }
}

/// Whether glyph `i` of `glyphs` stands under the code point `code`.
pub open spec fn has_code(glyphs: Seq<GlyphView>, i: int, code: u32) -> bool {
    0 <= i < glyphs.len() && glyphs[i].unicode == code
}

/// A code point is mapped exactly when some glyph has it.
pub proof fn lemma_glyph_map_domain(glyphs: Seq<GlyphView>, code: u32)
    ensures
        glyph_map(glyphs).contains_key(code) <==> exists|i: int| has_code(glyphs, i, code),
    decreases glyphs.len(),
{
    if glyphs.len() > 0 {
        let front = glyphs.drop_last();
        lemma_glyph_map_domain(front, code);
        if glyphs.last().unicode == code {
            assert(has_code(glyphs, glyphs.len() - 1, code));
        } else {
            if glyph_map(front).contains_key(code) {
                let i = choose|i: int| has_code(front, i, code);
                assert(has_code(glyphs, i, code));
            }
            if exists|i: int| has_code(glyphs, i, code) {
                let i = choose|i: int| has_code(glyphs, i, code);
                assert(has_code(front, i, code));
            }
        }
    }
}

/// A code point is mapped to the last glyph that has it.
pub proof fn lemma_glyph_map_value(glyphs: Seq<GlyphView>, code: u32, i: int)
    requires
        has_code(glyphs, i, code),
        forall|j: int| i < j ==> !has_code(glyphs, j, code),
    ensures
        glyph_map(glyphs).contains_key(code),
        glyph_map(glyphs)[code] == glyphs[i],
    decreases glyphs.len(),
{
    if i < glyphs.len() - 1 {
        let front = glyphs.drop_last();
        assert(!has_code(glyphs, glyphs.len() - 1, code));
        assert(has_code(front, i, code));
        assert forall|j: int| i < j implies !has_code(front, j, code) by {
            if j < front.len() {
                assert(!has_code(glyphs, j, code));
            }
        }
        lemma_glyph_map_value(front, code, i);
    }
}

/// Parsing never fails for want of a file: that is left to whoever reads
/// the file.
pub proof fn lemma_parse_errors(b: Seq<u8>)
    ensures
        parsed_font(b) matches Err(e) ==> !(e is Io),
{
    reveal(parsed_font);
    reveal(parsed_tables);
    reveal(parsed_glyphs);
    if directory_readable(b, 0) {
        if let Ok(t) = required_tables(directory(b, 0)) {
            let count = maxp_glyph_count(b, t.maxp as int);
            let locations = glyph_locations(b, t, count, head_long_offsets(b, t.head as int));
            lemma_cmap_errors(b, t.cmap as int);
            if let Ok(maps) = cmap_mappings(b, t.cmap as int) {
                lemma_glyph_list_errors(b, locations, maps);
            }
        }
    }
}

/// Every glyph of the map stands under its own code point.
pub proof fn lemma_glyph_map_keys(glyphs: Seq<GlyphView>, code: u32)
    requires
        glyph_map(glyphs).contains_key(code),
    ensures
        glyph_map(glyphs)[code].unicode == code,
    decreases glyphs.len(),
{
    if glyphs.len() > 0 && glyphs.last().unicode != code {
        lemma_glyph_map_keys(glyphs.drop_last(), code);
    }
}

/// In a font that was parsed, the missing glyph has index 0, and the font
/// shows a glyph with index 0 for the code point 0xFFFF and for every code
/// point that it does not map.
pub proof fn lemma_unmapped_shows_notdef(b: Seq<u8>, code: u32)
    requires
        parsed_font(b) is Ok,
    ensures
        parsed_font(b).unwrap().missing_glyph.index == 0,
        parsed_font(b).unwrap().lookup(0xFFFF).index == 0,
        !parsed_font(b).unwrap().glyphs.contains_key(code) ==> parsed_font(b).unwrap().lookup(
            code,
        ).index == 0,
        parsed_font(b).unwrap().glyphs.contains_key(code) ==> parsed_font(b).unwrap().lookup(
            code,
        ).unicode == code,
{
    reveal(parsed_font);
    reveal(parsed_tables);
    reveal(parsed_glyphs);
    let t = required_tables(directory(b, 0)).unwrap();
    let count = maxp_glyph_count(b, t.maxp as int);
    let locations = glyph_locations(b, t, count, head_long_offsets(b, t.head as int));
    let maps = cmap_mappings(b, t.cmap as int).unwrap();
    let glyphs = parsed_glyphs(b, t).unwrap();
    let metrics = horizontal_metrics(
        b,
        t.hmtx as int,
        hhea_long_metric_count(b, t.hhea as int),
        count,
    );
    let units = head_units_per_em(b, t.head as int) as u32;
    lemma_missing_glyph(glyphs, metrics, units, code);
    if glyph_map(merged(glyphs, metrics)).contains_key(code) {
        lemma_glyph_map_keys(merged(glyphs, metrics), code);
    }
    lemma_sentinel_last(b, t.cmap as int);
    lemma_glyph_list(b, locations, maps);
    let last = maps.len() - 1;
    lemma_outline_index(b, locations, maps[last].index);
    assert(glyphs[last].index == 0);
    assert(glyphs[last].unicode == 0xFFFF);
    let all = merged(glyphs, metrics);
    assert(all.last() == all[last]);
    assert(all.last().unicode == 0xFFFF && all.last().index == 0);
}

impl View for Font {
    type V = FontView;

    closed spec fn view(&self) -> FontView {
        FontView {
            glyphs: self.glyphs@.map_values(|g: GlyphData| g@),
            missing_glyph: self.missing_glyph@,
            units_per_em: self.units_per_em,
        }
    }
}

impl Clone for Font {
    fn clone(&self) -> (r: Self)
        ensures
            r@ == self@,
    {
        proof {
            use_type_invariant(self);
        }
        Font {
            glyphs: self.glyphs.clone(),
            missing_glyph: self.missing_glyph.clone(),
            units_per_em: self.units_per_em,
        }
    }
}

impl Font {
    /// The missing glyph is a glyph with index 0, and every glyph stands
    /// under its own code point.
    #[verifier::type_invariant]
    spec fn well_formed(self) -> bool {
        &&& self.missing_glyph.index == 0
        &&& forall|code: u32| #[trigger]
            self.glyphs@.contains_key(code) ==> self.glyphs@[code].unicode == code
    }

    /// The glyph of the code point `c`, or the missing glyph where the font
    /// maps `c` to none.
    pub fn get_glyph(&self, c: char) -> (r: &GlyphData)
        ensures
            r@ == self@.lookup(c as u32),
            self@.glyphs.contains_key(c as u32) ==> r.unicode == c as u32,
            !self@.glyphs.contains_key(c as u32) ==> r.index == 0,
    {
        proof {
            use_type_invariant(self);
        }
        let code: u32 = c as u32;
        match self.glyphs.get(&code) {
            Some(glyph) => glyph,
            None => &self.missing_glyph,
        }
    }

    /// The number of design units per em: what a consumer divides
    /// coordinates by to scale them.
    pub fn units_per_em(&self) -> (r: u32)
        ensures
            r == self@.units_per_em,
    {
        self.units_per_em
    }

    /// Parses the bytes of a font file. The table directory is read first,
    /// then the header, the glyph count and the glyph locations, then the
    /// character map and the outline of every glyph that it names, then the
    /// metrics; the first step that fails gives the error. The font maps the
    /// code point 0xFFFF to a glyph with index 0, whatever the file says of
    /// it.
    pub fn load(bytes: Vec<u8>) -> (r: Result<Font, FontError>)
        ensures
            match r {
                Ok(font) => {
                    &&& parsed_font(bytes@) == Ok::<FontView, FontError>(font@)
                    &&& font@.missing_glyph.index == 0
                    &&& font@.lookup(0xFFFF).index == 0
                },
                Err(e) => parsed_font(bytes@) == Err::<FontView, FontError>(e) && !(e is Io),
            },
    {
        proof {
            lemma_parse_errors(bytes@);
            if parsed_font(bytes@) is Ok {
                lemma_unmapped_shows_notdef(bytes@, 0);
            }
        }
        reveal(parsed_font);
        reveal(parsed_tables);
        reveal(parsed_glyphs);
        let ghost b = bytes@;
        let mut reader = Reader::new(bytes);
        let locations = match read_table_locations(&mut reader) {
            Ok(v) => v,
            Err(e) => return Err(e),
        };
        let tables = match required_table_offsets(&locations) {
            Ok(v) => v,
            Err(e) => return Err(e),
        };
        let head = match read_head(&mut reader, tables.head) {
            Ok(v) => v,
            Err(e) => return Err(e),
        };
        let glyphs_num = match read_glyph_count(&mut reader, tables.maxp) {
            Ok(v) => v,
            Err(e) => return Err(e),
        };
        let glyph_locs = match get_glyph_locations(
            &mut reader,
            glyphs_num,
            head.long_offsets,
            tables.loca,
            tables.glyf,
        ) {
            Ok(v) => v,
            Err(e) => return Err(e),
        };
        assert(glyph_locs@ =~= glyph_locations(b, tables, glyphs_num as int, head.long_offsets));
        let maps = match get_maps(&mut reader, tables.cmap) {
            Ok(v) => v,
            Err(e) => return Err(e),
        };
        let glyphs = match read_glyphs(&mut reader, glyph_locs.as_slice(), maps.as_slice()) {
            Ok(v) => v,
            Err(e) => return Err(e),
        };
        let advance_metrics_num = match read_long_metric_count(&mut reader, tables.hhea) {
            Ok(v) => v,
            Err(e) => return Err(e),
        };
        let metrics = match read_metrics(&mut reader, tables.hmtx, advance_metrics_num, glyphs_num) {
            Ok(v) => v,
            Err(e) => return Err(e),
        };
        assert(metrics@ =~= horizontal_metrics(
            b,
            tables.hmtx as int,
            advance_metrics_num as int,
            glyphs_num as int,
        ));
        Font::assemble(&glyphs, &metrics, head.units_per_em as u32)
    }

    /// Makes a font of `glyphs`: gives each glyph the metrics that `metrics`
    /// holds under its index, maps each glyph's code point to it, and keeps
    /// the last glyph with index 0 as the missing glyph.
    pub fn assemble(glyphs: &Vec<GlyphData>, metrics: &Vec<HorizontalMetric>, units_per_em: u32) -> (r:
        Result<Font, FontError>)
        ensures
            match r {
                Ok(font) => assembled(glyph_views(glyphs@), metrics@, units_per_em)
                    == Ok::<FontView, FontError>(font@),
                Err(e) => assembled(glyph_views(glyphs@), metrics@, units_per_em)
                    == Err::<FontView, FontError>(e),
            },
    {
        let ghost views = glyph_views(glyphs@);
        let mut map: HashMap<u32, GlyphData> = HashMap::new();
        let mut missing_glyph: Option<GlyphData> = None;
        let mut i: usize = 0;
        while i < glyphs.len()
            invariant
                0 <= i <= glyphs.len(),
                views == glyph_views(glyphs@),
                forall|k: int| 0 <= k < i ==> (#[trigger] views[k]).index < metrics.len(),
                map@.map_values(|g: GlyphData| g@) == glyph_map(
                    merged(views, metrics@).take(i as int),
                ),
                forall|code: u32| #[trigger] map@.contains_key(code) ==> map@[code].unicode == code,
                match missing_glyph {
                    Some(g) => last_notdef(merged(views, metrics@).take(i as int)) == Some(g@),
                    None => last_notdef(merged(views, metrics@).take(i as int)) is None,
                },
            decreases glyphs.len() - i,
        {
            let mut glyph = glyphs[i].clone();
            assert(glyph@ == views[i as int]);
            if glyph.index as usize >= metrics.len() {
                return Err(FontError::OutOfBounds);
            }
            let metric = metrics[glyph.index as usize];
            glyph.advance_width = metric.advance_width as i32;
            glyph.left_side_bearing = metric.left_side_bearing as i32;
            proof {
                let all = merged(views, metrics@);
                assert(all.take(i + 1).drop_last() =~= all.take(i as int));
            }
            if glyph.index == 0 {
                missing_glyph = Some(glyph.clone());
            }
            map.insert(glyph.unicode, glyph);
            i = i + 1;
        }
        assert(merged(views, metrics@).take(i as int) =~= merged(views, metrics@));
        match missing_glyph {
            Some(missing_glyph) => {
                proof {
                    lemma_last_notdef(merged(views, metrics@));
                }
                Ok(Font { glyphs: map, missing_glyph, units_per_em })
            },
            None => Err(FontError::MissingNotdefGlyph),
        }
    }
}

} // verus!
