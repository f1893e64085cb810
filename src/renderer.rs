use vstd::prelude::*;
use crate::bitmap::{Dimensions, LmPage, PixelFormat};
use crate::color::{BlendMode, Rgba8};
use crate::composite::{composite, composited, CompositeError, Scale};
use crate::raster::{
    create_uniform_data, rasterize, raster, vert_ok, RandomsScene, RenderError, Vec3, Vert,
    MAX_SPAWNS,
};

verus! {

/// Renders the randoms overlay of lightmap pages and lays it over them, with
/// one scene and one blend mode for the whole run.
pub struct LmRenderer {
    pub scene: RandomsScene,
    pub blend_mode: BlendMode,
}

#[derive(Clone, Copy, PartialEq, Eq, Structural, Debug)]
pub enum RandomsError {
    Render(RenderError),
    Composite(CompositeError),
}

impl LmRenderer {
    /// A renderer for these spawn points; fails when there are more than the
    /// scene holds.
    pub fn init(
        spawns: &Vec<Vec3>,
        randoms_color: Rgba8,
        blend_mode: BlendMode,
        walkable_only: bool,
        radius: u32,
        max_slope: u16,
    ) -> (r: Result<LmRenderer, RenderError>)
        ensures
            r is Err <==> spawns@.len() > MAX_SPAWNS,
            r is Err ==> r == Err::<LmRenderer, RenderError>(RenderError::TooManySpawns),
            r matches Ok(lr) ==> {
                &&& lr.scene.spawns@ == spawns@
                &&& lr.scene.color == randoms_color
                &&& lr.scene.walkable_only == walkable_only
                &&& lr.scene.radius == radius
                &&& lr.scene.max_slope == max_slope
                &&& lr.blend_mode == blend_mode
            },
    {
        match create_uniform_data(spawns, randoms_color, walkable_only, radius, max_slope) {
            Ok(scene) => Ok(LmRenderer { scene, blend_mode }),
            Err(e) => Err(e),
        }
    }

    /// Draws the overlay of one page at `scale` times the baked page's
    /// resolution and composites it onto the baked page. A baked page in a
    /// format other than 5-6-5 is refused before anything is drawn.
    pub fn render_randoms(
        &self,
        lm_verts: &Vec<Vert>,
        lm_indices: &Vec<u16>,
        scale: Scale,
        original_lm_page: &LmPage,
    ) -> (r: Result<LmPage, RandomsError>)
        ensures
            original_lm_page.data_format != PixelFormat::R5G6B5 ==> r == Err::<
                LmPage,
                RandomsError,
            >(RandomsError::Composite(CompositeError::UnsupportedFormat)),
            original_lm_page.data_format == PixelFormat::R5G6B5 && self.scene.spawns@.len()
                <= MAX_SPAWNS && (lm_indices@.len() % 3 != 0 || exists|i: int|
                0 <= i < lm_indices@.len() && #[trigger] lm_indices@[i] >= lm_verts@.len()) ==> r
                == Err::<LmPage, RandomsError>(RandomsError::Render(RenderError::BadIndex)),
            r is Ok <==> {
                &&& self.scene.spawns@.len() <= MAX_SPAWNS
                &&& lm_indices@.len() % 3 == 0
                &&& forall|i: int|
                    0 <= i < lm_indices@.len() ==> #[trigger] lm_indices@[i] < lm_verts@.len()
                &&& forall|i: int| 0 <= i < lm_verts@.len() ==> vert_ok(#[trigger] lm_verts@[i])
                &&& original_lm_page.data_format == PixelFormat::R5G6B5
                &&& original_lm_page.well_formed()
                &&& original_lm_page.dimensions.w * scale.spec_factor() <= u16::MAX
                &&& original_lm_page.dimensions.h * scale.spec_factor() <= u16::MAX
            },
            r matches Ok(page) ==> {
                let d = original_lm_page.dimensions;
                let out = Dimensions {
                    w: (d.w * scale.spec_factor()) as u16,
                    h: (d.h * scale.spec_factor()) as u16,
                };
                &&& page.dimensions == out
                &&& page.data_format == PixelFormat::R5G6B5
                &&& page.data@ == composited(
                    raster(
                        lm_verts@,
                        lm_indices@,
                        out,
                        self.scene,
                        (lm_indices@.len() / 3) as int,
                    ),
                    original_lm_page.data@,
                    d,
                    scale.spec_factor(),
                    self.blend_mode,
                )
            },
    {
        if original_lm_page.data_format != PixelFormat::R5G6B5 {
            return Err(RandomsError::Composite(CompositeError::UnsupportedFormat));
        }
        let d = original_lm_page.dimensions;
        let s = scale.factor() as u32;
        assert(d.w * s <= 65535 * 16 && d.h * s <= 65535 * 16) by (nonlinear_arith)
            requires
                d.w <= 65535,
                d.h <= 65535,
                s <= 16,
        ;
        let w = d.w as u32 * s;
        let h = d.h as u32 * s;
        let out = if w <= 65535 && h <= 65535 {
            Dimensions { w: w as u16, h: h as u16 }
        } else {
            Dimensions { w: 0, h: 0 }
        };
        let overlay = match rasterize(lm_verts, lm_indices, out, &self.scene) {
            Ok(o) => o,
            Err(e) => return Err(RandomsError::Render(e)),
        };
        assert(overlay@.len() == out.w * out.h);
        match composite(&overlay, original_lm_page, scale, self.blend_mode) {
            Ok(page) => Ok(page),
            Err(e) => Err(RandomsError::Composite(e)),
        }
    }
}

} // verus!
