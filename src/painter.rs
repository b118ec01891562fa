//! A frame: the texture updates first, then one plan per clipped primitive in
//! paint order, then the releases.
use vstd::prelude::*;
use crate::image::{in_rect, lemma_patched_pixel};
use crate::mesh::{
    Mesh, MeshDraw, PaintSource, draws_of_mesh, mesh_draw, lemma_draws_keep_triangles,
    lemma_origin_triangles_drawn_white, mesh_draws, touches_origin, triangles,
};
use crate::texture::{
    CachedTexture, TextureCache, TextureError, TextureHandle, TextureModel, TexturesDelta,
    ImageDelta, PaintKind, models_wf, updated, updated_all,
};

verus! {

/// An axis-aligned rectangle: its min (x, y) and max (x, y) corners, as the
/// bit patterns of their `f32` coordinates.
#[derive(Clone, Copy, Debug, PartialEq, Eq)]
pub struct RectBits {
    pub min: [u32; 2],
    pub max: [u32; 2],
}

/// What a clipped primitive draws.
#[derive(Clone, Debug)]
pub enum Primitive {
    /// Textured triangles, in logical coordinates.
    Mesh(Mesh),
    /// Drawing of the application's own, in the given rectangle.
    Callback(RectBits),
}

/// A primitive and the rectangle that clips it, in logical coordinates.
#[derive(Clone, Debug)]
pub struct ClippedPrimitive {
    pub clip_rect: RectBits,
    pub primitive: Primitive,
}

/// How one clipped primitive is drawn.
#[derive(Debug)]
pub enum PrimitivePlan {
    /// Draw calls, clipped to `clip_rect`, in order.
    Meshes { clip_rect: RectBits, draws: Vec<MeshDraw> },
    /// Replay the application's drawing in `rect`, clipped to `clip_rect`.
    Callback { clip_rect: RectBits, rect: RectBits },
}

/// Why a frame cannot be drawn.
#[derive(Clone, Copy, Debug, PartialEq, Eq)]
pub enum FrameError {
    /// A texture update was refused.
    Texture(TextureError),
    /// The mesh of the primitive at this position has an index that names no
    /// vertex, a partial triangle, or a triangle too wide for a 16-bit mesh.
    MalformedMesh(usize),
    /// The mesh of the primitive at this position uses a texture that the
    /// cache does not hold.
    MissingTexture(usize, TextureHandle),
}

/// The error of primitive `p`, at position `k`, against the textures `m`.
pub open spec fn primitive_error(m: Map<TextureHandle, TextureModel>, k: int, p: ClippedPrimitive) -> Option<FrameError> {
    match p.primitive {
        Primitive::Mesh(mesh) => {
            if !(mesh.is_valid() && mesh.triangles_fit_u16()) {
                Some(FrameError::MalformedMesh(k as usize))
            } else if !m.contains_key(mesh.texture) {
                Some(FrameError::MissingTexture(k as usize, mesh.texture))
            } else {
                None
            }
        },
        Primitive::Callback(_) => None,
    }
}

/// The error of the first primitive of `prims` that has one.
pub open spec fn first_error(m: Map<TextureHandle, TextureModel>, prims: Seq<ClippedPrimitive>) -> Option<FrameError>
    decreases prims.len(),
{
    if prims.len() == 0 {
        None
    } else {
        match first_error(m, prims.drop_last()) {
            Some(e) => Some(e),
            None => primitive_error(m, prims.len() - 1, prims.last()),
        }
    }
}

/// `plan` draws primitive `p` with the textures `m`.
pub open spec fn plans_primitive(m: Map<TextureHandle, TextureModel>, p: ClippedPrimitive, plan: PrimitivePlan) -> bool {
    match p.primitive {
        Primitive::Mesh(mesh) => {
            &&& plan matches PrimitivePlan::Meshes { clip_rect, draws }
            &&& clip_rect == p.clip_rect
            &&& draws_of_mesh(m[mesh.texture].kind, mesh, draws@)
        },
        Primitive::Callback(rect) => {
            &&& plan matches PrimitivePlan::Callback { clip_rect, rect: r }
            &&& clip_rect == p.clip_rect
            &&& r == rect
        },
    }
}

/// `plans` holds one plan per primitive of `prims`, at the same position.
pub open spec fn plans_frame(m: Map<TextureHandle, TextureModel>, prims: Seq<ClippedPrimitive>, plans: Seq<PrimitivePlan>) -> bool {
    &&& plans.len() == prims.len()
    &&& forall|k: int| 0 <= k < prims.len() ==> #[trigger] plans_primitive(m, prims[k], plans[k])
}

/// The textures after a frame that starts with the textures `m0`, or the
/// error that the frame fails with: the updates of `set` are applied, the
/// primitives are checked against the result, and `free` is released.
pub open spec fn frame_outcome(
    m0: Map<TextureHandle, TextureModel>,
    nearest_only: bool,
    prims: Seq<ClippedPrimitive>,
    set: Seq<(TextureHandle, ImageDelta)>,
    free: Seq<TextureHandle>,
) -> Result<Map<TextureHandle, TextureModel>, FrameError> {
    match updated_all(m0, set, nearest_only) {
        Err(e) => Err(FrameError::Texture(e)),
        Ok(m1) => match first_error(m1, prims) {
            Some(e) => Err(e),
            None => Ok(m1.remove_keys(free.to_set())),
        },
    }
}

/// What a frame hands to the rasterizer: the new contents of each texture
/// that was set, in the order of the updates, then the plan of each
/// primitive, in paint order.
#[derive(Debug)]
pub struct Frame {
    pub uploads: Vec<(TextureHandle, CachedTexture)>,
    pub plans: Vec<PrimitivePlan>,
}

/// `uploads` holds, for each update of `set`, its handle and that texture as
/// the textures `m` hold it.
pub open spec fn uploads_of(
    m: Map<TextureHandle, TextureModel>,
    set: Seq<(TextureHandle, ImageDelta)>,
    uploads: Seq<(TextureHandle, CachedTexture)>,
) -> bool {
    &&& uploads.len() == set.len()
    &&& forall|i: int| 0 <= i < set.len() ==> {
        &&& (#[trigger] uploads[i]).0 == set[i].0
        &&& uploads[i].1@ == m[set[i].0]
        &&& uploads[i].1.image.wf()
    }
}

proof fn lemma_first_error_stops(m: Map<TextureHandle, TextureModel>, prims: Seq<ClippedPrimitive>, n: int)
    requires
        0 < n <= prims.len(),
        first_error(m, prims.take(n)) is Some,
    ensures
        first_error(m, prims) == first_error(m, prims.take(n)),
    decreases prims.len() - n,
{
    if n < prims.len() {
        assert(prims.take(n + 1).drop_last() == prims.take(n));
        assert(first_error(m, prims.take(n + 1)) == first_error(m, prims.take(n)));
        lemma_first_error_stops(m, prims, n + 1);
    } else {
        assert(prims.take(n) == prims);
    }
}

proof fn lemma_first_error_none(m: Map<TextureHandle, TextureModel>, prims: Seq<ClippedPrimitive>, k: int)
    requires
        first_error(m, prims) is None,
        0 <= k < prims.len(),
    ensures
        primitive_error(m, k, prims[k]) is None,
    decreases prims.len(),
{
    if k < prims.len() - 1 {
        assert(prims.drop_last()[k] == prims[k]);
        lemma_first_error_none(m, prims.drop_last(), k);
    }
}

proof fn lemma_first_error_some(m: Map<TextureHandle, TextureModel>, prims: Seq<ClippedPrimitive>, k: int)
    requires
        0 <= k < prims.len(),
        primitive_error(m, k, prims[k]) is Some,
    ensures
        first_error(m, prims) is Some,
    decreases prims.len(),
{
    if k < prims.len() - 1 {
        lemma_first_error_some(m, prims.drop_last(), k);
    }
}

proof fn lemma_updated_keeps_keys(
    m: Map<TextureHandle, TextureModel>,
    set: Seq<(TextureHandle, ImageDelta)>,
    nearest_only: bool,
)
    requires
        updated_all(m, set, nearest_only) is Ok,
    ensures
        forall|h: TextureHandle| #[trigger] updated_all(m, set, nearest_only)->Ok_0.contains_key(h)
            <==> (m.contains_key(h) || exists|i: int| 0 <= i < set.len() && (#[trigger] set[i]).0 == h),
    decreases set.len(),
{
    if set.len() > 0 {
        let init = set.drop_last();
        lemma_updated_keeps_keys(m, init, nearest_only);
        let m1 = updated_all(m, init, nearest_only)->Ok_0;
        let m2 = updated_all(m, set, nearest_only)->Ok_0;
        assert(updated(m1, set.last().0, set.last().1, nearest_only) == Ok::<Map<TextureHandle, TextureModel>, TextureError>(m2));
        assert forall|h: TextureHandle| #[trigger] m2.contains_key(h)
            <==> (m.contains_key(h) || exists|i: int| 0 <= i < set.len() && (#[trigger] set[i]).0 == h) by {
            if m1.contains_key(h) && !m.contains_key(h) {
                let i = choose|i: int| 0 <= i < init.len() && (#[trigger] init[i]).0 == h;
                assert(set[i].0 == h);
            }
            if exists|i: int| 0 <= i < set.len() && (#[trigger] set[i]).0 == h {
                let i = choose|i: int| 0 <= i < set.len() && (#[trigger] set[i]).0 == h;
                if i < init.len() {
                    assert(init[i].0 == h);
                }
            }
        }
    }
}

/// The textures of a cache, and the planning and painting of frames.
pub struct Painter {
    textures: TextureCache,
}

impl View for Painter {
    type V = Map<TextureHandle, TextureModel>;

    closed spec fn view(&self) -> Map<TextureHandle, TextureModel> {
        self.textures@
    }
}

impl Painter {
    pub closed spec fn wf(&self) -> bool {
        self.textures.wf()
    }

    /// Whether textures are always sampled nearest and without mipmaps.
    pub closed spec fn spec_nearest_only(&self) -> bool {
        self.textures.spec_nearest_only()
    }

    /// A painter with no textures, sampling textures as their updates ask.
    pub fn new() -> (r: Painter)
        ensures
            r.wf(),
            r@ == Map::<TextureHandle, TextureModel>::empty(),
            !r.spec_nearest_only(),
    {
        Painter { textures: TextureCache::new(false) }
    }

    /// A painter with no textures that samples them nearest and without
    /// mipmaps, which rasterizing on the CPU wants at small sizes.
    pub fn with_nearest_sampling() -> (r: Painter)
        ensures
            r.wf(),
            r@ == Map::<TextureHandle, TextureModel>::empty(),
            r.spec_nearest_only(),
    {
        Painter { textures: TextureCache::new(true) }
    }

    /// The cached textures.
    pub fn textures(&self) -> (r: &TextureCache)
        requires
            self.wf(),
        ensures
            r.wf(),
            r@ == self@,
            r.spec_nearest_only() == self.spec_nearest_only(),
    {
        &self.textures
    }

    /// Plans each primitive, in order, with the textures as they are; fails
    /// with the error of the first primitive that has one.
    pub fn plan_primitives(&self, primitives: &Vec<ClippedPrimitive>) -> (r: Result<Vec<PrimitivePlan>, FrameError>)
        requires
            self.wf(),
        ensures
            match first_error(self@, primitives@) {
                Some(e) => r == Err::<Vec<PrimitivePlan>, FrameError>(e),
                None => r matches Ok(plans) && plans_frame(self@, primitives@, plans@),
            },
    {
        let mut plans: Vec<PrimitivePlan> = Vec::new();
        let mut k: usize = 0;
        while k < primitives.len()
            invariant
                self.wf(),
                k <= primitives.len(),
                first_error(self@, primitives@.take(k as int)) is None,
                plans.len() == k,
                forall|j: int| 0 <= j < k ==> #[trigger] plans_primitive(self@, primitives@[j], plans@[j]),
            decreases primitives.len() - k,
        {
            let p = &primitives[k];
            proof {
                assert(primitives@.take(k + 1).drop_last() == primitives@.take(k as int));
                assert(primitives@.take(k + 1).last() == *p);
            }
            let plan = match &p.primitive {
                Primitive::Mesh(mesh) => {
                    if !mesh.is_well_formed() {
                        proof {
                            lemma_first_error_stops(self@, primitives@, k + 1);
                        }
                        return Err(FrameError::MalformedMesh(k));
                    }
                    let texture = match self.textures.get(mesh.texture) {
                        Some(t) => t,
                        None => {
                            proof {
                                lemma_first_error_stops(self@, primitives@, k + 1);
                            }
                            return Err(FrameError::MissingTexture(k, mesh.texture));
                        },
                    };
                    let draws = mesh_draws(texture.kind, mesh);
                    PrimitivePlan::Meshes { clip_rect: p.clip_rect, draws }
                },
                Primitive::Callback(rect) => PrimitivePlan::Callback { clip_rect: p.clip_rect, rect: *rect },
            };
            plans.push(plan);
            k += 1;
        }
        proof {
            assert(primitives@.take(k as int) == primitives@);
        }
        Ok(plans)
    }

    /// Paints one frame: applies the texture updates of `textures_delta`,
    /// plans `primitives` against the updated textures, and only then
    /// releases the textures that the delta frees, so that a texture freed in
    /// a frame still serves that frame's draws. A refused update, a malformed
    /// mesh or a mesh on a texture that is not cached fails the frame with
    /// its error.
    pub fn try_paint_and_update_textures(
        &mut self,
        primitives: &Vec<ClippedPrimitive>,
        textures_delta: &TexturesDelta,
    ) -> (r: Result<Frame, FrameError>)
        requires
            old(self).wf(),
        ensures
            final(self).wf(),
            final(self).spec_nearest_only() == old(self).spec_nearest_only(),
            match frame_outcome(
                old(self)@,
                old(self).spec_nearest_only(),
                primitives@,
                textures_delta.set@,
                textures_delta.free@,
            ) {
                Err(e) => r == Err::<Frame, FrameError>(e),
                Ok(m) => {
                    let updated = updated_all(old(self)@, textures_delta.set@, old(self).spec_nearest_only())->Ok_0;
                    &&& r matches Ok(frame)
                    &&& final(self)@ == m
                    &&& uploads_of(updated, textures_delta.set@, frame.uploads@)
                    &&& plans_frame(updated, primitives@, frame.plans@)
                },
            },
    {
        match self.textures.update_all(&textures_delta.set) {
            Ok(()) => {},
            Err(e) => return Err(FrameError::Texture(e)),
        }
        let set = &textures_delta.set;
        proof {
            lemma_updated_keeps_keys(old(self)@, set@, self.spec_nearest_only());
        }
        let mut uploads: Vec<(TextureHandle, CachedTexture)> = Vec::new();
        let mut i: usize = 0;
        while i < set.len()
            invariant
                self.wf(),
                i <= set.len(),
                forall|j: int| 0 <= j < set.len() ==> self@.contains_key((#[trigger] set@[j]).0),
                uploads.len() == i,
                forall|j: int| 0 <= j < i ==> {
                    &&& (#[trigger] uploads@[j]).0 == set@[j].0
                    &&& uploads@[j].1@ == self@[set@[j].0]
                    &&& uploads@[j].1.image.wf()
                },
            decreases set.len() - i,
        {
            let handle = set[i].0;
            proof {
                assert(self@.contains_key(set@[i as int].0));
            }
            match self.textures.get(handle) {
                Some(t) => {
                    uploads.push((handle, t.snapshot()));
                },
                None => {},
            }
            i += 1;
        }
        let plans = match self.plan_primitives(primitives) {
            Ok(plans) => plans,
            Err(e) => return Err(e),
        };
        self.textures.release_all(&textures_delta.free);
        Ok(Frame { uploads, plans })
    }

    /// Paints one frame, as `try_paint_and_update_textures` does, of a frame
    /// that is sound: its updates are accepted, and each mesh is well formed
    /// and names a texture cached once the updates are applied. Anything else
    /// breaks the contract between egui and its painter.
    pub fn paint_and_update_textures(
        &mut self,
        primitives: &Vec<ClippedPrimitive>,
        textures_delta: &TexturesDelta,
    ) -> (frame: Frame)
        requires
            old(self).wf(),
            frame_outcome(
                old(self)@,
                old(self).spec_nearest_only(),
                primitives@,
                textures_delta.set@,
                textures_delta.free@,
            ) is Ok,
        ensures
            final(self).wf(),
            final(self).spec_nearest_only() == old(self).spec_nearest_only(),
            final(self)@ == frame_outcome(
                old(self)@,
                old(self).spec_nearest_only(),
                primitives@,
                textures_delta.set@,
                textures_delta.free@,
            )->Ok_0,
            ({
                let updated = updated_all(old(self)@, textures_delta.set@, old(self).spec_nearest_only())->Ok_0;
                &&& uploads_of(updated, textures_delta.set@, frame.uploads@)
                &&& plans_frame(updated, primitives@, frame.plans@)
            }),
    {
        match self.try_paint_and_update_textures(primitives, textures_delta) {
            Ok(frame) => frame,
            Err(_) => {
                proof {
                    assert(false);
                }
                Frame { uploads: Vec::new(), plans: Vec::new() }
            },
        }
    }

    /// Every cached texture holds `width * height` pixels.
    pub proof fn lemma_textures_wf(&self)
        requires
            self.wf(),
        ensures
            models_wf(self@),
    {
        self.textures.lemma_models_wf();
    }
}

/// Primitives are planned one by one, in paint order: the plans of a
/// sequence of primitives followed by another are the plans of the first
/// followed by the plans of the second, so that each primitive is drawn
/// over what the ones before it drew.
pub proof fn lemma_plans_in_order(
    m: Map<TextureHandle, TextureModel>,
    a: Seq<ClippedPrimitive>,
    b: Seq<ClippedPrimitive>,
    pa: Seq<PrimitivePlan>,
    pb: Seq<PrimitivePlan>,
)
    requires
        pa.len() == a.len(),
    ensures
        plans_frame(m, a + b, pa + pb) <==> (plans_frame(m, a, pa) && plans_frame(m, b, pb)),
{
    if plans_frame(m, a + b, pa + pb) {
        assert forall|k: int| 0 <= k < a.len() implies #[trigger] plans_primitive(m, a[k], pa[k]) by {
            assert(plans_primitive(m, (a + b)[k], (pa + pb)[k]));
        }
        assert forall|k: int| 0 <= k < b.len() implies #[trigger] plans_primitive(m, b[k], pb[k]) by {
            assert(plans_primitive(m, (a + b)[k + a.len()], (pa + pb)[k + a.len()]));
        }
    }
    if plans_frame(m, a, pa) && plans_frame(m, b, pb) {
        assert forall|k: int| 0 <= k < (a + b).len() implies #[trigger] plans_primitive(m, (a + b)[k], (pa + pb)[k]) by {
            if k < a.len() {
                assert(plans_primitive(m, a[k], pa[k]));
            } else {
                assert(plans_primitive(m, b[k - a.len()], pb[k - a.len()]));
            }
        }
    }
}

/// A texture released by a frame still serves that frame: whether the frame
/// succeeds does not depend on what it releases, and a mesh of the frame on
/// that texture is drawn with it as the frame's updates left it. After the
/// frame the texture is gone, and a later frame that draws a mesh with it,
/// without setting it again, fails.
pub proof fn lemma_free_after_use(
    m0: Map<TextureHandle, TextureModel>,
    nearest_only: bool,
    prims: Seq<ClippedPrimitive>,
    set: Seq<(TextureHandle, ImageDelta)>,
    free: Seq<TextureHandle>,
    handle: TextureHandle,
    next_prims: Seq<ClippedPrimitive>,
    next_set: Seq<(TextureHandle, ImageDelta)>,
    next_free: Seq<TextureHandle>,
    k: int,
)
    requires
        free.contains(handle),
        0 <= k < next_prims.len(),
        next_prims[k].primitive matches Primitive::Mesh(mesh) && mesh.texture == handle,
        forall|i: int| 0 <= i < next_set.len() ==> (#[trigger] next_set[i]).0 != handle,
    ensures
        frame_outcome(m0, nearest_only, prims, set, free) is Ok
            <==> frame_outcome(m0, nearest_only, prims, set, Seq::empty()) is Ok,
        frame_outcome(m0, nearest_only, prims, set, free) matches Ok(m1) ==> {
            &&& !m1.contains_key(handle)
            &&& frame_outcome(m1, nearest_only, next_prims, next_set, next_free) is Err
            &&& forall|j: int| 0 <= j < prims.len() && (#[trigger] prims[j]).primitive is Mesh
                && prims[j].primitive->Mesh_0.texture == handle ==> updated_all(m0, set, nearest_only)->Ok_0.contains_key(handle)
        },
{
    if frame_outcome(m0, nearest_only, prims, set, free) is Ok {
        let m1 = frame_outcome(m0, nearest_only, prims, set, free)->Ok_0;
        assert forall|j: int| 0 <= j < prims.len() && (#[trigger] prims[j]).primitive is Mesh
            && prims[j].primitive->Mesh_0.texture == handle implies updated_all(m0, set, nearest_only)->Ok_0.contains_key(handle) by {
            lemma_first_error_none(updated_all(m0, set, nearest_only)->Ok_0, prims, j);
        }
        assert(free.to_set().contains(handle));
        assert(!m1.contains_key(handle));
        if updated_all(m1, next_set, nearest_only) is Ok {
            lemma_updated_keeps_keys(m1, next_set, nearest_only);
            let m2 = updated_all(m1, next_set, nearest_only)->Ok_0;
            assert(!m2.contains_key(handle));
            assert(primitive_error(m2, k, next_prims[k]) is Some);
            lemma_first_error_some(m2, next_prims, k);
        }
    }
}

/// A frame whose one update patches texture `handle`, and that does not
/// release it, leaves the texture at its size; a pixel inside the patch's
/// rectangle becomes the patch's decoded pixel, alpha included and whatever
/// was there before, and every other pixel keeps its value.
pub proof fn lemma_frame_patch_locality(
    m0: Map<TextureHandle, TextureModel>,
    nearest_only: bool,
    prims: Seq<ClippedPrimitive>,
    handle: TextureHandle,
    delta: ImageDelta,
    free: Seq<TextureHandle>,
    x: int,
    y: int,
)
    requires
        models_wf(m0),
        delta.pos is Some,
        !free.contains(handle),
        frame_outcome(m0, nearest_only, prims, seq![(handle, delta)], free) is Ok,
        m0.contains_key(handle) ==> 0 <= x < m0[handle].width && 0 <= y < m0[handle].height,
    ensures
        ({
            let m = frame_outcome(m0, nearest_only, prims, seq![(handle, delta)], free)->Ok_0;
            let old = m0[handle];
            let pos = delta.pos->Some_0;
            let w = delta.image.spec_width() as int;
            let h = delta.image.spec_height() as int;
            &&& m0.contains_key(handle) && m.contains_key(handle)
            &&& m[handle].width == old.width && m[handle].height == old.height
            &&& m[handle].pixels[y * old.width + x] == if in_rect(x, y, pos[0] as int, pos[1] as int, w, h) {
                delta.image.decoded()[(y - pos[1]) * w + (x - pos[0])]
            } else {
                old.pixels[y * old.width + x]
            }
        }),
{
    let set = seq![(handle, delta)];
    assert(set.drop_last() =~= Seq::<(TextureHandle, ImageDelta)>::empty());
    assert(updated_all(m0, set.drop_last(), nearest_only) == Ok::<Map<TextureHandle, TextureModel>, TextureError>(m0));
    assert(set.last() == (handle, delta));
    assert(updated_all(m0, set, nearest_only) == updated(m0, handle, delta, nearest_only));
    assert(m0.contains_key(handle));
    let old = m0[handle];
    assert(old.wf());
    assert(!free.to_set().contains(handle));
    let pos = delta.pos->Some_0;
    lemma_patched_pixel(
        old.pixels,
        old.width as int,
        old.height as int,
        delta.image.decoded(),
        delta.image.spec_width() as int,
        delta.image.spec_height() as int,
        pos[0] as int,
        pos[1] as int,
        x,
        y,
    );
}

/// In a frame's plans, the draws of a mesh primitive fit 16-bit indices and
/// hold the mesh's triangles once each, in order: none is lost, duplicated or
/// changed, however many vertices the mesh has.
pub proof fn lemma_frame_keeps_triangles(
    m: Map<TextureHandle, TextureModel>,
    prims: Seq<ClippedPrimitive>,
    plans: Seq<PrimitivePlan>,
    k: int,
)
    requires
        plans_frame(m, prims, plans),
        0 <= k < prims.len(),
        prims[k].primitive is Mesh,
    ensures
        plans[k] is Meshes,
        ({
            let mesh = prims[k].primitive->Mesh_0;
            let draws = plans[k]->draws@;
            &&& forall|j: int| 0 <= j < draws.len() ==> (#[trigger] draws[j]).mesh.is_drawable()
            &&& draws.map_values(|d: MeshDraw| triangles(d.mesh.resolved())).flatten() == triangles(mesh.resolved())
            &&& draws.map_values(|d: MeshDraw| triangles(d.mesh.resolved())).flatten().to_multiset()
                == triangles(mesh.resolved()).to_multiset()
        }),
{
    assert(plans_primitive(m, prims[k], plans[k]));
    let mesh = prims[k].primitive->Mesh_0;
    let draws = plans[k]->draws@;
    lemma_draws_keep_triangles(m[mesh.texture].kind, mesh, draws);
    assert forall|j: int| 0 <= j < draws.len() implies (#[trigger] draws[j]).mesh.is_drawable() by {
        assert(mesh_draw(m[mesh.texture].kind, mesh, draws[j]));
    }
}

/// In a frame's plans, a triangle of a glyph-atlas mesh with a vertex at the
/// atlas origin is drawn with constant white, which shows its vertex colours;
/// a mesh on an image is always drawn with that image.
pub proof fn lemma_frame_origin_white(
    m: Map<TextureHandle, TextureModel>,
    prims: Seq<ClippedPrimitive>,
    plans: Seq<PrimitivePlan>,
    k: int,
    j: int,
    t: int,
)
    requires
        plans_frame(m, prims, plans),
        0 <= k < prims.len(),
        prims[k].primitive is Mesh,
        plans[k] is Meshes,
        0 <= j < plans[k]->draws@.len(),
        0 <= t < plans[k]->draws@[j].mesh.indices.len() / 3,
    ensures
        ({
            let mesh = prims[k].primitive->Mesh_0;
            let draw = plans[k]->draws@[j];
            &&& m[mesh.texture].kind == PaintKind::Font && touches_origin(draw.mesh.resolved(), t)
                ==> draw.paint == PaintSource::White
            &&& m[mesh.texture].kind == PaintKind::Image ==> draw.paint == PaintSource::Texture(mesh.texture)
        }),
{
    assert(plans_primitive(m, prims[k], plans[k]));
    let mesh = prims[k].primitive->Mesh_0;
    lemma_origin_triangles_drawn_white(m[mesh.texture].kind, mesh, plans[k]->draws@, j, t);
}

} // verus!
