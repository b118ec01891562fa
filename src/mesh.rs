//! Meshes as egui tessellates them, and their split into 16-bit index meshes.
use vstd::prelude::*;
use crate::texture::{PaintKind, TextureHandle};
use vstd::seq_lib::lemma_flatten_concat;

verus! {

/// One vertex of a mesh. Coordinates are held as the bit patterns of their
/// `f32` values; the colour is premultiplied sRGBA.
#[derive(Clone, Copy, Debug, PartialEq, Eq)]
pub struct Vertex {
    /// Logical position (x, y).
    pub pos: [u32; 2],
    /// Normalised texture coordinate (u, v).
    pub uv: [u32; 2],
    /// Premultiplied colour as r, g, b, a.
    pub color: [u8; 4],
}

/// Whether `bits` is the pattern of `0.0` or of `-0.0`.
pub open spec fn is_zero_bits(bits: u32) -> bool {
    bits == 0 || bits == 0x8000_0000
}

impl Vertex {
    /// The texture coordinate is exactly the texture's origin, (0, 0).
    pub open spec fn uv_at_origin(self) -> bool {
        is_zero_bits(self.uv[0]) && is_zero_bits(self.uv[1])
    }

    /// Whether the texture coordinate is exactly (0, 0).
    pub fn has_origin_uv(&self) -> (r: bool)
        ensures
            r == self.uv_at_origin(),
    {
        let u = self.uv[0];
        let v = self.uv[1];
        (u == 0 || u == 0x8000_0000) && (v == 0 || v == 0x8000_0000)
    }
}

/// A triangle mesh with 32-bit indices.
#[derive(Clone, Debug)]
pub struct Mesh {
    pub indices: Vec<u32>,
    pub vertices: Vec<Vertex>,
    pub texture: TextureHandle,
}

/// A triangle mesh with 16-bit indices.
#[derive(Clone, Debug)]
pub struct Mesh16 {
    pub indices: Vec<u16>,
    pub vertices: Vec<Vertex>,
    pub texture: TextureHandle,
}

/// The largest number of vertices that 16-bit indices can address here.
pub const MAX_VERTICES_16: usize = 65535;

impl Mesh {
    /// Every index names a vertex, the indices form whole triangles, and the
    /// vertex count fits in a 32-bit index.
    pub open spec fn is_valid(&self) -> bool {
        &&& self.indices.len() % 3 == 0
        &&& self.vertices.len() <= u32::MAX
        &&& forall|i: int| 0 <= i < self.indices.len() ==> (#[trigger] self.indices[i]) < self.vertices.len()
    }

    /// The smallest and largest index of triangle `t` lie less than
    /// `MAX_VERTICES_16` apart, so that the triangle fits a 16-bit mesh.
    pub open spec fn triangle_fits_u16(&self, t: int) -> bool {
        let a = self.indices[3 * t] as int;
        let b = self.indices[3 * t + 1] as int;
        let c = self.indices[3 * t + 2] as int;
        &&& a - b < MAX_VERTICES_16 && b - a < MAX_VERTICES_16
        &&& a - c < MAX_VERTICES_16 && c - a < MAX_VERTICES_16
        &&& b - c < MAX_VERTICES_16 && c - b < MAX_VERTICES_16
    }

    /// Every triangle fits a 16-bit mesh.
    pub open spec fn triangles_fit_u16(&self) -> bool {
        forall|t: int| 0 <= t < self.indices.len() / 3 ==> #[trigger] self.triangle_fits_u16(t)
    }

    /// The vertices in index order: three per triangle.
    pub open spec fn resolved(&self) -> Seq<Vertex> {
        Seq::new(self.indices.len() as nat, |i: int| self.vertices[self.indices[i] as int])
    }
}

impl Mesh16 {
    /// Every index names a vertex, the indices form whole triangles, and no
    /// more vertices are held than 16-bit indices can address.
    pub open spec fn is_drawable(&self) -> bool {
        &&& self.indices.len() % 3 == 0
        &&& self.vertices.len() <= MAX_VERTICES_16
        &&& forall|i: int| 0 <= i < self.indices.len() ==> (#[trigger] self.indices[i]) < self.vertices.len()
    }

    /// The vertices in index order: three per triangle.
    pub open spec fn resolved(&self) -> Seq<Vertex> {
        Seq::new(self.indices.len() as nat, |i: int| self.vertices[self.indices[i] as int])
    }

    /// This mesh holds the vertices and the indices of `mesh`, unchanged.
    pub open spec fn is_copy_of(&self, mesh: Mesh) -> bool {
        &&& self.vertices@ == mesh.vertices@
        &&& self.indices.len() == mesh.indices.len()
        &&& forall|i: int| 0 <= i < mesh.indices.len() ==> self.indices[i] as u32 == #[trigger] mesh.indices[i]
    }
}

/// The vertices of all `parts` in order, three per triangle.
pub open spec fn resolved_all(parts: Seq<Mesh16>) -> Seq<Vertex> {
    parts.map_values(|p: Mesh16| p.resolved()).flatten()
}

/// Relies on epaint's `Mesh::split_to_u16`: it cuts the index list into
/// consecutive runs of whole triangles and gives each run the vertices it
/// uses, rebased so that its indices fit in 16 bits; a mesh that 16-bit
/// indices can address comes back as one unchanged part. It panics on a partial
/// triangle and on a triangle wider than a 16-bit mesh, which `requires`
/// leaves out.
#[verifier::external_body]
fn split_to_u16(mesh: &Mesh) -> (parts: Vec<Mesh16>)
    requires
        mesh.is_valid(),
        mesh.triangles_fit_u16(),
    ensures
        forall|k: int| 0 <= k < parts.len() ==> (#[trigger] parts[k]).is_drawable() && parts[k].texture == mesh.texture,
        resolved_all(parts@) == mesh.resolved(),
        mesh.vertices.len() <= MAX_VERTICES_16 ==> parts.len() == 1 && parts[0].is_copy_of(*mesh),
        mesh.vertices.len() > MAX_VERTICES_16 ==> forall|k: int| 0 <= k < parts.len() ==> (#[trigger] parts[k]).indices.len() > 0,
{
    let vertices = mesh.vertices.iter().map(|v| egui::epaint::Vertex {
        pos: bytemuck::cast(v.pos),
        uv: bytemuck::cast(v.uv),
        color: bytemuck::cast(v.color),
    });
    let m = egui::Mesh { indices: mesh.indices.clone(), vertices: vertices.collect(), ..Default::default() };
    m.split_to_u16().into_iter().map(|p| Mesh16 {
        indices: p.indices,
        vertices: p.vertices.iter().map(|v| Vertex {
            pos: bytemuck::cast(v.pos),
            uv: bytemuck::cast(v.uv),
            color: bytemuck::cast(v.color),
        }).collect(),
        texture: mesh.texture,
    }).collect()
}

/// Triangle `t` of `v`, read three vertices per triangle, has a vertex whose
/// texture coordinate is the texture's origin.
pub open spec fn touches_origin(v: Seq<Vertex>, t: int) -> bool {
    v[3 * t].uv_at_origin() || v[3 * t + 1].uv_at_origin() || v[3 * t + 2].uv_at_origin()
}

/// The paint a mesh is drawn with.
#[derive(Clone, Copy, Debug, PartialEq, Eq, Structural)]
pub enum PaintSource {
    /// The shader of the cached texture.
    Texture(TextureHandle),
    /// A constant opaque white, so that the vertex colours alone show.
    White,
}

/// One draw call: a 16-bit mesh and its paint.
#[derive(Debug)]
pub struct MeshDraw {
    pub mesh: Mesh16,
    pub paint: PaintSource,
}

impl Mesh16 {
    /// Every triangle has a vertex at the texture's origin.
    pub open spec fn all_touch_origin(&self) -> bool {
        forall|t: int| 0 <= t < self.indices.len() / 3 ==> #[trigger] touches_origin(self.resolved(), t)
    }

    /// No triangle has a vertex at the texture's origin.
    pub open spec fn none_touch_origin(&self) -> bool {
        forall|t: int| 0 <= t < self.indices.len() / 3 ==> !#[trigger] touches_origin(self.resolved(), t)
    }
}

/// The vertices of all `draws` in order, three per triangle.
pub open spec fn resolved_draws(draws: Seq<MeshDraw>) -> Seq<Vertex> {
    draws.map_values(|d: MeshDraw| d.mesh.resolved()).flatten()
}

proof fn lemma_resolved_push(parts: Seq<Mesh16>, p: Mesh16)
    ensures
        resolved_all(parts.push(p)) == resolved_all(parts) + p.resolved(),
{
    let f = |q: Mesh16| q.resolved();
    assert(parts.push(p).map_values(f) == parts.map_values(f).push(p.resolved()));
    parts.map_values(f).lemma_flatten_push(p.resolved());
}

proof fn lemma_resolved_draws_push(draws: Seq<MeshDraw>, d: MeshDraw)
    ensures
        resolved_draws(draws.push(d)) == resolved_draws(draws) + d.mesh.resolved(),
{
    let f = |q: MeshDraw| q.mesh.resolved();
    assert(draws.push(d).map_values(f) == draws.map_values(f).push(d.mesh.resolved()));
    draws.map_values(f).lemma_flatten_push(d.mesh.resolved());
}

impl Mesh16 {
    /// Each index names the vertex at its own position: the draw holds its
    /// vertices in index order, one per index.
    pub open spec fn in_index_order(&self) -> bool {
        &&& self.vertices.len() == self.indices.len()
        &&& forall|i: int| 0 <= i < self.indices.len() ==> #[trigger] self.indices[i] == i
    }
}

/// The paint of a run of glyph-atlas triangles: white where they touch the
/// atlas origin, else the atlas.
pub open spec fn run_paint(white: bool, texture: TextureHandle) -> PaintSource {
    if white {
        PaintSource::White
    } else {
        PaintSource::Texture(texture)
    }
}

/// `d` is painted as a draw of a mesh on `texture`, of `kind`, must be: an
/// image always with its texture; a glyph atlas with constant white when
/// every triangle has a vertex at the atlas origin, else with the atlas when
/// none has.
pub open spec fn paint_fits(kind: PaintKind, texture: TextureHandle, d: MeshDraw) -> bool {
    match kind {
        PaintKind::Image => d.paint == PaintSource::Texture(texture),
        PaintKind::Font => {
            ||| d.paint == PaintSource::White && d.mesh.all_touch_origin()
            ||| d.paint == PaintSource::Texture(texture) && d.mesh.none_touch_origin()
        },
    }
}

/// A draw of the glyph split of a mesh on `texture`: it fits 16-bit
/// indices, holds at least one triangle, holds its vertices in index order,
/// and is painted as its triangles ask.
pub open spec fn glyph_draw(texture: TextureHandle, d: MeshDraw) -> bool {
    &&& d.mesh.is_drawable()
    &&& d.mesh.texture == texture
    &&& d.mesh.indices.len() > 0
    &&& d.mesh.in_index_order()
    &&& paint_fits(PaintKind::Font, texture, d)
}

/// A draw ends before the next one only where the paint changes or where it
/// is full.
pub open spec fn cut_only_at_changes(draws: Seq<MeshDraw>) -> bool {
    forall|k: int|
        0 <= k < draws.len() - 1 && (#[trigger] draws[k]).paint == draws[k + 1].paint
            ==> draws[k].mesh.indices.len() == MAX_VERTICES_16
}

/// `draws` are the glyph split of `part`: its triangles in order, cut into
/// draws only where the class of the triangles changes or a draw is full.
pub open spec fn glyph_split(part: Mesh16, draws: Seq<MeshDraw>) -> bool {
    &&& resolved_draws(draws) == part.resolved()
    &&& forall|k: int| 0 <= k < draws.len() ==> glyph_draw(part.texture, #[trigger] draws[k])
    &&& cut_only_at_changes(draws)
}

proof fn lemma_cut_push(draws: Seq<MeshDraw>, d: MeshDraw)
    requires
        cut_only_at_changes(draws),
        draws.len() > 0 ==> draws.last().paint != d.paint || draws.last().mesh.indices.len() == MAX_VERTICES_16,
    ensures
        cut_only_at_changes(draws.push(d)),
{
    let all = draws.push(d);
    assert forall|k: int| 0 <= k < all.len() - 1 && (#[trigger] all[k]).paint == all[k + 1].paint
        implies all[k].mesh.indices.len() == MAX_VERTICES_16 by {
        if k < draws.len() - 1 {
            assert(draws[k] == all[k] && draws[k + 1] == all[k + 1]);
        }
    }
}

proof fn lemma_draw_of_run(part: Mesh16, white: bool, texture: TextureHandle)
    requires
        part.is_drawable(),
        part.in_index_order(),
        part.indices.len() > 0,
        part.texture == texture,
        forall|t: int| 0 <= t < part.vertices.len() / 3 ==> #[trigger] touches_origin(part.vertices@, t) == white,
    ensures
        glyph_draw(texture, MeshDraw { mesh: part, paint: run_paint(white, texture) }),
{
    assert(part.resolved() == part.vertices@);
}

/// Ends a run of triangles of one class: `vertices`, in index order, become
/// the next draw, painted for that class.
fn push_run(
    draws: &mut Vec<MeshDraw>,
    indices: Vec<u16>,
    vertices: Vec<Vertex>,
    white: bool,
    texture: TextureHandle,
)
    requires
        vertices.len() == indices.len(),
        vertices.len() > 0,
        vertices.len() % 3 == 0,
        vertices.len() <= MAX_VERTICES_16,
        forall|j: int| 0 <= j < indices.len() ==> indices@[j] == j,
        forall|t: int| 0 <= t < vertices.len() / 3 ==> #[trigger] touches_origin(vertices@, t) == white,
        forall|k: int| 0 <= k < old(draws).len() ==> glyph_draw(texture, #[trigger] old(draws)@[k]),
        cut_only_at_changes(old(draws)@),
        old(draws).len() > 0 ==> old(draws)@.last().paint != run_paint(white, texture)
            || old(draws)@.last().mesh.indices.len() == MAX_VERTICES_16,
    ensures
        final(draws).len() == old(draws).len() + 1,
        resolved_draws(final(draws)@) == resolved_draws(old(draws)@) + vertices@,
        forall|k: int| 0 <= k < final(draws).len() ==> glyph_draw(texture, #[trigger] final(draws)@[k]),
        cut_only_at_changes(final(draws)@),
        final(draws)@.last().paint == run_paint(white, texture),
        final(draws)@.last().mesh.indices.len() == vertices.len(),
{
    let part = Mesh16 { indices, vertices, texture };
    let paint = if white { PaintSource::White } else { PaintSource::Texture(texture) };
    let draw = MeshDraw { mesh: part, paint };
    proof {
        lemma_draw_of_run(part, white, texture);
        lemma_resolved_draws_push(draws@, draw);
        lemma_cut_push(draws@, draw);
        assert(part.resolved() == part.vertices@);
    }
    draws.push(draw);
}

/// Cuts a glyph-atlas mesh into draws so that the triangles with a vertex at
/// texture coordinate (0, 0) are drawn with constant white instead of the
/// atlas. Egui places an opaque white texel at the atlas origin to draw flat
/// shapes, and the rasterizer fails to sample exactly that coordinate when
/// other vertices of the same draw call use other coordinates. Consecutive
/// triangles of the same class share a draw until it is full; each draw
/// copies its vertices in index order.
#[verifier::rlimit(50)]
pub fn split_origin_triangles(mesh: &Mesh16) -> (draws: Vec<MeshDraw>)
    requires
        mesh.is_drawable(),
    ensures
        glyph_split(*mesh, draws@),
{
    let ghost whole = mesh.resolved();
    let n = mesh.indices.len();
    let texture = mesh.texture;
    let mut draws: Vec<MeshDraw> = Vec::new();
    let mut indices: Vec<u16> = Vec::new();
    let mut vertices: Vec<Vertex> = Vec::new();
    let mut white = false;
    let mut i: usize = 0;
    while i < n
        invariant
            mesh.is_drawable(),
            n == mesh.indices.len(),
            texture == mesh.texture,
            whole == mesh.resolved(),
            i <= n,
            i % 3 == 0,
            resolved_draws(draws@) + vertices@ == whole.take(i as int),
            vertices.len() == indices.len(),
            vertices.len() % 3 == 0,
            vertices.len() <= MAX_VERTICES_16,
            i > 0 ==> vertices.len() > 0,
            i == 0 ==> draws.len() == 0,
            forall|j: int| 0 <= j < indices.len() ==> indices@[j] == j,
            forall|t: int| 0 <= t < vertices.len() / 3 ==> #[trigger] touches_origin(vertices@, t) == white,
            forall|k: int| 0 <= k < draws.len() ==> glyph_draw(texture, #[trigger] draws@[k]),
            cut_only_at_changes(draws@),
            draws.len() > 0 ==> draws@.last().paint != run_paint(white, texture)
                || draws@.last().mesh.indices.len() == MAX_VERTICES_16,
        decreases n - i,
    {
        let a = mesh.vertices[mesh.indices[i] as usize];
        let b = mesh.vertices[mesh.indices[i + 1] as usize];
        let c = mesh.vertices[mesh.indices[i + 2] as usize];
        let touches = a.has_origin_uv() || b.has_origin_uv() || c.has_origin_uv();
        if vertices.len() > 0 && (touches != white || vertices.len() > MAX_VERTICES_16 - 3) {
            push_run(&mut draws, indices, vertices, white, texture);
            indices = Vec::new();
            vertices = Vec::new();
        }
        white = touches;
        let ghost prev = vertices@;
        let len = vertices.len() as u16;
        vertices.push(a);
        vertices.push(b);
        vertices.push(c);
        indices.push(len);
        indices.push(len + 1);
        indices.push(len + 2);
        proof {
            assert(whole.take(i + 3) == whole.take(i as int) + seq![a, b, c]);
            assert(vertices@ == prev + seq![a, b, c]);
            assert forall|t: int| 0 <= t < vertices.len() / 3 implies #[trigger] touches_origin(vertices@, t) == white by {
                if t < prev.len() / 3 {
                    assert(touches_origin(prev, t) == white);
                }
            }
        }
        i += 3;
    }
    if vertices.len() > 0 {
        push_run(&mut draws, indices, vertices, white, texture);
    }
    proof {
        assert(whole.take(n as int) == whole);
    }
    draws
}

/// How an image part is drawn: as it is, with its texture.
pub open spec fn image_draw(part: Mesh16) -> MeshDraw {
    MeshDraw { mesh: part, paint: PaintSource::Texture(part.texture) }
}

/// The draws of one 16-bit part of a mesh whose texture is of `kind`: an
/// image part is drawn as it is, with its texture; a glyph-atlas part is cut
/// so that its triangles at the atlas origin are drawn white.
pub fn part_draws(kind: PaintKind, part: Mesh16) -> (draws: Vec<MeshDraw>)
    requires
        part.is_drawable(),
    ensures
        kind == PaintKind::Image ==> draws@ == seq![image_draw(part)],
        kind == PaintKind::Font ==> glyph_split(part, draws@),
{
    match kind {
        PaintKind::Image => {
            let paint = PaintSource::Texture(part.texture);
            vec![MeshDraw { mesh: part, paint }]
        },
        PaintKind::Font => split_origin_triangles(&part),
    }
}

/// `d` is a sound draw of `mesh`, whose texture is of `kind`.
pub open spec fn mesh_draw(kind: PaintKind, mesh: Mesh, d: MeshDraw) -> bool {
    &&& d.mesh.is_drawable()
    &&& d.mesh.texture == mesh.texture
    &&& paint_fits(kind, mesh.texture, d)
    &&& kind == PaintKind::Font ==> glyph_draw(mesh.texture, d)
    &&& mesh.vertices.len() > MAX_VERTICES_16 ==> d.mesh.indices.len() > 0
}

/// The draws `draws` of `mesh`, whose texture is of `kind`, are sound: they
/// draw the mesh's triangles, in order, each draw fits 16-bit indices and
/// is painted as its kind asks. A mesh that 16-bit indices can address is
/// drawn, if an image, as one draw of the mesh itself, and if a glyph atlas,
/// cut only where the class of its triangles changes or a draw is full.
pub open spec fn draws_of_mesh(kind: PaintKind, mesh: Mesh, draws: Seq<MeshDraw>) -> bool {
    &&& resolved_draws(draws) == mesh.resolved()
    &&& forall|k: int| 0 <= k < draws.len() ==> mesh_draw(kind, mesh, #[trigger] draws[k])
    &&& mesh.vertices.len() <= MAX_VERTICES_16 ==> match kind {
        PaintKind::Image => draws.len() == 1 && draws[0].paint == PaintSource::Texture(mesh.texture)
            && draws[0].mesh.is_copy_of(mesh),
        PaintKind::Font => cut_only_at_changes(draws),
    }
}

/// In the draws of a glyph-atlas mesh, every triangle with a vertex at the
/// atlas origin is drawn with constant white, so that it shows the colours
/// of its vertices rather than a sample of the atlas; the draws of an image
/// mesh always sample the image.
pub proof fn lemma_origin_triangles_drawn_white(kind: PaintKind, mesh: Mesh, draws: Seq<MeshDraw>, k: int, t: int)
    requires
        draws_of_mesh(kind, mesh, draws),
        0 <= k < draws.len(),
        0 <= t < draws[k].mesh.indices.len() / 3,
    ensures
        kind == PaintKind::Font && touches_origin(draws[k].mesh.resolved(), t) ==> draws[k].paint == PaintSource::White,
        kind == PaintKind::Image ==> draws[k].paint == PaintSource::Texture(mesh.texture),
{
    assert(mesh_draw(kind, mesh, draws[k]));
}

proof fn lemma_resolved_draws_concat(a: Seq<MeshDraw>, b: Seq<MeshDraw>)
    ensures
        resolved_draws(a + b) == resolved_draws(a) + resolved_draws(b),
{
    let f = |q: MeshDraw| q.mesh.resolved();
    assert((a + b).map_values(f) == a.map_values(f) + b.map_values(f));
    lemma_flatten_concat(a.map_values(f), b.map_values(f));
}

/// The draws of `mesh`: split to 16-bit meshes, each part then drawn by
/// `part_draws`.
pub fn mesh_draws(kind: PaintKind, mesh: &Mesh) -> (draws: Vec<MeshDraw>)
    requires
        mesh.is_valid(),
        mesh.triangles_fit_u16(),
    ensures
        draws_of_mesh(kind, *mesh, draws@),
{
    let mut parts = split_to_u16(mesh);
    let ghost all_parts = parts@;
    let mut draws: Vec<MeshDraw> = Vec::new();
    let mut done: usize = 0;
    while parts.len() > 0
        invariant
            all_parts.len() == done + parts.len(),
            all_parts.len() <= usize::MAX,
            parts@ == all_parts.skip(done as int),
            forall|k: int| 0 <= k < all_parts.len() ==> (#[trigger] all_parts[k]).is_drawable() && all_parts[k].texture == mesh.texture,
            mesh.vertices.len() > MAX_VERTICES_16 ==> forall|k: int| 0 <= k < all_parts.len() ==> (#[trigger] all_parts[k]).indices.len() > 0,
            mesh.vertices.len() <= MAX_VERTICES_16 ==> all_parts.len() == 1 && all_parts[0].is_copy_of(*mesh),
            resolved_all(all_parts) == mesh.resolved(),
            resolved_draws(draws@) == resolved_all(all_parts.take(done as int)),
            forall|k: int| 0 <= k < draws.len() ==> mesh_draw(kind, *mesh, #[trigger] draws@[k]),
            done == 0 ==> draws.len() == 0,
            kind == PaintKind::Image ==> draws.len() == done
                && forall|k: int| 0 <= k < done ==> #[trigger] draws@[k] == image_draw(all_parts[k]),
            kind == PaintKind::Font && mesh.vertices.len() <= MAX_VERTICES_16 ==> cut_only_at_changes(draws@),
        decreases parts.len(),
    {
        let part = parts.remove(0);
        proof {
            assert(part == all_parts[done as int]);
            assert(all_parts.take(done + 1) == all_parts.take(done as int).push(part));
            lemma_resolved_push(all_parts.take(done as int), part);
            assert(parts@ == all_parts.skip(done + 1));
        }
        let ghost before = draws@;
        let mut sub = part_draws(kind, part);
        let ghost sub_draws = sub@;
        draws.append(&mut sub);
        proof {
            lemma_resolved_draws_concat(before, sub_draws);
            if kind == PaintKind::Image {
                lemma_resolved_draws_push(Seq::empty(), image_draw(part));
                assert(Seq::<MeshDraw>::empty().push(image_draw(part)) == sub_draws);
                assert(resolved_draws(Seq::<MeshDraw>::empty()) =~= Seq::<Vertex>::empty());
            }
            assert forall|k: int| 0 <= k < draws.len() implies mesh_draw(kind, *mesh, #[trigger] draws@[k]) by {
                if k >= before.len() {
                    assert(draws@[k] == sub_draws[k - before.len()]);
                } else {
                    assert(draws@[k] == before[k]);
                }
            }
            if kind == PaintKind::Font && mesh.vertices.len() <= MAX_VERTICES_16 {
                assert(draws@ == sub_draws);
            }
        }
        done += 1;
    }
    proof {
        assert(all_parts.take(done as int) == all_parts);
    }
    draws
}

impl Mesh {
    /// Whether the mesh can be drawn: its indices form whole triangles of
    /// existing vertices, and no triangle spans more vertices than a 16-bit
    /// mesh holds.
    pub fn is_well_formed(&self) -> (r: bool)
        ensures
            r == (self.is_valid() && self.triangles_fit_u16()),
    {
        let n = self.indices.len();
        if n % 3 != 0 || self.vertices.len() > u32::MAX as usize {
            return false;
        }
        let mut i: usize = 0;
        while i < n
            invariant
                n == self.indices.len(),
                n % 3 == 0,
                i <= n,
                self.vertices.len() <= u32::MAX,
                forall|j: int| 0 <= j < i ==> (#[trigger] self.indices[j]) < self.vertices.len(),
            decreases n - i,
        {
            if self.indices[i] as usize >= self.vertices.len() {
                return false;
            }
            i += 1;
        }
        let mut t: usize = 0;
        while t < n / 3
            invariant
                n == self.indices.len(),
                n % 3 == 0,
                t <= n / 3,
                forall|s: int| 0 <= s < t ==> #[trigger] self.triangle_fits_u16(s),
            decreases n / 3 - t,
        {
            let a = self.indices[3 * t];
            let b = self.indices[3 * t + 1];
            let c = self.indices[3 * t + 2];
            let lo = if a < b { if a < c { a } else { c } } else { if b < c { b } else { c } };
            let hi = if a > b { if a > c { a } else { c } } else { if b > c { b } else { c } };
            if hi - lo >= MAX_VERTICES_16 as u32 {
                proof {
                    assert(!self.triangle_fits_u16(t as int));
                }
                return false;
            }
            t += 1;
        }
        true
    }
}

/// The triangles of `v`, read three vertices per triangle.
pub open spec fn triangles(v: Seq<Vertex>) -> Seq<(Vertex, Vertex, Vertex)> {
    Seq::new(v.len() / 3, |t: int| (v[3 * t], v[3 * t + 1], v[3 * t + 2]))
}

proof fn lemma_triangles_concat(a: Seq<Vertex>, b: Seq<Vertex>)
    requires
        a.len() % 3 == 0,
    ensures
        triangles(a + b) == triangles(a) + triangles(b),
{
    assert(triangles(a + b) =~= triangles(a) + triangles(b));
}

proof fn lemma_draw_triangles(draws: Seq<MeshDraw>)
    requires
        forall|k: int| 0 <= k < draws.len() ==> (#[trigger] draws[k]).mesh.is_drawable(),
    ensures
        resolved_draws(draws).len() % 3 == 0,
        draws.map_values(|d: MeshDraw| triangles(d.mesh.resolved())).flatten() == triangles(resolved_draws(draws)),
    decreases draws.len(),
{
    let f = |d: MeshDraw| triangles(d.mesh.resolved());
    if draws.len() == 0 {
        assert(triangles(resolved_draws(draws)) =~= Seq::<(Vertex, Vertex, Vertex)>::empty());
    } else {
        let init = draws.drop_last();
        let d = draws.last();
        assert(init.push(d) == draws);
        lemma_draw_triangles(init);
        lemma_resolved_draws_push(init, d);
        lemma_triangles_concat(resolved_draws(init), d.mesh.resolved());
        assert(draws.map_values(f) == init.map_values(f).push(f(d)));
        init.map_values(f).lemma_flatten_push(f(d));
    }
}

/// The draws of a mesh hold each of its triangles once, in order: none is
/// lost, duplicated or changed in its vertices.
pub proof fn lemma_draws_keep_triangles(kind: PaintKind, mesh: Mesh, draws: Seq<MeshDraw>)
    requires
        draws_of_mesh(kind, mesh, draws),
    ensures
        draws.map_values(|d: MeshDraw| triangles(d.mesh.resolved())).flatten() == triangles(mesh.resolved()),
        draws.map_values(|d: MeshDraw| triangles(d.mesh.resolved())).flatten().to_multiset()
            == triangles(mesh.resolved()).to_multiset(),
{
    lemma_draw_triangles(draws);
}

} // verus!
