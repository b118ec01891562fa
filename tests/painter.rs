use egui_skia::image::{ColorImage, FontImage, ImageData};
use egui_skia::mesh::{Mesh, Mesh16, PaintSource, Vertex, part_draws, split_origin_triangles};
use egui_skia::texture::PaintKind;
use egui_skia::painter::{ClippedPrimitive, FrameError, Painter, Primitive, PrimitivePlan, RectBits};
use egui_skia::texture::{ImageDelta, TextureError, TextureFilter, TextureHandle, TextureOptions, TexturesDelta};

fn vertex(x: f32, y: f32, u: f32, v: f32) -> Vertex {
    Vertex { pos: [x.to_bits(), y.to_bits()], uv: [u.to_bits(), v.to_bits()], color: [10, 20, 30, 255] }
}

fn rect(x0: f32, y0: f32, x1: f32, y1: f32) -> RectBits {
    RectBits { min: [x0.to_bits(), y0.to_bits()], max: [x1.to_bits(), y1.to_bits()] }
}

fn options() -> TextureOptions {
    TextureOptions { magnification: TextureFilter::Linear, minification: TextureFilter::Linear }
}

fn font_atlas(h: TextureHandle) -> (TextureHandle, ImageDelta) {
    let image = ImageData::Font(FontImage { size: [2, 2], alpha: vec![255, 0, 0, 255] });
    (h, ImageDelta { image, options: options(), pos: None })
}

fn picture(h: TextureHandle) -> (TextureHandle, ImageDelta) {
    let image = ImageData::Color(ColorImage { size: [1, 1], pixels: vec![[1, 2, 3, 4]] });
    (h, ImageDelta { image, options: options(), pos: None })
}

fn mesh_primitive(texture: TextureHandle, vertices: Vec<Vertex>, indices: Vec<u32>) -> ClippedPrimitive {
    ClippedPrimitive {
        clip_rect: rect(0.0, 0.0, 100.0, 100.0),
        primitive: Primitive::Mesh(Mesh { indices, vertices, texture }),
    }
}

fn delta(set: Vec<(TextureHandle, ImageDelta)>, free: Vec<TextureHandle>) -> TexturesDelta {
    TexturesDelta { set, free }
}

fn triangles_of(vertices: &[Vertex], indices: &[u32]) -> Vec<[Vertex; 3]> {
    indices
        .chunks(3)
        .map(|t| [vertices[t[0] as usize], vertices[t[1] as usize], vertices[t[2] as usize]])
        .collect()
}

fn drawn_triangles(plan: &PrimitivePlan) -> Vec<([Vertex; 3], PaintSource)> {
    match plan {
        PrimitivePlan::Meshes { draws, .. } => draws
            .iter()
            .flat_map(|d| {
                let v = &d.mesh.vertices;
                d.mesh.indices.chunks(3).map(move |t| {
                    ([v[t[0] as usize], v[t[1] as usize], v[t[2] as usize]], d.paint)
                })
            })
            .collect(),
        PrimitivePlan::Callback { .. } => vec![],
    }
}

#[test]
fn large_mesh_is_split_into_16_bit_meshes() {
    let h = TextureHandle::Managed(1);
    let n: u32 = 70_002;
    let vertices: Vec<Vertex> = (0..n).map(|i| vertex(i as f32, 0.0, 0.5, 0.5)).collect();
    let indices: Vec<u32> = (0..n).collect();
    let mut painter = Painter::new();
    let prims = vec![mesh_primitive(h, vertices.clone(), indices.clone())];
    let frame = painter.paint_and_update_textures(&prims, &delta(vec![picture(h)], vec![]));
    let PrimitivePlan::Meshes { draws, .. } = &frame.plans[0] else { panic!("not a mesh plan") };
    assert!(draws.len() >= 2);
    for d in draws {
        assert!(d.mesh.vertices.len() <= 65535);
        assert!(d.mesh.indices.iter().all(|&i| (i as usize) < d.mesh.vertices.len()));
        assert_eq!(d.paint, PaintSource::Texture(h));
    }
    let drawn: Vec<[Vertex; 3]> = drawn_triangles(&frame.plans[0]).into_iter().map(|(t, _)| t).collect();
    assert_eq!(drawn, triangles_of(&vertices, &indices));
}

#[test]
fn small_mesh_keeps_its_triangles() {
    let h = TextureHandle::User(2);
    let vertices = vec![
        vertex(0.0, 0.0, 0.1, 0.1),
        vertex(1.0, 0.0, 0.9, 0.1),
        vertex(1.0, 1.0, 0.9, 0.9),
        vertex(0.0, 1.0, 0.1, 0.9),
    ];
    let indices = vec![0, 1, 2, 0, 2, 3];
    let mut painter = Painter::new();
    let prims = vec![mesh_primitive(h, vertices.clone(), indices.clone())];
    let frame = painter.paint_and_update_textures(&prims, &delta(vec![picture(h)], vec![]));
    let drawn: Vec<[Vertex; 3]> = drawn_triangles(&frame.plans[0]).into_iter().map(|(t, _)| t).collect();
    assert_eq!(drawn, triangles_of(&vertices, &indices));
}

#[test]
fn plans_follow_primitive_order() {
    let h = TextureHandle::Managed(0);
    let mut painter = Painter::new();
    let quad = vec![vertex(0.0, 0.0, 0.2, 0.2), vertex(1.0, 0.0, 0.8, 0.2), vertex(1.0, 1.0, 0.8, 0.8)];
    let callback_rect = rect(5.0, 6.0, 7.0, 8.0);
    let prims = vec![
        mesh_primitive(h, quad.clone(), vec![0, 1, 2]),
        ClippedPrimitive { clip_rect: rect(1.0, 2.0, 3.0, 4.0), primitive: Primitive::Callback(callback_rect) },
        mesh_primitive(h, quad.clone(), vec![2, 1, 0]),
    ];
    let frame = painter.paint_and_update_textures(&prims, &delta(vec![font_atlas(h)], vec![]));
    assert_eq!(frame.plans.len(), 3);
    assert_eq!(drawn_triangles(&frame.plans[0])[0].0, [quad[0], quad[1], quad[2]]);
    match &frame.plans[1] {
        PrimitivePlan::Callback { clip_rect, rect } => {
            assert_eq!(*clip_rect, prims[1].clip_rect);
            assert_eq!(*rect, callback_rect);
        }
        _ => panic!("expected the callback second"),
    }
    assert_eq!(drawn_triangles(&frame.plans[2])[0].0, [quad[2], quad[1], quad[0]]);
}

#[test]
fn freed_texture_serves_its_frame_then_fails() {
    let h = TextureHandle::Managed(9);
    let mut painter = Painter::new();
    let tri = vec![vertex(0.0, 0.0, 0.2, 0.2), vertex(1.0, 0.0, 0.8, 0.2), vertex(1.0, 1.0, 0.8, 0.8)];
    let prims = vec![mesh_primitive(h, tri.clone(), vec![0, 1, 2])];
    let frame = painter.paint_and_update_textures(&prims, &delta(vec![picture(h)], vec![h]));
    assert_eq!(frame.plans.len(), 1);
    assert_eq!(frame.uploads.len(), 1);
    assert_eq!(frame.uploads[0].0, h);
    assert!(!painter.textures().contains(h));
    let second = painter.try_paint_and_update_textures(&prims, &delta(vec![], vec![]));
    assert_eq!(second.err(), Some(FrameError::MissingTexture(0, h)));
}

#[test]
fn glyph_origin_triangles_are_drawn_white() {
    let h = TextureHandle::Managed(0);
    let mut painter = Painter::new();
    let vertices = vec![
        vertex(0.0, 0.0, 0.0, 0.0),
        vertex(1.0, 0.0, 0.5, 0.0),
        vertex(1.0, 1.0, 0.5, 0.5),
        vertex(2.0, 0.0, 0.25, 0.25),
        vertex(3.0, 0.0, 0.75, 0.25),
        vertex(3.0, 1.0, 0.75, 0.75),
        vertex(4.0, 4.0, -0.0, 0.0),
    ];
    let indices = vec![0, 1, 2, 3, 4, 5, 3, 6, 5, 0, 0, 0];
    let prims = vec![mesh_primitive(h, vertices.clone(), indices.clone())];
    let frame = painter.paint_and_update_textures(&prims, &delta(vec![font_atlas(h)], vec![]));
    let drawn = drawn_triangles(&frame.plans[0]);
    let tris = triangles_of(&vertices, &indices);
    assert_eq!(drawn.len(), 4);
    assert_eq!(drawn[0], (tris[0], PaintSource::White));
    assert_eq!(drawn[1], (tris[1], PaintSource::Texture(h)));
    assert_eq!(drawn[2], (tris[2], PaintSource::White));
    assert_eq!(drawn[3], (tris[3], PaintSource::White));
    let PrimitivePlan::Meshes { draws, .. } = &frame.plans[0] else { panic!("not a mesh plan") };
    assert_eq!(draws.len(), 3);
}

#[test]
fn image_meshes_keep_the_texture_at_origin() {
    let h = TextureHandle::User(1);
    let mut painter = Painter::new();
    let vertices = vec![vertex(0.0, 0.0, 0.0, 0.0), vertex(1.0, 0.0, 1.0, 0.0), vertex(1.0, 1.0, 1.0, 1.0)];
    let prims = vec![mesh_primitive(h, vertices, vec![0, 1, 2])];
    let frame = painter.paint_and_update_textures(&prims, &delta(vec![picture(h)], vec![]));
    let drawn = drawn_triangles(&frame.plans[0]);
    assert_eq!(drawn.len(), 1);
    assert_eq!(drawn[0].1, PaintSource::Texture(h));
}

#[test]
fn malformed_meshes_are_refused() {
    let h = TextureHandle::Managed(0);
    let tri = vec![vertex(0.0, 0.0, 0.2, 0.2), vertex(1.0, 0.0, 0.8, 0.2), vertex(1.0, 1.0, 0.8, 0.8)];
    let mut painter = Painter::new();
    let bad_index = vec![mesh_primitive(h, tri.clone(), vec![0, 1, 3])];
    let r = painter.try_paint_and_update_textures(&bad_index, &delta(vec![font_atlas(h)], vec![]));
    assert_eq!(r.err(), Some(FrameError::MalformedMesh(0)));
    let partial = vec![mesh_primitive(h, tri.clone(), vec![0, 1, 2]), mesh_primitive(h, tri, vec![0, 1])];
    let r = painter.try_paint_and_update_textures(&partial, &delta(vec![], vec![]));
    assert_eq!(r.err(), Some(FrameError::MalformedMesh(1)));
}

#[test]
fn too_wide_triangle_is_refused() {
    let h = TextureHandle::Managed(0);
    let vertices: Vec<Vertex> = (0..70_000).map(|i| vertex(i as f32, 0.0, 0.5, 0.5)).collect();
    let mut painter = Painter::new();
    let prims = vec![mesh_primitive(h, vertices, vec![0, 1, 69_999])];
    let r = painter.try_paint_and_update_textures(&prims, &delta(vec![picture(h)], vec![]));
    assert_eq!(r.err(), Some(FrameError::MalformedMesh(0)));
}

#[test]
fn refused_update_fails_the_frame() {
    let h = TextureHandle::Managed(0);
    let mut painter = Painter::new();
    let image = ImageData::Font(FontImage { size: [1, 1], alpha: vec![1] });
    let patch = (h, ImageDelta { image, options: options(), pos: Some([0, 0]) });
    let r = painter.try_paint_and_update_textures(&vec![], &delta(vec![patch], vec![]));
    assert_eq!(r.err(), Some(FrameError::Texture(TextureError::UnknownTexture(h))));
}

#[test]
fn uploads_hold_updated_textures_in_order() {
    let a = TextureHandle::Managed(0);
    let b = TextureHandle::User(3);
    let mut painter = Painter::with_nearest_sampling();
    let frame = painter
        .paint_and_update_textures(&vec![], &delta(vec![font_atlas(a), picture(b)], vec![]));
    assert_eq!(frame.uploads.len(), 2);
    assert_eq!(frame.uploads[0].0, a);
    assert_eq!(frame.uploads[0].1.image.pixels, vec![[255; 4], [0; 4], [0; 4], [255; 4]]);
    assert_eq!(frame.uploads[1].0, b);
    assert_eq!(frame.uploads[1].1.image.pixels, vec![[1, 2, 3, 4]]);
    assert!(painter.textures().nearest_only());
}

#[test]
fn image_part_is_drawn_as_it_is() {
    let h = TextureHandle::User(4);
    let vertices = vec![vertex(0.0, 0.0, 0.0, 0.0), vertex(1.0, 0.0, 1.0, 0.0), vertex(1.0, 1.0, 1.0, 1.0)];
    let part = Mesh16 { indices: vec![2, 1, 0], vertices: vertices.clone(), texture: h };
    let draws = part_draws(PaintKind::Image, part);
    assert_eq!(draws.len(), 1);
    assert_eq!(draws[0].mesh.indices, vec![2, 1, 0]);
    assert_eq!(draws[0].mesh.vertices, vertices);
    assert_eq!(draws[0].paint, PaintSource::Texture(h));
}

#[test]
fn glyph_part_draws_hold_vertices_in_index_order() {
    let h = TextureHandle::Managed(0);
    let vertices = vec![
        vertex(0.0, 0.0, 0.1, 0.1),
        vertex(1.0, 0.0, 0.9, 0.1),
        vertex(1.0, 1.0, 0.9, 0.9),
        vertex(0.0, 1.0, 0.0, 0.0),
    ];
    let part = Mesh16 { indices: vec![0, 1, 2, 2, 1, 0, 0, 2, 3], vertices: vertices.clone(), texture: h };
    let draws = part_draws(PaintKind::Font, part);
    assert_eq!(draws.len(), 2);
    assert_eq!(draws[0].mesh.indices, vec![0, 1, 2, 3, 4, 5]);
    assert_eq!(
        draws[0].mesh.vertices,
        vec![vertices[0], vertices[1], vertices[2], vertices[2], vertices[1], vertices[0]]
    );
    assert_eq!(draws[0].paint, PaintSource::Texture(h));
    assert_eq!(draws[1].mesh.indices, vec![0, 1, 2]);
    assert_eq!(draws[1].mesh.vertices, vec![vertices[0], vertices[2], vertices[3]]);
    assert_eq!(draws[1].paint, PaintSource::White);
}

#[test]
fn glyph_split_cuts_a_full_draw() {
    let h = TextureHandle::Managed(0);
    let vertices = vec![vertex(0.0, 0.0, 0.0, 0.0), vertex(1.0, 0.0, 0.0, 0.0), vertex(1.0, 1.0, 0.0, 0.0)];
    let triangles = 21_846;
    let indices: Vec<u16> = (0..triangles).flat_map(|_| [0u16, 1, 2]).collect();
    let draws = split_origin_triangles(&Mesh16 { indices, vertices, texture: h });
    assert_eq!(draws.len(), 2);
    assert_eq!(draws[0].mesh.indices.len(), 65_535);
    assert_eq!(draws[0].mesh.vertices.len(), 65_535);
    assert_eq!(draws[1].mesh.indices, vec![0, 1, 2]);
    assert!(draws.iter().all(|d| d.paint == PaintSource::White));
}
