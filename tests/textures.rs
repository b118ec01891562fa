use egui_skia::image::{ColorImage, FontImage, ImageData, RgbaImage};
use egui_skia::texture::{
    FilterMode, ImageDelta, MipmapMode, PaintKind, Sampling, TextureCache, TextureError,
    TextureFilter, TextureHandle, TextureOptions, sampling_for,
};

fn linear() -> TextureOptions {
    TextureOptions { magnification: TextureFilter::Linear, minification: TextureFilter::Linear }
}

fn font(size: [usize; 2], alpha: Vec<u8>, pos: Option<[usize; 2]>) -> ImageDelta {
    ImageDelta { image: ImageData::Font(FontImage { size, alpha }), options: linear(), pos }
}

fn color(size: [usize; 2], pixels: Vec<[u8; 4]>, pos: Option<[usize; 2]>) -> ImageDelta {
    ImageDelta { image: ImageData::Color(ColorImage { size, pixels }), options: linear(), pos }
}

fn pixel(img: &RgbaImage, x: usize, y: usize) -> [u8; 4] {
    img.pixels[y * img.width + x]
}

#[test]
fn glyph_atlas_full_update_then_patch() {
    let h = TextureHandle::Managed(0);
    let mut cache = TextureCache::new(false);
    assert_eq!(cache.update(h, &font([2, 2], vec![255, 0, 0, 255], None)), Ok(()));
    let t = cache.get(h).unwrap();
    assert_eq!((t.image.width, t.image.height), (2, 2));
    assert_eq!(t.image.pixels, vec![[255; 4], [0; 4], [0; 4], [255; 4]]);
    assert_eq!(t.kind, PaintKind::Font);

    assert_eq!(cache.update(h, &font([1, 1], vec![128], Some([1, 1]))), Ok(()));
    let t = cache.get(h).unwrap();
    assert_eq!((t.image.width, t.image.height), (2, 2));
    assert_eq!(pixel(&t.image, 0, 0)[3], 255);
    assert_eq!(pixel(&t.image, 1, 1)[3], 128);
    assert_eq!(pixel(&t.image, 1, 0), [0; 4]);
    assert_eq!(pixel(&t.image, 0, 1), [0; 4]);
}

#[test]
fn patch_changes_only_its_rectangle() {
    let h = TextureHandle::User(7);
    let mut cache = TextureCache::new(false);
    let old: Vec<[u8; 4]> = (0..12u8).map(|i| [i, i, i, 200]).collect();
    cache.update(h, &color([4, 3], old.clone(), None)).unwrap();
    // A transparent patch overwrites, it does not blend.
    let patch = vec![[0, 0, 0, 0], [9, 9, 9, 9]];
    cache.update(h, &color([2, 1], patch, Some([1, 2]))).unwrap();
    let t = cache.get(h).unwrap();
    for y in 0..3 {
        for x in 0..4 {
            let expected = if y == 2 && x == 1 {
                [0, 0, 0, 0]
            } else if y == 2 && x == 2 {
                [9, 9, 9, 9]
            } else {
                old[y * 4 + x]
            };
            assert_eq!(pixel(&t.image, x, y), expected, "pixel ({x}, {y})");
        }
    }
}

#[test]
fn patch_at_corner_reaching_the_edges() {
    let h = TextureHandle::Managed(3);
    let mut cache = TextureCache::new(false);
    cache.update(h, &color([2, 2], vec![[1; 4]; 4], None)).unwrap();
    cache.update(h, &color([2, 2], vec![[5; 4]; 4], Some([0, 0]))).unwrap();
    assert_eq!(cache.get(h).unwrap().image.pixels, vec![[5; 4]; 4]);
}

#[test]
fn payload_of_wrong_length_is_refused() {
    let h = TextureHandle::Managed(1);
    let mut cache = TextureCache::new(false);
    assert_eq!(
        cache.update(h, &font([2, 2], vec![1, 2, 3], None)),
        Err(TextureError::PayloadMismatch(h))
    );
    assert!(!cache.contains(h));
}

#[test]
fn patch_of_unknown_texture_is_refused() {
    let h = TextureHandle::Managed(2);
    let mut cache = TextureCache::new(false);
    assert_eq!(
        cache.update(h, &font([1, 1], vec![1], Some([0, 0]))),
        Err(TextureError::UnknownTexture(h))
    );
}

#[test]
fn patch_past_the_edge_is_refused_and_changes_nothing() {
    let h = TextureHandle::Managed(4);
    let mut cache = TextureCache::new(false);
    cache.update(h, &font([2, 2], vec![7; 4], None)).unwrap();
    assert_eq!(
        cache.update(h, &font([2, 1], vec![1, 1], Some([1, 0]))),
        Err(TextureError::PatchOutOfBounds(h))
    );
    assert_eq!(
        cache.update(h, &font([1, 1], vec![1], Some([0, 2]))),
        Err(TextureError::PatchOutOfBounds(h))
    );
    assert_eq!(cache.get(h).unwrap().image.pixels, vec![[7; 4]; 4]);
}

#[test]
fn full_update_replaces_size_and_kind() {
    let h = TextureHandle::Managed(5);
    let mut cache = TextureCache::new(false);
    cache.update(h, &font([2, 2], vec![7; 4], None)).unwrap();
    cache.update(h, &color([3, 1], vec![[1, 2, 3, 4]; 3], None)).unwrap();
    let t = cache.get(h).unwrap();
    assert_eq!((t.image.width, t.image.height), (3, 1));
    assert_eq!(t.kind, PaintKind::Image);
}

#[test]
fn empty_image_is_cached() {
    let h = TextureHandle::Managed(6);
    let mut cache = TextureCache::new(false);
    cache.update(h, &color([0, 0], vec![], None)).unwrap();
    assert_eq!(cache.get(h).unwrap().image.pixels.len(), 0);
}

#[test]
fn update_all_stops_at_first_refusal() {
    let a = TextureHandle::Managed(1);
    let b = TextureHandle::Managed(2);
    let mut cache = TextureCache::new(false);
    let set = vec![
        (a, font([1, 1], vec![9], None)),
        (b, font([1, 1], vec![9], Some([0, 0]))),
        (a, font([1, 1], vec![1], None)),
    ];
    assert_eq!(cache.update_all(&set), Err(TextureError::UnknownTexture(b)));
    assert_eq!(cache.get(a).unwrap().image.pixels, vec![[9; 4]]);
}

#[test]
fn release_drops_only_named_textures() {
    let a = TextureHandle::Managed(1);
    let b = TextureHandle::User(1);
    let mut cache = TextureCache::new(false);
    cache.update(a, &font([1, 1], vec![1], None)).unwrap();
    cache.update(b, &font([1, 1], vec![2], None)).unwrap();
    cache.release_all(&vec![a, TextureHandle::Managed(99)]);
    assert!(!cache.contains(a));
    assert!(cache.contains(b));
    cache.release(b);
    assert!(cache.get(b).is_none());
}

#[test]
fn sampling_follows_hints() {
    let o = TextureOptions { magnification: TextureFilter::Nearest, minification: TextureFilter::Linear };
    assert_eq!(sampling_for(o, false), Sampling { filter: FilterMode::Nearest, mipmap: MipmapMode::Linear });
    let o = TextureOptions { magnification: TextureFilter::Linear, minification: TextureFilter::Nearest };
    assert_eq!(sampling_for(o, false), Sampling { filter: FilterMode::Linear, mipmap: MipmapMode::Nearest });
    assert_eq!(sampling_for(o, true), Sampling { filter: FilterMode::Nearest, mipmap: MipmapMode::Off });
}

#[test]
fn nearest_only_cache_ignores_hints() {
    let h = TextureHandle::Managed(0);
    let mut cache = TextureCache::new(true);
    assert!(cache.nearest_only());
    cache.update(h, &font([1, 1], vec![1], None)).unwrap();
    assert_eq!(
        cache.get(h).unwrap().sampling,
        Sampling { filter: FilterMode::Nearest, mipmap: MipmapMode::Off }
    );
}

#[test]
fn font_decodes_to_white_with_alpha() {
    let data = ImageData::Font(FontImage { size: [3, 1], alpha: vec![0, 17, 255] });
    let img = data.decode().unwrap();
    assert_eq!(img.pixels, vec![[0; 4], [17; 4], [255; 4]]);
    let bad = ImageData::Color(ColorImage { size: [2, 1], pixels: vec![[0; 4]] });
    assert!(bad.decode().is_none());
}
