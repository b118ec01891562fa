//! The texture cache: one decoded image per live texture handle, with the
//! kind and the sampling of the paint that draws it.
use vstd::prelude::*;
use crate::image::{ImageData, RgbaImage, copy_pixels, patched_pixels};

verus! {

/// Identifies one texture of the cache.
#[derive(Clone, Copy, Debug, PartialEq, Eq, Hash, Structural)]
pub enum TextureHandle {
    /// A texture that egui allocated itself.
    Managed(u64),
    /// A texture that the application registered.
    User(u64),
}


/// How a texture is sampled when magnified or minified.
#[derive(Clone, Copy, Debug, PartialEq, Eq, Structural)]
pub enum TextureFilter {
    Nearest,
    Linear,
}

/// The filter hints that come with a texture update.
#[derive(Clone, Copy, Debug, PartialEq, Eq, Structural)]
pub struct TextureOptions {
    pub magnification: TextureFilter,
    pub minification: TextureFilter,
}

/// The rasterizer's filter between texels.
#[derive(Clone, Copy, Debug, PartialEq, Eq, Structural)]
pub enum FilterMode {
    Nearest,
    Linear,
}

/// The rasterizer's filter between mipmap levels.
#[derive(Clone, Copy, Debug, PartialEq, Eq, Structural)]
pub enum MipmapMode {
    Off,
    Nearest,
    Linear,
}

/// The sampling that a texture's paint uses.
#[derive(Clone, Copy, Debug, PartialEq, Eq, Structural)]
pub struct Sampling {
    pub filter: FilterMode,
    pub mipmap: MipmapMode,
}

/// The sampling for a texture with these hints. With `nearest_only`, as
/// rasterizing on the CPU wants, always nearest and without mipmaps.
pub open spec fn spec_sampling(options: TextureOptions, nearest_only: bool) -> Sampling {
    if nearest_only {
        Sampling { filter: FilterMode::Nearest, mipmap: MipmapMode::Off }
    } else {
        Sampling {
            filter: match options.magnification {
                TextureFilter::Nearest => FilterMode::Nearest,
                TextureFilter::Linear => FilterMode::Linear,
            },
            mipmap: match options.minification {
                TextureFilter::Nearest => MipmapMode::Nearest,
                TextureFilter::Linear => MipmapMode::Linear,
            },
        }
    }
}

pub fn sampling_for(options: TextureOptions, nearest_only: bool) -> (r: Sampling)
    ensures
        r == spec_sampling(options, nearest_only),
{
    if nearest_only {
        return Sampling { filter: FilterMode::Nearest, mipmap: MipmapMode::Off };
    }
    let filter = match options.magnification {
        TextureFilter::Nearest => FilterMode::Nearest,
        TextureFilter::Linear => FilterMode::Linear,
    };
    let mipmap = match options.minification {
        TextureFilter::Nearest => MipmapMode::Nearest,
        TextureFilter::Linear => MipmapMode::Linear,
    };
    Sampling { filter, mipmap }
}

/// What a cached texture holds: an arbitrary image, or a glyph atlas.
#[derive(Clone, Copy, Debug, PartialEq, Eq, Structural)]
pub enum PaintKind {
    Image,
    Font,
}

pub open spec fn kind_of(image: ImageData) -> PaintKind {
    match image {
        ImageData::Color(_) => PaintKind::Image,
        ImageData::Font(_) => PaintKind::Font,
    }
}

/// An update of one texture: the whole image when `pos` is `None`, else a
/// patch whose top-left corner goes to `pos` (x, y) of the cached image.
#[derive(Clone, Debug)]
pub struct ImageDelta {
    pub image: ImageData,
    pub options: TextureOptions,
    pub pos: Option<[usize; 2]>,
}

/// The updates and releases of one frame.
#[derive(Clone, Debug)]
pub struct TexturesDelta {
    pub set: Vec<(TextureHandle, ImageDelta)>,
    pub free: Vec<TextureHandle>,
}

/// One cached texture.
#[derive(Debug)]
pub struct CachedTexture {
    pub image: RgbaImage,
    pub kind: PaintKind,
    pub sampling: Sampling,
}

/// The abstract contents of a cached texture.
pub struct TextureModel {
    pub width: nat,
    pub height: nat,
    pub pixels: Seq<[u8; 4]>,
    pub kind: PaintKind,
    pub sampling: Sampling,
}

impl TextureModel {
    /// The pixels are `width * height`, row by row.
    pub open spec fn wf(&self) -> bool {
        self.pixels.len() == self.width * self.height
    }
}

/// Every texture of `m` holds `width * height` pixels.
pub open spec fn models_wf(m: Map<TextureHandle, TextureModel>) -> bool {
    forall|h: TextureHandle| #[trigger] m.contains_key(h) ==> m[h].wf()
}

impl CachedTexture {
    /// A copy of this texture.
    pub fn snapshot(&self) -> (r: CachedTexture)
        ensures
            r@ == self@,
            r.image.wf() == self.image.wf(),
    {
        CachedTexture {
            image: RgbaImage {
                width: self.image.width,
                height: self.image.height,
                pixels: copy_pixels(&self.image.pixels),
            },
            kind: self.kind,
            sampling: self.sampling,
        }
    }
}

impl View for CachedTexture {
    type V = TextureModel;

    open spec fn view(&self) -> TextureModel {
        TextureModel {
            width: self.image.width as nat,
            height: self.image.height as nat,
            pixels: self.image.pixels@,
            kind: self.kind,
            sampling: self.sampling,
        }
    }
}

/// Why a texture update was refused.
#[derive(Clone, Copy, Debug, PartialEq, Eq, Structural)]
pub enum TextureError {
    /// The payload does not hold one value per pixel of its declared size.
    PayloadMismatch(TextureHandle),
    /// A patch names a texture that the cache does not hold.
    UnknownTexture(TextureHandle),
    /// A patch reaches past the edges of the cached image.
    PatchOutOfBounds(TextureHandle),
}

/// The cache contents after the update of `handle` by `delta`, or the error
/// that the update is refused with.
pub open spec fn updated(
    m: Map<TextureHandle, TextureModel>,
    handle: TextureHandle,
    delta: ImageDelta,
    nearest_only: bool,
) -> Result<Map<TextureHandle, TextureModel>, TextureError> {
    let image = delta.image;
    let w = image.spec_width();
    let h = image.spec_height();
    let kind = kind_of(image);
    let sampling = spec_sampling(delta.options, nearest_only);
    if !image.payload_matches() {
        Err(TextureError::PayloadMismatch(handle))
    } else {
        match delta.pos {
            None => Ok(
                m.insert(
                    handle,
                    TextureModel { width: w, height: h, pixels: image.decoded(), kind, sampling },
                ),
            ),
            Some(pos) => {
                if !m.contains_key(handle) {
                    Err(TextureError::UnknownTexture(handle))
                } else if pos[0] + w > m[handle].width || pos[1] + h > m[handle].height {
                    Err(TextureError::PatchOutOfBounds(handle))
                } else {
                    let old = m[handle];
                    Ok(
                        m.insert(
                            handle,
                            TextureModel {
                                width: old.width,
                                height: old.height,
                                pixels: patched_pixels(
                                    old.pixels,
                                    old.width as int,
                                    image.decoded(),
                                    w as int,
                                    h as int,
                                    pos[0] as int,
                                    pos[1] as int,
                                ),
                                kind,
                                sampling,
                            },
                        ),
                    )
                }
            },
        }
    }
}

/// The cache contents after the updates of `set`, in order; the first
/// refused update stops them.
pub open spec fn updated_all(
    m: Map<TextureHandle, TextureModel>,
    set: Seq<(TextureHandle, ImageDelta)>,
    nearest_only: bool,
) -> Result<Map<TextureHandle, TextureModel>, TextureError>
    decreases set.len(),
{
    if set.len() == 0 {
        Ok(m)
    } else {
        match updated_all(m, set.drop_last(), nearest_only) {
            Ok(m2) => updated(m2, set.last().0, set.last().1, nearest_only),
            Err(e) => Err(e),
        }
    }
}

/// The decoded images of the live textures, keyed by handle.
pub struct TextureCache {
    entries: Vec<(TextureHandle, CachedTexture)>,
    nearest_only: bool,
    model: Ghost<Map<TextureHandle, TextureModel>>,
}

impl View for TextureCache {
    type V = Map<TextureHandle, TextureModel>;

    closed spec fn view(&self) -> Map<TextureHandle, TextureModel> {
        self.model@
    }
}

impl TextureCache {
    /// Handles are unique, each entry is what the model holds for its handle,
    /// each image holds `width * height` pixels, and each handle of the model
    /// has an entry.
    pub closed spec fn wf(&self) -> bool {
        &&& forall|i: int, j: int|
            0 <= i < j < self.entries.len() ==> (#[trigger] self.entries@[i]).0 != (#[trigger] self.entries@[j]).0
        &&& forall|i: int|
            0 <= i < self.entries.len() ==> {
                &&& self.model@.contains_key((#[trigger] self.entries@[i]).0)
                &&& self.model@[self.entries@[i].0] == self.entries@[i].1@
                &&& self.entries@[i].1.image.wf()
            }
        &&& forall|h: TextureHandle|
            self.model@.contains_key(h) ==> exists|i: int| 0 <= i < self.entries.len() && (#[trigger] self.entries@[i]).0 == h
    }

    /// Whether textures are always sampled nearest and without mipmaps.
    pub closed spec fn spec_nearest_only(&self) -> bool {
        self.nearest_only
    }

    pub fn new(nearest_only: bool) -> (r: TextureCache)
        ensures
            r.wf(),
            r@ == Map::<TextureHandle, TextureModel>::empty(),
            r.spec_nearest_only() == nearest_only,
    {
        TextureCache { entries: Vec::new(), nearest_only, model: Ghost(Map::empty()) }
    }

    pub fn nearest_only(&self) -> (r: bool)
        ensures
            r == self.spec_nearest_only(),
    {
        self.nearest_only
    }

    fn find(&self, handle: TextureHandle) -> (r: Option<usize>)
        requires
            self.wf(),
        ensures
            r matches Some(i) ==> i < self.entries.len() && self.entries@[i as int].0 == handle,
            r is None ==> !self@.contains_key(handle),
    {
        let mut i: usize = 0;
        while i < self.entries.len()
            invariant
                i <= self.entries.len(),
                forall|j: int| 0 <= j < i ==> (#[trigger] self.entries@[j]).0 != handle,
            decreases self.entries.len() - i,
        {
            if self.entries[i].0 == handle {
                return Some(i);
            }
            i += 1;
        }
        None
    }

    /// Whether the cache holds a texture for `handle`.
    pub fn contains(&self, handle: TextureHandle) -> (r: bool)
        requires
            self.wf(),
        ensures
            r == self@.contains_key(handle),
    {
        match self.find(handle) {
            Some(_) => true,
            None => false,
        }
    }

    /// The cached texture of `handle`, if the cache holds one.
    pub fn get(&self, handle: TextureHandle) -> (r: Option<&CachedTexture>)
        requires
            self.wf(),
        ensures
            r is Some <==> self@.contains_key(handle),
            r matches Some(t) ==> t@ == self@[handle] && t.image.wf(),
    {
        match self.find(handle) {
            Some(i) => Some(&self.entries[i].1),
            None => None,
        }
    }

    /// Every texture of the cache holds `width * height` pixels.
    pub proof fn lemma_models_wf(&self)
        requires
            self.wf(),
        ensures
            models_wf(self@),
    {
        assert forall|h: TextureHandle| #[trigger] self@.contains_key(h) implies self@[h].wf() by {
            let i = choose|i: int| 0 <= i < self.entries.len() && (#[trigger] self.entries@[i]).0 == h;
        }
    }

    /// Stores `texture` under `handle`, replacing what was there.
    fn put(&mut self, handle: TextureHandle, texture: CachedTexture)
        requires
            old(self).wf(),
            texture.image.wf(),
        ensures
            final(self).wf(),
            final(self)@ == old(self)@.insert(handle, texture@),
            final(self).spec_nearest_only() == old(self).spec_nearest_only(),
    {
        let ghost before = self.entries@;
        let ghost new_model = self.model@.insert(handle, texture@);
        let ghost mut at: int = before.len() as int;
        match self.find(handle) {
            Some(i) => {
                self.entries.set(i, (handle, texture));
                proof {
                    at = i as int;
                }
            },
            None => {
                proof {
                    assert forall|k: int| 0 <= k < self.entries.len() implies (#[trigger] self.entries@[k]).0 != handle by {
                        assert(self.model@.contains_key(self.entries@[k].0));
                    }
                }
                self.entries.push((handle, texture));
            },
        }
        proof {
            assert forall|h: TextureHandle| new_model.contains_key(h) implies exists|k: int|
                0 <= k < self.entries.len() && (#[trigger] self.entries@[k]).0 == h by {
                if h == handle {
                    assert(self.entries@[at].0 == h);
                } else {
                    let k = choose|k: int| 0 <= k < before.len() && (#[trigger] before[k]).0 == h;
                    assert(self.entries@[k].0 == h);
                }
            }
        }
        self.model = Ghost(new_model);
    }

    /// Applies one update: stores a whole image, or writes a patch over the
    /// cached image of `handle`. A refused update changes nothing.
    pub fn update(&mut self, handle: TextureHandle, delta: &ImageDelta) -> (r: Result<(), TextureError>)
        requires
            old(self).wf(),
        ensures
            final(self).wf(),
            final(self).spec_nearest_only() == old(self).spec_nearest_only(),
            match updated(old(self)@, handle, *delta, old(self).spec_nearest_only()) {
                Ok(m) => r is Ok && final(self)@ == m,
                Err(e) => r == Err::<(), TextureError>(e) && final(self)@ == old(self)@,
            },
    {
        let decoded = match delta.image.decode() {
            Some(img) => img,
            None => return Err(TextureError::PayloadMismatch(handle)),
        };
        let kind = match &delta.image {
            ImageData::Color(_) => PaintKind::Image,
            ImageData::Font(_) => PaintKind::Font,
        };
        let sampling = sampling_for(delta.options, self.nearest_only);
        let image = match delta.pos {
            None => decoded,
            Some(pos) => {
                let old_image = match self.get(handle) {
                    Some(t) => &t.image,
                    None => return Err(TextureError::UnknownTexture(handle)),
                };
                if pos[0] > old_image.width || decoded.width > old_image.width - pos[0]
                    || pos[1] > old_image.height || decoded.height > old_image.height - pos[1] {
                    return Err(TextureError::PatchOutOfBounds(handle));
                }
                old_image.with_patch(&decoded, pos[0], pos[1])
            },
        };
        self.put(handle, CachedTexture { image, kind, sampling });
        Ok(())
    }

    /// Applies the updates of `set` in order, stopping at the first refused
    /// one.
    pub fn update_all(&mut self, set: &Vec<(TextureHandle, ImageDelta)>) -> (r: Result<(), TextureError>)
        requires
            old(self).wf(),
        ensures
            final(self).wf(),
            final(self).spec_nearest_only() == old(self).spec_nearest_only(),
            match updated_all(old(self)@, set@, old(self).spec_nearest_only()) {
                Ok(m) => r is Ok && final(self)@ == m,
                Err(e) => r == Err::<(), TextureError>(e),
            },
    {
        let ghost start = self@;
        let mut i: usize = 0;
        while i < set.len()
            invariant
                self.wf(),
                self.spec_nearest_only() == old(self).spec_nearest_only(),
                start == old(self)@,
                i <= set.len(),
                updated_all(start, set@.take(i as int), self.spec_nearest_only()) == Ok::<Map<TextureHandle, TextureModel>, TextureError>(self@),
            decreases set.len() - i,
        {
            proof {
                assert(set@.take(i + 1).drop_last() == set@.take(i as int));
            }
            let (handle, delta) = &set[i];
            match self.update(*handle, delta) {
                Ok(()) => {},
                Err(e) => {
                    proof {
                        lemma_updated_all_stops(start, set@, i as int + 1, self.spec_nearest_only());
                    }
                    return Err(e);
                },
            }
            i += 1;
        }
        proof {
            assert(set@.take(set.len() as int) == set@);
        }
        Ok(())
    }

    /// Drops the texture of `handle`, if the cache holds one.
    pub fn release(&mut self, handle: TextureHandle)
        requires
            old(self).wf(),
        ensures
            final(self).wf(),
            final(self)@ == old(self)@.remove(handle),
            final(self).spec_nearest_only() == old(self).spec_nearest_only(),
    {
        let ghost new_model = self.model@.remove(handle);
        match self.find(handle) {
            Some(i) => {
                let ghost before = self.entries@;
                self.entries.remove(i);
                self.model = Ghost(new_model);
                assert(forall|k: int| 0 <= k < i ==> self.entries@[k] == before[k]);
                assert(forall|k: int| i <= k < self.entries.len() ==> self.entries@[k] == before[k + 1]);
                assert forall|k: int| 0 <= k < self.entries.len() implies {
                    &&& self.model@.contains_key((#[trigger] self.entries@[k]).0)
                    &&& self.model@[self.entries@[k].0] == self.entries@[k].1@
                    &&& self.entries@[k].1.image.wf()
                } by {
                    if k < i {
                        assert(before[k] == self.entries@[k]);
                    } else {
                        assert(before[k + 1] == self.entries@[k]);
                    }
                }
                assert forall|h: TextureHandle| self.model@.contains_key(h) implies exists|k: int|
                    0 <= k < self.entries.len() && (#[trigger] self.entries@[k]).0 == h by {
                    let k = choose|k: int| 0 <= k < before.len() && (#[trigger] before[k]).0 == h;
                    if k < i {
                        assert(self.entries@[k].0 == h);
                    } else {
                        assert(self.entries@[k - 1].0 == h);
                    }
                }
            },
            None => {
                self.model = Ghost(new_model);
                assert(self.model@ == old(self).model@);
            },
        }
    }

    /// Drops the textures of all `handles`.
    pub fn release_all(&mut self, handles: &Vec<TextureHandle>)
        requires
            old(self).wf(),
        ensures
            final(self).wf(),
            final(self)@ == old(self)@.remove_keys(handles@.to_set()),
            final(self).spec_nearest_only() == old(self).spec_nearest_only(),
    {
        let mut i: usize = 0;
        while i < handles.len()
            invariant
                self.wf(),
                self.spec_nearest_only() == old(self).spec_nearest_only(),
                i <= handles.len(),
                self@ == old(self)@.remove_keys(handles@.take(i as int).to_set()),
            decreases handles.len() - i,
        {
            self.release(handles[i]);
            proof {
                assert(handles@.take(i + 1) == handles@.take(i as int).push(handles@[i as int]));
                handles@.take(i as int).lemma_push_to_set_commute(handles@[i as int]);
                assert(self@ == old(self)@.remove_keys(handles@.take(i + 1).to_set()));
            }
            i += 1;
        }
        proof {
            assert(handles@.take(handles.len() as int) == handles@);
        }
    }
}

proof fn lemma_updated_all_stops(
    m: Map<TextureHandle, TextureModel>,
    set: Seq<(TextureHandle, ImageDelta)>,
    n: int,
    nearest_only: bool,
)
    requires
        0 < n <= set.len(),
        updated_all(m, set.take(n), nearest_only) is Err,
    ensures
        updated_all(m, set, nearest_only) == updated_all(m, set.take(n), nearest_only),
    decreases set.len() - n,
{
    if n < set.len() {
        assert(set.take(n + 1).drop_last() == set.take(n));
        assert(updated_all(m, set.take(n + 1), nearest_only) == updated_all(m, set.take(n), nearest_only));
        lemma_updated_all_stops(m, set, n + 1, nearest_only);
    } else {
        assert(set.take(n) == set);
    }
}

} // verus!
