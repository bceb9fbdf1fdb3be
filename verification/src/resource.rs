//! Resource management: decoded images with reference counting, and the
//! built-in icon set.

use vstd::prelude::*;

use std::collections::HashMap;
use crate::strings::joined;

verus! {

broadcast use vstd::std_specs::hash::group_hash_axioms;

/// A handle to a loaded image.
#[derive(Clone, Copy, PartialEq, Eq, Hash, Debug)]
pub struct ImageId(pub u64);

/// Why an image could not be loaded, with the underlying message.
#[derive(Debug)]
pub enum ImageError {
    Unsupported(String),
    Decode(String),
}

impl ImageError {
    /// The text the error displays.
    pub fn message(&self) -> (s: String)
        ensures
            self matches ImageError::Unsupported(m) ==> s@ == "unsupported: "@ + m@,
            self matches ImageError::Decode(m) ==> s@ == "decode error: "@ + m@,
    {
        match self {
            ImageError::Unsupported(m) => joined("unsupported: ", m.as_str()),
            ImageError::Decode(m) => joined("decode error: ", m.as_str()),
        }
    }
}

/// What `image::load_from_memory` followed by an RGBA8 conversion yields
/// for the encoded bytes: `(width, height, pixels)`, or the error's text.
/// It names the result only for the lossless formats of
/// `is_lossless_encoding`, whose decoders compute the same bytes on every
/// machine.
pub uninterp spec fn decoded_rgba(bytes: Seq<u8>) -> Result<(u32, u32, Seq<u8>), Seq<char>>;

/// Bytes that `image` reads as PNG (its eight-byte signature) or GIF
/// (`GIF87a` or `GIF89a`).
pub open spec fn is_lossless_encoding(b: Seq<u8>) -> bool {
    ||| b.len() >= 8 && b.take(8) == seq![0x89u8, 0x50, 0x4E, 0x47, 0x0D, 0x0A, 0x1A, 0x0A]
    ||| b.len() >= 6 && (b.take(6) == seq![0x47u8, 0x49, 0x46, 0x38, 0x37, 0x61] || b.take(6)
        == seq![0x47u8, 0x49, 0x46, 0x38, 0x39, 0x61])
}

/// Decodes an encoded image (PNG, JPEG, GIF or WebP) to straight-alpha
/// RGBA8 with `image::load_from_memory` and `DynamicImage::to_rgba8`. The
/// pixels are four bytes for each of `width * height` pixels. For PNG and
/// GIF the result, or the error's `to_string()`, is named by `decoded_rgba`
/// of the bytes; for JPEG and WebP the decoders may pick machine-specific
/// code paths, so which pixels come back is not stated.
#[verifier::external_body]
fn decode_rgba8(bytes: &[u8]) -> (r: Result<(u32, u32, Vec<u8>), String>)
    ensures
        is_lossless_encoding(bytes@) ==> match r {
            Ok((w, h, px)) => decoded_rgba(bytes@) == Ok::<(u32, u32, Seq<u8>), Seq<char>>((w, h, px@)),
            Err(e) => decoded_rgba(bytes@) == Err::<(u32, u32, Seq<u8>), Seq<char>>(e@),
        },
        r matches Ok((w, h, px)) ==> px@.len() == w * h * 4,
{
    match image::load_from_memory(bytes) {
        Ok(img) => {
            let rgba = img.to_rgba8();
            let (w, h) = rgba.dimensions();
            Ok((w, h, rgba.into_raw()))
        },
        Err(e) => Err(e.to_string()),
    }
}

struct CachedImage {
    width: u32,
    height: u32,
    pixels: Vec<u8>,
    ref_count: usize,
}


/// A cache for decoded RGBA8 images with reference counting.
pub struct ImageCache {
    images: HashMap<u64, CachedImage>,
    next_id: u64,
}

pub open spec fn retained(m: Map<u64, (u32, u32, Seq<u8>, nat)>, id: u64) -> Map<u64, (u32, u32, Seq<u8>, nat)> {
    if m.contains_key(id) {
        m.insert(id, (m[id].0, m[id].1, m[id].2, m[id].3 + 1))
    } else {
        m
    }
}

pub open spec fn released(m: Map<u64, (u32, u32, Seq<u8>, nat)>, id: u64) -> Map<u64, (u32, u32, Seq<u8>, nat)> {
    if m.contains_key(id) {
        if m[id].3 <= 1 {
            m.remove(id)
        } else {
            m.insert(id, (m[id].0, m[id].1, m[id].2, (m[id].3 - 1) as nat))
        }
    } else {
        m
    }
}

impl Default for ImageCache {
    fn default() -> (c: ImageCache)
        ensures
            c.wf(),
            c.images() == Map::<u64, (u32, u32, Seq<u8>, nat)>::empty(),
            c.next_id() == 1,
    {
        ImageCache::new()
    }
}

impl ImageCache {
    /// The loaded images by id.
    pub closed spec fn images(&self) -> Map<u64, (u32, u32, Seq<u8>, nat)> {
        Map::new(
            |k: u64| self.images@.contains_key(k),
            |k: u64|
                (
                    self.images@[k].width,
                    self.images@[k].height,
                    self.images@[k].pixels@,
                    self.images@[k].ref_count as nat,
                ),
        )
    }

    /// The id the next loaded image receives.
    pub closed spec fn next_id(&self) -> u64 {
        self.next_id
    }

    /// Ids are handed out in increasing order and every stored image is
    /// referenced at least once.
    pub open spec fn wf(&self) -> bool {
        &&& self.next_id() >= 1
        &&& forall|k: u64| #[trigger] self.images().contains_key(k) ==> k < self.next_id()
        &&& forall|k: u64|
            #[trigger] self.images().contains_key(k) ==> self.images()[k].3 >= 1
    }

    pub fn new() -> (c: ImageCache)
        ensures
            c.wf(),
            c.images() == Map::<u64, (u32, u32, Seq<u8>, nat)>::empty(),
            c.next_id() == 1,
    {
        let c = ImageCache { images: HashMap::new(), next_id: 1 };
        proof {
            assert(c.images() =~= Map::<u64, (u32, u32, Seq<u8>, nat)>::empty());
        }
        c
    }

    /// Load an image from encoded bytes (PNG, JPEG, GIF or WebP): a decoded
    /// image is stored under a fresh id with one reference; a decoding error
    /// changes nothing. For PNG and GIF the stored image, or the error, is
    /// the decoder's named result.
    pub fn load_from_bytes(&mut self, bytes: &[u8]) -> (r: Result<ImageId, ImageError>)
        requires
            old(self).wf(),
            old(self).next_id() < u64::MAX,
        ensures
            final(self).wf(),
            match r {
                Ok(id) => {
                    &&& id.0 == old(self).next_id()
                    &&& !old(self).images().contains_key(id.0)
                    &&& final(self).next_id() == old(self).next_id() + 1
                    &&& final(self).images().contains_key(id.0)
                    &&& final(self).images() == old(self).images().insert(id.0, final(self).images()[id.0])
                    &&& final(self).images()[id.0].3 == 1
                    &&& final(self).images()[id.0].2.len() == final(self).images()[id.0].0
                        * final(self).images()[id.0].1 * 4
                },
                Err(ImageError::Decode(_)) => {
                    &&& final(self).images() == old(self).images()
                    &&& final(self).next_id() == old(self).next_id()
                },
                _ => false,
            },
            is_lossless_encoding(bytes@) ==> match (r, decoded_rgba(bytes@)) {
                (Ok(id), Ok((w, h, px))) => final(self).images()[id.0] == (w, h, px, 1nat),
                (Err(ImageError::Decode(msg)), Err(e)) => msg@ == e,
                _ => false,
            },
    {
        match decode_rgba8(bytes) {
            Ok((width, height, pixels)) => {
                let id = ImageId(self.next_id);
                self.next_id = self.next_id + 1;
                self.images.insert(id.0, CachedImage { width, height, pixels, ref_count: 1 });
                proof {
                    assert(self.images() =~= old(self).images().insert(
                        id.0,
                        (width, height, pixels@, 1nat),
                    ));
                }
                Ok(id)
            },
            Err(e) => Err(ImageError::Decode(e)),
        }
    }

    /// Image dimensions.
    pub fn size(&self, id: ImageId) -> (r: Option<(u32, u32)>)
        ensures
            match r {
                Some((w, h)) => self.images().contains_key(id.0) && w == self.images()[id.0].0
                    && h == self.images()[id.0].1,
                None => !self.images().contains_key(id.0),
            },
    {
        match self.images.get(&id.0) {
            Some(img) => Some((img.width, img.height)),
            None => None,
        }
    }

    /// The raw RGBA8 pixel data of an image.
    pub fn pixels(&self, id: ImageId) -> (r: Option<&[u8]>)
        ensures
            match r {
                Some(p) => self.images().contains_key(id.0) && p@ == self.images()[id.0].2,
                None => !self.images().contains_key(id.0),
            },
    {
        match self.images.get(&id.0) {
            Some(img) => Some(img.pixels.as_slice()),
            None => None,
        }
    }

    /// Increment the reference count of an image.
    pub fn retain(&mut self, id: ImageId)
        requires
            old(self).wf(),
            old(self).images().contains_key(id.0) ==> old(self).images()[id.0].3
                < usize::MAX,
        ensures
            final(self).wf(),
            final(self).next_id() == old(self).next_id(),
            final(self).images() == retained(old(self).images(), id.0),
    {
        match self.images.remove(&id.0) {
            Some(img) => {
                let CachedImage { width, height, pixels, ref_count } = img;
                self.images.insert(
                    id.0,
                    CachedImage { width, height, pixels, ref_count: ref_count + 1 },
                );
                proof {
                    assert(self.images() =~= retained(old(self).images(), id.0));
                }
            },
            None => {
                proof {
                    assert(self.images() =~= old(self).images());
                }
            },
        }
    }

    /// Decrement the reference count of an image and remove it at zero.
    pub fn release(&mut self, id: ImageId)
        requires
            old(self).wf(),
        ensures
            final(self).wf(),
            final(self).next_id() == old(self).next_id(),
            final(self).images() == released(old(self).images(), id.0),
    {
        match self.images.remove(&id.0) {
            Some(img) => {
                proof {
                    assert(old(self).images().contains_key(id.0));
                }
                let CachedImage { width, height, pixels, ref_count } = img;
                let rc = ref_count - 1;
                if rc == 0 {
                    proof {
                        assert(self.images() =~= released(old(self).images(), id.0));
                    }
                } else {
                    self.images.insert(id.0, CachedImage { width, height, pixels, ref_count: rc });
                    proof {
                        assert(self.images() =~= released(old(self).images(), id.0));
                    }
                }
            },
            None => {
                proof {
                    assert(self.images() =~= old(self).images());
                }
            },
        }
    }
}

/// Retaining and then releasing an image leaves the cache as it was.
pub proof fn lemma_retain_release(m: Map<u64, (u32, u32, Seq<u8>, nat)>, id: u64)
    requires
        forall|k: u64| #[trigger] m.contains_key(k) ==> m[k].3 >= 1,
    ensures
        released(retained(m, id), id) == m,
{
    if m.contains_key(id) {
        assert(released(retained(m, id), id) =~= m);
    }
}

/// An image loaded once (reference count one) is gone after one release.
pub proof fn lemma_load_release(m: Map<u64, (u32, u32, Seq<u8>, nat)>, id: u64, rec: (u32, u32, Seq<u8>, nat))
    requires
        !m.contains_key(id),
        rec.3 == 1,
    ensures
        released(m.insert(id, rec), id) == m,
{
    assert(released(m.insert(id, rec), id) =~= m);
}

/// Built-in icon identifiers (Lucide, MIT license), rendered from SVG path
/// data at the requested size.
#[derive(Clone, Copy, PartialEq, Eq, Hash, Debug)]
pub enum Icon {
    Save,
    Delete,
    Edit,
    Copy,
    Paste,
    Cut,
    Undo,
    Redo,
    Search,
    Filter,
    Menu,
    Settings,
    Refresh,
    ArrowLeft,
    ArrowRight,
    ArrowUp,
    ArrowDown,
    Home,
    User,
    Folder,
    File,
    Image,
    Check,
    X,
    AlertCircle,
    Info,
    Play,
    Pause,
    Volume,
    Mail,
    MessageCircle,
    Phone,
    Link,
    Plus,
    Minus,
    Calendar,
}

/// The SVG path data of each icon.
pub open spec fn icon_path(icon: Icon) -> Seq<char> {
    match icon {
        Icon::Save => "M19 21H5a2 2 0 01-2-2V5a2 2 0 012-2h11l5 5v11a2 2 0 01-2 2zM17 21v-8H7v8M7 3v5h8"@,
        Icon::Delete => "M3 6h18M19 6v14a2 2 0 01-2 2H7a2 2 0 01-2-2V6m3 0V4a2 2 0 012-2h4a2 2 0 012 2v2"@,
        Icon::Edit => "M17 3a2.828 2.828 0 114 4L7.5 20.5 2 22l1.5-5.5L17 3z"@,
        Icon::Copy => "M9 9h13a2 2 0 0 1 2 2v11a2 2 0 0 1-2 2H9a2 2 0 0 1-2-2V11a2 2 0 0 1 2-2zM5 15H4a2 2 0 0 1-2-2V4a2 2 0 0 1 2-2h9a2 2 0 0 1 2 2v1"@,
        Icon::Paste => "M16 4h2a2 2 0 0 1 2 2v14a2 2 0 0 1-2 2H6a2 2 0 0 1-2-2V6a2 2 0 0 1 2-2h2m4-2h-4v2h4z"@,
        Icon::Cut => "M6 3a3 3 0 1 0 0 6 3 3 0 0 0 0-6zM6 15a3 3 0 1 0 0 6 3 3 0 0 0 0-6zM20 4L8.12 15.88m6.35-1.4L20 20M8.12 8.12L12 12"@,
        Icon::Undo => "M3 10h13a6 6 0 0 1 6 6v0a6 6 0 0 1-6 6H9m-6-12l5-5m-5 5l5 5"@,
        Icon::Redo => "M21 10H8a6 6 0 0 0-6 6v0a6 6 0 0 0 6 6h4m9-12l-5-5m5 5l-5 5"@,
        Icon::Search => "M11 19a8 8 0 1 0 0-16 8 8 0 0 0 0 16zM21 21l-4.35-4.35"@,
        Icon::Filter => "M22 3H2l8 9.46V19l4 2v-8.54L22 3z"@,
        Icon::Menu => "M4 12h16M4 6h16M4 18h16"@,
        Icon::Settings => "M12.22 2h-.44a2 2 0 0 0-2 2v.18a2 2 0 0 1-1 1.73l-.43.25a2 2 0 0 1-2 0l-.15-.08a2 2 0 0 0-2.73.73l-.22.38a2 2 0 0 0 .73 2.73l.15.1a2 2 0 0 1 1 1.72v.51a2 2 0 0 1-1 1.74l-.15.09a2 2 0 0 0-.73 2.73l.22.38a2 2 0 0 0 2.73.73l.15-.08a2 2 0 0 1 2 0l.43.25a2 2 0 0 1 1 1.73V20a2 2 0 0 0 2 2h.44a2 2 0 0 0 2-2v-.18a2 2 0 0 1 1-1.73l.43-.25a2 2 0 0 1 2 0l.15.08a2 2 0 0 0 2.73-.73l.22-.39a2 2 0 0 0-.73-2.73l-.15-.08a2 2 0 0 1-1-1.74v-.5a2 2 0 0 1 1-1.74l.15-.09a2 2 0 0 0 .73-2.73l-.22-.38a2 2 0 0 0-2.73-.73l-.15.08a2 2 0 0 1-2 0l-.43-.25a2 2 0 0 1-1-1.73V4a2 2 0 0 0-2-2zM12 15a3 3 0 1 0 0-6 3 3 0 0 0 0 6z"@,
        Icon::Refresh => "M1 4v6h6M23 20v-6h-6M20.49 9A9 9 0 0 0 5.64 5.64L1 10m22 4l-4.64 4.36A9 9 0 0 1 5.64 18.36"@,
        Icon::ArrowLeft => "M19 12H5M12 19l-7-7 7-7"@,
        Icon::ArrowRight => "M5 12h14M12 5l7 7-7 7"@,
        Icon::ArrowUp => "M12 19V5M5 12l7-7 7 7"@,
        Icon::ArrowDown => "M12 5v14M19 12l-7 7-7-7"@,
        Icon::Home => "M3 9l9-7 9 7v11a2 2 0 01-2 2H5a2 2 0 01-2-2zM9 22V12h6v10"@,
        Icon::User => "M20 21v-2a4 4 0 0 0-4-4H8a4 4 0 0 0-4 4v2M12 3a4 4 0 1 0 0 8 4 4 0 0 0 0-8z"@,
        Icon::Folder => "M22 19a2 2 0 01-2 2H4a2 2 0 01-2-2V5a2 2 0 012-2h5l2 3h9a2 2 0 012 2z"@,
        Icon::File => "M14.5 2H6a2 2 0 00-2 2v16a2 2 0 002 2h12a2 2 0 002-2V7.5L14.5 2zM14 2v6h6"@,
        Icon::Image => "M21 15l-3.086-3.086a2 2 0 0 0-2.828 0L6 21M21 5v14a2 2 0 0 1-2 2H5a2 2 0 0 1-2-2V5a2 2 0 0 1 2-2h14a2 2 0 0 1 2 2zM9 10a1 1 0 1 0 0-2 1 1 0 0 0 0 2z"@,
        Icon::Check => "M20 6L9 17l-5-5"@,
        Icon::X => "M18 6L6 18M6 6l12 12"@,
        Icon::AlertCircle => "M12 2a10 10 0 1 0 0 20 10 10 0 0 0 0-20zM12 8v4m0 4h.01"@,
        Icon::Info => "M12 2a10 10 0 1 0 0 20 10 10 0 0 0 0-20zM12 16v-4m0-4h.01"@,
        Icon::Play => "M5 3l14 9-14 9z"@,
        Icon::Pause => "M6 4h4v16H6zM14 4h4v16h-4z"@,
        Icon::Volume => "M11 5L6 9H2v6h4l5 4V5zM18.07 4.93a10 10 0 0 1 0 14.14M14.54 8.46a5 5 0 0 1 0 7.07"@,
        Icon::Mail => "M4 4h16c1.1 0 2 .9 2 2v12c0 1.1-.9 2-2 2H4c-1.1 0-2-.9-2-2V6c0-1.1.9-2 2-2zM22 6l-10 7L2 6"@,
        Icon::MessageCircle => "M21 11.5a8.38 8.38 0 0 1-.9 3.8 8.5 8.5 0 0 1-7.6 4.7 8.38 8.38 0 0 1-3.8-.9L3 21l1.9-5.7a8.38 8.38 0 0 1-.9-3.8 8.5 8.5 0 0 1 4.7-7.6 8.38 8.38 0 0 1 3.8-.9h.5a8.48 8.48 0 0 1 8 8v.5z"@,
        Icon::Phone => "M22 16.92v3a2 2 0 0 1-2.18 2 19.79 19.79 0 0 1-8.63-3.07 19.5 19.5 0 0 1-6-6 19.79 19.79 0 0 1-3.07-8.67A2 2 0 0 1 4.11 2h3a2 2 0 0 1 2 1.72 12.84 12.84 0 0 0 .7 2.81 2 2 0 0 1-.45 2.11L8.09 9.91a16 16 0 0 0 6 6l1.27-1.27a2 2 0 0 1 2.11-.45 12.84 12.84 0 0 0 2.81.7A2 2 0 0 1 22 16.92z"@,
        Icon::Link => "M10 13a5 5 0 0 0 7.54.54l3-3a5 5 0 0 0-7.07-7.07l-1.72 1.71M14 11a5 5 0 0 0-7.54-.54l-3 3a5 5 0 0 0 7.07 7.07l1.71-1.71"@,
        Icon::Plus => "M12 5v14M5 12h14"@,
        Icon::Minus => "M5 12h14"@,
        Icon::Calendar => "M19 4h-1V2h-2v2H8V2H6v2H5a2 2 0 0 0-2 2v14a2 2 0 0 0 2 2h14a2 2 0 0 0 2-2V6a2 2 0 0 0-2-2zm0 16H5V10h14v10zm0-12H5V6h14v2z"@,
    }
}

impl Icon {
    /// The SVG path data of this icon.
    pub fn path_data(&self) -> (d: &'static str)
        ensures
            d@ == icon_path(*self),
    {
        match self {
            Icon::Check => "M20 6L9 17l-5-5",
            Icon::X => "M18 6L6 18M6 6l12 12",
            Icon::Plus => "M12 5v14M5 12h14",
            Icon::Minus => "M5 12h14",
            Icon::Search => "M11 19a8 8 0 1 0 0-16 8 8 0 0 0 0 16zM21 21l-4.35-4.35",
            Icon::ArrowRight => "M5 12h14M12 5l7 7-7 7",
            Icon::ArrowLeft => "M19 12H5M12 19l-7-7 7-7",
            Icon::ArrowUp => "M12 19V5M5 12l7-7 7 7",
            Icon::ArrowDown => "M12 5v14M19 12l-7 7-7-7",
            Icon::Save => "M19 21H5a2 2 0 01-2-2V5a2 2 0 012-2h11l5 5v11a2 2 0 01-2 2zM17 21v-8H7v8M7 3v5h8",
            Icon::Delete => "M3 6h18M19 6v14a2 2 0 01-2 2H7a2 2 0 01-2-2V6m3 0V4a2 2 0 012-2h4a2 2 0 012 2v2",
            Icon::Edit => "M17 3a2.828 2.828 0 114 4L7.5 20.5 2 22l1.5-5.5L17 3z",
            Icon::Home => "M3 9l9-7 9 7v11a2 2 0 01-2 2H5a2 2 0 01-2-2zM9 22V12h6v10",
            Icon::User => "M20 21v-2a4 4 0 0 0-4-4H8a4 4 0 0 0-4 4v2M12 3a4 4 0 1 0 0 8 4 4 0 0 0 0-8z",
            Icon::Settings => "M12.22 2h-.44a2 2 0 0 0-2 2v.18a2 2 0 0 1-1 1.73l-.43.25a2 2 0 0 1-2 0l-.15-.08a2 2 0 0 0-2.73.73l-.22.38a2 2 0 0 0 .73 2.73l.15.1a2 2 0 0 1 1 1.72v.51a2 2 0 0 1-1 1.74l-.15.09a2 2 0 0 0-.73 2.73l.22.38a2 2 0 0 0 2.73.73l.15-.08a2 2 0 0 1 2 0l.43.25a2 2 0 0 1 1 1.73V20a2 2 0 0 0 2 2h.44a2 2 0 0 0 2-2v-.18a2 2 0 0 1 1-1.73l.43-.25a2 2 0 0 1 2 0l.15.08a2 2 0 0 0 2.73-.73l.22-.39a2 2 0 0 0-.73-2.73l-.15-.08a2 2 0 0 1-1-1.74v-.5a2 2 0 0 1 1-1.74l.15-.09a2 2 0 0 0 .73-2.73l-.22-.38a2 2 0 0 0-2.73-.73l-.15.08a2 2 0 0 1-2 0l-.43-.25a2 2 0 0 1-1-1.73V4a2 2 0 0 0-2-2zM12 15a3 3 0 1 0 0-6 3 3 0 0 0 0 6z",
            Icon::Folder => "M22 19a2 2 0 01-2 2H4a2 2 0 01-2-2V5a2 2 0 012-2h5l2 3h9a2 2 0 012 2z",
            Icon::File => "M14.5 2H6a2 2 0 00-2 2v16a2 2 0 002 2h12a2 2 0 002-2V7.5L14.5 2zM14 2v6h6",
            Icon::Image => "M21 15l-3.086-3.086a2 2 0 0 0-2.828 0L6 21M21 5v14a2 2 0 0 1-2 2H5a2 2 0 0 1-2-2V5a2 2 0 0 1 2-2h14a2 2 0 0 1 2 2zM9 10a1 1 0 1 0 0-2 1 1 0 0 0 0 2z",
            Icon::Menu => "M4 12h16M4 6h16M4 18h16",
            Icon::Refresh => "M1 4v6h6M23 20v-6h-6M20.49 9A9 9 0 0 0 5.64 5.64L1 10m22 4l-4.64 4.36A9 9 0 0 1 5.64 18.36",
            Icon::Mail => "M4 4h16c1.1 0 2 .9 2 2v12c0 1.1-.9 2-2 2H4c-1.1 0-2-.9-2-2V6c0-1.1.9-2 2-2zM22 6l-10 7L2 6",
            Icon::AlertCircle => "M12 2a10 10 0 1 0 0 20 10 10 0 0 0 0-20zM12 8v4m0 4h.01",
            Icon::Info => "M12 2a10 10 0 1 0 0 20 10 10 0 0 0 0-20zM12 16v-4m0-4h.01",
            Icon::Play => "M5 3l14 9-14 9z",
            Icon::Pause => "M6 4h4v16H6zM14 4h4v16h-4z",
            Icon::Volume => "M11 5L6 9H2v6h4l5 4V5zM18.07 4.93a10 10 0 0 1 0 14.14M14.54 8.46a5 5 0 0 1 0 7.07",
            Icon::Filter => "M22 3H2l8 9.46V19l4 2v-8.54L22 3z",
            Icon::Copy => "M9 9h13a2 2 0 0 1 2 2v11a2 2 0 0 1-2 2H9a2 2 0 0 1-2-2V11a2 2 0 0 1 2-2zM5 15H4a2 2 0 0 1-2-2V4a2 2 0 0 1 2-2h9a2 2 0 0 1 2 2v1",
            Icon::Undo => "M3 10h13a6 6 0 0 1 6 6v0a6 6 0 0 1-6 6H9m-6-12l5-5m-5 5l5 5",
            Icon::Redo => "M21 10H8a6 6 0 0 0-6 6v0a6 6 0 0 0 6 6h4m9-12l-5-5m5 5l-5 5",
            Icon::MessageCircle => "M21 11.5a8.38 8.38 0 0 1-.9 3.8 8.5 8.5 0 0 1-7.6 4.7 8.38 8.38 0 0 1-3.8-.9L3 21l1.9-5.7a8.38 8.38 0 0 1-.9-3.8 8.5 8.5 0 0 1 4.7-7.6 8.38 8.38 0 0 1 3.8-.9h.5a8.48 8.48 0 0 1 8 8v.5z",
            Icon::Phone => "M22 16.92v3a2 2 0 0 1-2.18 2 19.79 19.79 0 0 1-8.63-3.07 19.5 19.5 0 0 1-6-6 19.79 19.79 0 0 1-3.07-8.67A2 2 0 0 1 4.11 2h3a2 2 0 0 1 2 1.72 12.84 12.84 0 0 0 .7 2.81 2 2 0 0 1-.45 2.11L8.09 9.91a16 16 0 0 0 6 6l1.27-1.27a2 2 0 0 1 2.11-.45 12.84 12.84 0 0 0 2.81.7A2 2 0 0 1 22 16.92z",
            Icon::Link => "M10 13a5 5 0 0 0 7.54.54l3-3a5 5 0 0 0-7.07-7.07l-1.72 1.71M14 11a5 5 0 0 0-7.54-.54l-3 3a5 5 0 0 0 7.07 7.07l1.71-1.71",
            Icon::Paste => "M16 4h2a2 2 0 0 1 2 2v14a2 2 0 0 1-2 2H6a2 2 0 0 1-2-2V6a2 2 0 0 1 2-2h2m4-2h-4v2h4z",
            Icon::Cut => "M6 3a3 3 0 1 0 0 6 3 3 0 0 0 0-6zM6 15a3 3 0 1 0 0 6 3 3 0 0 0 0-6zM20 4L8.12 15.88m6.35-1.4L20 20M8.12 8.12L12 12",
            Icon::Calendar => "M19 4h-1V2h-2v2H8V2H6v2H5a2 2 0 0 0-2 2v14a2 2 0 0 0 2 2h14a2 2 0 0 0 2-2V6a2 2 0 0 0-2-2zm0 16H5V10h14v10zm0-12H5V6h14v2z",
        }
    }
}

/// Every icon's path data is non-empty and opens with a move-to command.
pub proof fn lemma_icon_paths_start_with_move(icon: Icon)
    ensures
        icon_path(icon).len() > 0,
        icon_path(icon)[0] == 'M',
{
    match icon {
        Icon::Check => {
            reveal_strlit("M20 6L9 17l-5-5");
        },
        Icon::X => {
            reveal_strlit("M18 6L6 18M6 6l12 12");
        },
        Icon::Plus => {
            reveal_strlit("M12 5v14M5 12h14");
        },
        Icon::Minus => {
            reveal_strlit("M5 12h14");
        },
        Icon::Search => {
            reveal_strlit("M11 19a8 8 0 1 0 0-16 8 8 0 0 0 0 16zM21 21l-4.35-4.35");
        },
        Icon::ArrowRight => {
            reveal_strlit("M5 12h14M12 5l7 7-7 7");
        },
        Icon::ArrowLeft => {
            reveal_strlit("M19 12H5M12 19l-7-7 7-7");
        },
        Icon::ArrowUp => {
            reveal_strlit("M12 19V5M5 12l7-7 7 7");
        },
        Icon::ArrowDown => {
            reveal_strlit("M12 5v14M19 12l-7 7-7-7");
        },
        Icon::Save => {
            reveal_strlit("M19 21H5a2 2 0 01-2-2V5a2 2 0 012-2h11l5 5v11a2 2 0 01-2 2zM17 21v-8H7v8M7 3v5h8");
        },
        Icon::Delete => {
            reveal_strlit("M3 6h18M19 6v14a2 2 0 01-2 2H7a2 2 0 01-2-2V6m3 0V4a2 2 0 012-2h4a2 2 0 012 2v2");
        },
        Icon::Edit => {
            reveal_strlit("M17 3a2.828 2.828 0 114 4L7.5 20.5 2 22l1.5-5.5L17 3z");
        },
        Icon::Home => {
            reveal_strlit("M3 9l9-7 9 7v11a2 2 0 01-2 2H5a2 2 0 01-2-2zM9 22V12h6v10");
        },
        Icon::User => {
            reveal_strlit("M20 21v-2a4 4 0 0 0-4-4H8a4 4 0 0 0-4 4v2M12 3a4 4 0 1 0 0 8 4 4 0 0 0 0-8z");
        },
        Icon::Settings => {
            reveal_strlit("M12.22 2h-.44a2 2 0 0 0-2 2v.18a2 2 0 0 1-1 1.73l-.43.25a2 2 0 0 1-2 0l-.15-.08a2 2 0 0 0-2.73.73l-.22.38a2 2 0 0 0 .73 2.73l.15.1a2 2 0 0 1 1 1.72v.51a2 2 0 0 1-1 1.74l-.15.09a2 2 0 0 0-.73 2.73l.22.38a2 2 0 0 0 2.73.73l.15-.08a2 2 0 0 1 2 0l.43.25a2 2 0 0 1 1 1.73V20a2 2 0 0 0 2 2h.44a2 2 0 0 0 2-2v-.18a2 2 0 0 1 1-1.73l.43-.25a2 2 0 0 1 2 0l.15.08a2 2 0 0 0 2.73-.73l.22-.39a2 2 0 0 0-.73-2.73l-.15-.08a2 2 0 0 1-1-1.74v-.5a2 2 0 0 1 1-1.74l.15-.09a2 2 0 0 0 .73-2.73l-.22-.38a2 2 0 0 0-2.73-.73l-.15.08a2 2 0 0 1-2 0l-.43-.25a2 2 0 0 1-1-1.73V4a2 2 0 0 0-2-2zM12 15a3 3 0 1 0 0-6 3 3 0 0 0 0 6z");
        },
        Icon::Folder => {
            reveal_strlit("M22 19a2 2 0 01-2 2H4a2 2 0 01-2-2V5a2 2 0 012-2h5l2 3h9a2 2 0 012 2z");
        },
        Icon::File => {
            reveal_strlit("M14.5 2H6a2 2 0 00-2 2v16a2 2 0 002 2h12a2 2 0 002-2V7.5L14.5 2zM14 2v6h6");
        },
        Icon::Image => {
            reveal_strlit("M21 15l-3.086-3.086a2 2 0 0 0-2.828 0L6 21M21 5v14a2 2 0 0 1-2 2H5a2 2 0 0 1-2-2V5a2 2 0 0 1 2-2h14a2 2 0 0 1 2 2zM9 10a1 1 0 1 0 0-2 1 1 0 0 0 0 2z");
        },
        Icon::Menu => {
            reveal_strlit("M4 12h16M4 6h16M4 18h16");
        },
        Icon::Refresh => {
            reveal_strlit("M1 4v6h6M23 20v-6h-6M20.49 9A9 9 0 0 0 5.64 5.64L1 10m22 4l-4.64 4.36A9 9 0 0 1 5.64 18.36");
        },
        Icon::Mail => {
            reveal_strlit("M4 4h16c1.1 0 2 .9 2 2v12c0 1.1-.9 2-2 2H4c-1.1 0-2-.9-2-2V6c0-1.1.9-2 2-2zM22 6l-10 7L2 6");
        },
        Icon::AlertCircle => {
            reveal_strlit("M12 2a10 10 0 1 0 0 20 10 10 0 0 0 0-20zM12 8v4m0 4h.01");
        },
        Icon::Info => {
            reveal_strlit("M12 2a10 10 0 1 0 0 20 10 10 0 0 0 0-20zM12 16v-4m0-4h.01");
        },
        Icon::Play => {
            reveal_strlit("M5 3l14 9-14 9z");
        },
        Icon::Pause => {
            reveal_strlit("M6 4h4v16H6zM14 4h4v16h-4z");
        },
        Icon::Volume => {
            reveal_strlit("M11 5L6 9H2v6h4l5 4V5zM18.07 4.93a10 10 0 0 1 0 14.14M14.54 8.46a5 5 0 0 1 0 7.07");
        },
        Icon::Filter => {
            reveal_strlit("M22 3H2l8 9.46V19l4 2v-8.54L22 3z");
        },
        Icon::Copy => {
            reveal_strlit("M9 9h13a2 2 0 0 1 2 2v11a2 2 0 0 1-2 2H9a2 2 0 0 1-2-2V11a2 2 0 0 1 2-2zM5 15H4a2 2 0 0 1-2-2V4a2 2 0 0 1 2-2h9a2 2 0 0 1 2 2v1");
        },
        Icon::Undo => {
            reveal_strlit("M3 10h13a6 6 0 0 1 6 6v0a6 6 0 0 1-6 6H9m-6-12l5-5m-5 5l5 5");
        },
        Icon::Redo => {
            reveal_strlit("M21 10H8a6 6 0 0 0-6 6v0a6 6 0 0 0 6 6h4m9-12l-5-5m5 5l-5 5");
        },
        Icon::MessageCircle => {
            reveal_strlit("M21 11.5a8.38 8.38 0 0 1-.9 3.8 8.5 8.5 0 0 1-7.6 4.7 8.38 8.38 0 0 1-3.8-.9L3 21l1.9-5.7a8.38 8.38 0 0 1-.9-3.8 8.5 8.5 0 0 1 4.7-7.6 8.38 8.38 0 0 1 3.8-.9h.5a8.48 8.48 0 0 1 8 8v.5z");
        },
        Icon::Phone => {
            reveal_strlit("M22 16.92v3a2 2 0 0 1-2.18 2 19.79 19.79 0 0 1-8.63-3.07 19.5 19.5 0 0 1-6-6 19.79 19.79 0 0 1-3.07-8.67A2 2 0 0 1 4.11 2h3a2 2 0 0 1 2 1.72 12.84 12.84 0 0 0 .7 2.81 2 2 0 0 1-.45 2.11L8.09 9.91a16 16 0 0 0 6 6l1.27-1.27a2 2 0 0 1 2.11-.45 12.84 12.84 0 0 0 2.81.7A2 2 0 0 1 22 16.92z");
        },
        Icon::Link => {
            reveal_strlit("M10 13a5 5 0 0 0 7.54.54l3-3a5 5 0 0 0-7.07-7.07l-1.72 1.71M14 11a5 5 0 0 0-7.54-.54l-3 3a5 5 0 0 0 7.07 7.07l1.71-1.71");
        },
        Icon::Paste => {
            reveal_strlit("M16 4h2a2 2 0 0 1 2 2v14a2 2 0 0 1-2 2H6a2 2 0 0 1-2-2V6a2 2 0 0 1 2-2h2m4-2h-4v2h4z");
        },
        Icon::Cut => {
            reveal_strlit("M6 3a3 3 0 1 0 0 6 3 3 0 0 0 0-6zM6 15a3 3 0 1 0 0 6 3 3 0 0 0 0-6zM20 4L8.12 15.88m6.35-1.4L20 20M8.12 8.12L12 12");
        },
        Icon::Calendar => {
            reveal_strlit("M19 4h-1V2h-2v2H8V2H6v2H5a2 2 0 0 0-2 2v14a2 2 0 0 0 2 2h14a2 2 0 0 0 2-2V6a2 2 0 0 0-2-2zm0 16H5V10h14v10zm0-12H5V6h14v2z");
        },
    }
}

} // verus!
