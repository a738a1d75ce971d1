//! The image cache: one entry per image name, each either decoded and
//! waiting for the rendering backend or already held by it.

use crate::backend::{BackendCall, Recorded, RenderBackend};
use crate::context::{Entity, Registered};
use crate::decoded::{decoded_png, DecodedImage, Pixels, BROKEN_IMAGE_PNG};
use crate::store::{dropped, kept, lists, unused, ImageStore};
use femtovg::ImageId;
use std::collections::HashSet;
use vstd::prelude::*;

verus! {

broadcast use vstd::std_specs::hash::group_hash_axioms;

/// The bits of the image flag that asks for nearest-neighbour sampling.
pub open spec fn nearest() -> u32 {
    0x20
}

/// The bits of femtovg's `ImageFlags::NEAREST`, which femtovg declares as
/// `1 << 5`.
#[verifier::external_body]
fn nearest_flag() -> (bits: u32)
    ensures
        bits == nearest(),
{
    femtovg::ImageFlags::NEAREST.bits()
}

/// When an image may leave the cache.
#[derive(Copy, Clone, Debug, PartialEq, Eq, Structural)]
pub enum ImageRetentionPolicy {
    /// Never.
    Forever,
    /// At the end of the first frame in which no node asked for it.
    DropWhenUnusedForOneFrame,
}

/// An image as the cache holds it: decoded pixels with the flags to upload
/// them with, or the backend's handle with the image's size.
pub enum ImageOrId {
    Image(DecodedImage, u32),
    Id(ImageId, (u32, u32)),
}

/// What an `ImageOrId` is.
pub enum ImageOrIdView {
    Image(Pixels, u32),
    Id(ImageId, (u32, u32)),
}

impl ImageOrIdView {
    /// The size of the image in pixels.
    pub open spec fn dimensions(self) -> (u32, u32) {
        match self {
            ImageOrIdView::Image(pixels, _) => (pixels.width, pixels.height),
            ImageOrIdView::Id(_, size) => size,
        }
    }

    /// The image once the backend holds it under `id`: an image that it
    /// already holds stays as it is.
    pub open spec fn uploaded(self, id: ImageId) -> ImageOrIdView {
        match self {
            ImageOrIdView::Image(pixels, _) => ImageOrIdView::Id(id, (pixels.width, pixels.height)),
            ImageOrIdView::Id(_, _) => self,
        }
    }

    /// The handle, where the backend holds the image.
    pub open spec fn handle(self) -> Option<ImageId> {
        match self {
            ImageOrIdView::Image(_, _) => None,
            ImageOrIdView::Id(id, _) => Some(id),
        }
    }
}

impl View for ImageOrId {
    type V = ImageOrIdView;

    open spec fn view(&self) -> ImageOrIdView {
        match self {
            ImageOrId::Image(image, flags) => ImageOrIdView::Image(image@, *flags),
            ImageOrId::Id(id, size) => ImageOrIdView::Id(*id, *size),
        }
    }
}

impl ImageOrId {
    /// The size of the image in pixels.
    pub fn dimensions(&self) -> (d: (u32, u32))
        ensures
            d == self@.dimensions(),
    {
        match self {
            ImageOrId::Image(image, _) => image.dimensions(),
            ImageOrId::Id(_, size) => *size,
        }
    }

    /// The handle of the image. A decoded image is first handed to the
    /// backend, with its flags, and from then on is held by its handle; for
    /// an image that has a handle the backend is not called.
    pub fn id<B: RenderBackend>(&mut self, canvas: &mut Recorded<B>) -> (id: ImageId)
        ensures
            final(self)@ == old(self)@.uploaded(id),
            final(self)@.handle() == Some(id),
            match old(self)@ {
                ImageOrIdView::Image(image, flags) => final(canvas).calls() == old(
                    canvas,
                ).calls().push(BackendCall::Create { image, flags, id }),
                ImageOrIdView::Id(_, _) => *final(canvas) == *old(canvas),
            },
    {
        match self {
            ImageOrId::Image(image, flags) => {
                let id = canvas.create_image(image, *flags);
                let size = image.dimensions();
                *self = ImageOrId::Id(id, size);
                id
            },
            ImageOrId::Id(id, _) => *id,
        }
    }
}

/// An entry of the cache.
pub struct StoredImage {
    pub image: ImageOrId,
    pub retention_policy: ImageRetentionPolicy,
    /// Whether a node asked for the image during the current frame.
    pub used: bool,
    pub dirty: bool,
    /// The nodes that have asked for the image while the backend held it.
    pub observers: HashSet<Entity>,
}

/// What a `StoredImage` is.
pub struct StoredImageView {
    pub image: ImageOrIdView,
    pub retention_policy: ImageRetentionPolicy,
    pub used: bool,
    pub dirty: bool,
    pub observers: Set<Entity>,
}

impl View for StoredImage {
    type V = StoredImageView;

    open spec fn view(&self) -> StoredImageView {
        StoredImageView {
            image: self.image@,
            retention_policy: self.retention_policy,
            used: self.used,
            dirty: self.dirty,
            observers: self.observers@,
        }
    }
}

/// A fresh entry over decoded pixels: in use, clean, with no observers.
pub open spec fn fresh_entry(
    pixels: Pixels,
    flags: u32,
    retention_policy: ImageRetentionPolicy,
) -> StoredImageView {
    StoredImageView {
        image: ImageOrIdView::Image(pixels, flags),
        retention_policy,
        used: true,
        dirty: false,
        observers: Set::empty(),
    }
}

/// The entry that stands in for an image that is not there yet.
pub open spec fn placeholder(fallback: Pixels) -> StoredImageView {
    fresh_entry(fallback, nearest(), ImageRetentionPolicy::Forever)
}

impl StoredImage {
    /// A fresh entry over a decoded image.
    pub fn new(image: DecodedImage, flags: u32, retention_policy: ImageRetentionPolicy) -> (s:
        StoredImage)
        ensures
            s@ == fresh_entry(image@, flags, retention_policy),
    {
        StoredImage {
            image: ImageOrId::Image(image, flags),
            retention_policy,
            used: true,
            dirty: false,
            observers: HashSet::new(),
        }
    }

    /// The entry that stands in for an image that is not there yet.
    pub fn placeholder(fallback: &DecodedImage) -> (s: StoredImage)
        ensures
            s@ == placeholder(fallback@),
    {
        StoredImage::new(fallback.clone(), nearest_flag(), ImageRetentionPolicy::Forever)
    }
}

/// The handles under which the backend holds the entries of a list.
pub open spec fn handles(entries: Seq<(String, StoredImage)>) -> Seq<ImageId>
    decreases entries.len(),
{
    if entries.len() == 0 {
        Seq::empty()
    } else {
        match entries.last().1@.image {
            ImageOrIdView::Id(id, _) => handles(entries.drop_last()).push(id),
            ImageOrIdView::Image(_, _) => handles(entries.drop_last()),
        }
    }
}

/// The calls that free the handles, one after the other.
pub open spec fn deletions(ids: Seq<ImageId>) -> Seq<BackendCall> {
    Seq::new(ids.len(), |i: int| BackendCall::Delete { id: ids[i] })
}

/// The handles that are to be freed when the entries of a list have left the
/// cache: one for each entry that the backend holds, in the order of the
/// list.
pub fn handles_of(entries: &Vec<(String, StoredImage)>) -> (ids: Vec<ImageId>)
    ensures
        ids@ == handles(entries@),
{
    let mut ids: Vec<ImageId> = Vec::new();
    let mut i: usize = 0;
    while i < entries.len()
        invariant
            i <= entries@.len(),
            ids@ == handles(entries@.take(i as int)),
        decreases entries@.len() - i,
    {
        assert(entries@.take(i + 1).drop_last() =~= entries@.take(i as int));
        match entries[i].1.image {
            ImageOrId::Id(id, _) => {
                ids.push(id);
            },
            ImageOrId::Image(_, _) => {},
        }
        i += 1;
    }
    assert(entries@.take(entries@.len() as int) =~= entries@);
    ids
}

/// Tells the backend to free each of the handles, one after the other.
pub fn release_images<B: RenderBackend>(canvas: &mut Recorded<B>, ids: &Vec<ImageId>)
    ensures
        final(canvas).calls() == old(canvas).calls() + deletions(ids@),
{
    let mut i: usize = 0;
    while i < ids.len()
        invariant
            i <= ids@.len(),
            canvas.calls() == old(canvas).calls() + deletions(ids@.take(i as int)),
        decreases ids@.len() - i,
    {
        canvas.delete_image(ids[i]);
        i += 1;
    }
}

/// The image cache with its placeholder picture and its loader.
pub struct ResourceManager<L> {
    /// The cached images by name.
    pub images: ImageStore,
    /// The picture that stands in for images that are not there yet.
    pub broken_image: DecodedImage,
    /// Called for images that are asked for and not cached.
    pub image_loader: Option<Registered<L>>,
}

impl<L> ResourceManager<L> {
    /// An empty cache without a loader. There is none where the placeholder
    /// picture does not decode.
    pub fn new() -> (made: Option<ResourceManager<L>>)
        ensures
            match decoded_png(BROKEN_IMAGE_PNG@) {
                Some(pixels) => made matches Some(manager) && manager.images@ == Map::<
                    Seq<char>,
                    StoredImageView,
                >::empty() && manager.broken_image@ == pixels && manager.image_loader is None,
                None => made is None,
            },
    {
        match DecodedImage::broken_image() {
            Some(broken_image) => Some(
                ResourceManager { images: ImageStore::new(), broken_image, image_loader: None },
            ),
            None => None,
        }
    }

    /// Marks every image as not in use: the start of a frame.
    pub fn mark_images_unused(&mut self)
        ensures
            final(self).images@ == unused(old(self).images@),
            final(self).broken_image == old(self).broken_image,
            final(self).image_loader == old(self).image_loader,
    {
        self.images.mark_unused();
    }

    /// Takes out every image that no node asked for during the frame and
    /// that is not kept forever, and tells the backend to free what it holds
    /// for them: the end of a frame. The entries taken out are handed to the
    /// caller, each once, in the order in which their handles were freed.
    pub fn evict_unused_images<B: RenderBackend>(&mut self, canvas: &mut Recorded<B>) -> (evicted:
        Vec<(String, StoredImage)>)
        ensures
            final(self).images@ == kept(old(self).images@),
            lists(evicted@, dropped(old(self).images@)),
            final(canvas).calls() == old(canvas).calls() + deletions(handles(evicted@)),
            final(self).broken_image == old(self).broken_image,
            final(self).image_loader == old(self).image_loader,
    {
        let evicted = self.images.evict_unused();
        let freed = handles_of(&evicted);
        release_images(canvas, &freed);
        evicted
    }
}

} // verus!
