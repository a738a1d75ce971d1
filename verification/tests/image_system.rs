use std::cell::{Cell, RefCell};
use std::collections::HashMap;

use femtovg::imgref::Img;
use femtovg::renderer::Void;
use femtovg::rgb::FromSlice;
use femtovg::{Canvas, ImageFlags, ImageId};
use generational_arena::Index;

use vizia_core::backend::{Recorded, RenderBackend};
use vizia_core::context::{Context, Entity, ImageLoader, NoLoader, Registered, Style};
use vizia_core::decoded::{DecodedImage, BROKEN_IMAGE_PNG};
use vizia_core::image_system::{image_system, load_image, try_load_image};
use vizia_core::resource::{
    handles_of, release_images, ImageOrId, ImageRetentionPolicy, ResourceManager, StoredImage,
};
use vizia_core::store::ImageStore;

/// A femtovg canvas that draws nowhere, and a record of what was asked of it.
struct Backend {
    canvas: Canvas<Void>,
    created: Vec<(ImageId, u32, u32, u32)>,
    deleted: Vec<ImageId>,
}

impl Backend {
    fn new() -> Backend {
        Backend { canvas: Canvas::new(Void).unwrap(), created: Vec::new(), deleted: Vec::new() }
    }
}

impl RenderBackend for Backend {
    fn create_image(&mut self, image: &DecodedImage, flags: u32) -> ImageId {
        let source =
            Img::new(image.pixels().as_rgba(), image.width() as usize, image.height() as usize);
        let id = self.canvas.create_image(source, ImageFlags::from_bits_truncate(flags)).unwrap();
        self.created.push((id, image.width(), image.height(), flags));
        id
    }

    fn delete_image(&mut self, id: ImageId) {
        self.canvas.delete_image(id);
        self.deleted.push(id);
    }
}

/// A loader that puts a picture of two by one pixels into the cache, under
/// the name it is called with, and keeps a record of its calls.
struct Loader {
    policy: ImageRetentionPolicy,
    calls: RefCell<Vec<String>>,
    slot_was_empty: Cell<bool>,
}

impl Loader {
    fn new(policy: ImageRetentionPolicy) -> Loader {
        Loader { policy, calls: RefCell::new(Vec::new()), slot_was_empty: Cell::new(false) }
    }
}

impl ImageLoader<Backend> for Loader {
    fn load(&self, cx: &mut Context<Backend, Loader>, image_name: &str) {
        self.calls.borrow_mut().push(image_name.to_owned());
        self.slot_was_empty.set(cx.resource_manager.image_loader.is_none());
        cx.resource_manager
            .images
            .insert(image_name.to_owned(), StoredImage::new(two_by_one(), 0, self.policy));
    }
}

/// A loader that only counts its calls.
struct Idle {
    calls: Cell<usize>,
}

impl ImageLoader<Backend> for Idle {
    fn load(&self, _cx: &mut Context<Backend, Idle>, _image_name: &str) {
        self.calls.set(self.calls.get() + 1);
    }
}

fn two_by_one() -> DecodedImage {
    DecodedImage::new(2, 1, vec![1, 2, 3, 4, 5, 6, 7, 8]).unwrap()
}

fn context<L>() -> Context<Backend, L> {
    Context {
        tree: Vec::new(),
        style: Style { background_image: HashMap::new(), image: HashMap::new() },
        resource_manager: ResourceManager::new().unwrap(),
        canvas: Recorded::new(Backend::new()),
        needs_relayout: false,
        needs_redraw: false,
    }
}

fn entry<'a, L>(cx: &'a Context<Backend, L>, name: &str) -> &'a StoredImage {
    cx.resource_manager.images.get(name).unwrap()
}

fn is_placeholder(stored: &StoredImage) -> bool {
    let fallback = DecodedImage::broken_image().unwrap();
    match &stored.image {
        ImageOrId::Image(image, flags) => {
            image.dimensions() == fallback.dimensions()
                && image.pixels() == fallback.pixels()
                && *flags == ImageFlags::NEAREST.bits()
        }
        ImageOrId::Id(_, _) => false,
    }
}

fn handle(stored: &StoredImage) -> Option<ImageId> {
    match &stored.image {
        ImageOrId::Image(_, _) => None,
        ImageOrId::Id(id, _) => Some(*id),
    }
}

const X: Entity = 7;
const Y: Entity = 8;

#[test]
fn the_placeholder_picture_decodes() {
    let image = DecodedImage::broken_image().unwrap();
    assert_eq!(image.dimensions(), (8, 8));
    assert_eq!(image.width(), 8);
    assert_eq!(image.height(), 8);
    let pixels = image.pixels();
    assert_eq!(pixels.len(), 8 * 8 * 4);
    // the frame, the cross and the field
    assert_eq!(&pixels[0..4], &[96, 96, 96, 255]);
    assert_eq!(&pixels[(8 + 1) * 4..(8 + 1) * 4 + 4], &[208, 32, 32, 255]);
    assert_eq!(&pixels[(8 + 2) * 4..(8 + 2) * 4 + 4], &[224, 224, 224, 255]);
    assert_eq!(&pixels[(8 + 6) * 4..(8 + 6) * 4 + 4], &[208, 32, 32, 255]);
    assert_eq!(&pixels[(7 * 8 + 7) * 4..], &[96, 96, 96, 255]);
}

#[test]
fn decoding_is_the_decoder_of_the_image_crate() {
    let ours = DecodedImage::from_png(&BROKEN_IMAGE_PNG).unwrap();
    let theirs = image::load_from_memory_with_format(&BROKEN_IMAGE_PNG, image::ImageFormat::Png)
        .unwrap()
        .to_rgba8();
    assert_eq!(ours.dimensions(), theirs.dimensions());
    assert_eq!(ours.pixels(), theirs.as_raw());
}

#[test]
fn bytes_that_are_no_png_file_do_not_decode() {
    assert!(DecodedImage::from_png(&[]).is_none());
    assert!(DecodedImage::from_png(b"not a picture").is_none());
    // the file cut short
    assert!(DecodedImage::from_png(&BROKEN_IMAGE_PNG[..40]).is_none());
}

#[test]
fn a_decoded_image_has_four_bytes_for_each_pixel() {
    assert!(DecodedImage::new(2, 1, vec![0; 8]).is_some());
    assert!(DecodedImage::new(0, 0, Vec::new()).is_some());
    assert!(DecodedImage::new(0, 5, Vec::new()).is_some());
    assert!(DecodedImage::new(2, 1, vec![0; 7]).is_none());
    assert!(DecodedImage::new(2, 1, vec![0; 9]).is_none());
    assert!(DecodedImage::new(1, 1, Vec::new()).is_none());
    assert!(DecodedImage::new(u32::MAX, u32::MAX, vec![0; 4]).is_none());

    let image = two_by_one();
    assert_eq!(image.dimensions(), (2, 1));
    assert_eq!(image.pixels(), &vec![1, 2, 3, 4, 5, 6, 7, 8]);
    let copy = image.clone();
    assert_eq!(copy.dimensions(), (2, 1));
    assert_eq!(copy.pixels(), image.pixels());
}

#[test]
fn a_new_manager_is_empty_and_has_no_loader() {
    let manager: ResourceManager<NoLoader> = ResourceManager::new().unwrap();
    assert_eq!(manager.images.len(), 0);
    assert!(manager.image_loader.is_none());
    assert_eq!(manager.broken_image.dimensions(), (8, 8));
}

#[test]
fn the_store_keeps_one_entry_for_each_name() {
    let mut store = ImageStore::new();
    assert_eq!(store.len(), 0);
    assert!(!store.contains("a"));
    assert!(store.get("a").is_none());

    assert!(store
        .insert("a".to_owned(), StoredImage::new(two_by_one(), 3, ImageRetentionPolicy::Forever))
        .is_none());
    assert!(store
        .insert(
            "b".to_owned(),
            StoredImage::new(two_by_one(), 4, ImageRetentionPolicy::DropWhenUnusedForOneFrame)
        )
        .is_none());
    assert_eq!(store.len(), 2);
    assert!(store.contains("a"));
    assert!(store.contains("b"));
    assert!(!store.contains("c"));
    assert_eq!(store.get("a").unwrap().retention_policy, ImageRetentionPolicy::Forever);

    // the same name again: the entry is replaced and handed out
    let previous = store
        .insert(
            "a".to_owned(),
            StoredImage::new(two_by_one(), 5, ImageRetentionPolicy::DropWhenUnusedForOneFrame),
        )
        .unwrap();
    assert_eq!(previous.retention_policy, ImageRetentionPolicy::Forever);
    assert_eq!(store.len(), 2);
    assert_eq!(
        store.get("a").unwrap().retention_policy,
        ImageRetentionPolicy::DropWhenUnusedForOneFrame
    );
    assert!(matches!(store.get("a").unwrap().image, ImageOrId::Image(_, 5)));
    assert!(matches!(store.get("b").unwrap().image, ImageOrId::Image(_, 4)));

    let removed = store.remove("a").unwrap();
    assert!(matches!(removed.image, ImageOrId::Image(_, 5)));
    assert!(store.remove("a").is_none());
    assert_eq!(store.len(), 1);
    assert!(!store.contains("a"));
    assert!(store.contains("b"));
}

#[test]
fn a_fresh_entry_is_in_use_and_clean() {
    let stored = StoredImage::new(two_by_one(), 9, ImageRetentionPolicy::DropWhenUnusedForOneFrame);
    assert!(stored.used);
    assert!(!stored.dirty);
    assert!(stored.observers.is_empty());
    assert_eq!(stored.retention_policy, ImageRetentionPolicy::DropWhenUnusedForOneFrame);
    assert!(matches!(stored.image, ImageOrId::Image(_, 9)));
    assert_eq!(stored.image.dimensions(), (2, 1));
}

#[test]
fn the_placeholder_is_drawn_with_nearest_sampling() {
    let stored = StoredImage::placeholder(&DecodedImage::broken_image().unwrap());
    assert!(is_placeholder(&stored));
    match stored.image {
        ImageOrId::Image(_, flags) => {
            assert_eq!(flags, ImageFlags::NEAREST.bits());
            assert_eq!(flags, 32);
        }
        ImageOrId::Id(_, _) => panic!("the placeholder is decoded"),
    }
}

#[test]
fn marking_unused_clears_every_flag_and_nothing_else() {
    let mut manager: ResourceManager<NoLoader> = ResourceManager::new().unwrap();
    manager
        .images
        .insert("a".to_owned(), StoredImage::new(two_by_one(), 0, ImageRetentionPolicy::Forever));
    manager.images.insert(
        "b".to_owned(),
        StoredImage::new(two_by_one(), 0, ImageRetentionPolicy::DropWhenUnusedForOneFrame),
    );
    manager.mark_images_unused();
    assert_eq!(manager.images.len(), 2);
    assert!(!manager.images.get("a").unwrap().used);
    assert!(!manager.images.get("b").unwrap().used);
    assert_eq!(manager.images.get("a").unwrap().retention_policy, ImageRetentionPolicy::Forever);
    assert_eq!(
        manager.images.get("b").unwrap().retention_policy,
        ImageRetentionPolicy::DropWhenUnusedForOneFrame
    );
}

#[test]
fn eviction_takes_what_is_unused_and_not_kept_forever() {
    let mut manager: ResourceManager<NoLoader> = ResourceManager::new().unwrap();
    let mut backend = Recorded::new(Backend::new());
    let policies = [
        ("forever, used", ImageRetentionPolicy::Forever, true),
        ("forever, unused", ImageRetentionPolicy::Forever, false),
        ("evictable, used", ImageRetentionPolicy::DropWhenUnusedForOneFrame, true),
        ("evictable, unused", ImageRetentionPolicy::DropWhenUnusedForOneFrame, false),
        ("evictable, unused too", ImageRetentionPolicy::DropWhenUnusedForOneFrame, false),
    ];
    for (name, policy, used) in policies {
        let mut stored = StoredImage::new(two_by_one(), 0, policy);
        stored.used = used;
        manager.images.insert(name.to_owned(), stored);
    }
    let evicted = manager.evict_unused_images(&mut backend);
    let mut names: Vec<String> = evicted.iter().map(|(name, _)| name.clone()).collect();
    names.sort();
    assert_eq!(names, vec!["evictable, unused".to_owned(), "evictable, unused too".to_owned()]);
    assert_eq!(manager.images.len(), 3);
    assert!(manager.images.contains("forever, used"));
    assert!(manager.images.contains("forever, unused"));
    assert!(manager.images.contains("evictable, used"));
    assert!(!manager.images.contains("evictable, unused"));
    assert!(!manager.images.contains("evictable, unused too"));
    // they were decoded only, so the backend had nothing to free
    assert!(backend.backend().deleted.is_empty());
    // nothing is left to take
    assert!(manager.evict_unused_images(&mut backend).is_empty());
}

#[test]
fn eviction_frees_the_handles_of_what_it_takes() {
    let mut manager: ResourceManager<NoLoader> = ResourceManager::new().unwrap();
    let mut backend = Recorded::new(Backend::new());
    let mut handles = Vec::new();
    for name in ["a", "b", "c"] {
        let mut stored =
            StoredImage::new(two_by_one(), 0, ImageRetentionPolicy::DropWhenUnusedForOneFrame);
        handles.push(stored.image.id(&mut backend));
        stored.used = name == "b";
        manager.images.insert(name.to_owned(), stored);
    }
    let evicted = manager.evict_unused_images(&mut backend);
    assert_eq!(evicted.len(), 2);
    // the handles were freed in the order of the list that is handed out
    assert_eq!(backend.backend().deleted, handles_of(&evicted));
    let mut freed = backend.backend().deleted.clone();
    freed.sort();
    let mut wanted = vec![handles[0], handles[2]];
    wanted.sort();
    assert_eq!(freed, wanted);
    assert!(backend.backend().canvas.image_info(handles[0]).is_err());
    assert!(backend.backend().canvas.image_info(handles[1]).is_ok());
    assert!(backend.backend().canvas.image_info(handles[2]).is_err());
}

#[test]
fn only_uploaded_entries_have_a_handle_to_free() {
    // handles as femtovg makes them: places in its arena of images
    let first = ImageId(Index::from_raw_parts(0, 0));
    let second = ImageId(Index::from_raw_parts(3, 1));
    let mut uploaded = StoredImage::new(two_by_one(), 0, ImageRetentionPolicy::Forever);
    uploaded.image = ImageOrId::Id(first, (2, 1));
    let mut other = StoredImage::new(two_by_one(), 0, ImageRetentionPolicy::Forever);
    other.image = ImageOrId::Id(second, (2, 1));
    let mut same = StoredImage::new(two_by_one(), 0, ImageRetentionPolicy::Forever);
    same.image = ImageOrId::Id(first, (2, 1));
    let decoded = StoredImage::new(two_by_one(), 0, ImageRetentionPolicy::Forever);
    let entries = vec![
        ("a".to_owned(), uploaded),
        ("b".to_owned(), decoded),
        ("c".to_owned(), other),
        ("d".to_owned(), same),
    ];
    assert_eq!(handles_of(&entries), vec![first, second, first]);
    assert_eq!(handles_of(&Vec::new()), Vec::new());
}

#[test]
fn a_loader_that_does_nothing_can_be_registered() {
    let mut cx = context::<NoLoader>();
    cx.resource_manager.image_loader = Some(Registered::new(NoLoader));
    cx.tree = vec![X];
    cx.style.image.insert(X, "pic".to_owned());
    image_system(&mut cx);
    // the placeholder was put in, the loader left it alone, and the second look sent it on
    assert!(handle(entry(&cx, "pic")).is_some());
    assert_eq!(entry(&cx, "pic").retention_policy, ImageRetentionPolicy::Forever);
    assert_eq!(cx.canvas.backend().created.len(), 1);
    assert!(cx.resource_manager.image_loader.is_some());
}

#[test]
fn an_image_goes_to_the_backend_once_and_keeps_its_handle() {
    let mut backend = Recorded::new(Backend::new());
    let mut image = ImageOrId::Image(two_by_one(), 3);
    assert_eq!(image.dimensions(), (2, 1));
    let id = image.id(&mut backend);
    assert_eq!(backend.backend().created, vec![(id, 2, 1, 3)]);
    assert!(matches!(image, ImageOrId::Id(held, (2, 1)) if held == id));
    assert_eq!(image.dimensions(), (2, 1));
    // asked again, it answers with the same handle and the backend hears nothing
    assert_eq!(image.id(&mut backend), id);
    assert_eq!(backend.backend().created.len(), 1);
}

#[test]
fn the_backend_hears_every_call_in_order() {
    let mut backend = Recorded::new(Backend::new());
    let first = backend.create_image(&two_by_one(), 1);
    let second = backend.create_image(&DecodedImage::broken_image().unwrap(), 2);
    assert_ne!(first, second);
    assert_eq!(backend.backend().created, vec![(first, 2, 1, 1), (second, 8, 8, 2)]);
    assert!(backend.backend().canvas.image_info(first).is_ok());
    backend.delete_image(first);
    assert_eq!(backend.backend().deleted, vec![first]);
    assert!(backend.backend().canvas.image_info(first).is_err());
    assert!(backend.backend().canvas.image_info(second).is_ok());
}

#[test]
fn releasing_frees_each_handle_in_turn() {
    let mut backend = Recorded::new(Backend::new());
    let first = backend.create_image(&two_by_one(), 0);
    let second = backend.create_image(&two_by_one(), 0);
    let third = backend.create_image(&two_by_one(), 0);
    release_images(&mut backend, &vec![third, first]);
    assert_eq!(backend.backend().deleted, vec![third, first]);
    assert!(backend.backend().canvas.image_info(second).is_ok());
    release_images(&mut backend, &Vec::new());
    assert_eq!(backend.backend().deleted, vec![third, first]);
}

#[test]
fn an_unseen_image_gets_the_placeholder() {
    let mut cx = context::<NoLoader>();
    assert!(!try_load_image(&mut cx, X, "never seen"));
    assert_eq!(cx.resource_manager.images.len(), 1);
    let stored = entry(&cx, "never seen");
    assert!(is_placeholder(stored));
    assert!(stored.used);
    assert!(!stored.dirty);
    assert_eq!(stored.retention_policy, ImageRetentionPolicy::Forever);
    assert!(stored.observers.is_empty());
    // nothing went to the backend, and nothing has to be laid out or drawn again
    assert!(cx.canvas.backend().created.is_empty());
    assert!(!cx.needs_relayout);
    assert!(!cx.needs_redraw);
}

#[test]
fn a_decoded_image_is_uploaded_when_it_is_asked_for() {
    let mut cx = context::<NoLoader>();
    let mut stored =
        StoredImage::new(two_by_one(), 5, ImageRetentionPolicy::DropWhenUnusedForOneFrame);
    stored.used = false;
    stored.dirty = true;
    stored.observers.insert(Y);
    cx.resource_manager.images.insert("pic".to_owned(), stored);

    assert!(try_load_image(&mut cx, X, "pic"));
    assert_eq!(cx.canvas.backend().created.len(), 1);
    let (id, width, height, flags) = cx.canvas.backend().created[0];
    assert_eq!((width, height, flags), (2, 1, 5));
    let stored = entry(&cx, "pic");
    assert!(matches!(stored.image, ImageOrId::Id(held, (2, 1)) if held == id));
    assert!(stored.used);
    // the rest of the entry is carried through, and the node is not yet an observer
    assert!(stored.dirty);
    assert_eq!(stored.retention_policy, ImageRetentionPolicy::DropWhenUnusedForOneFrame);
    assert_eq!(stored.observers.len(), 1);
    assert!(stored.observers.contains(&Y));
    assert!(cx.needs_relayout);
    assert!(cx.needs_redraw);
}

#[test]
fn an_uploaded_image_gains_the_node_as_an_observer() {
    let mut cx = context::<NoLoader>();
    cx.resource_manager
        .images
        .insert("pic".to_owned(), StoredImage::new(two_by_one(), 0, ImageRetentionPolicy::Forever));
    assert!(try_load_image(&mut cx, X, "pic"));
    cx.needs_relayout = false;
    cx.needs_redraw = false;
    cx.resource_manager.mark_images_unused();
    let id = handle(entry(&cx, "pic")).unwrap();

    assert!(try_load_image(&mut cx, X, "pic"));
    let stored = entry(&cx, "pic");
    assert_eq!(handle(stored), Some(id));
    assert!(stored.used);
    assert_eq!(stored.observers.len(), 1);
    assert!(stored.observers.contains(&X));
    // no call to the backend, and no request for layout or drawing
    assert_eq!(cx.canvas.backend().created.len(), 1);
    assert!(!cx.needs_relayout);
    assert!(!cx.needs_redraw);
}

#[test]
fn asking_twice_is_asking_once() {
    let mut cx = context::<NoLoader>();
    cx.resource_manager
        .images
        .insert("pic".to_owned(), StoredImage::new(two_by_one(), 0, ImageRetentionPolicy::Forever));
    try_load_image(&mut cx, Y, "pic");
    cx.needs_relayout = false;
    cx.needs_redraw = false;

    assert!(try_load_image(&mut cx, X, "pic"));
    let once = (
        handle(entry(&cx, "pic")),
        entry(&cx, "pic").used,
        entry(&cx, "pic").dirty,
        entry(&cx, "pic").retention_policy,
        entry(&cx, "pic").observers.clone(),
        cx.needs_relayout,
        cx.needs_redraw,
        cx.canvas.backend().created.len(),
        cx.resource_manager.images.len(),
    );
    assert!(try_load_image(&mut cx, X, "pic"));
    let twice = (
        handle(entry(&cx, "pic")),
        entry(&cx, "pic").used,
        entry(&cx, "pic").dirty,
        entry(&cx, "pic").retention_policy,
        entry(&cx, "pic").observers.clone(),
        cx.needs_relayout,
        cx.needs_redraw,
        cx.canvas.backend().created.len(),
        cx.resource_manager.images.len(),
    );
    assert_eq!(once, twice);
    assert_eq!(once.4.len(), 1);
}

#[test]
fn asking_twice_for_an_unseen_image_uploads_the_placeholder() {
    let mut cx = context::<NoLoader>();
    assert!(!try_load_image(&mut cx, X, "pic"));
    assert!(is_placeholder(entry(&cx, "pic")));
    // the second asking finds the placeholder, decoded, and sends it to the backend
    assert!(try_load_image(&mut cx, X, "pic"));
    assert!(handle(entry(&cx, "pic")).is_some());
    assert_eq!(cx.canvas.backend().created.len(), 1);
    assert!(entry(&cx, "pic").observers.is_empty());
    // the third makes the node an observer, and from then on nothing changes
    assert!(try_load_image(&mut cx, X, "pic"));
    assert!(entry(&cx, "pic").observers.contains(&X));
    assert!(try_load_image(&mut cx, X, "pic"));
    assert_eq!(entry(&cx, "pic").observers.len(), 1);
    assert_eq!(cx.canvas.backend().created.len(), 1);
}

#[test]
fn without_a_loader_the_placeholder_stays() {
    let mut cx = context::<NoLoader>();
    load_image(&mut cx, X, &"missing".to_owned());
    assert!(is_placeholder(entry(&cx, "missing")));
    assert!(entry(&cx, "missing").used);
    assert!(cx.resource_manager.image_loader.is_none());
    assert!(cx.canvas.backend().created.is_empty());
}

#[test]
fn the_loader_is_called_for_an_image_that_is_not_cached() {
    let mut cx = context::<Loader>();
    cx.resource_manager.image_loader =
        Some(Registered::new(Loader::new(ImageRetentionPolicy::DropWhenUnusedForOneFrame)));
    load_image(&mut cx, X, &"pic".to_owned());

    let loader = cx.resource_manager.image_loader.as_ref().unwrap().loader();
    assert_eq!(*loader.calls.borrow(), vec!["pic".to_owned()]);
    // what the loader put into the cache went to the backend in the same call
    assert_eq!(cx.canvas.backend().created.len(), 1);
    let (id, width, height, _) = cx.canvas.backend().created[0];
    assert_eq!((width, height), (2, 1));
    let stored = entry(&cx, "pic");
    assert_eq!(handle(stored), Some(id));
    assert!(stored.used);
    assert_eq!(stored.retention_policy, ImageRetentionPolicy::DropWhenUnusedForOneFrame);
    assert!(cx.needs_relayout);
    assert!(cx.needs_redraw);
}

#[test]
fn the_loader_is_out_of_its_slot_while_it_runs() {
    let mut cx = context::<Loader>();
    cx.resource_manager.image_loader =
        Some(Registered::new(Loader::new(ImageRetentionPolicy::Forever)));
    load_image(&mut cx, X, &"pic".to_owned());
    let loader = cx.resource_manager.image_loader.as_ref().unwrap().loader();
    assert!(loader.slot_was_empty.get());
    assert_eq!(loader.calls.borrow().len(), 1);
}

#[test]
fn the_loader_is_not_called_for_an_image_that_is_cached() {
    let mut cx = context::<Idle>();
    cx.resource_manager.image_loader = Some(Registered::new(Idle { calls: Cell::new(0) }));
    cx.resource_manager
        .images
        .insert("pic".to_owned(), StoredImage::new(two_by_one(), 0, ImageRetentionPolicy::Forever));
    load_image(&mut cx, X, &"pic".to_owned());
    assert_eq!(cx.resource_manager.image_loader.as_ref().unwrap().loader().calls.get(), 0);
    assert!(handle(entry(&cx, "pic")).is_some());
}

#[test]
fn a_loader_that_loads_nothing_is_asked_once_and_the_placeholder_is_uploaded() {
    let mut cx = context::<Idle>();
    cx.resource_manager.image_loader = Some(Registered::new(Idle { calls: Cell::new(0) }));
    load_image(&mut cx, X, &"pic".to_owned());
    assert_eq!(cx.resource_manager.image_loader.as_ref().unwrap().loader().calls.get(), 1);
    // the second look at the cache found the placeholder and sent it to the backend
    assert_eq!(cx.canvas.backend().created.len(), 1);
    assert_eq!(cx.canvas.backend().created[0].1, 8);
    assert_eq!(cx.canvas.backend().created[0].3, ImageFlags::NEAREST.bits());
    assert_eq!(entry(&cx, "pic").retention_policy, ImageRetentionPolicy::Forever);
    assert!(handle(entry(&cx, "pic")).is_some());
    // the placeholder entry is there from now on, so the loader is not asked again
    load_image(&mut cx, X, &"pic".to_owned());
    assert_eq!(cx.resource_manager.image_loader.as_ref().unwrap().loader().calls.get(), 1);
}

#[test]
fn a_frame_over_an_empty_tree_leaves_an_empty_cache() {
    let mut cx = context::<NoLoader>();
    image_system(&mut cx);
    assert_eq!(cx.resource_manager.images.len(), 0);
    assert!(cx.canvas.backend().created.is_empty());
    assert!(cx.canvas.backend().deleted.is_empty());
    assert!(!cx.needs_relayout);
    assert!(!cx.needs_redraw);
}

#[test]
fn nodes_without_images_ask_for_nothing() {
    let mut cx = context::<NoLoader>();
    cx.tree = vec![1, 2, 3];
    cx.style.image.insert(9, "not in the tree".to_owned());
    image_system(&mut cx);
    assert_eq!(cx.resource_manager.images.len(), 0);
}

#[test]
fn the_background_image_is_asked_for_before_the_image() {
    let mut cx = context::<Loader>();
    cx.resource_manager.image_loader =
        Some(Registered::new(Loader::new(ImageRetentionPolicy::Forever)));
    cx.tree = vec![X, Y];
    cx.style.image.insert(X, "x image".to_owned());
    cx.style.background_image.insert(X, "x background".to_owned());
    cx.style.image.insert(Y, "y image".to_owned());
    image_system(&mut cx);
    let loader = cx.resource_manager.image_loader.as_ref().unwrap().loader();
    assert_eq!(
        *loader.calls.borrow(),
        vec!["x background".to_owned(), "x image".to_owned(), "y image".to_owned()]
    );
    assert_eq!(cx.resource_manager.images.len(), 3);
}

#[test]
fn an_image_kept_forever_survives_frames_in_which_nobody_asks() {
    let mut cx = context::<NoLoader>();
    cx.resource_manager.images.insert(
        "kept".to_owned(),
        StoredImage::new(two_by_one(), 0, ImageRetentionPolicy::Forever),
    );
    for _ in 0..5 {
        image_system(&mut cx);
        let stored = entry(&cx, "kept");
        assert!(!stored.used);
        assert_eq!(stored.retention_policy, ImageRetentionPolicy::Forever);
    }
    assert_eq!(cx.resource_manager.images.len(), 1);
    assert!(cx.canvas.backend().deleted.is_empty());
}

#[test]
fn an_evictable_image_leaves_in_the_first_frame_in_which_nobody_asks() {
    let mut cx = context::<NoLoader>();
    cx.resource_manager.images.insert(
        "pic".to_owned(),
        StoredImage::new(two_by_one(), 0, ImageRetentionPolicy::DropWhenUnusedForOneFrame),
    );
    cx.resource_manager.images.insert(
        "other".to_owned(),
        StoredImage::new(two_by_one(), 0, ImageRetentionPolicy::DropWhenUnusedForOneFrame),
    );
    cx.tree = vec![X, Y];
    cx.style.image.insert(X, "pic".to_owned());
    cx.style.image.insert(Y, "other".to_owned());

    // frame N: both are asked for
    image_system(&mut cx);
    assert!(entry(&cx, "pic").used);
    assert!(entry(&cx, "other").used);

    // frame N + 1: only one of them is
    cx.style.image.remove(&X);
    image_system(&mut cx);
    assert!(!cx.resource_manager.images.contains("pic"));
    assert!(cx.resource_manager.images.contains("other"));

    // frame N + 2 starts without it
    assert!(cx.resource_manager.images.get("pic").is_none());
    image_system(&mut cx);
    assert!(!cx.resource_manager.images.contains("pic"));
    assert!(cx.resource_manager.images.contains("other"));
}

#[test]
fn the_placeholder_comes_first_and_is_uploaded_in_the_next_frame() {
    // node X has a background image "logo", and nothing is cached
    let mut cx = context::<Loader>();
    cx.tree = vec![X];
    cx.style.background_image.insert(X, "logo".to_owned());

    image_system(&mut cx);
    assert_eq!(cx.resource_manager.images.len(), 1);
    assert!(is_placeholder(entry(&cx, "logo")));
    assert!(entry(&cx, "logo").used);
    assert!(entry(&cx, "logo").observers.is_empty());

    // a loader is registered that would put a decoded "logo" into the cache
    cx.resource_manager.image_loader =
        Some(Registered::new(Loader::new(ImageRetentionPolicy::Forever)));

    // the next frame finds the entry and hands it to the backend
    image_system(&mut cx);
    assert_eq!(cx.resource_manager.images.len(), 1);
    assert!(handle(entry(&cx, "logo")).is_some());
    assert!(entry(&cx, "logo").used);
    assert_eq!(cx.canvas.backend().created.len(), 1);
    // the name was cached all along, so the loader was not asked
    assert!(cx.resource_manager.image_loader.as_ref().unwrap().loader().calls.borrow().is_empty());

    // from the frame after that on, X observes the uploaded image
    image_system(&mut cx);
    assert!(handle(entry(&cx, "logo")).is_some());
    assert!(entry(&cx, "logo").observers.contains(&X));
    assert_eq!(entry(&cx, "logo").observers.len(), 1);
    assert_eq!(cx.canvas.backend().created.len(), 1);
}

#[test]
fn a_loader_fills_the_cache_in_the_first_frame() {
    let mut cx = context::<Loader>();
    cx.resource_manager.image_loader =
        Some(Registered::new(Loader::new(ImageRetentionPolicy::Forever)));
    cx.tree = vec![X];
    cx.style.background_image.insert(X, "logo".to_owned());

    image_system(&mut cx);
    // the loader's picture, not the placeholder, went to the backend
    assert_eq!(cx.canvas.backend().created.len(), 1);
    assert_eq!((cx.canvas.backend().created[0].1, cx.canvas.backend().created[0].2), (2, 1));
    assert!(handle(entry(&cx, "logo")).is_some());
    assert!(entry(&cx, "logo").observers.is_empty());

    image_system(&mut cx);
    assert!(entry(&cx, "logo").observers.contains(&X));
    assert_eq!(cx.canvas.backend().created.len(), 1);
    assert_eq!(cx.resource_manager.image_loader.as_ref().unwrap().loader().calls.borrow().len(), 1);
}

#[test]
fn two_nodes_share_one_entry() {
    let mut cx = context::<NoLoader>();
    cx.tree = vec![X, Y];
    cx.style.image.insert(X, "icon".to_owned());
    cx.style.background_image.insert(Y, "icon".to_owned());

    image_system(&mut cx);
    image_system(&mut cx);
    assert_eq!(cx.resource_manager.images.len(), 1);
    let stored = entry(&cx, "icon");
    assert!(stored.observers.contains(&X));
    assert!(stored.observers.contains(&Y));
    assert_eq!(stored.observers.len(), 2);
    // one image, sent to the backend once
    assert_eq!(cx.canvas.backend().created.len(), 1);
}

#[test]
fn eviction_frees_the_handle_once() {
    let mut cx = context::<NoLoader>();
    cx.resource_manager.images.insert(
        "pic".to_owned(),
        StoredImage::new(two_by_one(), 0, ImageRetentionPolicy::DropWhenUnusedForOneFrame),
    );
    cx.tree = vec![X];
    cx.style.image.insert(X, "pic".to_owned());
    image_system(&mut cx);
    let id = handle(entry(&cx, "pic")).unwrap();
    assert!(cx.canvas.backend().canvas.image_info(id).is_ok());
    assert!(cx.canvas.backend().deleted.is_empty());

    // no node asks for it any more
    cx.style.image.remove(&X);
    image_system(&mut cx);
    assert!(!cx.resource_manager.images.contains("pic"));
    assert_eq!(cx.canvas.backend().deleted, vec![id]);
    assert!(cx.canvas.backend().canvas.image_info(id).is_err());

    // and nothing more is freed later
    image_system(&mut cx);
    assert_eq!(cx.canvas.backend().deleted, vec![id]);
}

#[test]
fn eviction_of_a_decoded_image_frees_nothing() {
    let mut cx = context::<NoLoader>();
    cx.resource_manager.images.insert(
        "pic".to_owned(),
        StoredImage::new(two_by_one(), 0, ImageRetentionPolicy::DropWhenUnusedForOneFrame),
    );
    image_system(&mut cx);
    assert!(!cx.resource_manager.images.contains("pic"));
    assert!(cx.canvas.backend().deleted.is_empty());
}

#[test]
fn an_image_asked_for_again_after_eviction_shows_the_placeholder() {
    let mut cx = context::<NoLoader>();
    cx.resource_manager.images.insert(
        "pic".to_owned(),
        StoredImage::new(two_by_one(), 0, ImageRetentionPolicy::DropWhenUnusedForOneFrame),
    );
    cx.tree = vec![X];
    cx.style.image.insert(X, "pic".to_owned());
    image_system(&mut cx);
    assert!(handle(entry(&cx, "pic")).is_some());

    // removed from every node's style for two frames
    cx.style.image.remove(&X);
    image_system(&mut cx);
    image_system(&mut cx);
    assert!(!cx.resource_manager.images.contains("pic"));

    // asked for again: the cache misses, and the placeholder is shown
    cx.style.image.insert(X, "pic".to_owned());
    image_system(&mut cx);
    assert!(is_placeholder(entry(&cx, "pic")));
    assert_eq!(entry(&cx, "pic").retention_policy, ImageRetentionPolicy::Forever);
}

#[test]
fn an_image_asked_for_again_without_eviction_is_reused() {
    let mut cx = context::<NoLoader>();
    cx.resource_manager
        .images
        .insert("pic".to_owned(), StoredImage::new(two_by_one(), 0, ImageRetentionPolicy::Forever));
    cx.tree = vec![X];
    cx.style.image.insert(X, "pic".to_owned());
    image_system(&mut cx);
    let id = handle(entry(&cx, "pic")).unwrap();

    cx.style.image.remove(&X);
    image_system(&mut cx);
    image_system(&mut cx);
    assert!(cx.resource_manager.images.contains("pic"));
    assert!(!entry(&cx, "pic").used);

    cx.style.image.insert(X, "pic".to_owned());
    image_system(&mut cx);
    assert_eq!(handle(entry(&cx, "pic")), Some(id));
    assert!(entry(&cx, "pic").used);
    assert!(entry(&cx, "pic").observers.contains(&X));
    assert_eq!(cx.canvas.backend().created.len(), 1);
    assert!(cx.canvas.backend().deleted.is_empty());
}

/// A context in which a loader is registered and node X asks for an image
/// that is not cached, so that the frame reaches the loader.
fn context_with_a_miss(policy: ImageRetentionPolicy) -> Context<Backend, Loader> {
    let mut cx = context::<Loader>();
    cx.resource_manager.image_loader = Some(Registered::new(Loader::new(policy)));
    cx.tree = vec![X, Y];
    cx.style.background_image.insert(X, "new".to_owned());
    cx
}

fn uploaded(cx: &mut Context<Backend, Loader>, policy: ImageRetentionPolicy) -> StoredImage {
    let mut stored = StoredImage::new(two_by_one(), 0, policy);
    stored.image.id(&mut cx.canvas);
    stored
}

#[test]
fn with_a_loader_at_work_what_is_kept_forever_stays_as_it_is() {
    let mut cx = context_with_a_miss(ImageRetentionPolicy::Forever);
    let mut stored = uploaded(&mut cx, ImageRetentionPolicy::Forever);
    stored.dirty = true;
    stored.observers.insert(99);
    let id = handle(&stored).unwrap();
    cx.resource_manager.images.insert("kept".to_owned(), stored);

    for frame in 0..3 {
        image_system(&mut cx);
        let stored = entry(&cx, "kept");
        assert_eq!(handle(stored), Some(id));
        assert_eq!(stored.retention_policy, ImageRetentionPolicy::Forever);
        assert!(stored.dirty);
        assert!(!stored.used);
        assert_eq!(stored.observers.len(), 1);
        assert!(stored.observers.contains(&99));
        // the loader was reached in the first frame, and only then
        let calls = cx.resource_manager.image_loader.as_ref().unwrap().loader().calls.borrow();
        assert_eq!(*calls, vec!["new".to_owned()], "frame {}", frame);
    }
    assert!(cx.canvas.backend().deleted.is_empty());
}

#[test]
fn with_a_loader_at_work_what_nobody_asked_for_is_evicted_and_freed_once() {
    let mut cx = context_with_a_miss(ImageRetentionPolicy::DropWhenUnusedForOneFrame);
    let leaving = uploaded(&mut cx, ImageRetentionPolicy::DropWhenUnusedForOneFrame);
    let gone = handle(&leaving).unwrap();
    cx.resource_manager.images.insert("old".to_owned(), leaving);
    let staying = uploaded(&mut cx, ImageRetentionPolicy::DropWhenUnusedForOneFrame);
    let kept = handle(&staying).unwrap();
    cx.resource_manager.images.insert("icon".to_owned(), staying);
    let decoded =
        StoredImage::new(two_by_one(), 0, ImageRetentionPolicy::DropWhenUnusedForOneFrame);
    cx.resource_manager.images.insert("decoded".to_owned(), decoded);
    cx.style.image.insert(X, "icon".to_owned());
    cx.style.image.insert(Y, "icon".to_owned());

    image_system(&mut cx);
    let calls = cx.resource_manager.image_loader.as_ref().unwrap().loader().calls.borrow().clone();
    assert_eq!(calls, vec!["new".to_owned()]);
    // what no node asked for is gone, uploaded or not
    assert!(!cx.resource_manager.images.contains("old"));
    assert!(!cx.resource_manager.images.contains("decoded"));
    // its handle was freed once, and no handle of an entry that is left
    assert_eq!(cx.canvas.backend().deleted, vec![gone]);
    assert!(cx.canvas.backend().canvas.image_info(kept).is_ok());
    // every image that a node asked for has an entry, in use
    assert_eq!(cx.resource_manager.images.len(), 2);
    assert!(entry(&cx, "new").used);
    assert!(entry(&cx, "icon").used);
    // the uploaded image kept its handle and gained both nodes
    assert_eq!(handle(entry(&cx, "icon")), Some(kept));
    assert!(entry(&cx, "icon").observers.contains(&X));
    assert!(entry(&cx, "icon").observers.contains(&Y));
    assert_eq!(entry(&cx, "icon").observers.len(), 2);
    // what the loader put in went to the backend in the same frame
    assert!(handle(entry(&cx, "new")).is_some());
    assert!(entry(&cx, "new").observers.is_empty());
}

#[test]
fn after_a_frame_nothing_is_left_that_is_unused_and_evictable() {
    for policy in [ImageRetentionPolicy::Forever, ImageRetentionPolicy::DropWhenUnusedForOneFrame] {
        let mut cx = context_with_a_miss(policy);
        for name in ["a", "b", "c"] {
            let stored = uploaded(&mut cx, ImageRetentionPolicy::DropWhenUnusedForOneFrame);
            cx.resource_manager.images.insert(name.to_owned(), stored);
        }
        cx.resource_manager.images.insert(
            "kept".to_owned(),
            StoredImage::new(two_by_one(), 0, ImageRetentionPolicy::Forever),
        );
        cx.style.image.insert(Y, "b".to_owned());
        image_system(&mut cx);
        for name in ["a", "b", "c", "kept", "new"] {
            if let Some(stored) = cx.resource_manager.images.get(name) {
                assert!(stored.used || stored.retention_policy == ImageRetentionPolicy::Forever);
                assert_eq!(stored.used, name == "b" || name == "new");
            }
        }
        assert!(cx.resource_manager.images.contains("b"));
        assert!(cx.resource_manager.images.contains("new"));
        assert!(cx.resource_manager.images.contains("kept"));
        assert!(!cx.resource_manager.images.contains("a"));
        assert!(!cx.resource_manager.images.contains("c"));
    }
}

#[test]
fn the_first_call_of_the_loader_is_for_the_first_image_that_is_not_cached() {
    let mut cx = context::<Loader>();
    cx.resource_manager.image_loader =
        Some(Registered::new(Loader::new(ImageRetentionPolicy::Forever)));
    cx.resource_manager
        .images
        .insert("cached".to_owned(), StoredImage::new(two_by_one(), 0, ImageRetentionPolicy::Forever));
    cx.tree = vec![X, Y];
    cx.style.background_image.insert(X, "cached".to_owned());
    cx.style.image.insert(X, "first".to_owned());
    cx.style.background_image.insert(Y, "second".to_owned());
    image_system(&mut cx);
    let calls = cx.resource_manager.image_loader.as_ref().unwrap().loader().calls.borrow().clone();
    assert_eq!(calls, vec!["first".to_owned(), "second".to_owned()]);
}

#[test]
fn observers_are_never_purged() {
    let mut cx = context::<NoLoader>();
    cx.tree = vec![X];
    cx.style.image.insert(X, "pic".to_owned());
    image_system(&mut cx);
    image_system(&mut cx);
    image_system(&mut cx);
    assert!(entry(&cx, "pic").observers.contains(&X));

    // the node is gone; the entry still lists it
    cx.tree = Vec::new();
    image_system(&mut cx);
    assert!(entry(&cx, "pic").observers.contains(&X));
}

#[test]
fn asking_for_layout_and_drawing_twice_is_asking_once() {
    let mut cx = context::<NoLoader>();
    cx.need_relayout();
    assert!(cx.needs_relayout);
    assert!(!cx.needs_redraw);
    cx.need_relayout();
    assert!(cx.needs_relayout);
    cx.need_redraw();
    cx.need_redraw();
    assert!(cx.needs_relayout);
    assert!(cx.needs_redraw);
}
