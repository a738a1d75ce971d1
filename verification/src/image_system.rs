//! The frame's pass over the images: every image that a node names is made
//! present, and what no node named is dropped.

use crate::backend::{BackendCall, RenderBackend};
use crate::context::{
    called, lemma_called_again, lemma_not_called, Context, Entity, ImageLoader, LoaderCall,
    Registered, Style,
};
use crate::decoded::Pixels;
use crate::lifecycle::lemma_requests_keep_entries;
use crate::resource::{
    deletions, handles, placeholder, ImageOrId, ImageOrIdView, ResourceManager, StoredImage,
    StoredImageView,
};
use crate::store::evictable;
use crate::store::{dropped, kept, lists, unused};
use femtovg::ImageId;
use vstd::prelude::*;

verus! {

broadcast use vstd::std_specs::hash::group_hash_axioms;

/// What asking for an image on behalf of a node makes of its entry. An image
/// that the backend holds gains the node as an observer; a decoded one goes
/// to the backend, which holds it under `id` from then on. Either way the
/// entry is in use.
pub open spec fn touched(entry: StoredImageView, entity: Entity, id: ImageId) -> StoredImageView {
    match entry.image {
        ImageOrIdView::Id(_, _) => StoredImageView {
            used: true,
            observers: entry.observers.insert(entity),
            ..entry
        },
        ImageOrIdView::Image(_, _) => StoredImageView {
            image: entry.image.uploaded(id),
            used: true,
            ..entry
        },
    }
}

/// The cache after a node asked for an image: the entry that was there,
/// touched, or else the placeholder. `id` is the handle that the backend
/// gives if it is asked for one.
pub open spec fn resolved(
    images: Map<Seq<char>, StoredImageView>,
    fallback: Pixels,
    entity: Entity,
    name: Seq<char>,
    id: ImageId,
) -> Map<Seq<char>, StoredImageView> {
    if images.contains_key(name) {
        images.insert(name, touched(images[name], entity, id))
    } else {
        images.insert(name, placeholder(fallback))
    }
}

/// Whether asking for the image sends it to the backend: it is cached, and
/// still decoded.
pub open spec fn uploads(images: Map<Seq<char>, StoredImageView>, name: Seq<char>) -> bool {
    images.contains_key(name) && images[name].image is Image
}

/// The calls that asking for the image makes to the backend: one, which
/// hands over the decoded pixels with their flags and is answered with `id`,
/// or none.
pub open spec fn upload_calls(
    images: Map<Seq<char>, StoredImageView>,
    name: Seq<char>,
    id: ImageId,
) -> Seq<BackendCall> {
    if images.contains_key(name) {
        match images[name].image {
            ImageOrIdView::Image(image, flags) => seq![BackendCall::Create { image, flags, id }],
            ImageOrIdView::Id(_, _) => Seq::empty(),
        }
    } else {
        Seq::empty()
    }
}

/// One node's asking for one image leads from `pre` to `post`, where the
/// backend answers with `id` if it is called: the cache is `resolved`, the
/// backend has received the `upload_calls`, and a new layout and a redraw are
/// asked for if an image went to the backend. Nothing else changes.
pub open spec fn resolves_with<B, L>(
    pre: Context<B, L>,
    entity: Entity,
    name: Seq<char>,
    id: ImageId,
    post: Context<B, L>,
) -> bool {
    let images = pre.resource_manager.images@;
    &&& post.resource_manager.images@ == resolved(
        images,
        pre.resource_manager.broken_image@,
        entity,
        name,
        id,
    )
    &&& post.canvas.calls() == pre.canvas.calls() + upload_calls(images, name, id)
    &&& !uploads(images, name) ==> post.canvas == pre.canvas
    &&& post.needs_relayout == (pre.needs_relayout || uploads(images, name))
    &&& post.needs_redraw == (pre.needs_redraw || uploads(images, name))
    &&& post.tree == pre.tree
    &&& post.style == pre.style
    &&& post.resource_manager.broken_image == pre.resource_manager.broken_image
    &&& post.resource_manager.image_loader == pre.resource_manager.image_loader
}

/// One node's asking for one image leads from `pre` to `post`, whatever
/// handle the backend answers with.
pub open spec fn resolves<B, L>(
    pre: Context<B, L>,
    entity: Entity,
    name: Seq<char>,
    post: Context<B, L>,
) -> bool {
    exists|id: ImageId| resolves_with(pre, entity, name, id, post)
}

/// The calls that asking for the image makes to the loader, if there is one:
/// none for an image that is cached, and else one, with the name and with
/// the placeholder already in the cache.
pub open spec fn loader_calls(
    images: Map<Seq<char>, StoredImageView>,
    fallback: Pixels,
    name: Seq<char>,
) -> Seq<LoaderCall> {
    if images.contains_key(name) {
        Seq::empty()
    } else {
        seq![LoaderCall { name, images: images.insert(name, placeholder(fallback)) }]
    }
}

/// Makes an image present for a node, as far as the cache alone can.
///
/// An image that is cached is touched: the answer is `true`. One that is not
/// gets the placeholder as its entry, so that there is something to draw:
/// the answer is `false`, and the caller may try the loader.
pub fn try_load_image<B: RenderBackend, L>(
    cx: &mut Context<B, L>,
    entity: Entity,
    image_name: &str,
) -> (found: bool)
    ensures
        found == old(cx).resource_manager.images@.contains_key(image_name@),
        resolves(*old(cx), entity, image_name@, *final(cx)),
{
    let ghost before = cx.resource_manager.images@;
    let ghost fallback = cx.resource_manager.broken_image@;
    // Check if the image is already loaded
    match cx.resource_manager.images.remove(image_name) {
        Some(stored) => {
            let mut stored = stored;
            let ghost id: ImageId;
            match stored.image {
                // Image exists and is already loaded so just add this entity as an observer
                // and mark image as used
                ImageOrId::Id(held, _) => {
                    stored.observers.insert(entity);
                    stored.used = true;
                    proof {
                        id = held;
                    }
                },
                // Image exists but isn't loaded yet
                ImageOrId::Image(_, _) => {
                    // This loads the image and sets the image id
                    let assigned = stored.image.id(&mut cx.canvas);
                    stored.used = true;
                    cx.need_relayout();
                    cx.need_redraw();
                    proof {
                        id = assigned;
                    }
                },
            }
            cx.resource_manager.images.insert(image_name.to_owned(), stored);
            proof {
                assert(cx.resource_manager.images@ =~= resolved(
                    before,
                    fallback,
                    entity,
                    image_name@,
                    id,
                ));
                assert(cx.canvas.calls() =~= old(cx).canvas.calls() + upload_calls(
                    before,
                    image_name@,
                    id,
                ));
                assert(resolves_with(*old(cx), entity, image_name@, id, *cx));
            }
            true
        },
        None => {
            // Image doesn't exist yet so show the placeholder image
            let stored = StoredImage::placeholder(&cx.resource_manager.broken_image);
            cx.resource_manager.images.insert(image_name.to_owned(), stored);
            proof {
                let id: ImageId = arbitrary();
                assert(cx.resource_manager.images@ =~= resolved(
                    before,
                    fallback,
                    entity,
                    image_name@,
                    id,
                ));
                assert(resolves_with(*old(cx), entity, image_name@, id, *cx));
            }
            false
        },
    }
}

/// The context with its loader out of the slot.
pub open spec fn without_loader<B, L>(cx: Context<B, L>) -> Context<B, L> {
    with_slot(cx, None)
}

/// The context with this in the loader's slot.
pub open spec fn with_slot<B, L>(cx: Context<B, L>, slot: Option<Registered<L>>) -> Context<
    B,
    L,
> {
    Context {
        resource_manager: ResourceManager { image_loader: slot, ..cx.resource_manager },
        ..cx
    }
}

/// A node's asking for an image that is not cached, with a loader in the
/// slot, leads from `pre` to `post` by these steps. The cache is asked and
/// makes the placeholder the entry: `missed`. The loader is called with the
/// name, on that context with the slot empty, and leaves `loaded` behind.
/// The loader is put back, with the call on its record: `after`. Then the
/// cache is asked once more.
pub open spec fn asks_through<B, L: ImageLoader<B>>(
    pre: Context<B, L>,
    entity: Entity,
    name: Seq<char>,
    missed: Context<B, L>,
    loaded: Context<B, L>,
    after: Registered<L>,
    post: Context<B, L>,
) -> bool {
    let loader = pre.resource_manager.image_loader.unwrap();
    &&& resolves(pre, entity, name, missed)
    &&& loader.inner().loads(without_loader(missed), name, loaded)
    &&& after.inner() == loader.inner()
    &&& after.calls() == loader.calls().push(
        LoaderCall { name, images: missed.resource_manager.images@ },
    )
    &&& resolves(with_slot(loaded, Some(after)), entity, name, post)
}

/// A node's asking for an image leads from `pre` to `post`: by one asking of
/// the cache where the image is cached or there is no loader, and else
/// through the loader.
pub open spec fn asks<B, L: ImageLoader<B>>(
    pre: Context<B, L>,
    entity: Entity,
    name: Seq<char>,
    post: Context<B, L>,
) -> bool {
    if pre.resource_manager.images@.contains_key(name)
        || pre.resource_manager.image_loader is None {
        resolves(pre, entity, name, post)
    } else {
        exists|missed: Context<B, L>, loaded: Context<B, L>, after: Registered<L>|
            asks_through(pre, entity, name, missed, loaded, after, post)
    }
}

/// Makes an image present for a node.
///
/// Where the cache has no such image, the placeholder takes its place and the
/// loader, if there is one, is called with the name; after that the cache is
/// asked once more. While the loader runs it is not in its slot, so that it
/// cannot be called from within itself; it is back there afterwards.
///
/// The outcome is that of `asks`: what the loader does is its own affair,
/// and enters as the loader states it. Whatever it does, it is called at most
/// once, and afterwards the cache holds an entry of that name, in use.
pub fn load_image<B: RenderBackend, L: ImageLoader<B>>(
    cx: &mut Context<B, L>,
    entity: Entity,
    image_name: &String,
)
    ensures
        asks(*old(cx), entity, image_name@, *final(cx)),
        called(
            old(cx).resource_manager.image_loader,
            loader_calls(
                old(cx).resource_manager.images@,
                old(cx).resource_manager.broken_image@,
                image_name@,
            ),
            final(cx).resource_manager.image_loader,
        ),
        final(cx).resource_manager.images@.contains_key(image_name@),
        final(cx).resource_manager.images@[image_name@].used,
{
    let ghost slot = cx.resource_manager.image_loader;
    if !try_load_image(cx, entity, image_name.as_str()) {
        let ghost missed = *cx;
        // Image doesn't exist yet so call the image loader
        if let Some(callback) = cx.resource_manager.image_loader.take() {
            let mut callback = callback;
            assert(*cx == without_loader(missed));
            callback.load(cx, image_name.as_str());
            let ghost loaded = *cx;
            assert(callback.calls() =~= slot.unwrap().calls() + loader_calls(
                old(cx).resource_manager.images@,
                old(cx).resource_manager.broken_image@,
                image_name@,
            ));

            cx.resource_manager.image_loader = Some(callback);
            assert(*cx == with_slot(loaded, Some(callback)));

            // Then try to load the image again
            try_load_image(cx, entity, image_name.as_str());
            assert(asks_through(*old(cx), entity, image_name@, missed, loaded, callback, *cx));
        }
    } else {
        proof {
            lemma_not_called(slot);
        }
    }
}

/// One node's asking for one image.
pub struct Request {
    pub entity: Entity,
    pub name: Seq<char>,
}

/// What a node asks for: its background image first, then its image, as far
/// as the style gives it either.
pub open spec fn node_requests(style: Style, entity: Entity) -> Seq<Request> {
    let background = if style.background_image@.contains_key(entity) {
        seq![Request { entity, name: style.background_image@[entity]@ }]
    } else {
        Seq::empty()
    };
    let image = if style.image@.contains_key(entity) {
        seq![Request { entity, name: style.image@[entity]@ }]
    } else {
        Seq::empty()
    };
    background + image
}

/// What the nodes of a tree ask for, in the order of the tree.
pub open spec fn requests(tree: Seq<Entity>, style: Style) -> Seq<Request>
    decreases tree.len(),
{
    if tree.len() == 0 {
        Seq::empty()
    } else {
        requests(tree.drop_last(), style) + node_requests(style, tree.last())
    }
}

/// The cache after a row of requests, one after the other, where the backend
/// answers the request at `i` with the handle `ids[i]` if that request asks
/// it for one.
pub open spec fn resolved_all(
    images: Map<Seq<char>, StoredImageView>,
    fallback: Pixels,
    requests: Seq<Request>,
    ids: Seq<ImageId>,
) -> Map<Seq<char>, StoredImageView>
    decreases requests.len(),
{
    if requests.len() == 0 {
        images
    } else {
        resolved(
            resolved_all(images, fallback, requests.drop_last(), ids.drop_last()),
            fallback,
            requests.last().entity,
            requests.last().name,
            ids.last(),
        )
    }
}

/// The calls that a row of requests makes to the backend, in their order.
pub open spec fn creations(
    images: Map<Seq<char>, StoredImageView>,
    fallback: Pixels,
    requests: Seq<Request>,
    ids: Seq<ImageId>,
) -> Seq<BackendCall>
    decreases requests.len(),
{
    if requests.len() == 0 {
        Seq::empty()
    } else {
        creations(images, fallback, requests.drop_last(), ids.drop_last()) + upload_calls(
            resolved_all(images, fallback, requests.drop_last(), ids.drop_last()),
            requests.last().name,
            ids.last(),
        )
    }
}

/// The cache after a frame that leaves the loader alone: every entry marked
/// as not in use, the requests served, and what is then not in use and not
/// kept forever taken out.
pub open spec fn frame(
    images: Map<Seq<char>, StoredImageView>,
    fallback: Pixels,
    requests: Seq<Request>,
    ids: Seq<ImageId>,
) -> Map<Seq<char>, StoredImageView> {
    kept(resolved_all(unused(images), fallback, requests, ids))
}

/// The entries that leave the cache at the end of such a frame.
pub open spec fn frame_drops(
    images: Map<Seq<char>, StoredImageView>,
    fallback: Pixels,
    requests: Seq<Request>,
    ids: Seq<ImageId>,
) -> Map<Seq<char>, StoredImageView> {
    dropped(resolved_all(unused(images), fallback, requests, ids))
}

/// A row of requests leads from `pre` to `post`, with the backend's handles
/// as in `ids`.
pub open spec fn resolves_all<B, L>(
    pre: Context<B, L>,
    requests: Seq<Request>,
    ids: Seq<ImageId>,
    post: Context<B, L>,
) -> bool {
    let images = pre.resource_manager.images@;
    let fallback = pre.resource_manager.broken_image@;
    let calls = creations(images, fallback, requests, ids);
    &&& ids.len() == requests.len()
    &&& post.resource_manager.images@ == resolved_all(images, fallback, requests, ids)
    &&& post.canvas.calls() == pre.canvas.calls() + calls
    &&& post.needs_relayout == (pre.needs_relayout || calls.len() > 0)
    &&& post.needs_redraw == (pre.needs_redraw || calls.len() > 0)
    &&& post.tree == pre.tree
    &&& post.style == pre.style
    &&& post.resource_manager.broken_image == pre.resource_manager.broken_image
    &&& post.resource_manager.image_loader == pre.resource_manager.image_loader
}

/// A frame that leaves the loader alone leads from `pre` to `post`, where
/// the backend answers with the handles `ids` and the entries that leave the
/// cache are freed in the order of `evicted`.
///
/// The cache is that of `frame` over what the tree asks for. The backend has
/// received the uploads of the requests, in their order, and then, once for
/// each entry that left the cache while the backend held it, the call that
/// frees its handle. A new layout and a redraw are asked for if an image
/// went to the backend. The tree, the style, the placeholder and the
/// loader's slot stay as they are.
pub open spec fn frame_passes_with<B, L>(
    pre: Context<B, L>,
    ids: Seq<ImageId>,
    evicted: Seq<(String, StoredImage)>,
    post: Context<B, L>,
) -> bool {
    let images = pre.resource_manager.images@;
    let fallback = pre.resource_manager.broken_image@;
    let asked = requests(pre.tree@, pre.style);
    let uploaded = creations(unused(images), fallback, asked, ids);
    &&& ids.len() == asked.len()
    &&& post.resource_manager.images@ == frame(images, fallback, asked, ids)
    &&& lists(evicted, frame_drops(images, fallback, asked, ids))
    &&& post.canvas.calls() == pre.canvas.calls() + uploaded + deletions(handles(evicted))
    &&& post.needs_relayout == (pre.needs_relayout || uploaded.len() > 0)
    &&& post.needs_redraw == (pre.needs_redraw || uploaded.len() > 0)
    &&& post.tree == pre.tree
    &&& post.style == pre.style
    &&& post.resource_manager.broken_image == pre.resource_manager.broken_image
    &&& post.resource_manager.image_loader == pre.resource_manager.image_loader
}

/// A frame that leaves the loader alone leads from `pre` to `post`, whatever
/// handles the backend answers with and in whatever order the entries that
/// leave are freed.
pub open spec fn frame_passes<B, L>(pre: Context<B, L>, post: Context<B, L>) -> bool {
    exists|ids: Seq<ImageId>, evicted: Seq<(String, StoredImage)>|
        frame_passes_with(pre, ids, evicted, post)
}

/// A node's visit leads from `pre` to `post` by way of `mid`: the node asks
/// for its background image, if the style as it then is names one, and then
/// for its image, if the style as it then is names one.
pub open spec fn visits_through<B, L: ImageLoader<B>>(
    pre: Context<B, L>,
    entity: Entity,
    mid: Context<B, L>,
    post: Context<B, L>,
) -> bool {
    &&& if pre.style.background_image@.contains_key(entity) {
        asks(pre, entity, pre.style.background_image@[entity]@, mid)
    } else {
        mid == pre
    }
    &&& if mid.style.image@.contains_key(entity) {
        asks(mid, entity, mid.style.image@[entity]@, post)
    } else {
        post == mid
    }
}

/// A node's visit leads from `pre` to `post`.
pub open spec fn visits<B, L: ImageLoader<B>>(
    pre: Context<B, L>,
    entity: Entity,
    post: Context<B, L>,
) -> bool {
    exists|mid: Context<B, L>| visits_through(pre, entity, mid, post)
}

/// The visits of the nodes of a tree, one after the other, lead from `pre`
/// to `post`, by way of `stops`: the context before the first visit, after
/// each visit, and so at the end.
pub open spec fn walks_by<B, L: ImageLoader<B>>(
    pre: Context<B, L>,
    tree: Seq<Entity>,
    stops: Seq<Context<B, L>>,
    post: Context<B, L>,
) -> bool {
    &&& stops.len() == tree.len() + 1
    &&& stops[0] == pre
    &&& stops[tree.len() as int] == post
    &&& forall|i: int|
        0 <= i < tree.len() ==> visits(stops[i], #[trigger] tree[i], stops[i + 1])
}

/// The visits of the nodes of a tree, one after the other, lead from `pre`
/// to `post`.
pub open spec fn walks<B, L: ImageLoader<B>>(
    pre: Context<B, L>,
    tree: Seq<Entity>,
    post: Context<B, L>,
) -> bool {
    exists|stops: Seq<Context<B, L>>| walks_by(pre, tree, stops, post)
}

/// The start of a frame leads from `pre` to `post`: every entry is marked as
/// not in use, and nothing else changes.
pub open spec fn marks<B, L>(pre: Context<B, L>, post: Context<B, L>) -> bool {
    &&& post.resource_manager.images@ == unused(pre.resource_manager.images@)
    &&& post.resource_manager.broken_image == pre.resource_manager.broken_image
    &&& post.resource_manager.image_loader == pre.resource_manager.image_loader
    &&& post.canvas == pre.canvas
    &&& post.needs_relayout == pre.needs_relayout
    &&& post.needs_redraw == pre.needs_redraw
    &&& post.tree == pre.tree
    &&& post.style == pre.style
}

/// The end of a frame leads from `pre` to `post`: every entry that is not in
/// use and not kept forever leaves the cache, the backend is told to free
/// the handles of those entries, in the order of `evicted`, each once, and
/// nothing else changes.
pub open spec fn evicts<B, L>(
    pre: Context<B, L>,
    evicted: Seq<(String, StoredImage)>,
    post: Context<B, L>,
) -> bool {
    &&& post.resource_manager.images@ == kept(pre.resource_manager.images@)
    &&& lists(evicted, dropped(pre.resource_manager.images@))
    &&& post.canvas.calls() == pre.canvas.calls() + deletions(handles(evicted))
    &&& post.resource_manager.broken_image == pre.resource_manager.broken_image
    &&& post.resource_manager.image_loader == pre.resource_manager.image_loader
    &&& post.needs_relayout == pre.needs_relayout
    &&& post.needs_redraw == pre.needs_redraw
    &&& post.tree == pre.tree
    &&& post.style == pre.style
}

/// A frame leads from `pre` to `post` by these steps: the entries are
/// marked, which gives `marked`; the tree, as it was when the frame began,
/// is walked, which gives `walked`; and what is then not in use and not kept
/// forever is evicted.
pub open spec fn frame_runs_through<B, L: ImageLoader<B>>(
    pre: Context<B, L>,
    marked: Context<B, L>,
    walked: Context<B, L>,
    evicted: Seq<(String, StoredImage)>,
    post: Context<B, L>,
) -> bool {
    &&& marks(pre, marked)
    &&& walks(marked, pre.tree@, walked)
    &&& evicts(walked, evicted, post)
}

/// A frame leads from `pre` to `post`.
pub open spec fn frame_runs<B, L: ImageLoader<B>>(pre: Context<B, L>, post: Context<B, L>) -> bool {
    exists|marked: Context<B, L>, walked: Context<B, L>, evicted: Seq<(String, StoredImage)>|
        frame_runs_through(pre, marked, walked, evicted, post)
}

/// Whether every image that is asked for is cached.
pub open spec fn all_cached(
    images: Map<Seq<char>, StoredImageView>,
    requests: Seq<Request>,
) -> bool {
    forall|i: int| 0 <= i < requests.len() ==> images.contains_key((#[trigger] requests[i]).name)
}

/// Whether a frame leaves the loader alone: there is none, or every image
/// that the tree asks for is cached when the frame begins.
pub open spec fn is_quiet<B, L>(cx: Context<B, L>) -> bool {
    cx.resource_manager.image_loader is None || all_cached(
        cx.resource_manager.images@,
        requests(cx.tree@, cx.style),
    )
}

/// One more request after a row of requests is a row of requests. The handle
/// that the backend gave for it, if any, is handed out.
proof fn lemma_one_more<B, L>(
    start: Context<B, L>,
    requests: Seq<Request>,
    ids: Seq<ImageId>,
    mid: Context<B, L>,
    entity: Entity,
    name: Seq<char>,
    post: Context<B, L>,
) -> (id: ImageId)
    requires
        resolves_all(start, requests, ids, mid),
        resolves(mid, entity, name, post),
    ensures
        resolves_all(start, requests.push(Request { entity, name }), ids.push(id), post),
{
    let id = choose|id: ImageId| resolves_with(mid, entity, name, id, post);
    let request = Request { entity, name };
    let images = start.resource_manager.images@;
    let fallback = start.resource_manager.broken_image@;
    assert(requests.push(request).drop_last() =~= requests);
    assert(ids.push(id).drop_last() =~= ids);
    let before = creations(images, fallback, requests, ids);
    let step = upload_calls(mid.resource_manager.images@, name, id);
    assert(post.canvas.calls() =~= start.canvas.calls() + (before + step));
    id
}

/// What the first `i + 1` nodes ask for is what the first `i` ask for and
/// then what the node at `i` asks for.
pub proof fn lemma_next_node(tree: Seq<Entity>, style: Style, i: int)
    requires
        0 <= i < tree.len(),
    ensures
        requests(tree.take(i + 1), style) == requests(tree.take(i), style) + node_requests(
            style,
            tree[i],
        ),
{
    assert(tree.take(i + 1).drop_last() =~= tree.take(i));
}

/// What the first `count` nodes ask for is the beginning of what the whole
/// tree asks for.
proof fn lemma_asked_so_far(tree: Seq<Entity>, style: Style, count: int)
    requires
        0 <= count <= tree.len(),
    ensures
        requests(tree.take(count), style).len() <= requests(tree, style).len(),
        forall|j: int|
            0 <= j < requests(tree.take(count), style).len() ==> requests(
                tree.take(count),
                style,
            )[j] == requests(tree, style)[j],
    decreases tree.len() - count,
{
    if count == tree.len() {
        assert(tree.take(count) =~= tree);
    } else {
        lemma_next_node(tree, style, count);
        lemma_asked_so_far(tree, style, count + 1);
    }
}

/// Whether the request at `at` is the first for an image that is not cached.
pub open spec fn is_first_miss(
    images: Map<Seq<char>, StoredImageView>,
    requests: Seq<Request>,
    at: int,
) -> bool {
    &&& 0 <= at < requests.len()
    &&& !images.contains_key(requests[at].name)
    &&& forall|i: int| 0 <= i < at ==> images.contains_key((#[trigger] requests[i]).name)
}

/// Where the first request for an image that is not cached stands.
pub open spec fn first_miss(images: Map<Seq<char>, StoredImageView>, requests: Seq<Request>) -> int {
    choose|at: int| is_first_miss(images, requests, at)
}

/// The call is the first that a frame makes to its loader, where the backend
/// answers the requests before it with the handles `ids`. It is for the
/// first image that a node asks for and that is not cached, and hands over
/// the cache as the requests before it have left it, with the placeholder
/// already under that name.
pub open spec fn is_first_call<B, L>(pre: Context<B, L>, ids: Seq<ImageId>, call: LoaderCall) -> bool {
    let images = pre.resource_manager.images@;
    let fallback = pre.resource_manager.broken_image@;
    let asked = requests(pre.tree@, pre.style);
    let at = first_miss(images, asked);
    &&& is_first_miss(images, asked, at)
    &&& ids.len() == at
    &&& call == (LoaderCall {
        name: asked[at].name,
        images: resolved_all(unused(images), fallback, asked.take(at), ids).insert(
            asked[at].name,
            placeholder(fallback),
        ),
    })
}

/// The frame reaches the loader: the calls that it makes to it are at least
/// one, and the first of them is as `is_first_call` says.
pub open spec fn reaches_loader<B, L>(pre: Context<B, L>, calls: Seq<LoaderCall>) -> bool {
    calls.len() >= 1 && exists|ids: Seq<ImageId>| is_first_call(pre, ids, calls[0])
}

/// Only one request is the first for an image that is not cached.
proof fn lemma_one_first_miss(
    images: Map<Seq<char>, StoredImageView>,
    requests: Seq<Request>,
    at: int,
)
    requires
        is_first_miss(images, requests, at),
    ensures
        first_miss(images, requests) == at,
{
    let other = first_miss(images, requests);
    if other < at {
        assert(images.contains_key(requests[other].name));
    }
    if at < other {
        assert(images.contains_key(requests[at].name));
    }
}

/// What the walk knows before a request. While it is `calm`, no request has
/// reached the loader: the requests so far, `asked`, have led to where the
/// walk is, and where there is a loader their images were all cached when
/// the frame began. Once it is not, the loader has been reached.
pub open spec fn follows<B, L>(
    before: Context<B, L>,
    start: Context<B, L>,
    calm: bool,
    asked: Seq<Request>,
    ids: Seq<ImageId>,
    loads: Seq<LoaderCall>,
    now: Context<B, L>,
) -> bool {
    &&& marks(before, start)
    &&& called(start.resource_manager.image_loader, loads, now.resource_manager.image_loader)
    &&& is_quiet(before) ==> calm
    &&& calm ==> resolves_all(start, asked, ids, now)
    &&& calm && before.resource_manager.image_loader is Some ==> loads.len() == 0 && all_cached(
        before.resource_manager.images@,
        asked,
    )
    &&& !calm ==> reaches_loader(before, loads)
}

/// One request carries the walk on: what it knew before the request, it
/// knows after it, of the requests with this one.
proof fn lemma_follows_on<B, L: ImageLoader<B>>(
    before: Context<B, L>,
    start: Context<B, L>,
    count: int,
    calm: bool,
    asked: Seq<Request>,
    ids: Seq<ImageId>,
    loads: Seq<LoaderCall>,
    mid: Context<B, L>,
    entity: Entity,
    name: Seq<char>,
    post: Context<B, L>,
) -> (next: (bool, Seq<Request>, Seq<ImageId>, Seq<LoaderCall>))
    requires
        follows(before, start, calm, asked, ids, loads, mid),
        0 <= count <= before.tree@.len(),
        calm ==> {
            let made = requests(before.tree@.take(count), before.style);
            &&& asked.len() < made.len()
            &&& made[asked.len() as int] == (Request { entity, name })
            &&& forall|j: int| 0 <= j < asked.len() ==> made[j] == asked[j]
        },
        asks(mid, entity, name, post),
        called(
            mid.resource_manager.image_loader,
            loader_calls(mid.resource_manager.images@, mid.resource_manager.broken_image@, name),
            post.resource_manager.image_loader,
        ),
    ensures
        follows(before, start, next.0, next.1, next.2, next.3, post),
        next.0 ==> next.1 == asked.push(Request { entity, name }),
        next.3.len() <= loads.len() + 1,
{
    let request = Request { entity, name };
    let more = loader_calls(
        mid.resource_manager.images@,
        mid.resource_manager.broken_image@,
        name,
    );
    lemma_called_again(
        start.resource_manager.image_loader,
        loads,
        mid.resource_manager.image_loader,
        more,
        post.resource_manager.image_loader,
    );
    let all = requests(before.tree@, before.style);
    if !calm {
        let ids0 = choose|ids0: Seq<ImageId>| is_first_call(before, ids0, loads[0]);
        assert(is_first_call(before, ids0, (loads + more)[0]));
        (false, asked, ids, loads + more)
    } else {
        lemma_asked_so_far(before.tree@, before.style, count);
        assert(all[asked.len() as int] == request);
        if mid.resource_manager.images@.contains_key(name)
            || mid.resource_manager.image_loader is None {
            let id = lemma_one_more(start, asked, ids, mid, entity, name, post);
            if before.resource_manager.image_loader is Some {
                // the image was cached when the frame began: no request makes an entry
                // while the walk is calm
                if !before.resource_manager.images@.contains_key(name) {
                    crate::lifecycle::lemma_unasked_is_untouched(
                        start.resource_manager.images@,
                        start.resource_manager.broken_image@,
                        asked,
                        ids,
                        name,
                    );
                    if crate::lifecycle::asks_for(asked, name) {
                        let i = choose|i: int|
                            0 <= i < asked.len() && (#[trigger] asked[i]).name == name;
                        assert(before.resource_manager.images@.contains_key(asked[i].name));
                    }
                }
                let longer = asked.push(request);
                assert forall|i: int| 0 <= i < longer.len() implies before.resource_manager.images@.contains_key(
                (#[trigger] longer[i]).name) by {
                    if i < asked.len() {
                        assert(longer[i] == asked[i]);
                    }
                }
            }
            (true, asked.push(request), ids.push(id), loads + more)
        } else {
            // the first request whose image is not cached
            let at = asked.len() as int;
            if before.resource_manager.images@.contains_key(name) {
                lemma_requests_keep_entries(
                    start.resource_manager.images@,
                    start.resource_manager.broken_image@,
                    asked,
                    ids,
                    name,
                );
            }
            assert forall|i: int| 0 <= i < at implies before.resource_manager.images@.contains_key(
            (#[trigger] all[i]).name) by {
                assert(all[i] == asked[i]);
            }
            assert(is_first_miss(before.resource_manager.images@, all, at));
            lemma_one_first_miss(before.resource_manager.images@, all, at);
            assert(all.take(at) =~= asked);
            assert((loads + more)[0] == more[0]);
            assert(is_first_call(before, ids, (loads + more)[0]));
            (false, asked, ids, loads + more)
        }
    }
}

/// The frame's pass over the images.
///
/// Every image is marked as not in use. Then the tree is walked, and for
/// each node its background image and then its image are made present, as
/// far as the style names them. At the end every image that is not in use
/// and not kept forever leaves the cache, and the backend frees what it holds
/// for it.
///
/// The outcome is that of `frame_runs`, in which the loader enters as it
/// states itself. Where the loader is left alone, because there is none or
/// because every image that the tree asks for is cached already, that is the
/// outcome of `frame_passes`. Else the loader is reached, and its first call
/// is for the first image that is asked for and not cached. Whatever the
/// loader does, no entry is left that is not in use and not kept forever, the
/// loader is in its slot again, and it was called at most once for each image
/// of each node.
pub fn image_system<B: RenderBackend, L: ImageLoader<B>>(cx: &mut Context<B, L>)
    ensures
        frame_runs(*old(cx), *final(cx)),
        is_quiet(*old(cx)) ==> frame_passes(*old(cx), *final(cx)),
        forall|name: Seq<char>| #[trigger]
            final(cx).resource_manager.images@.contains_key(name) ==> !evictable(
                final(cx).resource_manager.images@[name],
            ),
        exists|calls: Seq<LoaderCall>|
            {
                &&& calls.len() <= 2 * old(cx).tree@.len()
                &&& #[trigger] called(
                    old(cx).resource_manager.image_loader,
                    calls,
                    final(cx).resource_manager.image_loader,
                )
                &&& !is_quiet(*old(cx)) ==> reaches_loader(*old(cx), calls)
            },
{
    cx.resource_manager.mark_images_unused();

    let ghost start = *cx;
    let ghost mut calm = true;
    let ghost mut asked: Seq<Request> = Seq::empty();
    let ghost mut ids: Seq<ImageId> = Seq::empty();
    let ghost mut loads: Seq<LoaderCall> = Seq::empty();
    let ghost mut stops: Seq<Context<B, L>> = seq![start];
    proof {
        lemma_not_called(start.resource_manager.image_loader);
    }

    // Iterate the tree and load any defined images that aren't already loaded
    let tree = cx.tree.clone();
    let mut i: usize = 0;
    while i < tree.len()
        invariant
            i <= tree@.len(),
            tree@ == old(cx).tree@,
            loads.len() <= 2 * i,
            walks_by(start, tree@.take(i as int), stops, *cx),
            follows(*old(cx), start, calm, asked, ids, loads, *cx),
            calm ==> asked == requests(tree@.take(i as int), start.style),
        decreases tree@.len() - i,
    {
        let entity = tree[i];
        let ghost entered = *cx;
        let ghost asked_before = asked;
        proof {
            lemma_next_node(tree@, start.style, i as int);
        }

        // Load a background-image if the entity has one
        let background_image = match cx.style.background_image.get(&entity) {
            Some(name) => Some(name.clone()),
            None => None,
        };
        if let Some(background_image) = background_image {
            let ghost mid = *cx;
            load_image(cx, entity, &background_image);
            proof {
                let next = lemma_follows_on(
                    *old(cx),
                    start,
                    i + 1,
                    calm,
                    asked,
                    ids,
                    loads,
                    mid,
                    entity,
                    background_image@,
                    *cx,
                );
                calm = next.0;
                asked = next.1;
                ids = next.2;
                loads = next.3;
            }
        }
        let ghost between = *cx;
        // Load an image if the entity has one
        let image_name = match cx.style.image.get(&entity) {
            Some(name) => Some(name.clone()),
            None => None,
        };
        if let Some(image_name) = image_name {
            let ghost mid = *cx;
            load_image(cx, entity, &image_name);
            proof {
                let next = lemma_follows_on(
                    *old(cx),
                    start,
                    i + 1,
                    calm,
                    asked,
                    ids,
                    loads,
                    mid,
                    entity,
                    image_name@,
                    *cx,
                );
                calm = next.0;
                asked = next.1;
                ids = next.2;
                loads = next.3;
            }
        }
        proof {
            assert(visits_through(entered, entity, between, *cx));
            let so_far = stops;
            stops = stops.push(*cx);
            assert forall|k: int| 0 <= k < i + 1 implies visits(
                stops[k],
                #[trigger] tree@.take(i + 1)[k],
                stops[k + 1],
            ) by {
                if k < i {
                    assert(visits(so_far[k], tree@.take(i as int)[k], so_far[k + 1]));
                }
            }
            if calm {
                assert(asked =~= asked_before + node_requests(start.style, entity));
            }
        }
        i += 1;
    }
    assert(tree@.take(tree@.len() as int) =~= tree@);

    let ghost walked = *cx;
    assert(walks_by(start, old(cx).tree@, stops, walked));
    let evicted = cx.resource_manager.evict_unused_images(&mut cx.canvas);
    assert(frame_runs_through(*old(cx), start, walked, evicted@, *cx));
    proof {
        if is_quiet(*old(cx)) {
            assert(frame_passes_with(*old(cx), ids, evicted@, *cx));
        }
        if calm && old(cx).resource_manager.image_loader is Some {
            assert(is_quiet(*old(cx)));
        }
        assert(called(
            old(cx).resource_manager.image_loader,
            loads,
            cx.resource_manager.image_loader,
        ));
        assert(!is_quiet(*old(cx)) ==> reaches_loader(*old(cx), loads));
    }
}

} // verus!
