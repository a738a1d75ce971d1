//! What holds of a frame in which a loader runs, for a loader that keeps to
//! the image it is called for.

use crate::backend::BackendCall;
use crate::context::{Context, Entity, ImageLoader, NoLoader, Registered, Style};
use crate::image_system::{
    asks, asks_through, frame_runs, frame_runs_through, lemma_next_node, node_requests, requests,
    resolves_with, visits, visits_through, walks_by, with_slot, without_loader, Request,
};
use crate::lifecycle::asks_for;
use crate::resource::{deletions, handles, ImageRetentionPolicy, StoredImage, StoredImageView};
use crate::store::lists;
use vstd::prelude::*;

verus! {

/// A call of the loader for the image `name` keeps to that image: it leaves
/// the tree, the style, the backend and every other entry of the cache as
/// they are.
pub open spec fn keeps_to<B, L>(pre: Context<B, L>, name: Seq<char>, post: Context<B, L>) -> bool {
    &&& post.tree == pre.tree
    &&& post.style == pre.style
    &&& post.canvas == pre.canvas
    &&& forall|other: Seq<char>|
        other != name ==> (#[trigger] post.resource_manager.images@.contains_key(other)
            <==> pre.resource_manager.images@.contains_key(other))
    &&& forall|other: Seq<char>|
        other != name && pre.resource_manager.images@.contains_key(other)
            ==> #[trigger] post.resource_manager.images@[other]
            == pre.resource_manager.images@[other]
}

/// Every call of the loader keeps to the image it is for.
pub open spec fn tame<B, L: ImageLoader<B>>(loader: L) -> bool {
    forall|pre: Context<B, L>, name: Seq<char>, post: Context<B, L>| #[trigger]
        loader.loads(pre, name, post) ==> keeps_to(pre, name, post)
}

/// The slot is empty, or holds a loader that is tame.
pub open spec fn tamely_loaded<B, L: ImageLoader<B>>(slot: Option<Registered<L>>) -> bool {
    slot matches Some(loader) ==> tame::<B, L>(loader.inner())
}

/// The loader that does nothing is tame.
pub proof fn lemma_no_loader_is_tame<B>(slot: Option<Registered<NoLoader>>)
    ensures
        tamely_loaded::<B, NoLoader>(slot),
{
}

/// Whether one of the requests is this node's for this image.
pub open spec fn asked_by(requests: Seq<Request>, entity: Entity, name: Seq<char>) -> bool {
    exists|i: int|
        0 <= i < requests.len() && (#[trigger] requests[i]).entity == entity && requests[i].name
            == name
}

/// The calls `after` are the calls `before` and then only calls that hand
/// images over.
pub open spec fn grown_by_creates(before: Seq<BackendCall>, after: Seq<BackendCall>) -> bool {
    &&& before.len() <= after.len()
    &&& forall|i: int| 0 <= i < before.len() ==> #[trigger] after[i] == before[i]
    &&& forall|i: int| before.len() <= i < after.len() ==> #[trigger] after[i] is Create
}

/// The walk has not changed the tree or the style, the loader in the slot is
/// the same, and the backend has only been handed images.
pub open spec fn keeps_pace<B, L>(start: Context<B, L>, now: Context<B, L>) -> bool {
    &&& now.tree == start.tree
    &&& now.style == start.style
    &&& match start.resource_manager.image_loader {
        Some(loader) => now.resource_manager.image_loader matches Some(same) && same.inner()
            == loader.inner(),
        None => now.resource_manager.image_loader is None,
    }
    &&& grown_by_creates(start.canvas.calls(), now.canvas.calls())
}

/// What requests have made of the entry of one image, from `start` to `now`.
///
/// An image that no request names has the entry it had, or none. One that a
/// request names has an entry, in use. One that the backend held at the
/// start is the same image under the same handle, with the same policy; it
/// is in use if it was or a request names it, and its observers are those it
/// had and the nodes that asked for it.
pub open spec fn sums_up<B, L>(
    start: Context<B, L>,
    asked: Seq<Request>,
    now: Context<B, L>,
    name: Seq<char>,
) -> bool {
    let was = start.resource_manager.images@;
    let is = now.resource_manager.images@;
    &&& !asks_for(asked, name) ==> (is.contains_key(name) <==> was.contains_key(name))
    &&& !asks_for(asked, name) && was.contains_key(name) ==> is[name] == was[name]
    &&& asks_for(asked, name) ==> is.contains_key(name) && is[name].used
    &&& was.contains_key(name) && was[name].image is Id ==> {
        &&& is.contains_key(name)
        &&& is[name].image == was[name].image
        &&& is[name].retention_policy == was[name].retention_policy
        &&& is[name].dirty == was[name].dirty
        &&& is[name].used <==> was[name].used || asks_for(asked, name)
        &&& forall|entity: Entity| #[trigger]
            is[name].observers.contains(entity) <==> was[name].observers.contains(entity)
                || asked_by(asked, entity, name)
    }
}

/// What one more request adds to the names and nodes that requests hold.
pub proof fn lemma_one_more_asked(
    asked: Seq<Request>,
    request: Request,
    entity: Entity,
    name: Seq<char>,
)
    ensures
        asks_for(asked.push(request), name) <==> asks_for(asked, name) || request.name == name,
        asked_by(asked.push(request), entity, name) <==> asked_by(asked, entity, name) || (
        request.entity == entity && request.name == name),
{
    let more = asked.push(request);
    if asks_for(asked, name) {
        let i = choose|i: int| 0 <= i < asked.len() && (#[trigger] asked[i]).name == name;
        assert(more[i].name == name);
    }
    if request.name == name {
        assert(more[asked.len() as int].name == name);
    }
    if asks_for(more, name) {
        let i = choose|i: int| 0 <= i < more.len() && (#[trigger] more[i]).name == name;
        if i < asked.len() {
            assert(asked[i].name == name);
        }
    }
    if asked_by(asked, entity, name) {
        let i = choose|i: int|
            0 <= i < asked.len() && (#[trigger] asked[i]).entity == entity && asked[i].name
                == name;
        assert(more[i].entity == entity && more[i].name == name);
    }
    if request.entity == entity && request.name == name {
        assert(more[asked.len() as int].entity == entity);
    }
    if asked_by(more, entity, name) {
        let i = choose|i: int|
            0 <= i < more.len() && (#[trigger] more[i]).entity == entity && more[i].name == name;
        if i < asked.len() {
            assert(asked[i].entity == entity && asked[i].name == name);
        }
    }
}

/// One asking of the cache, summed up for one image.
proof fn lemma_resolving_sums_up<B, L>(
    start: Context<B, L>,
    asked: Seq<Request>,
    pre: Context<B, L>,
    entity: Entity,
    asked_name: Seq<char>,
    post: Context<B, L>,
    name: Seq<char>,
)
    requires
        grown_by_creates(start.canvas.calls(), pre.canvas.calls()),
        sums_up(start, asked, pre, name),
        exists|id: femtovg::ImageId| resolves_with(pre, entity, asked_name, id, post),
    ensures
        grown_by_creates(start.canvas.calls(), post.canvas.calls()),
        sums_up(start, asked.push(Request { entity, name: asked_name }), post, name),
        post.resource_manager.images@.contains_key(asked_name),
        post.resource_manager.images@[asked_name].used,
{
    let request = Request { entity, name: asked_name };
    let id = choose|id: femtovg::ImageId| resolves_with(pre, entity, asked_name, id, post);
    assert forall|e: Entity|
        asked_by(asked.push(request), e, name) <==> asked_by(asked, e, name) || (e == entity
            && asked_name == name) by {
        lemma_one_more_asked(asked, request, e, name);
    }
    lemma_one_more_asked(asked, request, entity, name);
}

/// A loader's turn that leaves one entry alone keeps the sum for it.
proof fn lemma_loading_sums_up<B, L>(
    start: Context<B, L>,
    asked: Seq<Request>,
    pre: Context<B, L>,
    post: Context<B, L>,
    name: Seq<char>,
)
    requires
        sums_up(start, asked, pre, name),
        post.resource_manager.images@.contains_key(name) <==> pre.resource_manager.images@.contains_key(
            name,
        ),
        pre.resource_manager.images@.contains_key(name) ==> post.resource_manager.images@[name]
            == pre.resource_manager.images@[name],
    ensures
        sums_up(start, asked, post, name),
{
}

/// One request, summed up for one image.
pub proof fn lemma_asking_sums_up<B, L: ImageLoader<B>>(
    start: Context<B, L>,
    asked: Seq<Request>,
    pre: Context<B, L>,
    entity: Entity,
    asked_name: Seq<char>,
    post: Context<B, L>,
    name: Seq<char>,
)
    requires
        tamely_loaded::<B, L>(start.resource_manager.image_loader),
        keeps_pace(start, pre),
        sums_up(start, asked, pre, name),
        asks(pre, entity, asked_name, post),
    ensures
        keeps_pace(start, post),
        sums_up(start, asked.push(Request { entity, name: asked_name }), post, name),
{
    let request = Request { entity, name: asked_name };
    if pre.resource_manager.images@.contains_key(asked_name)
        || pre.resource_manager.image_loader is None {
        lemma_resolving_sums_up(start, asked, pre, entity, asked_name, post, name);
    } else {
        let (missed, loaded, after) = choose|
            missed: Context<B, L>,
            loaded: Context<B, L>,
            after: Registered<L>,
        | asks_through(pre, entity, asked_name, missed, loaded, after, post);
        let loader = pre.resource_manager.image_loader.unwrap();
        let back = with_slot(loaded, Some(after));
        assert(keeps_to(without_loader(missed), asked_name, loaded));
        lemma_resolving_sums_up(start, asked, pre, entity, asked_name, missed, name);
        // the second asking is for the same node and image: the first stands in the sum
        let once = asked.push(request);
        if name == asked_name {
            lemma_asked_again_sums_up(start, asked, pre, missed, back, entity, name, post);
        } else {
            lemma_loading_sums_up(start, once, missed, back, name);
            lemma_resolving_sums_up(start, once, back, entity, asked_name, post, name);
            lemma_twice_asked(once, request, name);
            assert forall|e: Entity|
                asked_by(once.push(request), e, name) <==> asked_by(once, e, name) by {
                lemma_one_more_asked(once, request, e, name);
            }
            lemma_one_more_asked(once, request, entity, name);
        }
    }
}

/// A request that stands twice, one after the other, changes no sum for
/// another image.
proof fn lemma_twice_asked(once: Seq<Request>, request: Request, name: Seq<char>)
    requires
        once.len() > 0,
        once.last() == request,
    ensures
        asks_for(once.push(request), name) <==> asks_for(once, name),
{
    lemma_one_more_asked(once, request, request.entity, name);
    if request.name == name {
        assert(once[once.len() - 1].name == name);
    }
}

/// The asking after the loader's turn, for the image that the loader was
/// called for. The image was not cached before, so it was not uploaded at the
/// start, and all that the sum says of it is that it is there and in use.
proof fn lemma_asked_again_sums_up<B, L>(
    start: Context<B, L>,
    asked: Seq<Request>,
    pre: Context<B, L>,
    missed: Context<B, L>,
    back: Context<B, L>,
    entity: Entity,
    name: Seq<char>,
    post: Context<B, L>,
)
    requires
        sums_up(start, asked, pre, name),
        !pre.resource_manager.images@.contains_key(name),
        keeps_pace(start, pre),
        back.canvas == missed.canvas,
        grown_by_creates(start.canvas.calls(), missed.canvas.calls()),
        exists|id: femtovg::ImageId| resolves_with(back, entity, name, id, post),
    ensures
        grown_by_creates(start.canvas.calls(), post.canvas.calls()),
        sums_up(start, asked.push(Request { entity, name }), post, name),
{
    let request = Request { entity, name };
    let id = choose|id: femtovg::ImageId| resolves_with(back, entity, name, id, post);
    lemma_one_more_asked(asked, request, entity, name);
    // were it uploaded at the start, it would be cached still
    if start.resource_manager.images@.contains_key(name) {
        assert(asks_for(asked, name) || pre.resource_manager.images@.contains_key(name));
    }
}

/// One node's visit, summed up for one image.
pub proof fn lemma_visit_sums_up<B, L: ImageLoader<B>>(
    start: Context<B, L>,
    asked: Seq<Request>,
    pre: Context<B, L>,
    entity: Entity,
    post: Context<B, L>,
    name: Seq<char>,
)
    requires
        tamely_loaded::<B, L>(start.resource_manager.image_loader),
        keeps_pace(start, pre),
        sums_up(start, asked, pre, name),
        visits(pre, entity, post),
    ensures
        keeps_pace(start, post),
        sums_up(start, asked + node_requests(start.style, entity), post, name),
{
    let mid = choose|mid: Context<B, L>| visits_through(pre, entity, mid, post);
    let style = start.style;
    let mut so_far = asked;
    if style.background_image@.contains_key(entity) {
        let background = style.background_image@[entity]@;
        lemma_asking_sums_up(start, asked, pre, entity, background, mid, name);
        so_far = asked.push(Request { entity, name: background });
    }
    if style.image@.contains_key(entity) {
        let image = style.image@[entity]@;
        lemma_asking_sums_up(start, so_far, mid, entity, image, post, name);
        so_far = so_far.push(Request { entity, name: image });
    }
    assert(so_far =~= asked + node_requests(style, entity));
}

/// The visits of the first `count` nodes of a walk, summed up for one image.
pub proof fn lemma_walk_sums_up<B, L: ImageLoader<B>>(
    start: Context<B, L>,
    tree: Seq<Entity>,
    stops: Seq<Context<B, L>>,
    post: Context<B, L>,
    count: int,
    name: Seq<char>,
)
    requires
        tamely_loaded::<B, L>(start.resource_manager.image_loader),
        walks_by(start, tree, stops, post),
        0 <= count <= tree.len(),
    ensures
        keeps_pace(start, stops[count]),
        sums_up(start, requests(tree.take(count), start.style), stops[count], name),
    decreases count,
{
    if count == 0 {
        assert(!asks_for(requests(tree.take(0), start.style), name));
        assert forall|entity: Entity|
            !asked_by(requests(tree.take(0), start.style), entity, name) by {}
    } else {
        lemma_walk_sums_up(start, tree, stops, post, count - 1, name);
        lemma_next_node(tree, start.style, count - 1);
        assert(visits(stops[count - 1], tree[count - 1], stops[count - 1 + 1]));
        lemma_visit_sums_up(
            start,
            requests(tree.take(count - 1), start.style),
            stops[count - 1],
            tree[count - 1],
            stops[count],
            name,
        );
    }
}

/// The entries that leave the cache at the end of a frame with a tame
/// loader: those that no node asks for and that are not kept forever, not in
/// use.
pub open spec fn leaving(
    images: Map<Seq<char>, StoredImageView>,
    asked: Seq<Request>,
) -> Map<Seq<char>, StoredImageView> {
    Map::new(
        |name: Seq<char>|
            images.contains_key(name) && !asks_for(asked, name) && images[name].retention_policy
                != ImageRetentionPolicy::Forever,
        |name: Seq<char>| StoredImageView { used: false, ..images[name] },
    )
}

/// A frame with a tame loader, summed up for one image by way of its steps.
proof fn lemma_frame_sums_up<B, L: ImageLoader<B>>(
    pre: Context<B, L>,
    marked: Context<B, L>,
    walked: Context<B, L>,
    evicted: Seq<(String, StoredImage)>,
    post: Context<B, L>,
    name: Seq<char>,
)
    requires
        tamely_loaded::<B, L>(pre.resource_manager.image_loader),
        frame_runs_through(pre, marked, walked, evicted, post),
    ensures
        keeps_pace(marked, walked),
        sums_up(marked, requests(pre.tree@, pre.style), walked, name),
{
    let stops = choose|stops: Seq<Context<B, L>>| walks_by(marked, pre.tree@, stops, walked);
    lemma_walk_sums_up(marked, pre.tree@, stops, walked, pre.tree@.len() as int, name);
    assert(pre.tree@.take(pre.tree@.len() as int) =~= pre.tree@);
}

/// After a frame with a tame loader the tree and the style are as they were,
/// and the loader in the slot is the same: the next frame has a tame loader
/// too, and its nodes ask for the same images.
pub proof fn lemma_frame_keeps_the_setting<B, L: ImageLoader<B>>(
    pre: Context<B, L>,
    post: Context<B, L>,
)
    requires
        tamely_loaded::<B, L>(pre.resource_manager.image_loader),
        frame_runs(pre, post),
    ensures
        post.tree == pre.tree,
        post.style == pre.style,
        tamely_loaded::<B, L>(post.resource_manager.image_loader),
        post.resource_manager.image_loader is Some <==> pre.resource_manager.image_loader is Some,
{
    let (marked, walked, evicted) = choose|
        marked: Context<B, L>,
        walked: Context<B, L>,
        evicted: Seq<(String, StoredImage)>,
    | frame_runs_through(pre, marked, walked, evicted, post);
    lemma_frame_sums_up(pre, marked, walked, evicted, post, Seq::empty());
}

/// After a frame with a tame loader, an image that no node asked for is
/// cached if and only if it was cached and is kept forever, and then its
/// entry is the one it had, marked as not in use.
pub proof fn lemma_unasked_after_frame<B, L: ImageLoader<B>>(
    pre: Context<B, L>,
    post: Context<B, L>,
    name: Seq<char>,
)
    requires
        tamely_loaded::<B, L>(pre.resource_manager.image_loader),
        frame_runs(pre, post),
        !asks_for(requests(pre.tree@, pre.style), name),
    ensures
        post.resource_manager.images@.contains_key(name) <==> pre.resource_manager.images@.contains_key(
            name,
        ) && pre.resource_manager.images@[name].retention_policy == ImageRetentionPolicy::Forever,
        post.resource_manager.images@.contains_key(name) ==> post.resource_manager.images@[name]
            == (StoredImageView { used: false, ..pre.resource_manager.images@[name] }),
{
    let (marked, walked, evicted) = choose|
        marked: Context<B, L>,
        walked: Context<B, L>,
        evicted: Seq<(String, StoredImage)>,
    | frame_runs_through(pre, marked, walked, evicted, post);
    lemma_frame_sums_up(pre, marked, walked, evicted, post, name);
}

/// After a frame with a tame loader, every image that a node asked for is
/// cached and in use: there is always something to draw.
pub proof fn lemma_asked_after_frame<B, L: ImageLoader<B>>(
    pre: Context<B, L>,
    post: Context<B, L>,
    name: Seq<char>,
)
    requires
        tamely_loaded::<B, L>(pre.resource_manager.image_loader),
        frame_runs(pre, post),
        asks_for(requests(pre.tree@, pre.style), name),
    ensures
        post.resource_manager.images@.contains_key(name),
        post.resource_manager.images@[name].used,
{
    let (marked, walked, evicted) = choose|
        marked: Context<B, L>,
        walked: Context<B, L>,
        evicted: Seq<(String, StoredImage)>,
    | frame_runs_through(pre, marked, walked, evicted, post);
    lemma_frame_sums_up(pre, marked, walked, evicted, post, name);
}

/// After a frame with a tame loader, an entry is in use exactly when a node
/// asked for its image, and what is not in use is kept forever.
pub proof fn lemma_in_use_after_frame<B, L: ImageLoader<B>>(
    pre: Context<B, L>,
    post: Context<B, L>,
    name: Seq<char>,
)
    requires
        tamely_loaded::<B, L>(pre.resource_manager.image_loader),
        frame_runs(pre, post),
        post.resource_manager.images@.contains_key(name),
    ensures
        post.resource_manager.images@[name].used <==> asks_for(
            requests(pre.tree@, pre.style),
            name,
        ),
        !post.resource_manager.images@[name].used ==> post.resource_manager.images@[name].retention_policy
            == ImageRetentionPolicy::Forever,
{
    if asks_for(requests(pre.tree@, pre.style), name) {
        lemma_asked_after_frame(pre, post, name);
    } else {
        lemma_unasked_after_frame(pre, post, name);
    }
}

/// After a frame with a tame loader, an image that the backend held and that
/// a node asked for is still the same image under the same handle, with the
/// same policy; it is in use, and its observers are those it had and the
/// nodes that asked for it.
pub proof fn lemma_uploaded_after_frame<B, L: ImageLoader<B>>(
    pre: Context<B, L>,
    post: Context<B, L>,
    name: Seq<char>,
)
    requires
        tamely_loaded::<B, L>(pre.resource_manager.image_loader),
        frame_runs(pre, post),
        pre.resource_manager.images@.contains_key(name),
        pre.resource_manager.images@[name].image is Id,
        asks_for(requests(pre.tree@, pre.style), name),
    ensures
        post.resource_manager.images@.contains_key(name),
        post.resource_manager.images@[name].image == pre.resource_manager.images@[name].image,
        post.resource_manager.images@[name].retention_policy
            == pre.resource_manager.images@[name].retention_policy,
        post.resource_manager.images@[name].dirty == pre.resource_manager.images@[name].dirty,
        post.resource_manager.images@[name].used,
        forall|entity: Entity| #[trigger]
            post.resource_manager.images@[name].observers.contains(entity)
                <==> pre.resource_manager.images@[name].observers.contains(entity) || asked_by(
                requests(pre.tree@, pre.style),
                entity,
                name,
            ),
{
    let (marked, walked, evicted) = choose|
        marked: Context<B, L>,
        walked: Context<B, L>,
        evicted: Seq<(String, StoredImage)>,
    | frame_runs_through(pre, marked, walked, evicted, post);
    lemma_frame_sums_up(pre, marked, walked, evicted, post, name);
}

/// What the backend hears during a frame with a tame loader: first only
/// images that are handed over, `uploaded`, and then, for the entries that
/// leave the cache, each once and in the order of `evicted`, the calls that
/// free the handles of those that the backend held.
pub proof fn lemma_backend_after_frame<B, L: ImageLoader<B>>(
    pre: Context<B, L>,
    post: Context<B, L>,
) -> (heard: (Seq<BackendCall>, Seq<(String, StoredImage)>))
    requires
        tamely_loaded::<B, L>(pre.resource_manager.image_loader),
        frame_runs(pre, post),
    ensures
        post.canvas.calls() == pre.canvas.calls() + heard.0 + deletions(handles(heard.1)),
        forall|i: int| 0 <= i < heard.0.len() ==> #[trigger] heard.0[i] is Create,
        lists(heard.1, leaving(pre.resource_manager.images@, requests(pre.tree@, pre.style))),
{
    let (marked, walked, evicted) = choose|
        marked: Context<B, L>,
        walked: Context<B, L>,
        evicted: Seq<(String, StoredImage)>,
    | frame_runs_through(pre, marked, walked, evicted, post);
    let asked = requests(pre.tree@, pre.style);
    lemma_frame_sums_up(pre, marked, walked, evicted, post, Seq::empty());
    let uploaded = walked.canvas.calls().skip(pre.canvas.calls().len() as int);
    assert(walked.canvas.calls() =~= pre.canvas.calls() + uploaded);
    let gone = crate::store::dropped(walked.resource_manager.images@);
    let wanted = leaving(pre.resource_manager.images@, asked);
    assert forall|name: Seq<char>| gone.contains_key(name) <==> wanted.contains_key(name) by {
        lemma_frame_sums_up(pre, marked, walked, evicted, post, name);
    }
    assert forall|name: Seq<char>| gone.contains_key(name) implies gone[name] == wanted[name] by {
        lemma_frame_sums_up(pre, marked, walked, evicted, post, name);
    }
    assert(gone =~= wanted);
    (uploaded, evicted)
}

/// Whether the style names the image as the node's background image or as
/// its image.
pub open spec fn names(style: Style, entity: Entity, name: Seq<char>) -> bool {
    ||| style.background_image@.contains_key(entity) && style.background_image@[entity]@ == name
    ||| style.image@.contains_key(entity) && style.image@[entity]@ == name
}

/// What two rows of requests hold, one after the other, is what either holds.
pub proof fn lemma_asked_in_rows(
    first: Seq<Request>,
    second: Seq<Request>,
    entity: Entity,
    name: Seq<char>,
)
    ensures
        asks_for(first + second, name) <==> asks_for(first, name) || asks_for(second, name),
        asked_by(first + second, entity, name) <==> asked_by(first, entity, name) || asked_by(
            second,
            entity,
            name,
        ),
    decreases second.len(),
{
    if second.len() == 0 {
        assert(first + second =~= first);
    } else {
        let front = second.drop_last();
        lemma_asked_in_rows(first, front, entity, name);
        assert(first + second =~= (first + front).push(second.last()));
        assert(second =~= front.push(second.last()));
        lemma_one_more_asked(first + front, second.last(), entity, name);
        lemma_one_more_asked(front, second.last(), entity, name);
    }
}

/// The requests of a tree are those of its nodes: an image is asked for by a
/// node of the tree for which the style names it, and by no other.
pub proof fn lemma_who_asks(tree: Seq<Entity>, style: Style, entity: Entity, name: Seq<char>)
    ensures
        asked_by(requests(tree, style), entity, name) <==> tree.contains(entity) && names(
            style,
            entity,
            name,
        ),
        asks_for(requests(tree, style), name) <==> exists|i: int|
            0 <= i < tree.len() && names(style, #[trigger] tree[i], name),
    decreases tree.len(),
{
    if tree.len() > 0 {
        let front = tree.drop_last();
        let last = tree.last();
        let node = node_requests(style, last);
        lemma_who_asks(front, style, entity, name);
        lemma_asked_in_rows(requests(front, style), node, entity, name);
        // what the last node asks for
        if names(style, last, name) {
            if style.background_image@.contains_key(last) && style.background_image@[last]@
                == name {
                assert(node[0].name == name && node[0].entity == last);
            } else {
                assert(node[node.len() - 1].name == name && node[node.len() - 1].entity == last);
            }
        }
        if asks_for(node, name) {
            let i = choose|i: int| 0 <= i < node.len() && (#[trigger] node[i]).name == name;
            assert(names(style, last, name));
        }
        if asked_by(node, entity, name) {
            let i = choose|i: int|
                0 <= i < node.len() && (#[trigger] node[i]).entity == entity && node[i].name
                    == name;
            assert(entity == last && names(style, last, name));
        }
        assert(tree =~= front.push(last));
        if tree.contains(entity) && names(style, entity, name) {
            let i = choose|i: int| 0 <= i < tree.len() && tree[i] == entity;
            if i < front.len() {
                assert(front[i] == entity);
            }
        }
        if front.contains(entity) {
            let i = choose|i: int| 0 <= i < front.len() && front[i] == entity;
            assert(tree[i] == entity);
        }
        if exists|i: int| 0 <= i < tree.len() && names(style, #[trigger] tree[i], name) {
            let i = choose|i: int| 0 <= i < tree.len() && names(style, #[trigger] tree[i], name);
            if i < front.len() {
                assert(front[i] == tree[i]);
            }
        }
        if exists|i: int| 0 <= i < front.len() && names(style, #[trigger] front[i], name) {
            let i = choose|i: int|
                0 <= i < front.len() && names(style, #[trigger] front[i], name);
            assert(tree[i] == front[i]);
        }
        if names(style, last, name) {
            assert(tree[tree.len() - 1] == last);
        }
    }
}

} // verus!
