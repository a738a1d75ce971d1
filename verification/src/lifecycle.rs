//! What holds of the image cache over frames: which entries a frame makes,
//! which it keeps and which it drops.

use crate::context::{Context, Entity};
use crate::decoded::Pixels;
use crate::image_system::{
    frame, resolved, resolved_all, resolves, resolves_with, upload_calls, uploads, Request,
};
use crate::backend::BackendCall;
use crate::resource::{
    handles, nearest, placeholder, ImageOrIdView, ImageRetentionPolicy, StoredImage,
    StoredImageView,
};
use crate::store::{lists, unused};
use femtovg::ImageId;
use vstd::prelude::*;

verus! {

/// Whether one of the requests is for the image.
pub open spec fn asks_for(requests: Seq<Request>, name: Seq<char>) -> bool {
    exists|i: int| 0 <= i < requests.len() && (#[trigger] requests[i]).name == name
}

/// An image that is asked for and is not cached gets the placeholder as its
/// entry: the fallback picture, decoded, in use, kept forever, clean, with no
/// observers. No other entry changes.
pub proof fn lemma_unseen_gets_placeholder(
    images: Map<Seq<char>, StoredImageView>,
    fallback: Pixels,
    entity: Entity,
    name: Seq<char>,
    id: ImageId,
)
    requires
        !images.contains_key(name),
    ensures
        resolved(images, fallback, entity, name, id) == images.insert(name, placeholder(fallback)),
        resolved(images, fallback, entity, name, id)[name] == (StoredImageView {
            image: ImageOrIdView::Image(fallback, nearest()),
            retention_policy: ImageRetentionPolicy::Forever,
            used: true,
            dirty: false,
            observers: Set::empty(),
        }),
{
}

/// A request changes no entry but that of its image, and takes none away.
pub proof fn lemma_request_is_local(
    images: Map<Seq<char>, StoredImageView>,
    fallback: Pixels,
    entity: Entity,
    name: Seq<char>,
    id: ImageId,
    other: Seq<char>,
)
    ensures
        resolved(images, fallback, entity, name, id).contains_key(name),
        resolved(images, fallback, entity, name, id)[name].used,
        images.contains_key(name) ==> resolved(
            images,
            fallback,
            entity,
            name,
            id,
        )[name].retention_policy == images[name].retention_policy,
        other != name ==> (resolved(images, fallback, entity, name, id).contains_key(other)
            <==> images.contains_key(other)),
        other != name && images.contains_key(other) ==> resolved(
            images,
            fallback,
            entity,
            name,
            id,
        )[other] == images[other],
{
}

/// Requests leave alone the entry of an image that none of them asks for.
pub proof fn lemma_unasked_is_untouched(
    images: Map<Seq<char>, StoredImageView>,
    fallback: Pixels,
    requests: Seq<Request>,
    ids: Seq<ImageId>,
    name: Seq<char>,
)
    requires
        !asks_for(requests, name),
    ensures
        resolved_all(images, fallback, requests, ids).contains_key(name) <==> images.contains_key(
            name,
        ),
        images.contains_key(name) ==> resolved_all(images, fallback, requests, ids)[name]
            == images[name],
    decreases requests.len(),
{
    if requests.len() > 0 {
        let front = requests.drop_last();
        assert forall|i: int| 0 <= i < front.len() implies (#[trigger] front[i]).name != name by {
            assert(front[i] == requests[i]);
        }
        lemma_unasked_is_untouched(images, fallback, front, ids.drop_last(), name);
        assert(requests[requests.len() - 1].name != name);
    }
}

/// Requests take no entry away and change no entry's retention policy.
pub proof fn lemma_requests_keep_entries(
    images: Map<Seq<char>, StoredImageView>,
    fallback: Pixels,
    requests: Seq<Request>,
    ids: Seq<ImageId>,
    name: Seq<char>,
)
    requires
        images.contains_key(name),
    ensures
        resolved_all(images, fallback, requests, ids).contains_key(name),
        resolved_all(images, fallback, requests, ids)[name].retention_policy
            == images[name].retention_policy,
    decreases requests.len(),
{
    if requests.len() > 0 {
        lemma_requests_keep_entries(images, fallback, requests.drop_last(), ids.drop_last(), name);
    }
}

/// After requests, the entry of every image that one of them asked for is
/// there and in use.
pub proof fn lemma_asked_is_in_use(
    images: Map<Seq<char>, StoredImageView>,
    fallback: Pixels,
    requests: Seq<Request>,
    ids: Seq<ImageId>,
    name: Seq<char>,
)
    requires
        asks_for(requests, name),
    ensures
        resolved_all(images, fallback, requests, ids).contains_key(name),
        resolved_all(images, fallback, requests, ids)[name].used,
    decreases requests.len(),
{
    let i = choose|i: int| 0 <= i < requests.len() && (#[trigger] requests[i]).name == name;
    let front = requests.drop_last();
    if requests.last().name != name {
        assert(front[i] == requests[i]);
        lemma_asked_is_in_use(images, fallback, front, ids.drop_last(), name);
    }
}

/// Every image that a node asked for during a frame is cached when the frame
/// is over: there is always something to draw.
pub proof fn lemma_asked_is_cached(
    images: Map<Seq<char>, StoredImageView>,
    fallback: Pixels,
    requests: Seq<Request>,
    ids: Seq<ImageId>,
    name: Seq<char>,
)
    requires
        asks_for(requests, name),
    ensures
        frame(images, fallback, requests, ids).contains_key(name),
        frame(images, fallback, requests, ids)[name].used,
{
    lemma_asked_is_in_use(unused(images), fallback, requests, ids, name);
}

/// An image that is kept forever is still cached after a frame, whatever the
/// nodes asked for, and is still kept forever.
pub proof fn lemma_forever_survives_frame(
    images: Map<Seq<char>, StoredImageView>,
    fallback: Pixels,
    requests: Seq<Request>,
    ids: Seq<ImageId>,
    name: Seq<char>,
)
    requires
        images.contains_key(name),
        images[name].retention_policy == ImageRetentionPolicy::Forever,
    ensures
        frame(images, fallback, requests, ids).contains_key(name),
        frame(images, fallback, requests, ids)[name].retention_policy
            == ImageRetentionPolicy::Forever,
{
    lemma_requests_keep_entries(unused(images), fallback, requests, ids, name);
}

/// The cache after `count` frames in which no node asks for any image.
pub open spec fn idle_frames(
    images: Map<Seq<char>, StoredImageView>,
    fallback: Pixels,
    count: nat,
) -> Map<Seq<char>, StoredImageView>
    decreases count,
{
    if count == 0 {
        images
    } else {
        frame(
            idle_frames(images, fallback, (count - 1) as nat),
            fallback,
            Seq::empty(),
            Seq::empty(),
        )
    }
}

/// An image that is kept forever is never evicted: it is still cached after
/// any number of frames in which no node asks for anything.
pub proof fn lemma_forever_survives_idle_frames(
    images: Map<Seq<char>, StoredImageView>,
    fallback: Pixels,
    count: nat,
    name: Seq<char>,
)
    requires
        images.contains_key(name),
        images[name].retention_policy == ImageRetentionPolicy::Forever,
    ensures
        idle_frames(images, fallback, count).contains_key(name),
        idle_frames(images, fallback, count)[name].retention_policy
            == ImageRetentionPolicy::Forever,
    decreases count,
{
    if count > 0 {
        lemma_forever_survives_idle_frames(images, fallback, (count - 1) as nat, name);
        lemma_forever_survives_frame(
            idle_frames(images, fallback, (count - 1) as nat),
            fallback,
            Seq::empty(),
            Seq::empty(),
            name,
        );
    }
}

/// An image that is not kept forever is gone after the first frame in which
/// no node asks for it.
pub proof fn lemma_unasked_is_evicted(
    images: Map<Seq<char>, StoredImageView>,
    fallback: Pixels,
    requests: Seq<Request>,
    ids: Seq<ImageId>,
    name: Seq<char>,
)
    requires
        images.contains_key(name),
        images[name].retention_policy != ImageRetentionPolicy::Forever,
        !asks_for(requests, name),
    ensures
        !frame(images, fallback, requests, ids).contains_key(name),
{
    lemma_unasked_is_untouched(unused(images), fallback, requests, ids, name);
}

/// Whether asking for the image on behalf of the node a second time changes
/// nothing: the image is cached, and the backend holds it or the node
/// observes it already.
pub open spec fn settles(
    images: Map<Seq<char>, StoredImageView>,
    entity: Entity,
    name: Seq<char>,
) -> bool {
    images.contains_key(name) && (images[name].image is Id || images[name].observers.contains(
        entity,
    ))
}

/// Asking twice is asking once: where the first asking settles the entry, a
/// second one for the same node and image leaves the cache as the first left
/// it.
pub proof fn lemma_asking_twice(
    images: Map<Seq<char>, StoredImageView>,
    fallback: Pixels,
    entity: Entity,
    name: Seq<char>,
    first: ImageId,
    second: ImageId,
)
    requires
        settles(images, entity, name),
    ensures
        resolved(resolved(images, fallback, entity, name, first), fallback, entity, name, second)
            == resolved(images, fallback, entity, name, first),
        !uploads(resolved(images, fallback, entity, name, first), name),
{
    let once = resolved(images, fallback, entity, name, first);
    let twice = resolved(once, fallback, entity, name, second);
    assert(once[name].observers.insert(entity) =~= once[name].observers);
    assert(twice =~= once);
}

/// Asking twice is asking once, for the whole context: the second asking
/// changes nothing at all.
pub proof fn lemma_asking_twice_changes_nothing<B, L>(
    pre: Context<B, L>,
    once: Context<B, L>,
    twice: Context<B, L>,
    entity: Entity,
    name: Seq<char>,
)
    requires
        settles(pre.resource_manager.images@, entity, name),
        resolves(pre, entity, name, once),
        resolves(once, entity, name, twice),
    ensures
        twice.resource_manager.images@ == once.resource_manager.images@,
        twice.needs_relayout == once.needs_relayout,
        twice.needs_redraw == once.needs_redraw,
        twice.canvas == once.canvas,
        twice.tree == once.tree,
        twice.style == once.style,
        twice.resource_manager.broken_image == once.resource_manager.broken_image,
        twice.resource_manager.image_loader == once.resource_manager.image_loader,
{
    let images = pre.resource_manager.images@;
    let fallback = pre.resource_manager.broken_image@;
    let first = choose|id: ImageId| resolves_with(pre, entity, name, id, once);
    let second = choose|id: ImageId| resolves_with(once, entity, name, id, twice);
    lemma_asking_twice(images, fallback, entity, name, first, second);
}

/// Asking twice is not asking once where the first asking does not settle
/// the entry: the second one sends the placeholder to the backend, or makes
/// the node an observer.
pub proof fn lemma_asking_twice_differs(
    images: Map<Seq<char>, StoredImageView>,
    fallback: Pixels,
    entity: Entity,
    name: Seq<char>,
    first: ImageId,
    second: ImageId,
)
    requires
        !settles(images, entity, name),
    ensures
        resolved(resolved(images, fallback, entity, name, first), fallback, entity, name, second)
            != resolved(images, fallback, entity, name, first),
{
    let once = resolved(images, fallback, entity, name, first);
    let twice = resolved(once, fallback, entity, name, second);
    if images.contains_key(name) {
        assert(twice[name].observers.contains(entity));
        assert(!once[name].observers.contains(entity));
    } else {
        assert(once[name].image is Image);
        assert(twice[name].image is Id);
    }
}

/// Asking for an image that the backend holds, or that is not cached, makes
/// no call to the backend.
pub proof fn lemma_only_decoded_images_are_uploaded(
    images: Map<Seq<char>, StoredImageView>,
    name: Seq<char>,
    id: ImageId,
)
    ensures
        !uploads(images, name) ==> upload_calls(images, name, id) == Seq::<BackendCall>::empty(),
        uploads(images, name) ==> upload_calls(images, name, id).len() == 1,
{
}

/// How often a handle stands in a row of handles.
pub open spec fn occurrences(ids: Seq<ImageId>, id: ImageId) -> nat
    decreases ids.len(),
{
    if ids.len() == 0 {
        0
    } else if ids.last() == id {
        occurrences(ids.drop_last(), id) + 1
    } else {
        occurrences(ids.drop_last(), id)
    }
}

/// Among the first `count` entries of a list of distinct names, the handle
/// of one image stands once if the image is among them, and else not at all,
/// as long as no other entry has the same handle.
proof fn lemma_occurs_once_so_far(
    evicted: Seq<(String, StoredImage)>,
    images: Map<Seq<char>, StoredImageView>,
    name: Seq<char>,
    id: ImageId,
    count: int,
)
    requires
        lists(evicted, images),
        0 <= count <= evicted.len(),
        images.contains_key(name),
        images[name].image.handle() == Some(id),
        forall|other: Seq<char>|
            images.contains_key(other) && other != name ==> images[other].image.handle() != Some(
                id,
            ),
    ensures
        occurrences(handles(evicted.take(count)), id) == if exists|j: int|
            0 <= j < count && (#[trigger] evicted[j]).0@ == name {
            1nat
        } else {
            0nat
        },
    decreases count,
{
    if count > 0 {
        let so_far = evicted.take(count);
        let before = evicted.take(count - 1);
        assert(so_far.drop_last() =~= before);
        assert(so_far.last() == evicted[count - 1]);
        lemma_occurs_once_so_far(evicted, images, name, id, count - 1);
        let last = evicted[count - 1];
        assert(images.contains_key(last.0@) && images[last.0@] == last.1@);
        if last.0@ == name {
            assert(handles(so_far) == handles(before).push(id));
            assert(handles(so_far).drop_last() =~= handles(before));
            if exists|j: int| 0 <= j < count - 1 && (#[trigger] evicted[j]).0@ == name {
                let j = choose|j: int| 0 <= j < count - 1 && (#[trigger] evicted[j]).0@ == name;
                assert(evicted[j].0@ != evicted[count - 1].0@);
            }
        } else {
            match last.1@.image {
                ImageOrIdView::Id(other, _) => {
                    assert(other != id);
                    assert(handles(so_far) == handles(before).push(other));
                    assert(handles(so_far).drop_last() =~= handles(before));
                },
                ImageOrIdView::Image(_, _) => {},
            }
            if exists|j: int| 0 <= j < count && (#[trigger] evicted[j]).0@ == name {
                let j = choose|j: int| 0 <= j < count && (#[trigger] evicted[j]).0@ == name;
                assert(j < count - 1);
            }
        }
    }
}

/// The handle of an image that leaves the cache is freed once, and once
/// only, as long as no other image that leaves has the same handle.
pub proof fn lemma_freed_once(
    evicted: Seq<(String, StoredImage)>,
    images: Map<Seq<char>, StoredImageView>,
    name: Seq<char>,
    id: ImageId,
)
    requires
        lists(evicted, images),
        images.contains_key(name),
        images[name].image.handle() == Some(id),
        forall|other: Seq<char>|
            images.contains_key(other) && other != name ==> images[other].image.handle() != Some(
                id,
            ),
    ensures
        occurrences(handles(evicted), id) == 1,
{
    lemma_occurs_once_so_far(evicted, images, name, id, evicted.len() as int);
    assert(evicted.take(evicted.len() as int) =~= evicted);
}

/// A handle that none of the leaving images has is not freed.
pub proof fn lemma_others_are_not_freed(
    evicted: Seq<(String, StoredImage)>,
    images: Map<Seq<char>, StoredImageView>,
    id: ImageId,
)
    requires
        lists(evicted, images),
        forall|name: Seq<char>|
            images.contains_key(name) ==> images[name].image.handle() != Some(id),
    ensures
        occurrences(handles(evicted), id) == 0,
    decreases evicted.len(),
{
    if evicted.len() > 0 {
        let front = evicted.drop_last();
        let last = evicted.last();
        assert(images.contains_key(last.0@) && images[last.0@] == last.1@);
        let rest = images.remove(last.0@);
        assert forall|i: int| 0 <= i < front.len() implies rest.contains_key(
            (#[trigger] front[i]).0@,
        ) && rest[front[i].0@] == front[i].1@ by {
            assert(front[i] == evicted[i]);
            assert(evicted[i].0@ != evicted[evicted.len() - 1].0@);
        }
        assert forall|name: Seq<char>| #[trigger] rest.contains_key(name) implies exists|i: int|
            0 <= i < front.len() && (#[trigger] front[i]).0@ == name by {
            let i = choose|i: int| 0 <= i < evicted.len() && (#[trigger] evicted[i]).0@ == name;
            assert(front[i] == evicted[i]);
        }
        assert forall|i: int, j: int| 0 <= i < j < front.len() implies (#[trigger] front[i]).0@ != (
        #[trigger] front[j]).0@ by {
            assert(front[i] == evicted[i] && front[j] == evicted[j]);
        }
        lemma_others_are_not_freed(front, rest, id);
        match last.1@.image {
            ImageOrIdView::Id(other, _) => {
                assert(handles(evicted).drop_last() =~= handles(front));
            },
            ImageOrIdView::Image(_, _) => {},
        }
    }
}

} // verus!
