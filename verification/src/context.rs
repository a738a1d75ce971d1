//! What a frame works on: the tree, the image names in the style, the image
//! cache, the rendering backend, and the image loader, which the library
//! calls but does not contain.

use crate::backend::Recorded;
use crate::resource::{ResourceManager, StoredImageView};
use std::collections::HashMap;
use vstd::prelude::*;

verus! {

/// Identifies a node of the tree.
pub type Entity = u64;

/// Supplies images that were asked for and are not cached. It is called with
/// the whole context and is expected to put the image into the cache, now or
/// later; it returns nothing.
///
/// What a loader may make of the context is for the loader to say, in
/// `loads`. A loader that says nothing may do anything. Whatever the library
/// states of a frame in which the loader runs, it states over that relation.
pub trait ImageLoader<B>: Sized {
    /// Whether a call for the image `name` may lead from `pre` to `post`.
    open spec fn loads(
        &self,
        pre: Context<B, Self>,
        name: Seq<char>,
        post: Context<B, Self>,
    ) -> bool {
        true
    }

    fn load(&self, cx: &mut Context<B, Self>, image_name: &str)
        ensures
            self.loads(*old(cx), image_name@, *final(cx)),
    ;
}

/// The loader of a context that has none to register: it does nothing.
pub struct NoLoader;

impl<B> ImageLoader<B> for NoLoader {
    open spec fn loads(
        &self,
        pre: Context<B, NoLoader>,
        name: Seq<char>,
        post: Context<B, NoLoader>,
    ) -> bool {
        post == pre
    }

    fn load(&self, cx: &mut Context<B, NoLoader>, image_name: &str) {
    }
}

/// A call that reached the loader: the name it was called with, and the
/// cache as it was handed over. The slot of the loader was empty then: a
/// loader is only ever called while it is out of its slot.
pub struct LoaderCall {
    pub name: Seq<char>,
    pub images: Map<Seq<char>, StoredImageView>,
}

/// A loader as it is registered: together with the record of the calls that
/// reached it through this value, the earliest first. The record costs
/// nothing when the program runs.
pub struct Registered<L> {
    loader: L,
    calls: Ghost<Seq<LoaderCall>>,
}

impl<L> Registered<L> {
    /// The loader itself.
    pub closed spec fn inner(&self) -> L {
        self.loader
    }

    /// The calls that reached the loader, the earliest first.
    pub closed spec fn calls(&self) -> Seq<LoaderCall> {
        self.calls@
    }

    /// The loader, with no call made to it yet.
    pub fn new(loader: L) -> (registered: Registered<L>)
        ensures
            registered.inner() == loader,
            registered.calls() == Seq::<LoaderCall>::empty(),
    {
        Registered { loader, calls: Ghost(Seq::empty()) }
    }

    /// The loader, to look at.
    pub fn loader(&self) -> (loader: &L)
        ensures
            *loader == self.inner(),
    {
        &self.loader
    }

    /// Calls the loader for an image. The loader has to be out of its slot
    /// while it runs, so that it cannot be reached from within itself.
    pub fn load<B>(&mut self, cx: &mut Context<B, L>, image_name: &str) where L: ImageLoader<B>
        requires
            old(cx).resource_manager.image_loader is None,
        ensures
            final(self).inner() == old(self).inner(),
            final(self).calls() == old(self).calls().push(
                LoaderCall { name: image_name@, images: old(cx).resource_manager.images@ },
            ),
            old(self).inner().loads(*old(cx), image_name@, *final(cx)),
    {
        let ghost call = LoaderCall { name: image_name@, images: cx.resource_manager.images@ };
        self.loader.load(cx, image_name);
        self.calls = Ghost(self.calls@.push(call));
    }
}

/// The slot is empty as before, or holds the loader that it held before,
/// which has received the calls that it had received before and then
/// `calls`.
pub open spec fn called<L>(
    before: Option<Registered<L>>,
    calls: Seq<LoaderCall>,
    after: Option<Registered<L>>,
) -> bool {
    match before {
        Some(loader) => after matches Some(same) && same.inner() == loader.inner() && same.calls()
            == loader.calls() + calls,
        None => after is None,
    }
}

/// Calls after calls are calls.
pub proof fn lemma_called_again<L>(
    before: Option<Registered<L>>,
    first: Seq<LoaderCall>,
    between: Option<Registered<L>>,
    second: Seq<LoaderCall>,
    after: Option<Registered<L>>,
)
    requires
        called(before, first, between),
        called(between, second, after),
    ensures
        called(before, first + second, after),
{
    if before is Some {
        assert(before.unwrap().calls() + (first + second) =~= before.unwrap().calls() + first
            + second);
    }
}

/// No call leaves the slot as it is.
pub proof fn lemma_not_called<L>(slot: Option<Registered<L>>)
    ensures
        called(slot, Seq::empty(), slot),
{
}

/// The image names that the style gives to nodes.
pub struct Style {
    pub background_image: HashMap<Entity, String>,
    pub image: HashMap<Entity, String>,
}

/// Everything a frame reads and writes.
pub struct Context<B, L> {
    /// The nodes, in the order in which a frame visits them.
    pub tree: Vec<Entity>,
    pub style: Style,
    pub resource_manager: ResourceManager<L>,
    /// The rendering backend.
    pub canvas: Recorded<B>,
    /// Raised when the layout has to be computed again.
    pub needs_relayout: bool,
    /// Raised when the picture has to be drawn again.
    pub needs_redraw: bool,
}

impl<B, L> Context<B, L> {
    /// Asks for a new layout. Asking twice is asking once.
    pub fn need_relayout(&mut self)
        ensures
            *final(self) == (Context { needs_relayout: true, ..*old(self) }),
    {
        self.needs_relayout = true;
    }

    /// Asks for a redraw. Asking twice is asking once.
    pub fn need_redraw(&mut self)
        ensures
            *final(self) == (Context { needs_redraw: true, ..*old(self) }),
    {
        self.needs_redraw = true;
    }
}

} // verus!
