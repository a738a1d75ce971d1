//! The rendering backend, which the library calls but does not contain, and
//! the record of the calls that the library makes to it.

use crate::decoded::{DecodedImage, Pixels};
use femtovg::ImageId;
use vstd::prelude::*;

verus! {

/// The handle that femtovg assigns to an image it holds. The library never
/// looks inside one.
#[verifier::external_type_specification]
#[verifier::external_body]
pub struct ExImageId(ImageId);

/// The rendering backend, as far as images go. It assigns the handles; the
/// library only keeps them and gives them back. Nothing is assumed of an
/// implementation.
pub trait RenderBackend {
    /// Takes a decoded image and answers with the handle under which the
    /// backend now holds it.
    fn create_image(&mut self, image: &DecodedImage, flags: u32) -> ImageId;

    /// Frees what the backend holds under a handle.
    fn delete_image(&mut self, id: ImageId);
}

/// A call that reached the backend.
pub enum BackendCall {
    /// An image was handed over with these flags, and the backend answered
    /// with this handle.
    Create { image: Pixels, flags: u32, id: ImageId },
    /// The backend was told to free what it holds under this handle.
    Delete { id: ImageId },
}

/// A backend together with the record of the calls that reached it through
/// this value, the earliest first. The record costs nothing when the program
/// runs: it is there for the contracts to say what the backend was asked to
/// do.
pub struct Recorded<B> {
    backend: B,
    calls: Ghost<Seq<BackendCall>>,
}

impl<B> Recorded<B> {
    /// The calls that reached the backend, the earliest first.
    pub closed spec fn calls(&self) -> Seq<BackendCall> {
        self.calls@
    }

    /// The backend, with no call made to it yet.
    pub fn new(backend: B) -> (recorded: Recorded<B>)
        ensures
            recorded.calls() == Seq::<BackendCall>::empty(),
    {
        Recorded { backend, calls: Ghost(Seq::empty()) }
    }

    /// The backend itself.
    pub closed spec fn inner(&self) -> B {
        self.backend
    }

    /// The backend, to look at.
    pub fn backend(&self) -> (backend: &B)
        ensures
            *backend == self.inner(),
    {
        &self.backend
    }
}

impl<B: RenderBackend> Recorded<B> {
    /// Hands a decoded image to the backend, which answers with the handle
    /// under which it now holds it.
    pub fn create_image(&mut self, image: &DecodedImage, flags: u32) -> (id: ImageId)
        ensures
            final(self).calls() == old(self).calls().push(
                BackendCall::Create { image: image@, flags, id },
            ),
    {
        let id = self.backend.create_image(image, flags);
        self.calls = Ghost(self.calls@.push(BackendCall::Create { image: image@, flags, id }));
        id
    }

    /// Tells the backend to free what it holds under a handle.
    pub fn delete_image(&mut self, id: ImageId)
        ensures
            final(self).calls() == old(self).calls().push(BackendCall::Delete { id }),
    {
        self.backend.delete_image(id);
        self.calls = Ghost(self.calls@.push(BackendCall::Delete { id }));
    }
}

} // verus!
