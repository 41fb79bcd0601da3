use std::sync::Arc;
use vstd::prelude::*;

verus! {

/// An RGBA image, four bytes per pixel, rows top to bottom.
pub struct Image {
    pub width: usize,
    pub height: usize,
    pub pixels: Vec<u8>,
}

impl Image {
    pub open spec fn wf(&self) -> bool {
        self.pixels@.len() == self.width * self.height * 4
    }
}

/// A script's handle on an image; empty once released.
pub struct ImageLease(pub Option<Arc<Image>>);

#[derive(Clone, Copy, Debug, PartialEq, Eq, Structural)]
pub enum LeaseError {
    /// The image was released already.
    Released,
}

/// Wraps a new image in a lease.
pub fn owned(image: Image) -> (r: ImageLease)
    ensures
        r.0 matches Some(a) && *a == image,
{
    ImageLease(Some(Arc::new(image)))
}

/// The leased image, or an error once it was released.
pub fn image(lease: &ImageLease) -> (r: Result<Arc<Image>, LeaseError>)
    ensures
        match lease.0 {
            Some(a) => r matches Ok(b) && b == a,
            None => r matches Err(LeaseError::Released),
        },
{
    match &lease.0 {
        Some(image) => Ok(crate::text::share(image)),
        None => Err(LeaseError::Released),
    }
}

/// Ends the lease; images already handed out stay intact.
pub fn release(lease: &mut ImageLease)
    ensures
        final(lease).0 is None,
{
    lease.0 = None;
}

} // verus!
