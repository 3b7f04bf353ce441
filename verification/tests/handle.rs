//! Handles and the slab that gives them out.

use libtau::auth::SyscallError;
use libtau::handle::{Handle, RawHandle, Slab, Slot};

#[test]
fn handle_equality() {
    let raw = RawHandle::new(1, 0);
    let h1 = Handle::<()>::new(raw);
    let h2 = Handle::<()>::new(raw);
    assert_eq!(h1, h2);
}

#[test]
fn handle_inequality() {
    let h1 = Handle::<()>::new(RawHandle::new(1, 0));
    let h2 = Handle::<()>::new(RawHandle::new(2, 0));
    assert_ne!(h1, h2);
}

#[test]
fn stale_handle_detection() {
    let h1 = Handle::<()>::new(RawHandle::new(1, 0));
    let h2 = Handle::<()>::new(RawHandle::new(1, 1)); // same index, different generation
    assert_ne!(h1, h2);
}

#[test]
fn slab_reuses_a_place_under_a_new_generation() {
    let mut slab = Slab::new();
    let a = slab.insert(Slot::Service).unwrap();
    let b = slab.insert(Slot::External).unwrap();
    assert_ne!(a, b);
    assert_eq!(slab.get(a), Some(Slot::Service));
    assert!(slab.remove(a));
    assert!(!slab.remove(a), "a removed handle is stale");
    assert_eq!(slab.get(a), None);
    let c = slab.insert(Slot::External).unwrap();
    assert_eq!(c.index, a.index);
    assert_ne!(c.generation, a.generation);
    assert_eq!(slab.get(a), None);
    assert_eq!(slab.get(c), Some(Slot::External));
    assert_eq!(slab.get(b), Some(Slot::External));
    let missing: Result<(), SyscallError> = Err(SyscallError::InvalidHandle);
    assert!(missing.is_err());
}
