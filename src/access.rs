use vstd::prelude::*;

verus! {

/// How a transaction touches its objects.
#[derive(Clone, Copy, Debug, PartialEq, Eq, Structural)]
pub enum AccessKind {
    Read,
    Write,
}

/// What the conflict oracle reports for one transaction: its kind and the
/// object keys it touches.
#[derive(Clone, Debug)]
pub struct Access {
    pub kind: AccessKind,
    pub keys: Vec<u32>,
}

/// Two accesses share at least one object key.
pub open spec fn share_key(a: Access, b: Access) -> bool {
    exists|k: u32| a.keys@.contains(k) && b.keys@.contains(k)
}

/// Two accesses conflict: they share a key and at least one of them writes.
pub open spec fn conflicts(a: Access, b: Access) -> bool {
    share_key(a, b) && !(a.kind == AccessKind::Read && b.kind == AccessKind::Read)
}

} // verus!
