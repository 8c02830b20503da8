use vstd::prelude::*;
use ed25519_dalek::Digest as _;
use ed25519_dalek::Sha512;
use crate::execution_queue::is_pair;
use crate::missing_edges::MissingEdgeManager;

verus! {

/// The first 32 bytes of the SHA-512 digest of `bytes`.
pub uninterp spec fn sha512_digest32(bytes: Seq<u8>) -> Seq<u8>;

/// Relies on ed25519_dalek::Sha512 (SHA-512 from sha2): its digest depends on the
/// bytes alone, and is 64 bytes long, of which the first 32 are kept.
#[verifier::external_body]
fn sha512_prefix(bytes: &Vec<u8>) -> (r: Vec<u8>)
    ensures
        r@ == sha512_digest32(bytes@),
        r@.len() == 32,
{
    Sha512::digest(bytes).as_slice()[..32].to_vec()
}

/// The identifier of a serialized global order: the first 32 bytes of its SHA-512 digest.
pub fn global_order_digest(global_order: &Vec<u8>) -> (r: Vec<u8>)
    ensures
        r@ == sha512_digest32(global_order@),
        r@.len() == 32,
{
    sha512_prefix(global_order)
}

/// One of the pairs of `pairs` is `{u, v}`.
pub open spec fn names_pair(pairs: Seq<(u16, u16)>, u: u16, v: u16) -> bool {
    exists|i: int| #![trigger pairs[i]] 0 <= i < pairs.len() && is_pair(pairs[i], u, v)
}

/// The counter of `u -> v` after the pairs of `pairs` are recorded one by one:
/// a pair new to the table starts at zero, and the listed direction gains one
/// observation (a counter at its maximum stays there).
pub open spec fn count_after(before: MissingEdgeManager, pairs: Seq<(u16, u16)>, u: u16, v: u16) -> u64
    decreases pairs.len(),
{
    if pairs.len() == 0 {
        before.count(u, v)
    } else {
        let init = pairs.drop_last();
        let p = pairs.last();
        let prev = count_after(before, init, u, v);
        let known = before.is_missing(u, v) || names_pair(init, u, v);
        let base: u64 = if is_pair(p, u, v) && !known { 0 } else { prev };
        if p == (u, v) && base < u64::MAX {
            (base + 1) as u64
        } else {
            base
        }
    }
}

/// Handles a global order that arrived: a peer's order has its missed pairs
/// recorded as missing, each observed once in the direction listed; our own
/// order was recorded when it was made. Returns the order's digest.
pub struct GlobalOrderProcessor;

impl GlobalOrderProcessor {
    pub fn process(
        global_order: &Vec<u8>,
        missed_pairs: &Vec<(u16, u16)>,
        own_digest: bool,
        manager: &mut MissingEdgeManager,
    ) -> (r: Vec<u8>)
        requires
            old(manager).wf(),
        ensures
            r@ == sha512_digest32(global_order@),
            final(manager).wf(),
            old(manager).grows_to(&*final(manager)),
            forall|u: u16, v: u16| #[trigger] final(manager).is_missing(u, v) <==> (old(manager).is_missing(u, v)
                || (!own_digest && names_pair(missed_pairs@, u, v))),
            own_digest ==> *final(manager) == *old(manager),
            !own_digest ==> forall|u: u16, v: u16| #[trigger] final(manager).count(u, v) == count_after(*old(manager), missed_pairs@, u, v),
    {
        if !own_digest {
            let mut k: usize = 0;
            while k < missed_pairs.len()
                invariant
                    0 <= k <= missed_pairs@.len(),
                    manager.wf(),
                    old(manager).grows_to(&*manager),
                    forall|u: u16, v: u16| #[trigger] manager.is_missing(u, v) <==> (old(manager).is_missing(u, v)
                        || names_pair(missed_pairs@.take(k as int), u, v)),
                    forall|u: u16, v: u16| #[trigger] manager.count(u, v) == count_after(*old(manager), missed_pairs@.take(k as int), u, v),
                decreases missed_pairs@.len() - k,
            {
                let (a, b) = missed_pairs[k];
                let ghost mid = *manager;
                manager.add_missing_edge(a, b);
                let ghost mid2 = *manager;
                match manager.get_count(a, b) {
                    Some(c) => {
                        if c < u64::MAX {
                            manager.add_updated_edge(a, b, 1);
                        }
                    },
                    None => {},
                }
                let ghost pre = missed_pairs@.take(k as int);
                let ghost post = missed_pairs@.take(k as int + 1);
                assert(post =~= pre.push((a, b)));
                assert forall|u: u16, v: u16| #[trigger] manager.is_missing(u, v) <==> (old(manager).is_missing(u, v)
                    || names_pair(post, u, v)) by {
                    assert(manager.is_missing(u, v) == mid2.is_missing(u, v));
                    if names_pair(post, u, v) {
                        let i = choose|i: int| #![trigger post[i]] 0 <= i < post.len() && is_pair(post[i], u, v);
                        if i < pre.len() {
                            assert(pre[i] == post[i]);
                            assert(names_pair(pre, u, v));
                        }
                    }
                    if names_pair(pre, u, v) {
                        let i = choose|i: int| #![trigger pre[i]] 0 <= i < pre.len() && is_pair(pre[i], u, v);
                        assert(post[i] == pre[i]);
                    }
                    if is_pair((a, b), u, v) {
                        assert(post[k as int] == (a, b));
                    }
                }
                assert(post.drop_last() =~= pre);
                assert forall|u: u16, v: u16| #[trigger] manager.count(u, v) == count_after(*old(manager), post, u, v) by {
                    assert(mid.is_missing(u, v) == (old(manager).is_missing(u, v) || names_pair(pre, u, v)));
                    assert(mid2.is_missing(u, v) == mid.is_missing(u, v) || is_pair((a, b), u, v));
                }
                assert(old(manager).grows_to(&*manager)) by {
                    assert forall|u: u16, v: u16| #[trigger] old(manager).is_missing(u, v) implies manager.is_missing(u, v)
                        && old(manager).count(u, v) <= manager.count(u, v) by {
                        assert(mid.is_missing(u, v));
                        assert(mid2.is_missing(u, v));
                    }
                }
                k += 1;
            }
            assert(missed_pairs@.take(k as int) =~= missed_pairs@);
        }
        global_order_digest(global_order)
    }
}

} // verus!
