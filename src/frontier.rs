use priority_queue::PriorityQueue;
use vstd::prelude::*;

verus! {

/// Declares `priority_queue::PriorityQueue` as an opaque type; what it holds
/// is stated through `queue_entries`.
#[verifier::external_type_specification]
#[verifier::external_body]
#[verifier::reject_recursive_types(I)]
#[verifier::reject_recursive_types(P)]
#[verifier::reject_recursive_types(H)]
pub struct ExPriorityQueue<I, P, H>(PriorityQueue<I, P, H>);

/// An item with its priority.
pub type QueuedItem = ((usize, u128), (i64, u128));

/// The queue of nodes awaiting relaxation.
pub type Frontier = PriorityQueue<(usize, u128), (i64, u128)>;

/// The queue's items, each with its priority. An item is a node index and
/// the number of the push that queued it; a priority is a quantized net score
/// and a tie-break.
pub uninterp spec fn queue_entries(q: Frontier) -> Map<
    (usize, u128),
    (i64, u128),
>;

/// `a <= b` in the lexicographic order of std's tuples.
pub open spec fn priority_le(a: (i64, u128), b: (i64, u128)) -> bool {
    a.0 < b.0 || (a.0 == b.0 && a.1 <= b.1)
}

/// `e` is queued, and no queued item has a greater priority.
pub open spec fn is_top(m: Map<(usize, u128), (i64, u128)>, e: (usize, u128)) -> bool {
    m.contains_key(e) && forall|f: (usize, u128)| #[trigger]
        m.contains_key(f) ==> priority_le(m[f], m[e])
}

/// Relies on `PriorityQueue::new`: the queue starts empty.
#[verifier::external_body]
pub(crate) fn queue_new() -> (r: Frontier)
    ensures
        queue_entries(r).dom() == Set::<(usize, u128)>::empty(),
{
    PriorityQueue::new()
}

/// Relies on `PriorityQueue::push`: an item not yet queued is added with its
/// priority, and nothing else changes.
#[verifier::external_body]
pub(crate) fn queue_push(
    q: &mut Frontier,
    item: (usize, u128),
    priority: (i64, u128),
)
    requires
        !queue_entries(*old(q)).contains_key(item),
    ensures
        queue_entries(*final(q)) == queue_entries(*old(q)).insert(item, priority),
{
    q.push(item, priority);
}

/// Relies on `PriorityQueue::pop`: removes and returns an item of greatest
/// priority with that priority, or `None` when the queue is empty.
#[verifier::external_body]
pub(crate) fn queue_pop(q: &mut Frontier) -> (r: Option<QueuedItem>)
    ensures
        r is None <==> queue_entries(*old(q)).dom() == Set::<(usize, u128)>::empty(),
        r is None ==> queue_entries(*final(q)) == queue_entries(*old(q)),
        r is Some ==> {
            let (e, p) = r.unwrap();
            &&& is_top(queue_entries(*old(q)), e)
            &&& queue_entries(*old(q))[e] == p
            &&& queue_entries(*final(q)) == queue_entries(*old(q)).remove(e)
        },
{
    q.pop()
}

} // verus!
