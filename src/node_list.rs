//! Arena slots and the circular doubly-linked queues threaded through them.
//!
//! A queue is modelled by the sequence of its member slots, oldest first.
//! The oldest member is the queue's head. Each member's `prev` points to the
//! next younger member and its `next` to the next older one, both wrapping
//! around, so a one-member queue links the slot to itself.
use vstd::prelude::*;

verus! {

/// The queue a slot belongs to; `NoQueue` marks a free slot.
#[derive(Debug, Clone, Copy, PartialEq, Eq, Structural)]
pub enum QueueTypeId {
    NoQueue,
    Small,
    Main,
    GhostQueue,
}

/// One slot of the arena.
pub struct Node {
    /// The value bytes; empty for ghost entries and free slots.
    pub data: Vec<u8>,
    /// The weight the value was inserted with.
    pub weight: u64,
    /// The next older member of the queue (wrapping to the youngest).
    pub next: usize,
    /// The next younger member of the queue (wrapping to the oldest).
    pub prev: usize,
    /// Saturating access counter in `[0, 3]`.
    pub freq: u8,
    pub queue: QueueTypeId,
    /// The hash of the key the slot was filled under.
    pub hash: u64,
}

/// A handle on a slot of the arena.
#[derive(Debug, Clone, Copy, PartialEq, Eq, Structural)]
pub struct NodeRef {
    pub idx: usize,
}

/// The slot that `prev` of the `i`-th member points to.
pub open spec fn younger(s: Seq<usize>, i: int) -> usize {
    if i + 1 < s.len() {
        s[i + 1]
    } else {
        s[0]
    }
}

/// The slot that `next` of the `i`-th member points to.
pub open spec fn older(s: Seq<usize>, i: int) -> usize {
    if i > 0 {
        s[i - 1]
    } else {
        s[s.len() - 1]
    }
}

/// The members of `s` are distinct slots of `nodes`, linked in a circle in the order of `s`.
pub open spec fn ring(nodes: Seq<Node>, s: Seq<usize>) -> bool {
    &&& s.no_duplicates()
    &&& forall|i: int| 0 <= i < s.len() ==> (#[trigger] s[i] as int) < nodes.len()
    &&& forall|i: int|
        0 <= i < s.len() ==> nodes[#[trigger] s[i] as int].prev == younger(s, i) && nodes[s[i] as int].next
            == older(s, i)
}

/// `s` lists, oldest first, exactly the slots tagged `q`, linked in a circle that starts at `head`.
pub open spec fn queue_wf(
    nodes: Seq<Node>,
    head: Option<NodeRef>,
    q: QueueTypeId,
    s: Seq<usize>,
) -> bool {
    &&& ring(nodes, s)
    &&& q != QueueTypeId::NoQueue
    &&& (head is None <==> s.len() == 0)
    &&& (s.len() > 0 ==> head->0.idx == s[0])
    &&& forall|i: int| 0 <= i < s.len() ==> nodes[#[trigger] s[i] as int].queue == q
    &&& forall|j: usize| (j as int) < nodes.len() && #[trigger] nodes[j as int].queue == q ==> s.contains(j)
}

/// `a` and `b` hold the same value bytes, weight, counter and hash.
pub open spec fn same_payload(a: Node, b: Node) -> bool {
    &&& a.data == b.data
    &&& a.weight == b.weight
    &&& a.freq == b.freq
    &&& a.hash == b.hash
}

/// Going from `a` to `b` leaves the links of the members of `s` alone and tags the same slots `q`.
pub open spec fn links_kept(a: Seq<Node>, b: Seq<Node>, q: QueueTypeId, s: Seq<usize>) -> bool {
    &&& a.len() == b.len()
    &&& forall|i: int|
        0 <= i < s.len() ==> (#[trigger] b[s[i] as int]).next == a[s[i] as int].next && b[s[i] as int].prev
            == a[s[i] as int].prev && b[s[i] as int].queue == a[s[i] as int].queue
    &&& forall|j: int| 0 <= j < a.len() ==> (#[trigger] b[j].queue == q <==> a[j].queue == q)
}

/// What every slot of `a` and `b` but `idx` shares: its payload and its queue tag.
pub open spec fn others_kept(a: Seq<Node>, b: Seq<Node>, idx: usize) -> bool {
    &&& a.len() == b.len()
    &&& forall|k: int| 0 <= k < a.len() ==> same_payload(#[trigger] b[k], a[k])
    &&& forall|k: int| 0 <= k < a.len() && k != idx ==> #[trigger] b[k].queue == a[k].queue
}

/// Slots outside `s` are untouched between `a` and `b`.
pub open spec fn outside_kept(a: Seq<Node>, b: Seq<Node>, s: Seq<usize>) -> bool {
    forall|k: usize| (k as int) < a.len() && !s.contains(k) ==> #[trigger] b[k as int] == a[k as int]
}

/// The slot reached from `start` by following `next` `steps` times.
pub open spec fn walk_next(nodes: Seq<Node>, start: usize, steps: nat) -> usize
    decreases steps,
{
    if steps == 0 {
        start
    } else {
        nodes[walk_next(nodes, start, (steps - 1) as nat) as int].next
    }
}

/// Following `next` from the head of a circle visits the members youngest first and
/// reaches the head again after as many steps as there are members.
pub proof fn lemma_walk_ring(nodes: Seq<Node>, s: Seq<usize>, i: nat)
    requires
        ring(nodes, s),
        s.len() > 0,
        i <= s.len(),
    ensures
        walk_next(nodes, s[0], i) == if i == 0 {
            s[0]
        } else {
            s[s.len() - i]
        },
    decreases i,
{
    if i > 0 {
        lemma_walk_ring(nodes, s, (i - 1) as nat);
    }
}

/// The walk is back at the head only after a full turn.
pub proof fn lemma_walk_returns(nodes: Seq<Node>, s: Seq<usize>, i: nat)
    requires
        ring(nodes, s),
        s.len() > 0,
        0 < i <= s.len(),
    ensures
        (walk_next(nodes, s[0], i) == s[0]) <==> i == s.len(),
{
    lemma_walk_ring(nodes, s, i);
    if i < s.len() {
        assert(s[s.len() - i] != s[0]);
    }
}

/// A queue stays well formed when its links and tags are kept.
pub proof fn lemma_queue_wf_frame(
    a: Seq<Node>,
    b: Seq<Node>,
    head: Option<NodeRef>,
    q: QueueTypeId,
    s: Seq<usize>,
)
    requires
        queue_wf(a, head, q, s),
        links_kept(a, b, q, s),
    ensures
        queue_wf(b, head, q, s),
{
    assert forall|i: int| 0 <= i < s.len() implies b[#[trigger] s[i] as int].prev == younger(s, i)
        && b[s[i] as int].next == older(s, i) && b[s[i] as int].queue == q by {
        assert(b[s[i] as int] == b[s[i] as int]);
    }
    assert forall|j: usize| (j as int) < b.len() && #[trigger] b[j as int].queue == q implies s.contains(j) by {
        assert(a[j as int].queue == q);
    }
}

/// Whether `node_ref` is the head of the queue that starts at `head`.
pub fn node_ref_is_head(node_ref: &NodeRef, head: &Option<NodeRef>) -> (r: bool)
    ensures
        r == (head is Some && head->0.idx == node_ref.idx),
{
    match head {
        Some(head_ref) => head_ref.idx == node_ref.idx,
        None => false,
    }
}

/// A handle on slot `idx`, which must belong to a queue.
pub fn get_node_ref(idx: usize, nodes: &Vec<Node>) -> (r: NodeRef)
    requires
        idx < nodes@.len(),
        nodes@[idx as int].queue != QueueTypeId::NoQueue,
    ensures
        r.idx == idx,
{
    NodeRef { idx }
}

/// The next younger member of the queue, or `None` when the slot is alone in it.
pub fn prev_node(node_ref: &NodeRef, nodes: &Vec<Node>) -> (r: Option<NodeRef>)
    requires
        node_ref.idx < nodes@.len(),
    ensures
        r == (if nodes@[node_ref.idx as int].prev == node_ref.idx {
            None
        } else {
            Some(NodeRef { idx: nodes@[node_ref.idx as int].prev })
        }),
{
    let prev_idx = nodes[node_ref.idx].prev;
    if prev_idx == node_ref.idx {
        return None;
    }
    Some(NodeRef { idx: prev_idx })
}

/// Takes the `j`-th member out of the circle: its neighbours are joined, and the
/// slot is linked to itself and tagged `NoQueue`.
#[verifier::spinoff_prover]
pub fn unlink_node(
    node_ref: NodeRef,
    nodes: &mut Vec<Node>,
    Ghost(s): Ghost<Seq<usize>>,
    Ghost(j): Ghost<int>,
) -> (r: NodeRef)
    requires
        ring(old(nodes)@, s),
        0 <= j < s.len(),
        s[j] == node_ref.idx,
    ensures
        r == node_ref,
        ring(final(nodes)@, s.remove(j)),
        final(nodes)@[r.idx as int].next == r.idx,
        final(nodes)@[r.idx as int].prev == r.idx,
        final(nodes)@[r.idx as int].queue == QueueTypeId::NoQueue,
        others_kept(old(nodes)@, final(nodes)@, r.idx),
        outside_kept(old(nodes)@, final(nodes)@, s),
{
    let idx = node_ref.idx;
    let ghost a = nodes@;
    let ghost n = s.len() as int;
    assert(idx as int == s[j] as int);
    nodes[idx].queue = QueueTypeId::NoQueue;
    let next_idx = nodes[idx].next;
    let prev_idx = nodes[idx].prev;
    nodes[prev_idx].next = next_idx;
    nodes[next_idx].prev = prev_idx;
    nodes[idx].next = idx;
    nodes[idx].prev = idx;
    proof {
        let b = nodes@;
        assert forall|k: int| 0 <= k < a.len() && k != idx implies {
            &&& #[trigger] b[k].next == (if k == prev_idx {
                next_idx
            } else {
                a[k].next
            })
            &&& b[k].prev == (if k == next_idx {
                prev_idx
            } else {
                a[k].prev
            })
            &&& b[k].queue == a[k].queue
            &&& same_payload(b[k], a[k])
        } by {}
        lemma_unlink_ring(a, b, s, j);
        assert forall|k: usize| (k as int) < a.len() && !s.contains(k) implies #[trigger] b[k as int]
            == a[k as int] by {
            assert(k != idx);
            if k == prev_idx {
                assert(s.contains(younger(s, j)));
            }
            if k == next_idx {
                assert(s.contains(older(s, j)));
            }
        }
    }
    node_ref
}

/// The circle that `unlink_node` leaves behind.
#[verifier::spinoff_prover]
proof fn lemma_unlink_ring(a: Seq<Node>, b: Seq<Node>, s: Seq<usize>, j: int)
    requires
        ring(a, s),
        0 <= j < s.len(),
        b.len() == a.len(),
        forall|k: int|
            0 <= k < a.len() && k != s[j] ==> {
                &&& (#[trigger] b[k]).next == (if k == younger(s, j) {
                    older(s, j)
                } else {
                    a[k].next
                })
                &&& b[k].prev == (if k == older(s, j) {
                    younger(s, j)
                } else {
                    a[k].prev
                })
            },
    ensures
        ring(b, s.remove(j)),
{
    let t = s.remove(j);
    assert forall|i: int| 0 <= i < t.len() implies (#[trigger] t[i] as int) < b.len() by {
        if i < j {
            assert(t[i] == s[i]);
        } else {
            assert(t[i] == s[i + 1]);
        }
    }
    assert forall|i: int|
        0 <= i < t.len() implies b[#[trigger] t[i] as int].prev == younger(t, i) && b[t[i] as int].next
            == older(t, i) by {
        let k = if i < j {
            i
        } else {
            i + 1
        };
        assert(t[i] == s[k]);
        assert(s[k] != s[j]);
        assert(b[s[k] as int] == b[s[k] as int]);
        lemma_unlink_prev(a, b, s, j, k);
        lemma_unlink_next(a, b, s, j, k);
    }
}

/// The `prev` link of a member left behind by `unlink_node`.
#[verifier::spinoff_prover]
proof fn lemma_unlink_prev(a: Seq<Node>, b: Seq<Node>, s: Seq<usize>, j: int, k: int)
    requires
        ring(a, s),
        0 <= j < s.len(),
        s.len() > 1,
        0 <= k < s.len(),
        k != j,
        b.len() == a.len(),
        b[s[k] as int].next == (if s[k] == younger(s, j) {
            older(s, j)
        } else {
            a[s[k] as int].next
        }),
        b[s[k] as int].prev == (if s[k] == older(s, j) {
            younger(s, j)
        } else {
            a[s[k] as int].prev
        }),
    ensures
        ({
            let t = s.remove(j);
            let i = if k < j { k } else { k - 1 };
            b[s[k] as int].prev == younger(t, i)
        }),
{
    let n = s.len() as int;
    let t = s.remove(j);
    let i = if k < j { k } else { k - 1 };
    let p = younger(s, j);
    let x = older(s, j);
    let sk = s[k] as int;
    if sk == x {
        if j > 0 {
            assert(s[k] == s[j - 1]);
            assert(k == j - 1);
        } else {
            assert(s[k] == s[n - 1]);
            assert(k == n - 1);
            assert(t[0] == s[1]);
        }
    } else {
        assert(a[sk].prev == younger(s, k));
        if k < j {
            assert(younger(s, k) == s[k + 1]);
            assert(k + 1 != j);
            assert(t[k + 1] == s[k + 1]);
        } else if k + 1 < n {
            assert(t[i + 1] == s[k + 1]);
        } else {
            assert(j > 0);
            assert(t[0] == s[0]);
        }
    }
}

/// The `next` link of a member left behind by `unlink_node`.
#[verifier::spinoff_prover]
proof fn lemma_unlink_next(a: Seq<Node>, b: Seq<Node>, s: Seq<usize>, j: int, k: int)
    requires
        ring(a, s),
        0 <= j < s.len(),
        s.len() > 1,
        0 <= k < s.len(),
        k != j,
        b.len() == a.len(),
        b[s[k] as int].next == (if s[k] == younger(s, j) {
            older(s, j)
        } else {
            a[s[k] as int].next
        }),
        b[s[k] as int].prev == (if s[k] == older(s, j) {
            younger(s, j)
        } else {
            a[s[k] as int].prev
        }),
    ensures
        ({
            let t = s.remove(j);
            let i = if k < j { k } else { k - 1 };
            b[s[k] as int].next == older(t, i)
        }),
{
    let n = s.len() as int;
    let t = s.remove(j);
    let i = if k < j { k } else { k - 1 };
    let p = younger(s, j);
    let x = older(s, j);
    let sk = s[k] as int;
    if sk == p {
        if j + 1 < n {
            assert(s[k] == s[j + 1]);
            assert(k == j + 1);
            if j > 0 {
                assert(t[j - 1] == s[j - 1]);
            } else {
                assert(t[n - 2] == s[n - 1]);
            }
        } else {
            assert(s[k] == s[0]);
            assert(k == 0);
            assert(t[n - 2] == s[n - 2]);
        }
    } else {
        assert(a[sk].next == older(s, k));
        if k < j {
            if k > 0 {
                assert(t[k - 1] == s[k - 1]);
            } else {
                assert(j != n - 1);
                assert(t[n - 2] == s[n - 1]);
            }
        } else {
            assert(k - 1 != j);
            assert(t[k - 2] == s[k - 1]);
        }
    }
}

/// Clears slot `idx` for the freelist: no value, no weight, no counter, and links that
/// point nowhere.
pub fn evict_node(node_ref: NodeRef, nodes: &mut Vec<Node>) -> (r: NodeRef)
    requires
        node_ref.idx < old(nodes)@.len(),
    ensures
        r == node_ref,
        final(nodes)@.len() == old(nodes)@.len(),
        final(nodes)@[r.idx as int].data@ == Seq::<u8>::empty(),
        final(nodes)@[r.idx as int].weight == 0,
        final(nodes)@[r.idx as int].freq == 0,
        final(nodes)@[r.idx as int].next == usize::MAX,
        final(nodes)@[r.idx as int].prev == usize::MAX,
        final(nodes)@[r.idx as int].queue == old(nodes)@[r.idx as int].queue,
        final(nodes)@[r.idx as int].hash == old(nodes)@[r.idx as int].hash,
        forall|k: int| 0 <= k < old(nodes)@.len() && k != r.idx ==> #[trigger] final(nodes)@[k] == old(nodes)@[k],
{
    let idx = node_ref.idx;
    nodes[idx].data = Vec::new();
    nodes[idx].weight = 0;
    nodes[idx].freq = 0;
    nodes[idx].next = usize::MAX;
    nodes[idx].prev = usize::MAX;
    node_ref
}

/// Refills a free slot with a value of the given weight, linked to itself.
pub fn occupy_node(node_ref: NodeRef, nodes: &mut Vec<Node>, data_size: u64, data: Vec<u8>) -> (r: NodeRef)
    requires
        node_ref.idx < old(nodes)@.len(),
    ensures
        r == node_ref,
        final(nodes)@.len() == old(nodes)@.len(),
        final(nodes)@[r.idx as int].data == data,
        final(nodes)@[r.idx as int].weight == data_size,
        final(nodes)@[r.idx as int].freq == 0,
        final(nodes)@[r.idx as int].next == r.idx,
        final(nodes)@[r.idx as int].prev == r.idx,
        final(nodes)@[r.idx as int].queue == old(nodes)@[r.idx as int].queue,
        final(nodes)@[r.idx as int].hash == old(nodes)@[r.idx as int].hash,
        forall|k: int| 0 <= k < old(nodes)@.len() && k != r.idx ==> #[trigger] final(nodes)@[k] == old(nodes)@[k],
{
    let idx = node_ref.idx;
    nodes[idx].data = data;
    nodes[idx].weight = data_size;
    nodes[idx].freq = 0;
    nodes[idx].next = idx;
    nodes[idx].prev = idx;
    node_ref
}

/// Links a slot that belongs to no queue into queue `q` as its youngest member, or
/// as its head when the queue is empty.
#[verifier::spinoff_prover]
pub fn move_to_queue(
    node_ref: NodeRef,
    q: QueueTypeId,
    nodes: &mut Vec<Node>,
    head: &mut Option<NodeRef>,
    Ghost(s): Ghost<Seq<usize>>,
) -> (r: NodeRef)
    requires
        queue_wf(old(nodes)@, *old(head), q, s),
        node_ref.idx < old(nodes)@.len(),
        old(nodes)@[node_ref.idx as int].queue == QueueTypeId::NoQueue,
    ensures
        r == node_ref,
        queue_wf(final(nodes)@, *final(head), q, s.push(r.idx)),
        final(nodes)@[r.idx as int].queue == q,
        others_kept(old(nodes)@, final(nodes)@, r.idx),
        outside_kept(old(nodes)@, final(nodes)@, s.push(r.idx)),
{
    let idx = node_ref.idx;
    let ghost a = nodes@;
    let ghost n = s.len() as int;
    assert(!s.contains(idx)) by {
        if s.contains(idx) {
            let i = choose|i: int| 0 <= i < s.len() && s[i] == idx;
            assert(a[s[i] as int].queue == q);
        }
    }
    nodes[idx].queue = q;
    match *head {
        Some(head_ref) => {
            let h = head_ref.idx;
            assert(h == s[0]);
            let tail_idx = nodes[h].next;
            assert(tail_idx == s[n - 1]);
            nodes[tail_idx].prev = idx;
            nodes[idx].prev = h;
            nodes[idx].next = tail_idx;
            nodes[h].next = idx;
        },
        None => {
            nodes[idx].prev = idx;
            nodes[idx].next = idx;
            *head = Some(node_ref);
        },
    }
    proof {
        let b = nodes@;
        let t = s.push(idx);
        assert(t[n] == idx);
        assert forall|i: int| 0 <= i < t.len() implies (#[trigger] t[i] as int) < b.len() by {
            if i < n {
                assert(t[i] == s[i]);
            }
        }
        assert forall|i: int|
            0 <= i < t.len() implies b[#[trigger] t[i] as int].prev == younger(t, i) && b[t[i] as int].next
                == older(t, i) && b[t[i] as int].queue == q by {
            if i < n {
                assert(t[i] == s[i]);
                assert(s[i] != idx);
            }
        }
        assert forall|k: usize| (k as int) < b.len() && #[trigger] b[k as int].queue == q implies t.contains(k) by {
            if k != idx {
                assert(a[k as int].queue == q);
                let i = choose|i: int| 0 <= i < s.len() && s[i] == k;
                assert(t[i] == k);
            } else {
                assert(t[n] == k);
            }
        }
        assert forall|k: usize| (k as int) < a.len() && !t.contains(k) implies #[trigger] b[k as int]
            == a[k as int] by {
            assert(k != idx) by {
                if k == idx {
                    assert(t[n] == k);
                }
            }
            if n > 0 {
                assert(t[0] == s[0]);
                assert(t[n - 1] == s[n - 1]);
            }
        }
    }
    node_ref
}

/// Unlinks the head (oldest member) of the queue, makes the next younger member the
/// new head, and returns the unlinked slot; `None` for an empty queue.
#[verifier::spinoff_prover]
pub fn pop_head(
    nodes: &mut Vec<Node>,
    head: &mut Option<NodeRef>,
    Ghost(q): Ghost<QueueTypeId>,
    Ghost(s): Ghost<Seq<usize>>,
) -> (r: Option<NodeRef>)
    requires
        queue_wf(old(nodes)@, *old(head), q, s),
    ensures
        s.len() == 0 ==> r is None && final(nodes)@ == old(nodes)@ && *final(head) == *old(head),
        s.len() > 0 ==> {
            &&& r == Some(NodeRef { idx: s[0] })
            &&& queue_wf(final(nodes)@, *final(head), q, s.drop_first())
            &&& final(nodes)@[s[0] as int].next == s[0]
            &&& final(nodes)@[s[0] as int].prev == s[0]
            &&& final(nodes)@[s[0] as int].queue == QueueTypeId::NoQueue
            &&& others_kept(old(nodes)@, final(nodes)@, s[0])
            &&& outside_kept(old(nodes)@, final(nodes)@, s)
        },
{
    match *head {
        None => None,
        Some(head_ref) => {
            let ghost a = nodes@;
            let ghost n = s.len() as int;
            assert(s.len() > 0);
            assert(head_ref.idx == s[0]);
            assert(s[0] as int == head_ref.idx as int);
            match prev_node(&head_ref, nodes) {
                Some(prev_ref) => {
                    assert(n > 1) by {
                        if n == 1 {
                            assert(younger(s, 0) == s[0]);
                        }
                    }
                    assert(prev_ref.idx == s[1]);
                    *head = Some(prev_ref);
                },
                None => {
                    assert(n == 1) by {
                        if n > 1 {
                            assert(younger(s, 0) == s[1]);
                            assert(s[1] != s[0]);
                        }
                    }
                    *head = None;
                },
            }
            let unlinked = unlink_node(head_ref, nodes, Ghost(s), Ghost(0));
            proof {
                let b = nodes@;
                let t = s.drop_first();
                assert(s.remove(0) =~= t);
                assert forall|i: int| 0 <= i < t.len() implies b[#[trigger] t[i] as int].queue == q by {
                    assert(t[i] == s[i + 1]);
                    assert(s[i + 1] != s[0]);
                }
                assert forall|k: usize| (k as int) < b.len() && #[trigger] b[k as int].queue == q implies t.contains(k) by {
                    assert(k != s[0]);
                    assert(a[k as int].queue == q);
                    let i = choose|i: int| 0 <= i < s.len() && s[i] == k;
                    assert(i != 0);
                    assert(t[i - 1] == k);
                }
                if n > 1 {
                    assert(t[0] == s[1]);
                }
            }
            Some(unlinked)
        },
    }
}

/// Takes the `j`-th member out of its queue, moving the head on when it is the head.
/// The slot is left linked to itself and tagged `NoQueue`.
#[verifier::spinoff_prover]
pub fn detach_node(
    node_ref: NodeRef,
    head: &mut Option<NodeRef>,
    nodes: &mut Vec<Node>,
    Ghost(q): Ghost<QueueTypeId>,
    Ghost(s): Ghost<Seq<usize>>,
    Ghost(j): Ghost<int>,
) -> (r: NodeRef)
    requires
        queue_wf(old(nodes)@, *old(head), q, s),
        0 <= j < s.len(),
        s[j] == node_ref.idx,
    ensures
        r == node_ref,
        queue_wf(final(nodes)@, *final(head), q, s.remove(j)),
        final(nodes)@[r.idx as int].next == r.idx,
        final(nodes)@[r.idx as int].prev == r.idx,
        final(nodes)@[r.idx as int].queue == QueueTypeId::NoQueue,
        others_kept(old(nodes)@, final(nodes)@, r.idx),
        outside_kept(old(nodes)@, final(nodes)@, s),
{
    let ghost a = nodes@;
    let is_head = node_ref_is_head(&node_ref, head);
    if is_head {
        assert(j == 0) by {
            if j != 0 {
                assert(s[j] != s[0]);
            }
        }
        assert(s.remove(0) =~= s.drop_first());
        let _ = pop_head(nodes, head, Ghost(q), Ghost(s));
        node_ref
    } else {
        assert(j != 0);
        let unlinked = unlink_node(node_ref, nodes, Ghost(s), Ghost(j));
        proof {
            let b = nodes@;
            let t = s.remove(j);
            assert(t[0] == s[0]);
            assert forall|i: int| 0 <= i < t.len() implies b[#[trigger] t[i] as int].queue == q by {
                let k = if i < j {
                    i
                } else {
                    i + 1
                };
                assert(t[i] == s[k]);
                assert(s[k] != s[j]);
            }
            assert forall|k: usize| (k as int) < b.len() && #[trigger] b[k as int].queue == q implies t.contains(k) by {
                assert(k != s[j]);
                assert(a[k as int].queue == q);
                let i = choose|i: int| 0 <= i < s.len() && s[i] == k;
                assert(i != j);
                if i < j {
                    assert(t[i] == k);
                } else {
                    assert(t[i - 1] == k);
                }
            }
        }
        unlinked
    }
}

/// Takes the `j`-th member out of its queue, moving the head on when it is the
/// head, and clears the slot for the freelist.
#[verifier::spinoff_prover]
pub fn delete_node(
    node_ref: NodeRef,
    head: &mut Option<NodeRef>,
    nodes: &mut Vec<Node>,
    Ghost(q): Ghost<QueueTypeId>,
    Ghost(s): Ghost<Seq<usize>>,
    Ghost(j): Ghost<int>,
) -> (r: NodeRef)
    requires
        queue_wf(old(nodes)@, *old(head), q, s),
        0 <= j < s.len(),
        s[j] == node_ref.idx,
    ensures
        r == node_ref,
        queue_wf(final(nodes)@, *final(head), q, s.remove(j)),
        final(nodes)@[r.idx as int].data@ == Seq::<u8>::empty(),
        final(nodes)@[r.idx as int].weight == 0,
        final(nodes)@[r.idx as int].freq == 0,
        final(nodes)@[r.idx as int].next == usize::MAX,
        final(nodes)@[r.idx as int].prev == usize::MAX,
        final(nodes)@[r.idx as int].queue == QueueTypeId::NoQueue,
        final(nodes)@[r.idx as int].hash == old(nodes)@[r.idx as int].hash,
        final(nodes)@.len() == old(nodes)@.len(),
        forall|k: int|
            0 <= k < old(nodes)@.len() && k != r.idx ==> same_payload(#[trigger] final(nodes)@[k], old(nodes)@[k])
                && final(nodes)@[k].queue == old(nodes)@[k].queue,
        outside_kept(old(nodes)@, final(nodes)@, s),
{
    let detached = detach_node(node_ref, head, nodes, Ghost(q), Ghost(s), Ghost(j));
    let ghost mid = nodes@;
    let freed = evict_node(detached, nodes);
    proof {
        lemma_queue_wf_after_evict(mid, nodes@, *head, q, s.remove(j), node_ref.idx);
    }
    freed
}

/// Clearing a slot outside a queue keeps the queue well formed.
proof fn lemma_queue_wf_after_evict(
    mid: Seq<Node>,
    b: Seq<Node>,
    head: Option<NodeRef>,
    q: QueueTypeId,
    t: Seq<usize>,
    idx: usize,
)
    requires
        queue_wf(mid, head, q, t),
        mid.len() == b.len(),
        idx < b.len(),
        mid[idx as int].queue == QueueTypeId::NoQueue,
        b[idx as int].queue == QueueTypeId::NoQueue,
        forall|k: int| 0 <= k < b.len() && k != idx ==> #[trigger] b[k] == mid[k],
    ensures
        queue_wf(b, head, q, t),
{
    assert forall|i: int| 0 <= i < t.len() implies t[i] != idx by {
        assert(mid[t[i] as int].queue == q);
    }
    assert forall|i: int| 0 <= i < t.len() implies #[trigger] b[t[i] as int] == mid[t[i] as int] by {
        assert(t[i] != idx);
    }
    assert(links_kept(mid, b, q, t));
    lemma_queue_wf_frame(mid, b, head, q, t);
}

} // verus!
