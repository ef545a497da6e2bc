use vstd::prelude::*;

use crate::entity::NULL_ID;

verus! {

/// The first index of `x` in `s`.
pub open spec fn seq_index_of(s: Seq<u32>, x: u32) -> int
    decreases s.len(),
{
    if s.len() == 0 {
        0
    } else if s[0] == x {
        0
    } else {
        1 + seq_index_of(s.drop_first(), x)
    }
}

/// When `s` holds `x`, `seq_index_of` points at its first occurrence.
pub proof fn lemma_seq_index_of(s: Seq<u32>, x: u32)
    requires
        s.contains(x),
    ensures
        0 <= seq_index_of(s, x) < s.len(),
        s[seq_index_of(s, x)] == x,
        forall|i: int| 0 <= i < seq_index_of(s, x) ==> s[i] != x,
    decreases s.len(),
{
    if s.len() > 0 && s[0] != x {
        let k = choose|k: int| 0 <= k < s.len() && s[k] == x;
        assert(s.drop_first()[k - 1] == x);
        lemma_seq_index_of(s.drop_first(), x);
        assert forall|i: int| 0 <= i < seq_index_of(s, x) implies s[i] != x by {
            if i > 0 {
                assert(s.drop_first()[i - 1] != x);
                assert(s.drop_first()[i - 1] == s[i]);
            }
        }
    }
}

/// The doubly-linked-list invariant of one order group: `ord` is the
/// member list in forward order; the link arrays, head and tail agree
/// with it, and non-members carry null links.
pub open spec fn group_links_wf(
    ord: Seq<u32>,
    fwd: Seq<u32>,
    bwd: Seq<u32>,
    head: u32,
    tail: u32,
    cap: int,
) -> bool {
    &&& fwd.len() == cap
    &&& bwd.len() == cap
    &&& forall|i: int| 0 <= i < ord.len() ==> (#[trigger] ord[i]) < cap
    &&& forall|i: int, j: int| 0 <= i < j < ord.len() ==> ord[i] != ord[j]
    &&& head == (if ord.len() == 0 {
        NULL_ID
    } else {
        ord[0]
    })
    &&& tail == (if ord.len() == 0 {
        NULL_ID
    } else {
        ord.last()
    })
    &&& forall|i: int|
        0 <= i < ord.len() ==> fwd[(#[trigger] ord[i]) as int] == (if i + 1 < ord.len() {
            ord[i + 1]
        } else {
            NULL_ID
        })
    &&& forall|i: int|
        0 <= i < ord.len() ==> bwd[(#[trigger] ord[i]) as int] == (if i > 0 {
            ord[i - 1]
        } else {
            NULL_ID
        })
    &&& forall|x: u32|
        (x as int) < cap && !ord.contains(x) ==> fwd[x as int] == NULL_ID && bwd[x as int]
            == NULL_ID
}

/// Per-tag doubly-linked orderings over entity ids: for each group tag, a
/// forward and a backward `id -> id` map with a head and a tail.  The
/// member list of each group, in forward-link order, is carried alongside
/// as the ghost `orders` map: it is what the link arrays encode.
pub struct OrderGroupContainer {
    pub group_ids: Vec<u64>,
    pub group_index_to_forward_links: Vec<Vec<u32>>,
    pub group_index_to_backward_links: Vec<Vec<u32>>,
    pub group_index_to_head: Vec<u32>,
    pub group_index_to_tail: Vec<u32>,
    pub entity_capacity: usize,
    pub orders: Ghost<Map<u64, Seq<u32>>>,
}

impl OrderGroupContainer {
    /// The member list of group `group`, in forward-link order (empty for
    /// groups never seen).
    pub open spec fn spec_order(self, group: u64) -> Seq<u32> {
        if self.orders@.contains_key(group) {
            self.orders@[group]
        } else {
            Seq::<u32>::empty()
        }
    }

    /// Whether `id` is a member of group `group`.
    pub open spec fn spec_member(self, group: u64, id: u32) -> bool {
        self.spec_order(group).contains(id)
    }

    /// The container's invariant.
    pub open spec fn wf(self) -> bool {
        &&& forall|i: int, j: int|
            0 <= i < j < self.group_ids@.len() ==> self.group_ids@[i] < self.group_ids@[j]
        &&& self.group_index_to_forward_links@.len() == self.group_ids@.len()
        &&& self.group_index_to_backward_links@.len() == self.group_ids@.len()
        &&& self.group_index_to_head@.len() == self.group_ids@.len()
        &&& self.group_index_to_tail@.len() == self.group_ids@.len()
        &&& self.entity_capacity < NULL_ID as int
        &&& forall|g: u64| self.orders@.contains_key(g) <==> self.group_ids@.contains(g)
        &&& forall|k: int|
            0 <= k < self.group_ids@.len() ==> group_links_wf(
                self.orders@[self.group_ids@[k]],
                (#[trigger] self.group_index_to_forward_links@[k])@,
                self.group_index_to_backward_links@[k]@,
                self.group_index_to_head@[k],
                self.group_index_to_tail@[k],
                self.entity_capacity as int,
            )
    }

    /// An empty container over `entity_capacity` entity slots.
    pub fn new(entity_capacity: usize) -> (r: OrderGroupContainer)
        requires
            entity_capacity < 0xFFFF_FFFF,
        ensures
            r.wf(),
            r.entity_capacity == entity_capacity,
            forall|g: u64| r.spec_order(g) == Seq::<u32>::empty(),
    {
        OrderGroupContainer {
            group_ids: Vec::new(),
            group_index_to_forward_links: Vec::new(),
            group_index_to_backward_links: Vec::new(),
            group_index_to_head: Vec::new(),
            group_index_to_tail: Vec::new(),
            entity_capacity,
            orders: Ghost(Map::empty()),
        }
    }

    /// The index of `group` in the sorted group list, or the insertion
    /// point.
    fn find_group_index(&self, group: u64) -> (r: Result<usize, usize>)
        requires
            self.wf(),
        ensures
            r matches Ok(k) ==> 0 <= k < self.group_ids@.len() && self.group_ids@[k as int]
                == group,
            r matches Err(k) ==> 0 <= k <= self.group_ids@.len() && (forall|i: int|
                0 <= i < k ==> self.group_ids@[i] < group) && (forall|i: int|
                k <= i < self.group_ids@.len() ==> self.group_ids@[i] > group),
    {
        let n = self.group_ids.len();
        let mut i: usize = 0;
        while i < n
            invariant
                n == self.group_ids@.len(),
                0 <= i <= n,
                self.wf(),
                forall|j: int| 0 <= j < i ==> self.group_ids@[j] < group,
            decreases n - i,
        {
            let t = self.group_ids[i];
            if t == group {
                return Ok(i);
            }
            if t > group {
                proof {
                    assert forall|j: int| i <= j < self.group_ids@.len() implies self.group_ids@[j]
                        > group by {
                        if j > i {
                            assert(self.group_ids@[i as int] < self.group_ids@[j]);
                        }
                    }
                }
                return Err(i);
            }
            i = i + 1;
        }
        Err(n)
    }

    /// Finds the group's slot, creating it (empty, all links null) if the
    /// group is new.
    fn reserve_group(&mut self, group: u64) -> (k: usize)
        requires
            old(self).wf(),
        ensures
            final(self).wf(),
            k < final(self).group_ids@.len(),
            final(self).group_ids@[k as int] == group,
            final(self).entity_capacity == old(self).entity_capacity,
            forall|g: u64| final(self).spec_order(g) == old(self).spec_order(g),
    {
        match self.find_group_index(group) {
            Ok(k) => k,
            Err(k) => {
                let fwd = vec![NULL_ID; self.entity_capacity];
                let bwd = vec![NULL_ID; self.entity_capacity];
                let ghost pre = *self;
                self.group_ids.insert(k, group);
                self.group_index_to_forward_links.insert(k, fwd);
                self.group_index_to_backward_links.insert(k, bwd);
                self.group_index_to_head.insert(k, NULL_ID);
                self.group_index_to_tail.insert(k, NULL_ID);
                proof {
                    self.orders@ = pre.orders@.insert(group, Seq::<u32>::empty());
                }
                proof {
                    lemma_group_insert(pre, *self, k as int, group);
                }
                k
            },
        }
    }
}

/// `s` without its first occurrence of `x` (unchanged if absent).
pub open spec fn seq_remove_elem(s: Seq<u32>, x: u32) -> Seq<u32> {
    if s.contains(x) {
        s.remove(seq_index_of(s, x))
    } else {
        s
    }
}

impl OrderGroupContainer {
    /// The successor of `id` in group `group`'s order, if any.
    pub open spec fn spec_next(self, group: u64, id: u32) -> Option<u32> {
        let ord = self.spec_order(group);
        if ord.contains(id) && seq_index_of(ord, id) + 1 < ord.len() {
            Some(ord[seq_index_of(ord, id) + 1])
        } else {
            None
        }
    }

    /// The predecessor of `id` in group `group`'s order, if any.
    pub open spec fn spec_previous(self, group: u64, id: u32) -> Option<u32> {
        let ord = self.spec_order(group);
        if ord.contains(id) && seq_index_of(ord, id) > 0 {
            Some(ord[seq_index_of(ord, id) - 1])
        } else {
            None
        }
    }

    /// Appends `entity_id` to the tail of group `group`'s order; the
    /// entity must not already be linked in this group.
    pub fn add_id_ordered_by(&mut self, group: u64, entity_id: u32)
        requires
            old(self).wf(),
            (entity_id as int) < old(self).entity_capacity,
            !old(self).spec_member(group, entity_id),
        ensures
            final(self).wf(),
            final(self).entity_capacity == old(self).entity_capacity,
            final(self).spec_order(group) == old(self).spec_order(group).push(entity_id),
            forall|g: u64| g != group ==> final(self).spec_order(g) == old(self).spec_order(g),
    {
        let k = self.reserve_group(group);
        let ghost pre = *self;
        let ghost ord = pre.spec_order(group);
        proof {
            assert(pre.group_ids@.contains(group)) by {
                assert(pre.group_ids@[k as int] == group);
            }
            assert(pre.orders@.contains_key(group));
            assert(group_links_wf(
                ord,
                pre.group_index_to_forward_links@[k as int]@,
                pre.group_index_to_backward_links@[k as int]@,
                pre.group_index_to_head@[k as int],
                pre.group_index_to_tail@[k as int],
                pre.entity_capacity as int,
            ));
        }
        let head = self.group_index_to_head[k];
        if head == NULL_ID {
            proof {
                if ord.len() > 0 {
                    assert(ord[0] < pre.entity_capacity);
                }
                assert(ord.len() == 0);
            }
            self.group_index_to_head.set(k, entity_id);
            self.group_index_to_tail.set(k, entity_id);
        } else {
            proof {
                assert(ord.len() > 0);
                assert(ord[ord.len() - 1] < pre.entity_capacity);
            }
            let tail = self.group_index_to_tail[k];
            let fwd = &mut self.group_index_to_forward_links[k];
            fwd.set(tail as usize, entity_id);
            let bwd = &mut self.group_index_to_backward_links[k];
            bwd.set(entity_id as usize, tail);
            self.group_index_to_tail.set(k, entity_id);
        }
        self.orders = Ghost(pre.orders@.insert(group, ord.push(entity_id)));
        proof {
            lemma_links_append(
                ord,
                pre.group_index_to_forward_links@[k as int]@,
                pre.group_index_to_backward_links@[k as int]@,
                pre.group_index_to_head@[k as int],
                pre.group_index_to_tail@[k as int],
                self.group_index_to_forward_links@[k as int]@,
                self.group_index_to_backward_links@[k as int]@,
                self.group_index_to_head@[k as int],
                self.group_index_to_tail@[k as int],
                entity_id,
                self.entity_capacity as int,
            );
            lemma_group_update(pre, *self, k as int, group, ord.push(entity_id));
        }
    }

    /// Inserts `entity_id` directly after `next_to_id` in group `group`'s
    /// order; the anchor must be a member and the entity must not be.
    #[verifier::rlimit(100)]
    #[verifier::spinoff_prover]
    pub fn add_id_next_to_ordered_by(&mut self, group: u64, entity_id: u32, next_to_id: u32)
        requires
            old(self).wf(),
            (entity_id as int) < old(self).entity_capacity,
            old(self).spec_member(group, next_to_id),
            !old(self).spec_member(group, entity_id),
        ensures
            final(self).wf(),
            final(self).entity_capacity == old(self).entity_capacity,
            final(self).spec_order(group) == old(self).spec_order(group).insert(
                seq_index_of(old(self).spec_order(group), next_to_id) + 1,
                entity_id,
            ),
            forall|g: u64| g != group ==> final(self).spec_order(g) == old(self).spec_order(g),
    {
        let k = self.reserve_group(group);
        let ghost pre = *self;
        let ghost ord = pre.spec_order(group);
        proof {
            assert(pre.group_ids@.contains(group)) by {
                assert(pre.group_ids@[k as int] == group);
            }
            assert(pre.orders@.contains_key(group));
            assert(group_links_wf(
                ord,
                pre.group_index_to_forward_links@[k as int]@,
                pre.group_index_to_backward_links@[k as int]@,
                pre.group_index_to_head@[k as int],
                pre.group_index_to_tail@[k as int],
                pre.entity_capacity as int,
            ));
        }
        proof {
            lemma_seq_index_of(ord, next_to_id);
            assert(ord[seq_index_of(ord, next_to_id)] == next_to_id);
            assert(next_to_id < pre.entity_capacity);
        }
        let fwd_after = self.group_index_to_forward_links[k][next_to_id as usize];
        if fwd_after != NULL_ID {
            proof {
                let j = seq_index_of(ord, next_to_id);
                assert(ord[j] == next_to_id);
                assert(fwd_after == ord[j + 1]);
            }
            let bwd = &mut self.group_index_to_backward_links[k];
            bwd.set(fwd_after as usize, entity_id);
            let fwd = &mut self.group_index_to_forward_links[k];
            fwd.set(entity_id as usize, fwd_after);
        }
        let fwd = &mut self.group_index_to_forward_links[k];
        fwd.set(next_to_id as usize, entity_id);
        let bwd = &mut self.group_index_to_backward_links[k];
        bwd.set(entity_id as usize, next_to_id);
        let tail = self.group_index_to_tail[k];
        if tail == next_to_id {
            self.group_index_to_tail.set(k, entity_id);
        }
        let ghost j = seq_index_of(ord, next_to_id);
        self.orders = Ghost(pre.orders@.insert(group, ord.insert(j + 1, entity_id)));
        proof {
            lemma_links_insert_after(
                ord,
                pre.group_index_to_forward_links@[k as int]@,
                pre.group_index_to_backward_links@[k as int]@,
                pre.group_index_to_head@[k as int],
                pre.group_index_to_tail@[k as int],
                self.group_index_to_forward_links@[k as int]@,
                self.group_index_to_backward_links@[k as int]@,
                self.group_index_to_head@[k as int],
                self.group_index_to_tail@[k as int],
                entity_id,
                next_to_id,
                self.entity_capacity as int,
            );
            lemma_group_update(pre, *self, k as int, group, ord.insert(j + 1, entity_id));
        }
    }

    /// Inserts `entity_id` directly before `previous_to_id` in group
    /// `group`'s order; the anchor must be a member and the entity must
    /// not be.
    #[verifier::rlimit(100)]
    #[verifier::spinoff_prover]
    pub fn add_id_previous_to_ordered_by(
        &mut self,
        group: u64,
        entity_id: u32,
        previous_to_id: u32,
    )
        requires
            old(self).wf(),
            (entity_id as int) < old(self).entity_capacity,
            old(self).spec_member(group, previous_to_id),
            !old(self).spec_member(group, entity_id),
        ensures
            final(self).wf(),
            final(self).entity_capacity == old(self).entity_capacity,
            final(self).spec_order(group) == old(self).spec_order(group).insert(
                seq_index_of(old(self).spec_order(group), previous_to_id),
                entity_id,
            ),
            forall|g: u64| g != group ==> final(self).spec_order(g) == old(self).spec_order(g),
    {
        let k = self.reserve_group(group);
        let ghost pre = *self;
        let ghost ord = pre.spec_order(group);
        proof {
            assert(pre.group_ids@.contains(group)) by {
                assert(pre.group_ids@[k as int] == group);
            }
            assert(pre.orders@.contains_key(group));
            assert(group_links_wf(
                ord,
                pre.group_index_to_forward_links@[k as int]@,
                pre.group_index_to_backward_links@[k as int]@,
                pre.group_index_to_head@[k as int],
                pre.group_index_to_tail@[k as int],
                pre.entity_capacity as int,
            ));
        }
        proof {
            lemma_seq_index_of(ord, previous_to_id);
            assert(ord[seq_index_of(ord, previous_to_id)] == previous_to_id);
            assert(previous_to_id < pre.entity_capacity);
        }
        let bwd_before = self.group_index_to_backward_links[k][previous_to_id as usize];
        if bwd_before != NULL_ID {
            proof {
                let j = seq_index_of(ord, previous_to_id);
                assert(ord[j] == previous_to_id);
                assert(bwd_before == ord[j - 1]);
            }
            let fwd = &mut self.group_index_to_forward_links[k];
            fwd.set(bwd_before as usize, entity_id);
            let bwd = &mut self.group_index_to_backward_links[k];
            bwd.set(entity_id as usize, bwd_before);
        }
        let bwd = &mut self.group_index_to_backward_links[k];
        bwd.set(previous_to_id as usize, entity_id);
        let fwd = &mut self.group_index_to_forward_links[k];
        fwd.set(entity_id as usize, previous_to_id);
        let head = self.group_index_to_head[k];
        if head == previous_to_id {
            self.group_index_to_head.set(k, entity_id);
        }
        let ghost j = seq_index_of(ord, previous_to_id);
        self.orders = Ghost(pre.orders@.insert(group, ord.insert(j, entity_id)));
        proof {
            lemma_links_insert_before(
                ord,
                pre.group_index_to_forward_links@[k as int]@,
                pre.group_index_to_backward_links@[k as int]@,
                pre.group_index_to_head@[k as int],
                pre.group_index_to_tail@[k as int],
                self.group_index_to_forward_links@[k as int]@,
                self.group_index_to_backward_links@[k as int]@,
                self.group_index_to_head@[k as int],
                self.group_index_to_tail@[k as int],
                entity_id,
                previous_to_id,
                self.entity_capacity as int,
            );
            lemma_group_update(pre, *self, k as int, group, ord.insert(j, entity_id));
        }
    }

    /// Splices `entity_id` out of group slot `k`'s list; a non-member is
    /// a no-op (its links are already null).
    #[verifier::rlimit(100)]
    #[verifier::spinoff_prover]
    fn remove_at_group_index(&mut self, k: usize, entity_id: u32)
        requires
            old(self).wf(),
            k < old(self).group_ids@.len(),
            (entity_id as int) < old(self).entity_capacity,
        ensures
            final(self).wf(),
            final(self).entity_capacity == old(self).entity_capacity,
            final(self).group_ids@ == old(self).group_ids@,
            final(self).spec_order(old(self).group_ids@[k as int]) == seq_remove_elem(
                old(self).spec_order(old(self).group_ids@[k as int]),
                entity_id,
            ),
            forall|g: u64|
                g != old(self).group_ids@[k as int] ==> final(self).spec_order(g) == old(
                    self,
                ).spec_order(g),
    {
        let ghost pre = *self;
        let ghost group = pre.group_ids@[k as int];
        let ghost ord = pre.spec_order(group);
        proof {
            assert(pre.group_ids@.contains(group)) by {
                assert(pre.group_ids@[k as int] == group);
            }
            assert(pre.orders@.contains_key(group));
            assert(group_links_wf(
                ord,
                pre.group_index_to_forward_links@[k as int]@,
                pre.group_index_to_backward_links@[k as int]@,
                pre.group_index_to_head@[k as int],
                pre.group_index_to_tail@[k as int],
                pre.entity_capacity as int,
            ));
        }
        proof {
            if ord.contains(entity_id) {
                lemma_seq_index_of(ord, entity_id);
            }
        }
        let fwd_id = self.group_index_to_forward_links[k][entity_id as usize];
        let bwd_id = self.group_index_to_backward_links[k][entity_id as usize];

        proof {
            let j = seq_index_of(ord, entity_id);
            if ord.contains(entity_id) {
                assert(ord[j] == entity_id);
                if j + 1 < ord.len() {
                    assert(fwd_id == ord[j + 1]);
                }
                if j > 0 {
                    assert(bwd_id == ord[j - 1]);
                }
            }
        }
        if fwd_id != NULL_ID {
            let bwd = &mut self.group_index_to_backward_links[k];
            bwd.set(fwd_id as usize, bwd_id);
        }
        if bwd_id != NULL_ID {
            let fwd = &mut self.group_index_to_forward_links[k];
            fwd.set(bwd_id as usize, fwd_id);
        }
        let head = self.group_index_to_head[k];
        if head == entity_id {
            self.group_index_to_head.set(k, fwd_id);
        }
        let tail = self.group_index_to_tail[k];
        if tail == entity_id {
            self.group_index_to_tail.set(k, bwd_id);
        }
        let bwd = &mut self.group_index_to_backward_links[k];
        bwd.set(entity_id as usize, NULL_ID);
        let fwd = &mut self.group_index_to_forward_links[k];
        fwd.set(entity_id as usize, NULL_ID);

        self.orders = Ghost(pre.orders@.insert(group, seq_remove_elem(ord, entity_id)));
        proof {
            lemma_links_remove(
                ord,
                pre.group_index_to_forward_links@[k as int]@,
                pre.group_index_to_backward_links@[k as int]@,
                pre.group_index_to_head@[k as int],
                pre.group_index_to_tail@[k as int],
                self.group_index_to_forward_links@[k as int]@,
                self.group_index_to_backward_links@[k as int]@,
                self.group_index_to_head@[k as int],
                self.group_index_to_tail@[k as int],
                entity_id,
                self.entity_capacity as int,
            );
            assert(pre.orders@.contains_key(group)) by {
                assert(pre.group_ids@.contains(group));
            }
            lemma_group_update(pre, *self, k as int, group, seq_remove_elem(ord, entity_id));
        }
    }

    /// Splices `entity_id` out of group `group`'s list; unknown groups and
    /// non-members are no-ops.
    pub fn remove_id_ordered_by(&mut self, group: u64, entity_id: u32)
        requires
            old(self).wf(),
            (entity_id as int) < old(self).entity_capacity,
        ensures
            final(self).wf(),
            final(self).entity_capacity == old(self).entity_capacity,
            final(self).spec_order(group) == seq_remove_elem(
                old(self).spec_order(group),
                entity_id,
            ),
            forall|g: u64| g != group ==> final(self).spec_order(g) == old(self).spec_order(g),
    {
        match self.find_group_index(group) {
            Ok(k) => {
                self.remove_at_group_index(k, entity_id);
            },
            Err(pos) => {
                proof {
                    assert forall|j: int|
                        0 <= j < self.group_ids@.len() implies self.group_ids@[j] != group by {
                        if j < pos {
                            assert(self.group_ids@[j] < group);
                        } else {
                            assert(self.group_ids@[j] > group);
                        }
                    }
                    assert(!self.orders@.contains_key(group));
                    assert(self.spec_order(group) =~= seq_remove_elem(
                        self.spec_order(group),
                        entity_id,
                    ));
                }
            },
        }
    }

    /// Splices `entity_id` out of every group.
    pub fn remove_all_orders_for_id(&mut self, entity_id: u32)
        requires
            old(self).wf(),
            (entity_id as int) < old(self).entity_capacity,
        ensures
            final(self).wf(),
            final(self).entity_capacity == old(self).entity_capacity,
            forall|g: u64|
                final(self).spec_order(g) == seq_remove_elem(old(self).spec_order(g), entity_id),
    {
        let n = self.group_ids.len();
        let mut k: usize = 0;
        while k < n
            invariant
                self.wf(),
                n == self.group_ids@.len(),
                0 <= k <= n,
                (entity_id as int) < self.entity_capacity,
                self.entity_capacity == old(self).entity_capacity,
                self.group_ids@ == old(self).group_ids@,
                forall|j: int|
                    0 <= j < k ==> final_order_of(*self, old(self).group_ids@[j]) == seq_remove_elem(
                        old(self).spec_order(old(self).group_ids@[j]),
                        entity_id,
                    ),
                forall|g: u64|
                    (forall|j: int| 0 <= j < k ==> old(self).group_ids@[j] != g) ==> final_order_of(
                        *self,
                        g,
                    ) == old(self).spec_order(g),
            decreases n - k,
        {
            self.remove_at_group_index(k, entity_id);
            k = k + 1;
        }
        proof {
            assert forall|g: u64|
                final_order_of(*self, g) == seq_remove_elem(
                old(self).spec_order(g),
                entity_id,
            ) by {
                if exists|j: int| 0 <= j < n && old(self).group_ids@[j] == g {
                    let j = choose|j: int| 0 <= j < n && old(self).group_ids@[j] == g;
                    assert(final_order_of(*self, old(self).group_ids@[j]) == seq_remove_elem(
                        old(self).spec_order(old(self).group_ids@[j]),
                        entity_id,
                    ));
                } else {
                    assert(!old(self).group_ids@.contains(g));
                    assert(!old(self).orders@.contains_key(g));
                    assert(final_order_of(*self, g) == old(self).spec_order(g));
                    assert(old(self).spec_order(g) =~= seq_remove_elem(
                        old(self).spec_order(g),
                        entity_id,
                    ));
                }
            }
        }
    }

    /// The id linked after `entity_id` in group `group`, if any.
    pub fn get_next_id_ordered_by(&self, group: u64, entity_id: u32) -> (r: Option<u32>)
        requires
            self.wf(),
            (entity_id as int) < self.entity_capacity,
        ensures
            r == self.spec_next(group, entity_id),
            r matches Some(v) ==> (v as int) < self.entity_capacity,
    {
        match self.find_group_index(group) {
            Ok(k) => {
                proof {
                    lemma_slot_wf(*self, k as int, group);
                    lemma_get_link(*self, k as int, group, entity_id);
                }
                let v = self.group_index_to_forward_links[k][entity_id as usize];
                if v != NULL_ID {
                    Some(v)
                } else {
                    None
                }
            },
            Err(pos) => {
                proof {
                    lemma_absent_group(*self, group, pos as int);
                }
                None
            },
        }
    }

    /// The id linked before `entity_id` in group `group`, if any.
    pub fn get_previous_id_ordered_by(&self, group: u64, entity_id: u32) -> (r: Option<u32>)
        requires
            self.wf(),
            (entity_id as int) < self.entity_capacity,
        ensures
            r == self.spec_previous(group, entity_id),
            r matches Some(v) ==> (v as int) < self.entity_capacity,
    {
        match self.find_group_index(group) {
            Ok(k) => {
                proof {
                    lemma_slot_wf(*self, k as int, group);
                    lemma_get_link(*self, k as int, group, entity_id);
                }
                let v = self.group_index_to_backward_links[k][entity_id as usize];
                if v != NULL_ID {
                    Some(v)
                } else {
                    None
                }
            },
            Err(pos) => {
                proof {
                    lemma_absent_group(*self, group, pos as int);
                }
                None
            },
        }
    }

    /// The first id of group `group`'s order, if any.
    pub fn get_head_id(&self, group: u64) -> (r: Option<u32>)
        requires
            self.wf(),
        ensures
            r matches Some(id) ==> self.spec_order(group).len() > 0 && id == self.spec_order(
                group,
            )[0] && (id as int) < self.entity_capacity,
            r is None <==> self.spec_order(group).len() == 0,
    {
        match self.find_group_index(group) {
            Ok(k) => {
                proof {
                    lemma_slot_wf(*self, k as int, group);
                    if self.spec_order(group).len() > 0 {
                        assert(self.spec_order(group)[0] < self.entity_capacity);
                    }
                }
                let v = self.group_index_to_head[k];
                if v != NULL_ID {
                    Some(v)
                } else {
                    None
                }
            },
            Err(pos) => {
                proof {
                    lemma_absent_group(*self, group, pos as int);
                }
                None
            },
        }
    }

    /// The last id of group `group`'s order, if any.
    pub fn get_tail_id(&self, group: u64) -> (r: Option<u32>)
        requires
            self.wf(),
        ensures
            r matches Some(id) ==> self.spec_order(group).len() > 0 && id == self.spec_order(
                group,
            ).last() && (id as int) < self.entity_capacity,
            r is None <==> self.spec_order(group).len() == 0,
    {
        match self.find_group_index(group) {
            Ok(k) => {
                proof {
                    lemma_slot_wf(*self, k as int, group);
                    if self.spec_order(group).len() > 0 {
                        assert(self.spec_order(group).last() < self.entity_capacity);
                    }
                }
                let v = self.group_index_to_tail[k];
                if v != NULL_ID {
                    Some(v)
                } else {
                    None
                }
            },
            Err(pos) => {
                proof {
                    lemma_absent_group(*self, group, pos as int);
                }
                None
            },
        }
    }

    /// Grows every group's link arrays to cover `new_capacity` entity
    /// slots; new slots start unlinked.
    #[verifier::rlimit(100)]
    #[verifier::spinoff_prover]
    pub fn grow(&mut self, new_capacity: usize)
        requires
            old(self).wf(),
            old(self).entity_capacity <= new_capacity,
            new_capacity < 0xFFFF_FFFF,
        ensures
            final(self).wf(),
            final(self).entity_capacity == new_capacity,
            forall|g: u64| final(self).spec_order(g) == old(self).spec_order(g),
    {
        let n = self.group_ids.len();
        let mut k: usize = 0;
        while k < n
            invariant
                old(self).wf(),
                n == self.group_ids@.len(),
                0 <= k <= n,
                old(self).entity_capacity <= new_capacity,
                self.group_ids@ == old(self).group_ids@,
                self.entity_capacity == old(self).entity_capacity,
                self.orders@ == old(self).orders@,
                self.group_index_to_head@ == old(self).group_index_to_head@,
                self.group_index_to_tail@ == old(self).group_index_to_tail@,
                self.group_index_to_forward_links@.len() == n,
                self.group_index_to_backward_links@.len() == n,
                forall|j: int|
                    k <= j < n ==> self.group_index_to_forward_links@[j] == old(
                        self,
                    ).group_index_to_forward_links@[j]
                        && self.group_index_to_backward_links@[j] == old(
                        self,
                    ).group_index_to_backward_links@[j],
                forall|j: int|
                    0 <= j < k ==> {
                        let of = old(self).group_index_to_forward_links@[j]@;
                        let ob = old(self).group_index_to_backward_links@[j]@;
                        let nf = (#[trigger] self.group_index_to_forward_links@[j])@;
                        let nb = self.group_index_to_backward_links@[j]@;
                        &&& nf.len() == new_capacity
                        &&& nb.len() == new_capacity
                        &&& forall|i: int| 0 <= i < of.len() ==> nf[i] == of[i] && nb[i] == ob[i]
                        &&& forall|i: int|
                            of.len() <= i < new_capacity ==> nf[i] == NULL_ID && nb[i] == NULL_ID
                    },
            decreases n - k,
        {
            let fwd = &mut self.group_index_to_forward_links[k];
            fwd.resize(new_capacity, NULL_ID);
            let bwd = &mut self.group_index_to_backward_links[k];
            bwd.resize(new_capacity, NULL_ID);
            k = k + 1;
        }
        self.entity_capacity = new_capacity;
        proof {
            assert forall|kk: int|
                0 <= kk < self.group_ids@.len() implies group_links_wf(
                self.orders@[self.group_ids@[kk]],
                (#[trigger] self.group_index_to_forward_links@[kk])@,
                self.group_index_to_backward_links@[kk]@,
                self.group_index_to_head@[kk],
                self.group_index_to_tail@[kk],
                self.entity_capacity as int,
            ) by {
                let ord = self.orders@[self.group_ids@[kk]];
                let of = old(self).group_index_to_forward_links@[kk]@;
                let ob = old(self).group_index_to_backward_links@[kk]@;
                let nf = self.group_index_to_forward_links@[kk]@;
                let nb = self.group_index_to_backward_links@[kk]@;
                assert(group_links_wf(
                    ord,
                    of,
                    ob,
                    self.group_index_to_head@[kk],
                    self.group_index_to_tail@[kk],
                    old(self).entity_capacity as int,
                ));
                assert forall|i: int|
                    0 <= i < ord.len() implies nf[(#[trigger] ord[i]) as int] == (if i + 1
                    < ord.len() {
                    ord[i + 1]
                } else {
                    NULL_ID
                }) && nb[ord[i] as int] == (if i > 0 {
                    ord[i - 1]
                } else {
                    NULL_ID
                }) by {
                    assert(ord[i] < old(self).entity_capacity);
                }
                assert forall|x: u32|
                    (x as int) < self.entity_capacity && !ord.contains(x) implies nf[x as int]
                    == NULL_ID && nb[x as int] == NULL_ID by {
                    if (x as int) < of.len() {
                        assert(of[x as int] == NULL_ID && ob[x as int] == NULL_ID);
                    }
                }
            }
        }
    }
}

/// The order of a group as a later state sees it (helper to phrase loop
/// invariants about the final state).
pub open spec fn final_order_of(c: OrderGroupContainer, g: u64) -> Seq<u32> {
    c.spec_order(g)
}

/// Appending an id to a group it is not yet in and then removing it
/// restores the group's order exactly.
pub proof fn lemma_order_round_trip(ord: Seq<u32>, id: u32)
    requires
        !ord.contains(id),
    ensures
        seq_remove_elem(ord.push(id), id) == ord,
{
    let pushed = ord.push(id);
    assert(pushed[pushed.len() - 1] == id);
    assert(pushed.contains(id));
    lemma_seq_index_of(pushed, id);
    let j = seq_index_of(pushed, id);
    assert(pushed[j] == id);
    assert(j == pushed.len() - 1) by {
        if j < pushed.len() - 1 {
            assert(ord[j] == id);
            assert(ord.contains(id));
        }
    }
    assert(pushed.remove(j) =~= ord);
}

/// In a well-formed container a group's order has distinct members, all
/// below the entity capacity.
pub proof fn lemma_order_shape(c: OrderGroupContainer, group: u64)
    requires
        c.wf(),
    ensures
        forall|i: int, j: int|
            0 <= i < j < c.spec_order(group).len() ==> c.spec_order(group)[i] != c.spec_order(
                group,
            )[j],
        forall|i: int|
            0 <= i < c.spec_order(group).len() ==> ((#[trigger] c.spec_order(group)[i]) as int)
                < c.entity_capacity,
{
    if c.orders@.contains_key(group) {
        assert(c.group_ids@.contains(group));
        let k = choose|k: int| 0 <= k < c.group_ids@.len() && c.group_ids@[k] == group;
        lemma_slot_wf(c, k, group);
    }
}

/// The successor relation read off the member list.
pub proof fn lemma_order_next(c: OrderGroupContainer, group: u64, id: u32, j: int)
    requires
        c.wf(),
        0 <= j < c.spec_order(group).len(),
        c.spec_order(group)[j] == id,
    ensures
        c.spec_next(group, id) == (if j + 1 < c.spec_order(group).len() {
            Some(c.spec_order(group)[j + 1])
        } else {
            None::<u32>
        }),
{
    let ord = c.spec_order(group);
    assert(ord.contains(id)) by {
        assert(ord[j] == id);
    }
    lemma_seq_index_of(ord, id);
    assert(c.orders@.contains_key(group)) by {
        if !c.orders@.contains_key(group) {
            assert(ord =~= Seq::<u32>::empty());
        }
    }
    assert(c.group_ids@.contains(group));
    let k = choose|k: int| 0 <= k < c.group_ids@.len() && c.group_ids@[k] == group;
    lemma_slot_wf(c, k, group);
    assert(seq_index_of(ord, id) == j) by {
        let p = seq_index_of(ord, id);
        if p != j {
            assert(ord[p] != ord[j]);
        }
    }
}

/// The per-slot link invariant, phrased over the group's id.
proof fn lemma_slot_wf(c: OrderGroupContainer, k: int, group: u64)
    requires
        c.wf(),
        0 <= k < c.group_ids@.len(),
        c.group_ids@[k] == group,
    ensures
        c.orders@.contains_key(group),
        group_links_wf(
            c.spec_order(group),
            c.group_index_to_forward_links@[k]@,
            c.group_index_to_backward_links@[k]@,
            c.group_index_to_head@[k],
            c.group_index_to_tail@[k],
            c.entity_capacity as int,
        ),
{
    assert(c.group_ids@.contains(group)) by {
        assert(c.group_ids@[k] == group);
    }
}

/// In a well-formed container, a group past the sorted position is
/// absent, so its order is empty.
proof fn lemma_absent_group(c: OrderGroupContainer, group: u64, pos: int)
    requires
        c.wf(),
        0 <= pos <= c.group_ids@.len(),
        forall|i: int| 0 <= i < pos ==> c.group_ids@[i] < group,
        forall|i: int| pos <= i < c.group_ids@.len() ==> c.group_ids@[i] > group,
    ensures
        c.spec_order(group) == Seq::<u32>::empty(),
        forall|id: u32| c.spec_next(group, id) is None,
        forall|id: u32| c.spec_previous(group, id) is None,
{
    assert forall|j: int| 0 <= j < c.group_ids@.len() implies c.group_ids@[j] != group by {
        if j < pos {
            assert(c.group_ids@[j] < group);
        } else {
            assert(c.group_ids@[j] > group);
        }
    }
    assert(!c.group_ids@.contains(group));
    assert(!c.orders@.contains_key(group));
}

/// What the stored links say about an id's successor and predecessor in
/// a group.
proof fn lemma_get_link(c: OrderGroupContainer, k: int, group: u64, id: u32)
    requires
        c.wf(),
        0 <= k < c.group_ids@.len(),
        c.group_ids@[k] == group,
        (id as int) < c.entity_capacity,
    ensures
        c.group_index_to_forward_links@[k]@[id as int] == (match c.spec_next(group, id) {
            Some(v) => v,
            None => NULL_ID,
        }),
        c.group_index_to_backward_links@[k]@[id as int] == (match c.spec_previous(group, id) {
            Some(v) => v,
            None => NULL_ID,
        }),
        c.spec_next(group, id) matches Some(v) ==> (v as int) < c.entity_capacity,
        c.spec_previous(group, id) matches Some(v) ==> (v as int) < c.entity_capacity,
{
    let ord = c.spec_order(group);
    lemma_slot_wf(c, k, group);
    if ord.contains(id) {
        lemma_seq_index_of(ord, id);
        let j = seq_index_of(ord, id);
        assert(ord[j] == id);
        assert forall|i: int| 0 <= i < ord.len() && ord[i] == id implies i == j by {
            if i != j {
                assert(ord[i] != ord[j]);
            }
        }
        if j + 1 < ord.len() {
            assert(ord[j + 1] < c.entity_capacity);
        }
        if j > 0 {
            assert(ord[j - 1] < c.entity_capacity);
        }
    }
}

/// Inserting a fresh empty group leaves every group's order unchanged and
/// keeps the invariant.
proof fn lemma_group_insert(pre: OrderGroupContainer, post: OrderGroupContainer, k: int, group: u64)
    requires
        pre.wf(),
        0 <= k <= pre.group_ids@.len(),
        forall|i: int| 0 <= i < k ==> pre.group_ids@[i] < group,
        forall|i: int| k <= i < pre.group_ids@.len() ==> pre.group_ids@[i] > group,
        post.group_ids@ == pre.group_ids@.insert(k, group),
        post.group_index_to_forward_links@ == pre.group_index_to_forward_links@.insert(
            k,
            post.group_index_to_forward_links@[k],
        ),
        post.group_index_to_backward_links@ == pre.group_index_to_backward_links@.insert(
            k,
            post.group_index_to_backward_links@[k],
        ),
        post.group_index_to_head@ == pre.group_index_to_head@.insert(k, NULL_ID),
        post.group_index_to_tail@ == pre.group_index_to_tail@.insert(k, NULL_ID),
        post.group_index_to_forward_links@[k]@.len() == pre.entity_capacity,
        forall|i: int|
            0 <= i < pre.entity_capacity ==> post.group_index_to_forward_links@[k]@[i] == NULL_ID,
        post.group_index_to_backward_links@[k]@.len() == pre.entity_capacity,
        forall|i: int|
            0 <= i < pre.entity_capacity ==> post.group_index_to_backward_links@[k]@[i]
                == NULL_ID,
        post.entity_capacity == pre.entity_capacity,
        post.orders@ == pre.orders@.insert(group, Seq::<u32>::empty()),
        !pre.group_ids@.contains(group),
    ensures
        post.wf(),
        forall|g: u64| post.spec_order(g) == pre.spec_order(g),
{
    assert forall|i: int, j: int|
        0 <= i < j < post.group_ids@.len() implies post.group_ids@[i] < post.group_ids@[j] by {
        assert(post.group_ids@[i] == (if i < k {
            pre.group_ids@[i]
        } else if i == k {
            group
        } else {
            pre.group_ids@[i - 1]
        }));
        assert(post.group_ids@[j] == (if j < k {
            pre.group_ids@[j]
        } else if j == k {
            group
        } else {
            pre.group_ids@[j - 1]
        }));
    }
    assert forall|g: u64| post.orders@.contains_key(g) <==> post.group_ids@.contains(g) by {
        if g == group {
            assert(post.group_ids@[k] == group);
        } else {
            if pre.group_ids@.contains(g) {
                let i = choose|i: int| 0 <= i < pre.group_ids@.len() && pre.group_ids@[i] == g;
                if i < k {
                    assert(post.group_ids@[i] == g);
                } else {
                    assert(post.group_ids@[i + 1] == g);
                }
            }
            if post.group_ids@.contains(g) {
                let i = choose|i: int| 0 <= i < post.group_ids@.len() && post.group_ids@[i] == g;
                if i < k {
                    assert(pre.group_ids@[i] == g);
                } else {
                    assert(i != k);
                    assert(pre.group_ids@[i - 1] == g);
                }
            }
        }
    }
    assert forall|kk: int|
        0 <= kk < post.group_ids@.len() implies group_links_wf(
        post.orders@[post.group_ids@[kk]],
        (#[trigger] post.group_index_to_forward_links@[kk])@,
        post.group_index_to_backward_links@[kk]@,
        post.group_index_to_head@[kk],
        post.group_index_to_tail@[kk],
        post.entity_capacity as int,
    ) by {
        if kk == k {
            let ord = post.orders@[group];
            assert(ord =~= Seq::<u32>::empty());
        } else {
            let pk = if kk < k {
                kk
            } else {
                kk - 1
            };
            assert(post.group_ids@[kk] == pre.group_ids@[pk]);
            assert(post.group_index_to_forward_links@[kk]
                == pre.group_index_to_forward_links@[pk]);
            assert(post.group_index_to_backward_links@[kk]
                == pre.group_index_to_backward_links@[pk]);
            assert(post.group_index_to_head@[kk] == pre.group_index_to_head@[pk]);
            assert(post.group_index_to_tail@[kk] == pre.group_index_to_tail@[pk]);
            assert(pre.group_ids@[pk] != group);
            assert(post.orders@[post.group_ids@[kk]] == pre.orders@[pre.group_ids@[pk]]);
            assert(group_links_wf(
                pre.orders@[pre.group_ids@[pk]],
                pre.group_index_to_forward_links@[pk]@,
                pre.group_index_to_backward_links@[pk]@,
                pre.group_index_to_head@[pk],
                pre.group_index_to_tail@[pk],
                pre.entity_capacity as int,
            ));
        }
    }
    assert forall|g: u64| post.spec_order(g) == pre.spec_order(g) by {
        if g != group {
        } else {
            assert(!pre.orders@.contains_key(group));
            assert(post.spec_order(group) =~= pre.spec_order(group));
        }
    }
}

/// Replacing one group's order and link state, leaving every other slot
/// untouched, preserves the container invariant.
proof fn lemma_group_update(
    pre: OrderGroupContainer,
    post: OrderGroupContainer,
    k: int,
    group: u64,
    new_ord: Seq<u32>,
)
    requires
        pre.wf(),
        0 <= k < pre.group_ids@.len(),
        pre.group_ids@[k] == group,
        post.group_ids@ == pre.group_ids@,
        post.entity_capacity == pre.entity_capacity,
        post.group_index_to_forward_links@.len() == pre.group_index_to_forward_links@.len(),
        post.group_index_to_backward_links@.len() == pre.group_index_to_backward_links@.len(),
        post.group_index_to_head@.len() == pre.group_index_to_head@.len(),
        post.group_index_to_tail@.len() == pre.group_index_to_tail@.len(),
        forall|j: int|
            0 <= j < pre.group_ids@.len() && j != k ==> (#[trigger] post.group_index_to_forward_links@[j])
                == pre.group_index_to_forward_links@[j]
                && post.group_index_to_backward_links@[j]
                == pre.group_index_to_backward_links@[j] && post.group_index_to_head@[j]
                == pre.group_index_to_head@[j] && post.group_index_to_tail@[j]
                == pre.group_index_to_tail@[j],
        post.orders@ == pre.orders@.insert(group, new_ord),
        group_links_wf(
            new_ord,
            post.group_index_to_forward_links@[k]@,
            post.group_index_to_backward_links@[k]@,
            post.group_index_to_head@[k],
            post.group_index_to_tail@[k],
            post.entity_capacity as int,
        ),
    ensures
        post.wf(),
        post.spec_order(group) == new_ord,
        forall|g: u64| g != group ==> post.spec_order(g) == pre.spec_order(g),
{
    assert forall|g: u64| post.orders@.contains_key(g) <==> post.group_ids@.contains(g) by {
        if g == group {
            assert(post.group_ids@[k] == group);
        }
    }
    assert forall|kk: int|
        0 <= kk < post.group_ids@.len() implies group_links_wf(
        post.orders@[post.group_ids@[kk]],
        (#[trigger] post.group_index_to_forward_links@[kk])@,
        post.group_index_to_backward_links@[kk]@,
        post.group_index_to_head@[kk],
        post.group_index_to_tail@[kk],
        post.entity_capacity as int,
    ) by {
        if kk == k {
            assert(post.orders@[group] == new_ord);
        } else {
            assert(post.group_ids@[kk] != group) by {
                assert(pre.group_ids@[kk] != pre.group_ids@[k]);
            }
            assert(post.orders@[post.group_ids@[kk]] == pre.orders@[pre.group_ids@[kk]]);
        }
    }
}

/// Appending at the tail rewires exactly the old tail's forward link and
/// the new member's backward link.
proof fn lemma_links_append(
    ord: Seq<u32>,
    fwd0: Seq<u32>,
    bwd0: Seq<u32>,
    head0: u32,
    tail0: u32,
    fwd1: Seq<u32>,
    bwd1: Seq<u32>,
    head1: u32,
    tail1: u32,
    id: u32,
    cap: int,
)
    requires
        group_links_wf(ord, fwd0, bwd0, head0, tail0, cap),
        cap < NULL_ID as int,
        !ord.contains(id),
        (id as int) < cap,
        ord.len() == 0 ==> fwd1 == fwd0 && bwd1 == bwd0 && head1 == id && tail1 == id,
        ord.len() > 0 ==> fwd1 == fwd0.update(tail0 as int, id) && bwd1 == bwd0.update(
            id as int,
            tail0,
        ) && head1 == head0 && tail1 == id,
    ensures
        group_links_wf(ord.push(id), fwd1, bwd1, head1, tail1, cap),
{
    let new_ord = ord.push(id);
    assert forall|i: int, j: int| 0 <= i < j < new_ord.len() implies new_ord[i] != new_ord[j] by {
        if j == ord.len() {
            assert(ord.contains(ord[i]));
        }
    }
    assert forall|i: int|
        0 <= i < new_ord.len() implies fwd1[(#[trigger] new_ord[i]) as int] == (if i + 1
        < new_ord.len() {
        new_ord[i + 1]
    } else {
        NULL_ID
    }) by {
        if i < ord.len() - 1 {
            assert(new_ord[i] == ord[i]);
            assert(ord[i] != ord[ord.len() - 1]);
            assert(ord[i] != id) by {
                assert(ord.contains(ord[i]));
            }
        } else if i == ord.len() - 1 {
            assert(new_ord[i] == tail0);
        } else {
            assert(new_ord[i] == id);
            if ord.len() > 0 {
                assert(id != tail0) by {
                    assert(ord.contains(ord[ord.len() - 1]));
                }
                assert(fwd1[id as int] == fwd0[id as int]);
            }
            assert(fwd0[id as int] == NULL_ID);
        }
    }
    assert forall|i: int|
        0 <= i < new_ord.len() implies bwd1[(#[trigger] new_ord[i]) as int] == (if i > 0 {
        new_ord[i - 1]
    } else {
        NULL_ID
    }) by {
        if i < ord.len() {
            assert(new_ord[i] == ord[i]);
            assert(ord[i] != id) by {
                assert(ord.contains(ord[i]));
            }
        } else {
            assert(new_ord[i] == id);
        }
    }
    assert forall|x: u32|
        (x as int) < cap && !new_ord.contains(x) implies fwd1[x as int] == NULL_ID && bwd1[x as int]
        == NULL_ID by {
        assert(x != id) by {
            assert(new_ord[new_ord.len() - 1] == id);
        }
        assert(!ord.contains(x)) by {
            if ord.contains(x) {
                let m = choose|m: int| 0 <= m < ord.len() && ord[m] == x;
                assert(new_ord[m] == x);
            }
        }
        if ord.len() > 0 {
            assert(x != tail0 || fwd1[x as int] == id);
            if x == tail0 {
                assert(ord.contains(ord[ord.len() - 1]));
                assert(false);
            }
        }
    }
}

/// Inserting after an anchor rewires the anchor's forward link, the new
/// member's two links, and (if present) the old successor's backward
/// link.
#[verifier::rlimit(100)]
#[verifier::spinoff_prover]
proof fn lemma_links_insert_after(
    ord: Seq<u32>,
    fwd0: Seq<u32>,
    bwd0: Seq<u32>,
    head0: u32,
    tail0: u32,
    fwd1: Seq<u32>,
    bwd1: Seq<u32>,
    head1: u32,
    tail1: u32,
    id: u32,
    anchor: u32,
    cap: int,
)
    requires
        group_links_wf(ord, fwd0, bwd0, head0, tail0, cap),
        cap < NULL_ID as int,
        ord.contains(anchor),
        !ord.contains(id),
        (id as int) < cap,
        ({
            let j = seq_index_of(ord, anchor);
            let nxt = fwd0[anchor as int];
            &&& fwd1 == (if nxt != NULL_ID {
                fwd0.update(id as int, nxt)
            } else {
                fwd0
            }).update(anchor as int, id)
            &&& bwd1 == (if nxt != NULL_ID {
                bwd0.update(nxt as int, id)
            } else {
                bwd0
            }).update(id as int, anchor)
            &&& head1 == head0
            &&& tail1 == (if tail0 == anchor {
                id
            } else {
                tail0
            })
        }),
    ensures
        group_links_wf(ord.insert(seq_index_of(ord, anchor) + 1, id), fwd1, bwd1, head1, tail1, cap),
{
    lemma_seq_index_of(ord, anchor);
    let j = seq_index_of(ord, anchor);
    let nxt = fwd0[anchor as int];
    let new_ord = ord.insert(j + 1, id);
    assert(ord[j] == anchor);
    assert forall|i: int| 0 <= i < ord.len() && ord[i] == anchor implies i == j by {
        if i != j {
            assert(ord[i] != ord[j]);
        }
    }
    assert(nxt == (if j + 1 < ord.len() { ord[j + 1] } else { NULL_ID }));
    assert(new_ord.len() == ord.len() + 1);
    assert forall|i: int| 0 <= i < new_ord.len() implies new_ord[i] == (if i <= j {
        ord[i]
    } else if i == j + 1 {
        id
    } else {
        ord[i - 1]
    }) by {}
    if j + 1 < ord.len() {
        assert(ord[j + 1] < cap);
        assert(nxt != NULL_ID);
    }
    assert forall|i: int, jj: int|
        0 <= i < jj < new_ord.len() implies new_ord[i] != new_ord[jj] by {
        if i == j + 1 || jj == j + 1 {
            if i == j + 1 {
                assert(ord.contains(ord[jj - 1]));
            } else {
                assert(ord.contains(ord[if i <= j { i } else { i - 1 }]));
            }
        }
    }
    assert forall|i: int|
        0 <= i < new_ord.len() implies fwd1[(#[trigger] new_ord[i]) as int] == (if i + 1
        < new_ord.len() {
        new_ord[i + 1]
    } else {
        NULL_ID
    }) by {
        let x = new_ord[i];
        if i < j {
            assert(x == ord[i]);
            assert(x != anchor);
            assert(x != id) by {
                assert(ord.contains(ord[i]));
            }
        } else if i == j {
            assert(x == anchor);
            assert(fwd1[anchor as int] == id);
        } else if i == j + 1 {
            assert(x == id);
            assert(id != anchor);
            if nxt != NULL_ID {
                assert(fwd1[id as int] == nxt);
                assert(new_ord[i + 1] == ord[j + 1]);
            } else {
                assert(fwd1[id as int] == fwd0[id as int]);
                assert(fwd0[id as int] == NULL_ID);
                assert(i + 1 == new_ord.len());
            }
        } else {
            assert(x == ord[i - 1]);
            assert(x != anchor);
            assert(x != id) by {
                assert(ord.contains(ord[i - 1]));
            }
            assert(fwd1[x as int] == fwd0[x as int]);
            assert(fwd0[x as int] == (if i < ord.len() {
                ord[i]
            } else {
                NULL_ID
            }));
        }
    }
    assert forall|i: int|
        0 <= i < new_ord.len() implies bwd1[(#[trigger] new_ord[i]) as int] == (if i > 0 {
        new_ord[i - 1]
    } else {
        NULL_ID
    }) by {
        let x = new_ord[i];
        if i < j + 1 {
            assert(x == ord[i]);
            assert(x != id) by {
                assert(ord.contains(ord[i]));
            }
            if nxt != NULL_ID && x == nxt {
                assert(ord[i] == ord[j + 1]);
                assert(i == j + 1);
                assert(false);
            }
            assert(bwd1[x as int] == bwd0[x as int]);
        } else if i == j + 1 {
            assert(x == id);
            assert(bwd1[id as int] == anchor);
            assert(new_ord[j] == anchor);
        } else if i == j + 2 {
            assert(x == ord[j + 1]);
            assert(x == nxt);
            assert(x != id) by {
                assert(ord.contains(ord[j + 1]));
            }
            assert(bwd1[nxt as int] == id);
            assert(new_ord[i - 1] == id);
        } else {
            assert(x == ord[i - 1]);
            assert(x != id) by {
                assert(ord.contains(ord[i - 1]));
            }
            if nxt != NULL_ID && x == nxt {
                assert(ord[i - 1] == ord[j + 1]);
                assert(false);
            }
            assert(bwd1[x as int] == bwd0[x as int]);
            assert(bwd0[x as int] == ord[i - 2]);
            assert(new_ord[i - 1] == ord[i - 2]);
        }
    }
    assert(head1 == (if new_ord.len() == 0 {
        NULL_ID
    } else {
        new_ord[0]
    })) by {
        assert(new_ord[0] == ord[0]);
    }
    assert(tail1 == new_ord.last()) by {
        if tail0 == anchor {
            assert(ord.last() == anchor);
            assert(ord.contains(ord[ord.len() - 1]));
            assert(ord[ord.len() - 1] == anchor);
            assert(j == ord.len() - 1);
            assert(new_ord.last() == id);
        } else {
            assert(ord[ord.len() - 1] != anchor);
            assert(j < ord.len() - 1);
            assert(new_ord.last() == ord[ord.len() - 1]);
        }
    }
    assert forall|x: u32|
        (x as int) < cap && !new_ord.contains(x) implies fwd1[x as int] == NULL_ID && bwd1[x as int]
        == NULL_ID by {
        assert(x != id) by {
            assert(new_ord[j + 1] == id);
        }
        assert(x != anchor) by {
            assert(new_ord[j] == anchor);
        }
        assert(!ord.contains(x)) by {
            if ord.contains(x) {
                let m = choose|m: int| 0 <= m < ord.len() && ord[m] == x;
                if m <= j {
                    assert(new_ord[m] == x);
                } else {
                    assert(new_ord[m + 1] == x);
                }
            }
        }
        if nxt != NULL_ID {
            assert(x != nxt) by {
                assert(ord.contains(ord[j + 1]));
            }
        }
    }
}

/// Inserting before an anchor rewires the anchor's backward link, the new
/// member's two links, and (if present) the old predecessor's forward
/// link.
#[verifier::rlimit(100)]
#[verifier::spinoff_prover]
proof fn lemma_links_insert_before(
    ord: Seq<u32>,
    fwd0: Seq<u32>,
    bwd0: Seq<u32>,
    head0: u32,
    tail0: u32,
    fwd1: Seq<u32>,
    bwd1: Seq<u32>,
    head1: u32,
    tail1: u32,
    id: u32,
    anchor: u32,
    cap: int,
)
    requires
        group_links_wf(ord, fwd0, bwd0, head0, tail0, cap),
        cap < NULL_ID as int,
        ord.contains(anchor),
        !ord.contains(id),
        (id as int) < cap,
        ({
            let prv = bwd0[anchor as int];
            &&& fwd1 == (if prv != NULL_ID {
                fwd0.update(prv as int, id)
            } else {
                fwd0
            }).update(id as int, anchor)
            &&& bwd1 == (if prv != NULL_ID {
                bwd0.update(id as int, prv)
            } else {
                bwd0
            }).update(anchor as int, id)
            &&& tail1 == tail0
            &&& head1 == (if head0 == anchor {
                id
            } else {
                head0
            })
        }),
    ensures
        group_links_wf(ord.insert(seq_index_of(ord, anchor), id), fwd1, bwd1, head1, tail1, cap),
{
    lemma_seq_index_of(ord, anchor);
    let j = seq_index_of(ord, anchor);
    let prv = bwd0[anchor as int];
    let new_ord = ord.insert(j, id);
    assert(ord[j] == anchor);
    assert forall|i: int| 0 <= i < ord.len() && ord[i] == anchor implies i == j by {
        if i != j {
            assert(ord[i] != ord[j]);
        }
    }
    assert(prv == (if j > 0 { ord[j - 1] } else { NULL_ID }));
    assert(new_ord.len() == ord.len() + 1);
    assert forall|i: int| 0 <= i < new_ord.len() implies new_ord[i] == (if i < j {
        ord[i]
    } else if i == j {
        id
    } else {
        ord[i - 1]
    }) by {}
    if j > 0 {
        assert(ord[j - 1] < cap);
        assert(prv != NULL_ID);
    }
    assert forall|i: int, jj: int|
        0 <= i < jj < new_ord.len() implies new_ord[i] != new_ord[jj] by {
        if i == j || jj == j {
            if i == j {
                assert(ord.contains(ord[jj - 1]));
            } else {
                assert(ord.contains(ord[i]));
            }
        }
    }
    lemma_links_insert_before_fwd(
        ord,
        fwd0,
        bwd0,
        head0,
        tail0,
        fwd1,
        bwd1,
        head1,
        tail1,
        id,
        anchor,
        cap,
    );
    lemma_links_insert_before_bwd(
        ord,
        fwd0,
        bwd0,
        head0,
        tail0,
        fwd1,
        bwd1,
        head1,
        tail1,
        id,
        anchor,
        cap,
    );
    assert(head1 == new_ord[0]) by {
        if head0 == anchor {
            assert(ord[0] == anchor);
            assert(j == 0);
        } else {
            assert(ord[0] != anchor);
            assert(j > 0);
            assert(new_ord[0] == ord[0]);
        }
    }
    assert(tail1 == new_ord.last()) by {
        assert(new_ord.last() == ord.last());
    }
    lemma_links_insert_before_frame(
        ord,
        fwd0,
        bwd0,
        head0,
        tail0,
        fwd1,
        bwd1,
        head1,
        tail1,
        id,
        anchor,
        cap,
    );
}

/// Splicing an id out rewires its neighbours' links and nulls its own;
/// a non-member's removal changes nothing.
#[verifier::rlimit(100)]
#[verifier::spinoff_prover]
proof fn lemma_links_remove(
    ord: Seq<u32>,
    fwd0: Seq<u32>,
    bwd0: Seq<u32>,
    head0: u32,
    tail0: u32,
    fwd1: Seq<u32>,
    bwd1: Seq<u32>,
    head1: u32,
    tail1: u32,
    id: u32,
    cap: int,
)
    requires
        group_links_wf(ord, fwd0, bwd0, head0, tail0, cap),
        cap < NULL_ID as int,
        (id as int) < cap,
        ({
            let nxt = fwd0[id as int];
            let prv = bwd0[id as int];
            &&& fwd1 == (if prv != NULL_ID {
                fwd0.update(prv as int, nxt)
            } else {
                fwd0
            }).update(id as int, NULL_ID)
            &&& bwd1 == (if nxt != NULL_ID {
                bwd0.update(nxt as int, prv)
            } else {
                bwd0
            }).update(id as int, NULL_ID)
            &&& head1 == (if head0 == id {
                nxt
            } else {
                head0
            })
            &&& tail1 == (if tail0 == id {
                prv
            } else {
                tail0
            })
        }),
    ensures
        group_links_wf(seq_remove_elem(ord, id), fwd1, bwd1, head1, tail1, cap),
{
    let nxt = fwd0[id as int];
    let prv = bwd0[id as int];
    if !ord.contains(id) {
        assert(nxt == NULL_ID && prv == NULL_ID);
        assert(fwd1 =~= fwd0);
        assert(bwd1 =~= bwd0);
        assert(head1 == head0) by {
            if head0 == id {
                if ord.len() > 0 {
                    assert(ord.contains(ord[0]));
                    assert(false);
                } else {
                    assert(head0 == NULL_ID);
                    assert(head0 == nxt);
                }
            }
        }
        assert(tail1 == tail0) by {
            if tail0 == id {
                if ord.len() > 0 {
                    assert(ord.contains(ord[ord.len() - 1]));
                    assert(false);
                } else {
                    assert(tail0 == NULL_ID);
                    assert(tail0 == prv);
                }
            }
        }
        assert(seq_remove_elem(ord, id) == ord);
        return ;
    }
    lemma_seq_index_of(ord, id);
    let j = seq_index_of(ord, id);
    let new_ord = ord.remove(j);
    assert(seq_remove_elem(ord, id) == new_ord);
    assert(ord[j] == id);
    assert forall|i: int| 0 <= i < ord.len() && ord[i] == id implies i == j by {
        if i != j {
            assert(ord[i] != ord[j]);
        }
    }
    assert(nxt == (if j + 1 < ord.len() { ord[j + 1] } else { NULL_ID }));
    assert(prv == (if j > 0 { ord[j - 1] } else { NULL_ID }));
    assert(new_ord.len() == ord.len() - 1);
    assert forall|i: int| 0 <= i < new_ord.len() implies new_ord[i] == (if i < j {
        ord[i]
    } else {
        ord[i + 1]
    }) by {}
    assert forall|i: int, jj: int|
        0 <= i < jj < new_ord.len() implies new_ord[i] != new_ord[jj] by {}
    assert forall|i: int|
        0 <= i < new_ord.len() implies fwd1[(#[trigger] new_ord[i]) as int] == (if i + 1
        < new_ord.len() {
        new_ord[i + 1]
    } else {
        NULL_ID
    }) by {
        let x = new_ord[i];
        assert(x != id);
        if j > 0 && x == prv {
            assert(ord[j - 1] == x);
            assert(i == j - 1);
            assert(fwd1[prv as int] == nxt);
            if j + 1 < ord.len() {
                assert(new_ord[i + 1] == ord[j + 1]);
            } else {
                assert(i + 1 == new_ord.len());
            }
        } else {
            assert(fwd1[x as int] == fwd0[x as int]);
            if i < j - 1 {
                assert(x == ord[i]);
                assert(fwd0[x as int] == ord[i + 1]);
                assert(new_ord[i + 1] == ord[i + 1]);
            } else {
                assert(i >= j);
                assert(x == ord[i + 1]);
                assert(fwd0[x as int] == (if i + 2 < ord.len() {
                    ord[i + 2]
                } else {
                    NULL_ID
                }));
                if i + 1 < new_ord.len() {
                    assert(new_ord[i + 1] == ord[i + 2]);
                }
            }
        }
    }
    assert forall|i: int|
        0 <= i < new_ord.len() implies bwd1[(#[trigger] new_ord[i]) as int] == (if i > 0 {
        new_ord[i - 1]
    } else {
        NULL_ID
    }) by {
        let x = new_ord[i];
        assert(x != id);
        if j + 1 < ord.len() && x == nxt {
            assert(ord[j + 1] == x);
            assert(i == j);
            assert(nxt != id);
            assert(bwd1[nxt as int] == prv);
            if j > 0 {
                assert(new_ord[i - 1] == ord[j - 1]);
            } else {
                assert(i == 0);
            }
        } else {
            assert(bwd1[x as int] == bwd0[x as int]);
            if i < j {
                assert(x == ord[i]);
                assert(bwd0[x as int] == (if i > 0 {
                    ord[i - 1]
                } else {
                    NULL_ID
                }));
                if i > 0 {
                    assert(new_ord[i - 1] == ord[i - 1]);
                }
            } else {
                assert(i > j);
                assert(x == ord[i + 1]);
                assert(bwd0[x as int] == ord[i]);
                assert(new_ord[i - 1] == (if i - 1 < j {
                    ord[i - 1]
                } else {
                    ord[i]
                }));
            }
        }
    }
    assert(head1 == (if new_ord.len() == 0 {
        NULL_ID
    } else {
        new_ord[0]
    })) by {
        if head0 == id {
            assert(ord[0] == id);
            assert(j == 0);
            if new_ord.len() > 0 {
                assert(new_ord[0] == ord[1]);
            }
        } else {
            assert(ord[0] != id);
            assert(j > 0);
            assert(new_ord[0] == ord[0]);
        }
    }
    assert(tail1 == (if new_ord.len() == 0 {
        NULL_ID
    } else {
        new_ord.last()
    })) by {
        if tail0 == id {
            assert(ord[ord.len() - 1] == id);
            assert(j == ord.len() - 1);
            if new_ord.len() > 0 {
                assert(new_ord.last() == ord[j - 1]);
            }
        } else {
            assert(ord[ord.len() - 1] != id);
            assert(j < ord.len() - 1);
            assert(new_ord.last() == ord[ord.len() - 1]);
        }
    }
    assert forall|x: u32|
        (x as int) < cap && !new_ord.contains(x) implies fwd1[x as int] == NULL_ID && bwd1[x as int]
        == NULL_ID by {
        if x == id {
        } else {
            assert(!ord.contains(x)) by {
                if ord.contains(x) {
                    let m = choose|m: int| 0 <= m < ord.len() && ord[m] == x;
                    assert(m != j);
                    if m < j {
                        assert(new_ord[m] == x);
                    } else {
                        assert(new_ord[m - 1] == x);
                    }
                }
            }
            if j > 0 {
                assert(x != prv) by {
                    assert(ord.contains(ord[j - 1]));
                }
            }
            if j + 1 < ord.len() {
                assert(x != nxt) by {
                    assert(ord.contains(ord[j + 1]));
                }
            }
        }
    }
}


/// The forward links after an insert-before, member by member.
#[verifier::rlimit(100)]
#[verifier::spinoff_prover]
proof fn lemma_links_insert_before_fwd(
    ord: Seq<u32>,
    fwd0: Seq<u32>,
    bwd0: Seq<u32>,
    head0: u32,
    tail0: u32,
    fwd1: Seq<u32>,
    bwd1: Seq<u32>,
    head1: u32,
    tail1: u32,
    id: u32,
    anchor: u32,
    cap: int,
)
    requires
        group_links_wf(ord, fwd0, bwd0, head0, tail0, cap),
        cap < NULL_ID as int,
        ord.contains(anchor),
        !ord.contains(id),
        (id as int) < cap,
        ({
            let prv = bwd0[anchor as int];
            &&& fwd1 == (if prv != NULL_ID {
                fwd0.update(prv as int, id)
            } else {
                fwd0
            }).update(id as int, anchor)
            &&& bwd1 == (if prv != NULL_ID {
                bwd0.update(id as int, prv)
            } else {
                bwd0
            }).update(anchor as int, id)
            &&& tail1 == tail0
            &&& head1 == (if head0 == anchor {
                id
            } else {
                head0
            })
        }),
    ensures
        forall|i: int|
            0 <= i < ord.insert(seq_index_of(ord, anchor), id).len() ==> fwd1[(
            #[trigger] ord.insert(seq_index_of(ord, anchor), id)[i]) as int] == (if i + 1
                < ord.insert(seq_index_of(ord, anchor), id).len() {
                ord.insert(seq_index_of(ord, anchor), id)[i + 1]
            } else {
                NULL_ID
            }),
{
    lemma_seq_index_of(ord, anchor);
    let j = seq_index_of(ord, anchor);
    let prv = bwd0[anchor as int];
    let new_ord = ord.insert(j, id);
    assert(ord[j] == anchor);
    assert forall|i: int| 0 <= i < ord.len() && ord[i] == anchor implies i == j by {
        if i != j {
            assert(ord[i] != ord[j]);
        }
    }
    assert(prv == (if j > 0 { ord[j - 1] } else { NULL_ID }));
    assert(new_ord.len() == ord.len() + 1);
    assert forall|i: int| 0 <= i < new_ord.len() implies new_ord[i] == (if i < j {
        ord[i]
    } else if i == j {
        id
    } else {
        ord[i - 1]
    }) by {}
    if j > 0 {
        assert(ord[j - 1] < cap);
        assert(prv != NULL_ID);
    }
    assert forall|i: int|
        0 <= i < new_ord.len() implies fwd1[(#[trigger] new_ord[i]) as int] == (if i + 1
        < new_ord.len() {
        new_ord[i + 1]
    } else {
        NULL_ID
    }) by {
        let x = new_ord[i];
        if i < j - 1 {
            assert(x == ord[i]);
            assert(x != id) by {
                assert(ord.contains(ord[i]));
            }
            if prv != NULL_ID && x == prv {
                assert(ord[i] == ord[j - 1]);
                assert(false);
            }
            assert(fwd1[x as int] == fwd0[x as int]);
        } else if i == j - 1 {
            assert(x == ord[j - 1]);
            assert(x == prv);
            assert(x != id) by {
                assert(ord.contains(ord[j - 1]));
            }
            assert(fwd1[prv as int] == id);
            assert(new_ord[i + 1] == id);
        } else if i == j {
            assert(x == id);
            assert(fwd1[id as int] == anchor);
            assert(new_ord[i + 1] == anchor);
        } else {
            assert(x == ord[i - 1]);
            assert(x != id) by {
                assert(ord.contains(ord[i - 1]));
            }
            if prv != NULL_ID && x == prv {
                assert(ord[i - 1] == ord[j - 1]);
                assert(false);
            }
            assert(fwd1[x as int] == fwd0[x as int]);
            assert(fwd0[x as int] == (if i < ord.len() {
                ord[i]
            } else {
                NULL_ID
            }));
            if i + 1 < new_ord.len() {
                assert(new_ord[i + 1] == ord[i]);
            }
        }
    }
}

/// The backward links after an insert-before, member by member.
#[verifier::rlimit(100)]
#[verifier::spinoff_prover]
proof fn lemma_links_insert_before_bwd(
    ord: Seq<u32>,
    fwd0: Seq<u32>,
    bwd0: Seq<u32>,
    head0: u32,
    tail0: u32,
    fwd1: Seq<u32>,
    bwd1: Seq<u32>,
    head1: u32,
    tail1: u32,
    id: u32,
    anchor: u32,
    cap: int,
)
    requires
        group_links_wf(ord, fwd0, bwd0, head0, tail0, cap),
        cap < NULL_ID as int,
        ord.contains(anchor),
        !ord.contains(id),
        (id as int) < cap,
        ({
            let prv = bwd0[anchor as int];
            &&& fwd1 == (if prv != NULL_ID {
                fwd0.update(prv as int, id)
            } else {
                fwd0
            }).update(id as int, anchor)
            &&& bwd1 == (if prv != NULL_ID {
                bwd0.update(id as int, prv)
            } else {
                bwd0
            }).update(anchor as int, id)
            &&& tail1 == tail0
            &&& head1 == (if head0 == anchor {
                id
            } else {
                head0
            })
        }),
    ensures
        forall|i: int|
            0 <= i < ord.insert(seq_index_of(ord, anchor), id).len() ==> bwd1[(
            #[trigger] ord.insert(seq_index_of(ord, anchor), id)[i]) as int] == (if i > 0 {
                ord.insert(seq_index_of(ord, anchor), id)[i - 1]
            } else {
                NULL_ID
            }),
{
    lemma_seq_index_of(ord, anchor);
    let j = seq_index_of(ord, anchor);
    let prv = bwd0[anchor as int];
    let new_ord = ord.insert(j, id);
    assert(ord[j] == anchor);
    assert forall|i: int| 0 <= i < ord.len() && ord[i] == anchor implies i == j by {
        if i != j {
            assert(ord[i] != ord[j]);
        }
    }
    assert(prv == (if j > 0 { ord[j - 1] } else { NULL_ID }));
    assert(new_ord.len() == ord.len() + 1);
    assert forall|i: int| 0 <= i < new_ord.len() implies new_ord[i] == (if i < j {
        ord[i]
    } else if i == j {
        id
    } else {
        ord[i - 1]
    }) by {}
    if j > 0 {
        assert(ord[j - 1] < cap);
        assert(prv != NULL_ID);
    }
    assert forall|i: int|
        0 <= i < new_ord.len() implies bwd1[(#[trigger] new_ord[i]) as int] == (if i > 0 {
        new_ord[i - 1]
    } else {
        NULL_ID
    }) by {
        let x = new_ord[i];
        if i < j {
            assert(x == ord[i]);
            assert(x != id) by {
                assert(ord.contains(ord[i]));
            }
            assert(x != anchor);
            assert(bwd1[x as int] == bwd0[x as int]);
        } else if i == j {
            assert(x == id);
            if prv != NULL_ID {
                assert(bwd1[id as int] == prv);
                assert(new_ord[i - 1] == ord[j - 1]);
            } else {
                assert(bwd1[id as int] == bwd0[id as int]);
                assert(bwd0[id as int] == NULL_ID);
                assert(i == 0);
            }
        } else if i == j + 1 {
            assert(x == anchor);
            assert(bwd1[anchor as int] == id);
            assert(new_ord[i - 1] == id);
        } else {
            assert(x == ord[i - 1]);
            assert(x != id) by {
                assert(ord.contains(ord[i - 1]));
            }
            assert(x != anchor);
            assert(bwd1[x as int] == bwd0[x as int]);
            assert(bwd0[x as int] == ord[i - 2]);
            assert(new_ord[i - 1] == ord[i - 2]);
        }
    }
}


/// Non-members keep null links across an insert-before.
#[verifier::rlimit(100)]
#[verifier::spinoff_prover]
proof fn lemma_links_insert_before_frame(
    ord: Seq<u32>,
    fwd0: Seq<u32>,
    bwd0: Seq<u32>,
    head0: u32,
    tail0: u32,
    fwd1: Seq<u32>,
    bwd1: Seq<u32>,
    head1: u32,
    tail1: u32,
    id: u32,
    anchor: u32,
    cap: int,
)
    requires
        group_links_wf(ord, fwd0, bwd0, head0, tail0, cap),
        cap < NULL_ID as int,
        ord.contains(anchor),
        !ord.contains(id),
        (id as int) < cap,
        ({
            let prv = bwd0[anchor as int];
            &&& fwd1 == (if prv != NULL_ID {
                fwd0.update(prv as int, id)
            } else {
                fwd0
            }).update(id as int, anchor)
            &&& bwd1 == (if prv != NULL_ID {
                bwd0.update(id as int, prv)
            } else {
                bwd0
            }).update(anchor as int, id)
            &&& tail1 == tail0
            &&& head1 == (if head0 == anchor {
                id
            } else {
                head0
            })
        }),
    ensures
        forall|x: u32|
            (x as int) < cap && !ord.insert(seq_index_of(ord, anchor), id).contains(x) ==> fwd1[x as int]
                == NULL_ID && bwd1[x as int] == NULL_ID,
{
    lemma_seq_index_of(ord, anchor);
    let j = seq_index_of(ord, anchor);
    let prv = bwd0[anchor as int];
    let new_ord = ord.insert(j, id);
    assert(ord[j] == anchor);
    assert forall|i: int| 0 <= i < ord.len() && ord[i] == anchor implies i == j by {
        if i != j {
            assert(ord[i] != ord[j]);
        }
    }
    assert(prv == (if j > 0 { ord[j - 1] } else { NULL_ID }));
    assert(new_ord.len() == ord.len() + 1);
    assert forall|i: int| 0 <= i < new_ord.len() implies new_ord[i] == (if i < j {
        ord[i]
    } else if i == j {
        id
    } else {
        ord[i - 1]
    }) by {}
    if j > 0 {
        assert(ord[j - 1] < cap);
        assert(prv != NULL_ID);
    }
    assert forall|x: u32|
        (x as int) < cap && !new_ord.contains(x) implies fwd1[x as int] == NULL_ID && bwd1[x as int]
        == NULL_ID by {
        assert(x != id) by {
            assert(new_ord[j] == id);
        }
        assert(x != anchor) by {
            assert(new_ord[j + 1] == anchor);
        }
        assert(!ord.contains(x)) by {
            if ord.contains(x) {
                let m = choose|m: int| 0 <= m < ord.len() && ord[m] == x;
                if m < j {
                    assert(new_ord[m] == x);
                } else {
                    assert(new_ord[m + 1] == x);
                }
            }
        }
        if prv != NULL_ID {
            assert(x != prv) by {
                assert(ord.contains(ord[j - 1]));
            }
        }
    }
}

} // verus!
