use vstd::prelude::*;

use crate::bitvec_utils;

verus! {

/// Per-tag membership bitmaps: a sorted vector of tag ids and, for each
/// tag, one bit per entity id.
pub struct TagContainer {
    pub tag_ids: Vec<u64>,
    pub entity_id_to_has_tag_bitvecs: Vec<Vec<u32>>,
    pub entity_capacity: usize,
}

impl TagContainer {
    /// Whether entity `id` carries tag `tag`.
    pub open spec fn spec_has_tag(self, tag: u64, id: int) -> bool {
        &&& 0 <= id < self.entity_capacity
        &&& exists|k: int|
            0 <= k < self.tag_ids@.len() && self.tag_ids@[k] == tag && bitvec_utils::spec_bit_on(
                self.entity_id_to_has_tag_bitvecs@[k]@,
                id,
            )
    }

    /// The container's invariant: tag ids sorted strictly, one bitmap per
    /// tag sized to the entity capacity, and no bit set past the capacity.
    pub open spec fn wf(self) -> bool {
        &&& forall|i: int, j: int|
            0 <= i < j < self.tag_ids@.len() ==> self.tag_ids@[i] < self.tag_ids@[j]
        &&& self.entity_id_to_has_tag_bitvecs@.len() == self.tag_ids@.len()
        &&& forall|k: int|
            0 <= k < self.tag_ids@.len() ==> (#[trigger] self.entity_id_to_has_tag_bitvecs@[k]@).len()
                == crate::bitvec_utils::spec_word_count(self.entity_capacity as int)
        &&& forall|k: int, i: int|
            #![trigger bitvec_utils::spec_bit_on(self.entity_id_to_has_tag_bitvecs@[k]@, i)]
            0 <= k < self.tag_ids@.len() && self.entity_capacity <= i
                < self.entity_id_to_has_tag_bitvecs@[k]@.len() * 32 ==> !bitvec_utils::spec_bit_on(
                self.entity_id_to_has_tag_bitvecs@[k]@,
                i,
            )
    }

    /// An empty container for `entity_capacity` entity slots.
    pub fn new(entity_capacity: usize) -> (r: TagContainer)
        ensures
            r.wf(),
            r.entity_capacity == entity_capacity,
            forall|tag: u64, id: int| !r.spec_has_tag(tag, id),
    {
        TagContainer {
            tag_ids: Vec::new(),
            entity_id_to_has_tag_bitvecs: Vec::new(),
            entity_capacity,
        }
    }

    /// The index of `tag` in the sorted tag list, or the insertion point.
    fn find_tag_index(&self, tag: u64) -> (r: Result<usize, usize>)
        requires
            self.wf(),
        ensures
            r matches Ok(k) ==> 0 <= k < self.tag_ids@.len() && self.tag_ids@[k as int] == tag,
            r matches Err(k) ==> 0 <= k <= self.tag_ids@.len() && (forall|i: int|
                0 <= i < k ==> self.tag_ids@[i] < tag) && (forall|i: int|
                k <= i < self.tag_ids@.len() ==> self.tag_ids@[i] > tag),
    {
        let n = self.tag_ids.len();
        let mut i: usize = 0;
        while i < n
            invariant
                n == self.tag_ids@.len(),
                0 <= i <= n,
                self.wf(),
                forall|j: int| 0 <= j < i ==> self.tag_ids@[j] < tag,
            decreases n - i,
        {
            let t = self.tag_ids[i];
            if t == tag {
                return Ok(i);
            }
            if t > tag {
                proof {
                    assert forall|j: int| i <= j < self.tag_ids@.len() implies self.tag_ids@[j]
                        > tag by {
                        if j > i {
                            assert(self.tag_ids@[i as int] < self.tag_ids@[j]);
                        }
                    }
                }
                return Err(i);
            }
            i = i + 1;
        }
        Err(n)
    }

    /// Sets entity `entity_id`'s bit for tag `tag`, creating the tag's
    /// bitmap (zeroed) if the tag is new.  No other tag state changes.
    pub fn add_tag(&mut self, tag: u64, entity_id: u32)
        requires
            old(self).wf(),
            (entity_id as int) < old(self).entity_capacity,
        ensures
            final(self).wf(),
            final(self).entity_capacity == old(self).entity_capacity,
            final(self).spec_has_tag(tag, entity_id as int),
            forall|t: u64, i: int|
                !(t == tag && i == entity_id) ==> final(self).spec_has_tag(t, i) == old(
                    self,
                ).spec_has_tag(t, i),
    {
        let tag_index: usize;
        match self.find_tag_index(tag) {
            Ok(k) => {
                tag_index = k;
            },
            Err(k) => {
                let fresh = bitvec_utils::alloc_bit_vec(self.entity_capacity);
                self.tag_ids.insert(k, tag);
                self.entity_id_to_has_tag_bitvecs.insert(k, fresh);
                tag_index = k;
                proof {
                    lemma_tag_maps_insert(*old(self), *self, k as int, tag);
                }
            },
        }
        let ghost mid = *self;
        proof {
            bitvec_utils::lemma_bit_range(entity_id as int, self.entity_capacity as int);
        }
        let bitvec = &mut self.entity_id_to_has_tag_bitvecs[tag_index];
        bitvec_utils::set_bit_on(bitvec, entity_id as usize);
        proof {
            lemma_tag_maps_update(mid, *self, tag_index as int, tag, entity_id as int, true);
            if old(self).tag_ids@.len() != mid.tag_ids@.len() {
                assert forall|t: u64, i: int|
                    !(t == tag && i == entity_id) implies self.spec_has_tag(t, i) == old(
                    self,
                ).spec_has_tag(t, i) by {
                    assert(mid.spec_has_tag(t, i) == old(self).spec_has_tag(t, i));
                }
            }
        }
    }

    /// Clears entity `entity_id`'s bit for tag `tag`; unknown tags are
    /// ignored.  No other tag state changes.
    pub fn remove_tag(&mut self, tag: u64, entity_id: u32)
        requires
            old(self).wf(),
            (entity_id as int) < old(self).entity_capacity,
        ensures
            final(self).wf(),
            final(self).entity_capacity == old(self).entity_capacity,
            !final(self).spec_has_tag(tag, entity_id as int),
            forall|t: u64, i: int|
                !(t == tag && i == entity_id) ==> final(self).spec_has_tag(t, i) == old(
                    self,
                ).spec_has_tag(t, i),
    {
        match self.find_tag_index(tag) {
            Ok(k) => {
                let ghost mid = *self;
                proof {
                    bitvec_utils::lemma_bit_range(entity_id as int, self.entity_capacity as int);
                }
                let bitvec = &mut self.entity_id_to_has_tag_bitvecs[k];
                bitvec_utils::set_bit_off(bitvec, entity_id as usize);
                proof {
                    lemma_tag_maps_update(mid, *self, k as int, tag, entity_id as int, false);
                }
            },
            Err(pos) => {
                proof {
                    assert forall|j: int| 0 <= j < self.tag_ids@.len() implies self.tag_ids@[j]
                        != tag by {
                        if j < pos {
                            assert(self.tag_ids@[j] < tag);
                        } else {
                            assert(self.tag_ids@[j] > tag);
                        }
                    }
                }
            },
        }
    }

    /// Whether entity `entity_id` carries tag `tag`; false for tags never
    /// added.
    pub fn has_tag(&self, tag: u64, entity_id: u32) -> (r: bool)
        requires
            self.wf(),
            (entity_id as int) < self.entity_capacity,
        ensures
            r == self.spec_has_tag(tag, entity_id as int),
    {
        match self.find_tag_index(tag) {
            Ok(k) => {
                proof {
                    bitvec_utils::lemma_bit_range(entity_id as int, self.entity_capacity as int);
                }
                let r = bitvec_utils::is_bit_on(&self.entity_id_to_has_tag_bitvecs[k], entity_id as usize);
                proof {
                    if !r && self.spec_has_tag(tag, entity_id as int) {
                        let k2 = choose|k2: int|
                            0 <= k2 < self.tag_ids@.len() && self.tag_ids@[k2] == tag
                                && bitvec_utils::spec_bit_on(
                                self.entity_id_to_has_tag_bitvecs@[k2]@,
                                entity_id as int,
                            );
                        assert(k2 == k);
                    }
                }
                r
            },
            Err(pos) => {
                proof {
                    assert forall|j: int| 0 <= j < self.tag_ids@.len() implies self.tag_ids@[j]
                        != tag by {
                        if j < pos {
                            assert(self.tag_ids@[j] < tag);
                        } else {
                            assert(self.tag_ids@[j] > tag);
                        }
                    }
                }
                false
            },
        }
    }

    /// Clears the entity's bit in every tag's bitmap.
    pub fn remove_all_tags_for_entity(&mut self, entity_id: u32)
        requires
            old(self).wf(),
            (entity_id as int) < old(self).entity_capacity,
        ensures
            final(self).wf(),
            final(self).entity_capacity == old(self).entity_capacity,
            final(self).tag_ids@ == old(self).tag_ids@,
            forall|t: u64| !final(self).spec_has_tag(t, entity_id as int),
            forall|t: u64, i: int|
                i != entity_id ==> final(self).spec_has_tag(t, i) == old(self).spec_has_tag(t, i),
    {
        let n = self.tag_ids.len();
        let mut k: usize = 0;
        while k < n
            invariant
                old(self).wf(),
                self.wf(),
                n == self.tag_ids@.len(),
                0 <= k <= n,
                (entity_id as int) < self.entity_capacity,
                self.entity_capacity == old(self).entity_capacity,
                self.tag_ids@ == old(self).tag_ids@,
                forall|j: int|
                    0 <= j < k ==> !bitvec_utils::spec_bit_on(
                        #[trigger] self.entity_id_to_has_tag_bitvecs@[j]@,
                        entity_id as int,
                    ),
                forall|j: int, i: int|
                    #![trigger bitvec_utils::spec_bit_on(self.entity_id_to_has_tag_bitvecs@[j]@, i)]
                    0 <= j < n && 0 <= i < self.entity_id_to_has_tag_bitvecs@[j]@.len() * 32 && i
                        != entity_id ==> bitvec_utils::spec_bit_on(
                        self.entity_id_to_has_tag_bitvecs@[j]@,
                        i,
                    ) == bitvec_utils::spec_bit_on(
                        old(self).entity_id_to_has_tag_bitvecs@[j]@,
                        i,
                    ),
            decreases n - k,
        {
            proof {
                bitvec_utils::lemma_bit_range(entity_id as int, self.entity_capacity as int);
            }
            let bitvec = &mut self.entity_id_to_has_tag_bitvecs[k];
            bitvec_utils::set_bit_off(bitvec, entity_id as usize);
            k = k + 1;
        }
        proof {
            assert forall|t: u64| !self.spec_has_tag(t, entity_id as int) by {
                if self.spec_has_tag(t, entity_id as int) {
                    let k2 = choose|k2: int|
                        0 <= k2 < self.tag_ids@.len() && self.tag_ids@[k2] == t
                            && bitvec_utils::spec_bit_on(
                            self.entity_id_to_has_tag_bitvecs@[k2]@,
                            entity_id as int,
                        );
                    assert(!bitvec_utils::spec_bit_on(
                        self.entity_id_to_has_tag_bitvecs@[k2]@,
                        entity_id as int,
                    ));
                }
            }
            assert forall|t: u64, i: int|
                i != entity_id implies self.spec_has_tag(t, i) == old(self).spec_has_tag(t, i) by {
                if 0 <= i < self.entity_capacity {
                    bitvec_utils::lemma_bit_range(i, self.entity_capacity as int);
                }
                if self.spec_has_tag(t, i) {
                    let k2 = choose|k2: int|
                        0 <= k2 < self.tag_ids@.len() && self.tag_ids@[k2] == t
                            && bitvec_utils::spec_bit_on(
                            self.entity_id_to_has_tag_bitvecs@[k2]@,
                            i,
                        );
                    assert(bitvec_utils::spec_bit_on(
                        old(self).entity_id_to_has_tag_bitvecs@[k2]@,
                        i,
                    ));
                }
                if old(self).spec_has_tag(t, i) {
                    let k2 = choose|k2: int|
                        0 <= k2 < old(self).tag_ids@.len() && old(self).tag_ids@[k2] == t
                            && bitvec_utils::spec_bit_on(
                            old(self).entity_id_to_has_tag_bitvecs@[k2]@,
                            i,
                        );
                    if i < old(self).entity_id_to_has_tag_bitvecs@[k2]@.len() * 32 {
                        assert(bitvec_utils::spec_bit_on(
                            self.entity_id_to_has_tag_bitvecs@[k2]@,
                            i,
                        ));
                    } else {
                        assert(false);
                    }
                }
            }
        }
    }

    /// Grows every tag's bitmap to cover `new_capacity` entity slots;
    /// carried-over bits keep their value, new slots start untagged.
    pub fn grow(&mut self, new_capacity: usize)
        requires
            old(self).wf(),
            old(self).entity_capacity <= new_capacity,
        ensures
            final(self).wf(),
            final(self).entity_capacity == new_capacity,
            final(self).tag_ids@ == old(self).tag_ids@,
            forall|t: u64, i: int|
                0 <= i < old(self).entity_capacity ==> final(self).spec_has_tag(t, i) == old(
                    self,
                ).spec_has_tag(t, i),
            forall|t: u64, i: int|
                old(self).entity_capacity <= i ==> !final(self).spec_has_tag(t, i),
    {
        let n = self.tag_ids.len();
        let old_capacity = self.entity_capacity;
        let mut k: usize = 0;
        while k < n
            invariant
                old(self).wf(),
                n == self.tag_ids@.len(),
                0 <= k <= n,
                old_capacity == old(self).entity_capacity,
                old_capacity <= new_capacity,
                self.entity_capacity == old(self).entity_capacity,
                self.tag_ids@ == old(self).tag_ids@,
                self.entity_id_to_has_tag_bitvecs@.len() == n,
                forall|j: int|
                    k <= j < n ==> self.entity_id_to_has_tag_bitvecs@[j]
                        == old(self).entity_id_to_has_tag_bitvecs@[j],
                forall|j: int|
                    0 <= j < k ==> (#[trigger] self.entity_id_to_has_tag_bitvecs@[j]@).len()
                        == crate::bitvec_utils::spec_word_count(new_capacity as int),
                forall|j: int, i: int|
                    #![trigger bitvec_utils::spec_bit_on(self.entity_id_to_has_tag_bitvecs@[j]@, i)]
                    0 <= j < k && 0 <= i < old(self).entity_id_to_has_tag_bitvecs@[j]@.len() * 32
                        ==> bitvec_utils::spec_bit_on(
                        self.entity_id_to_has_tag_bitvecs@[j]@,
                        i,
                    ) == bitvec_utils::spec_bit_on(
                        old(self).entity_id_to_has_tag_bitvecs@[j]@,
                        i,
                    ),
                forall|j: int, i: int|
                    #![trigger bitvec_utils::spec_bit_on(self.entity_id_to_has_tag_bitvecs@[j]@, i)]
                    0 <= j < k && old(self).entity_id_to_has_tag_bitvecs@[j]@.len() * 32 <= i
                        < self.entity_id_to_has_tag_bitvecs@[j]@.len() * 32
                        ==> !bitvec_utils::spec_bit_on(
                        self.entity_id_to_has_tag_bitvecs@[j]@,
                        i,
                    ),
            decreases n - k,
        {
            let bitvec = &mut self.entity_id_to_has_tag_bitvecs[k];
            let ghost oldw = bitvec@;
            bitvec_utils::realloc(bitvec, old_capacity, new_capacity);
            proof {
                let nw = self.entity_id_to_has_tag_bitvecs@[k as int]@;
                assert forall|i: int|
                    0 <= i < oldw.len() * 32 implies bitvec_utils::spec_bit_on(nw, i)
                    == bitvec_utils::spec_bit_on(oldw, i) by {
                    bitvec_utils::lemma_bit_positions(i, (i % 32) as u32, oldw.len() as nat);
                    assert(i / 32 < oldw.len()) by (nonlinear_arith)
                        requires
                            0 <= i < oldw.len() * 32,
                            i == (i / 32) * 32 + (i % 32),
                            0 <= i % 32 < 32,
                    ;
                    bitvec_utils::lemma_same_word_same_bit(oldw, nw, i);
                }
                assert forall|i: int|
                    oldw.len() * 32 <= i < nw.len() * 32 implies !bitvec_utils::spec_bit_on(
                    nw,
                    i,
                ) by {
                    bitvec_utils::lemma_bit_positions(i, (i % 32) as u32, nw.len() as nat);
                    assert(i / 32 >= oldw.len()) by (nonlinear_arith)
                        requires
                            i >= oldw.len() * 32,
                            i == (i / 32) * 32 + (i % 32),
                            0 <= i % 32 < 32,
                    ;
                    bitvec_utils::lemma_zero_word_bit(nw, i);
                }
            }
            k = k + 1;
        }
        self.entity_capacity = new_capacity;
        proof {
            lemma_grow_preserves_tags(*old(self), *self);
        }
    }
}

/// Inserting a fresh, zeroed bitmap for a new tag changes no membership.
proof fn lemma_tag_maps_insert(pre: TagContainer, post: TagContainer, k: int, tag: u64)
    requires
        pre.wf(),
        0 <= k <= pre.tag_ids@.len(),
        forall|i: int| 0 <= i < k ==> pre.tag_ids@[i] < tag,
        forall|i: int| k <= i < pre.tag_ids@.len() ==> pre.tag_ids@[i] > tag,
        post.tag_ids@ == pre.tag_ids@.insert(k, tag),
        post.entity_capacity == pre.entity_capacity,
        post.entity_id_to_has_tag_bitvecs@.len() == pre.entity_id_to_has_tag_bitvecs@.len() + 1,
        forall|i: int|
            0 <= i < post.entity_id_to_has_tag_bitvecs@.len() ==> (
            #[trigger] post.entity_id_to_has_tag_bitvecs@[i]) == (if i < k {
                pre.entity_id_to_has_tag_bitvecs@[i]
            } else if i == k {
                post.entity_id_to_has_tag_bitvecs@[k]
            } else {
                pre.entity_id_to_has_tag_bitvecs@[i - 1]
            }),
        post.entity_id_to_has_tag_bitvecs@[k]@.len() == crate::bitvec_utils::spec_word_count(
            pre.entity_capacity as int,
        ),
        forall|i: int|
            0 <= i < post.entity_id_to_has_tag_bitvecs@[k]@.len() * 32
                ==> !bitvec_utils::spec_bit_on(post.entity_id_to_has_tag_bitvecs@[k]@, i),
    ensures
        post.wf(),
        forall|t: u64, i: int| post.spec_has_tag(t, i) == pre.spec_has_tag(t, i),
{
    assert forall|i: int, j: int|
        0 <= i < j < post.tag_ids@.len() implies post.tag_ids@[i] < post.tag_ids@[j] by {
        assert(post.tag_ids@[i] == (if i < k {
            pre.tag_ids@[i]
        } else if i == k {
            tag
        } else {
            pre.tag_ids@[i - 1]
        }));
        assert(post.tag_ids@[j] == (if j < k {
            pre.tag_ids@[j]
        } else if j == k {
            tag
        } else {
            pre.tag_ids@[j - 1]
        }));
    }
    assert forall|t: u64, i: int| post.spec_has_tag(t, i) == pre.spec_has_tag(t, i) by {
        if post.spec_has_tag(t, i) {
            let k2 = choose|k2: int|
                0 <= k2 < post.tag_ids@.len() && post.tag_ids@[k2] == t
                    && bitvec_utils::spec_bit_on(post.entity_id_to_has_tag_bitvecs@[k2]@, i);
            if k2 < k {
                assert(pre.tag_ids@[k2] == t);
                assert(bitvec_utils::spec_bit_on(pre.entity_id_to_has_tag_bitvecs@[k2]@, i));
            } else if k2 == k {
                assert(!bitvec_utils::spec_bit_on(post.entity_id_to_has_tag_bitvecs@[k]@, i));
            } else {
                assert(pre.tag_ids@[k2 - 1] == t);
                assert(bitvec_utils::spec_bit_on(pre.entity_id_to_has_tag_bitvecs@[k2 - 1]@, i));
            }
        }
        if pre.spec_has_tag(t, i) {
            let k2 = choose|k2: int|
                0 <= k2 < pre.tag_ids@.len() && pre.tag_ids@[k2] == t
                    && bitvec_utils::spec_bit_on(pre.entity_id_to_has_tag_bitvecs@[k2]@, i);
            if k2 < k {
                assert(post.tag_ids@[k2] == t);
                assert(bitvec_utils::spec_bit_on(post.entity_id_to_has_tag_bitvecs@[k2]@, i));
            } else {
                assert(post.tag_ids@[k2 + 1] == t);
                assert(bitvec_utils::spec_bit_on(
                    post.entity_id_to_has_tag_bitvecs@[k2 + 1]@,
                    i,
                ));
            }
        }
    }
}

/// Setting or clearing one bit in one tag's bitmap changes exactly that
/// membership.
proof fn lemma_tag_maps_update(
    pre: TagContainer,
    post: TagContainer,
    k: int,
    tag: u64,
    id: int,
    value: bool,
)
    requires
        pre.wf(),
        0 <= k < pre.tag_ids@.len(),
        pre.tag_ids@[k] == tag,
        0 <= id < pre.entity_capacity,
        post.tag_ids@ == pre.tag_ids@,
        post.entity_capacity == pre.entity_capacity,
        post.entity_id_to_has_tag_bitvecs@.len() == pre.entity_id_to_has_tag_bitvecs@.len(),
        forall|j: int|
            0 <= j < pre.entity_id_to_has_tag_bitvecs@.len() && j != k ==> (
            #[trigger] post.entity_id_to_has_tag_bitvecs@[j]) == pre.entity_id_to_has_tag_bitvecs@[j],
        post.entity_id_to_has_tag_bitvecs@[k]@.len() == pre.entity_id_to_has_tag_bitvecs@[k]@.len(),
        bitvec_utils::spec_bit_on(post.entity_id_to_has_tag_bitvecs@[k]@, id) == value,
        forall|i: int|
            0 <= i < post.entity_id_to_has_tag_bitvecs@[k]@.len() * 32 && i != id
                ==> bitvec_utils::spec_bit_on(post.entity_id_to_has_tag_bitvecs@[k]@, i)
                == bitvec_utils::spec_bit_on(pre.entity_id_to_has_tag_bitvecs@[k]@, i),
    ensures
        post.wf(),
        post.spec_has_tag(tag, id) == value,
        forall|t: u64, i: int|
            !(t == tag && i == id) ==> post.spec_has_tag(t, i) == pre.spec_has_tag(t, i),
{
    bitvec_utils::lemma_bit_range(id, pre.entity_capacity as int);
    if value {
        assert(post.spec_has_tag(tag, id)) by {
            assert(post.tag_ids@[k] == tag && bitvec_utils::spec_bit_on(
                post.entity_id_to_has_tag_bitvecs@[k]@,
                id,
            ));
        }
    } else {
        if post.spec_has_tag(tag, id) {
            let k2 = choose|k2: int|
                0 <= k2 < post.tag_ids@.len() && post.tag_ids@[k2] == tag
                    && bitvec_utils::spec_bit_on(post.entity_id_to_has_tag_bitvecs@[k2]@, id);
            assert(k2 == k);
        }
    }
    assert forall|t: u64, i: int|
        !(t == tag && i == id) implies post.spec_has_tag(t, i) == pre.spec_has_tag(t, i) by {
        if 0 <= i < pre.entity_capacity {
            bitvec_utils::lemma_bit_range(i, pre.entity_capacity as int);
        }
        if post.spec_has_tag(t, i) {
            let k2 = choose|k2: int|
                0 <= k2 < post.tag_ids@.len() && post.tag_ids@[k2] == t
                    && bitvec_utils::spec_bit_on(post.entity_id_to_has_tag_bitvecs@[k2]@, i);
            if k2 == k && t == tag {
                assert(i != id);
                assert(bitvec_utils::spec_bit_on(pre.entity_id_to_has_tag_bitvecs@[k]@, i));
            } else if k2 != k {
                assert(bitvec_utils::spec_bit_on(pre.entity_id_to_has_tag_bitvecs@[k2]@, i));
            } else {
                assert(pre.tag_ids@[k2] == t && t != tag);
                assert(false);
            }
        }
        if pre.spec_has_tag(t, i) {
            let k2 = choose|k2: int|
                0 <= k2 < pre.tag_ids@.len() && pre.tag_ids@[k2] == t
                    && bitvec_utils::spec_bit_on(pre.entity_id_to_has_tag_bitvecs@[k2]@, i);
            if k2 == k {
                assert(t == tag);
                assert(i != id);
                if i < post.entity_id_to_has_tag_bitvecs@[k]@.len() * 32 {
                    assert(bitvec_utils::spec_bit_on(post.entity_id_to_has_tag_bitvecs@[k]@, i));
                } else {
                    assert(false);
                }
            } else {
                assert(bitvec_utils::spec_bit_on(post.entity_id_to_has_tag_bitvecs@[k2]@, i));
            }
        }
    }
}

/// Growing the bitmaps preserves membership below the old capacity and
/// adds none above it.
proof fn lemma_grow_preserves_tags(pre: TagContainer, post: TagContainer)
    requires
        pre.wf(),
        post.tag_ids@ == pre.tag_ids@,
        pre.entity_capacity <= post.entity_capacity,
        post.entity_id_to_has_tag_bitvecs@.len() == pre.entity_id_to_has_tag_bitvecs@.len(),
        forall|j: int|
            0 <= j < post.tag_ids@.len() ==> (#[trigger] post.entity_id_to_has_tag_bitvecs@[j]@).len()
                == crate::bitvec_utils::spec_word_count(post.entity_capacity as int),
        forall|j: int, i: int|
            #![trigger bitvec_utils::spec_bit_on(post.entity_id_to_has_tag_bitvecs@[j]@, i)]
            0 <= j < post.tag_ids@.len() && 0 <= i < pre.entity_id_to_has_tag_bitvecs@[j]@.len()
                * 32 ==> bitvec_utils::spec_bit_on(
                post.entity_id_to_has_tag_bitvecs@[j]@,
                i,
            ) == bitvec_utils::spec_bit_on(pre.entity_id_to_has_tag_bitvecs@[j]@, i),
        forall|j: int, i: int|
            #![trigger bitvec_utils::spec_bit_on(post.entity_id_to_has_tag_bitvecs@[j]@, i)]
            0 <= j < post.tag_ids@.len() && pre.entity_id_to_has_tag_bitvecs@[j]@.len() * 32 <= i
                < post.entity_id_to_has_tag_bitvecs@[j]@.len() * 32 ==> !bitvec_utils::spec_bit_on(
                post.entity_id_to_has_tag_bitvecs@[j]@,
                i,
            ),
    ensures
        post.wf(),
        forall|t: u64, i: int|
            0 <= i < pre.entity_capacity ==> post.spec_has_tag(t, i) == pre.spec_has_tag(t, i),
        forall|t: u64, i: int| pre.entity_capacity <= i ==> !post.spec_has_tag(t, i),
{
    assert forall|k: int, i: int|
        #![trigger bitvec_utils::spec_bit_on(post.entity_id_to_has_tag_bitvecs@[k]@, i)]
        0 <= k < post.tag_ids@.len() && post.entity_capacity <= i
            < post.entity_id_to_has_tag_bitvecs@[k]@.len() * 32 implies !bitvec_utils::spec_bit_on(
        post.entity_id_to_has_tag_bitvecs@[k]@,
        i,
    ) by {
        if i < pre.entity_id_to_has_tag_bitvecs@[k]@.len() * 32 {
            assert(!bitvec_utils::spec_bit_on(pre.entity_id_to_has_tag_bitvecs@[k]@, i));
        }
    }
    assert forall|t: u64, i: int|
        0 <= i < pre.entity_capacity implies post.spec_has_tag(t, i) == pre.spec_has_tag(t, i) by {
        bitvec_utils::lemma_bit_range(i, pre.entity_capacity as int);
        bitvec_utils::lemma_bit_range(i, post.entity_capacity as int);
        if post.spec_has_tag(t, i) {
            let k2 = choose|k2: int|
                0 <= k2 < post.tag_ids@.len() && post.tag_ids@[k2] == t
                    && bitvec_utils::spec_bit_on(post.entity_id_to_has_tag_bitvecs@[k2]@, i);
            assert(bitvec_utils::spec_bit_on(pre.entity_id_to_has_tag_bitvecs@[k2]@, i));
        }
        if pre.spec_has_tag(t, i) {
            let k2 = choose|k2: int|
                0 <= k2 < pre.tag_ids@.len() && pre.tag_ids@[k2] == t
                    && bitvec_utils::spec_bit_on(pre.entity_id_to_has_tag_bitvecs@[k2]@, i);
            assert(bitvec_utils::spec_bit_on(post.entity_id_to_has_tag_bitvecs@[k2]@, i));
        }
    }
    assert forall|t: u64, i: int|
        pre.entity_capacity <= i implies !post.spec_has_tag(t, i) by {
        if post.spec_has_tag(t, i) {
            bitvec_utils::lemma_bit_range(i, post.entity_capacity as int);
            let k2 = choose|k2: int|
                0 <= k2 < post.tag_ids@.len() && post.tag_ids@[k2] == t
                    && bitvec_utils::spec_bit_on(post.entity_id_to_has_tag_bitvecs@[k2]@, i);
            assert(!bitvec_utils::spec_bit_on(post.entity_id_to_has_tag_bitvecs@[k2]@, i));
        }
    }
}

} // verus!
