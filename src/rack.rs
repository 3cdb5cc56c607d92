use vstd::prelude::*;

use crate::constants::{EMPTY_TILE, RACK_SIZE, is_tile, to_upper};

verus! {

/// Whether bit `i` of a rack mask is set.
pub open spec fn bit_set(mask: u8, i: int) -> bool {
    0 <= i < 8 && (mask >> (i as u8)) & 1u8 == 1u8
}

/// Number of set bits among the first `k` slots of a rack mask.
pub open spec fn count_set(mask: u8, k: int) -> nat
    decreases k,
{
    if k <= 0 {
        0
    } else {
        count_set(mask, k - 1) + if bit_set(mask, k - 1) {
            1nat
        } else {
            0nat
        }
    }
}

proof fn lemma_bit_ops(mask: u8, s: u8, j: u8)
    by (bit_vector)
    requires
        s < 8,
        j < 8,
    ensures
        ((mask | (1u8 << s)) >> j) & 1u8 == 1u8 <==> (((mask >> j) & 1u8 == 1u8) || j == s),
        ((mask & !(1u8 << s)) >> j) & 1u8 == 1u8 <==> (((mask >> j) & 1u8 == 1u8) && j != s),
        (mask & (1u8 << s) != 0u8) <==> ((mask >> s) & 1u8 == 1u8),
{
}

proof fn lemma_toggle(mask: u8, s: u8, j: u8)
    by (bit_vector)
    requires
        s < 8,
        j < 8,
    ensures
        ((mask ^ (1u8 << s)) >> j) & 1u8 == 1u8 <==> (((mask >> j) & 1u8 == 1u8) != (j == s)),
        (mask ^ (1u8 << s)) ^ (1u8 << s) == mask,
{
}

proof fn lemma_zero_mask(j: u8)
    by (bit_vector)
    ensures
        (0u8 >> j) & 1u8 == 0u8,
{
}

/// Counting the slots after one bit is set or cleared.
proof fn lemma_count_change(old_mask: u8, new_mask: u8, s: int, k: int)
    requires
        0 <= s < 8,
        0 <= k <= 8,
        forall|j: int| 0 <= j < 8 && j != s ==> (bit_set(new_mask, j) <==> bit_set(old_mask, j)),
    ensures
        k <= s ==> count_set(new_mask, k) == count_set(old_mask, k),
        k > s && bit_set(new_mask, s) && !bit_set(old_mask, s) ==> count_set(new_mask, k)
            == count_set(old_mask, k) + 1,
        k > s && !bit_set(new_mask, s) && bit_set(old_mask, s) ==> count_set(new_mask, k) + 1
            == count_set(old_mask, k),
    decreases k,
{
    if k > 0 {
        lemma_count_change(old_mask, new_mask, s, k - 1);
    }
}

proof fn lemma_count_positive(mask: u8, s: int, k: int)
    requires
        0 <= s < k,
        bit_set(mask, s),
    ensures
        count_set(mask, k) >= 1,
    decreases k,
{
    if k - 1 > s {
        lemma_count_positive(mask, s, k - 1);
    }
}

proof fn lemma_count_bound(mask: u8, k: int)
    requires
        0 <= k,
    ensures
        count_set(mask, k) <= k,
    decreases k,
{
    if k > 0 {
        lemma_count_bound(mask, k - 1);
    }
}

/// Up to seven tiles, with a mask of the slots that currently hold a tile.
pub struct Rack {
    pub tiles: [char; RACK_SIZE],
    pub len: usize,
    pub used_mask: u8,
}

impl Rack {
    /// Slot `i` holds a tile that can still be played.
    pub open spec fn present(&self, i: int) -> bool {
        0 <= i < RACK_SIZE && bit_set(self.used_mask, i)
    }

    /// The tiles left on the rack: as many as there are present slots, each a
    /// letter or the blank.
    pub open spec fn wf(&self) -> bool {
        &&& self.len == count_set(self.used_mask, RACK_SIZE as int)
        &&& !bit_set(self.used_mask, 7)
        &&& forall|i: int| #[trigger] self.present(i) ==> is_tile(to_upper(self.tiles[i]))
    }

    /// A slot is present exactly when its tile is not the empty sentinel.
    pub fn from_arrays(tiles: [char; RACK_SIZE], len: usize) -> (r: Rack)
        ensures
            r.tiles == tiles,
            r.len == len,
            !bit_set(r.used_mask, 7),
            forall|i: int| 0 <= i < RACK_SIZE ==> (r.present(i) <==> tiles[i] != EMPTY_TILE),
    {
        let mut used_mask: u8 = 0;
        let mut i: usize = 0;
        proof {
            assert forall|j: int| 0 <= j < 8 implies !bit_set(used_mask, j) by {
                lemma_zero_mask(j as u8);
            }
        }
        while i < RACK_SIZE
            invariant
                i <= RACK_SIZE,
                forall|j: int| 0 <= j < 8 ==> (bit_set(used_mask, j) <==> (j < i && tiles[j]
                    != EMPTY_TILE)),
            decreases RACK_SIZE - i,
        {
            if tiles[i] != EMPTY_TILE {
                let ghost prev = used_mask;
                used_mask = used_mask | (1u8 << (i as u8));
                proof {
                    assert forall|j: int| 0 <= j < 8 implies (bit_set(used_mask, j) <==> (bit_set(
                        prev,
                        j,
                    ) || j == i)) by {
                        lemma_bit_ops(prev, i as u8, j as u8);
                    }
                }
            }
            i += 1;
        }
        Rack { tiles, len, used_mask }
    }

    pub fn is_empty(&self) -> (r: bool)
        ensures
            r == (self.len == 0),
    {
        self.len == 0
    }

    pub fn is_index_used(&self, idx: usize) -> (r: bool)
        requires
            idx < RACK_SIZE,
        ensures
            r == self.present(idx as int),
    {
        proof {
            lemma_bit_ops(self.used_mask, idx as u8, idx as u8);
        }
        (self.used_mask & (1u8 << (idx as u8))) != 0
    }

    /// The rack with slot `idx` toggled back and one tile more: what
    /// `unmark_used` makes of it.
    pub open spec fn unmarked(&self, idx: int) -> Rack {
        Rack {
            tiles: self.tiles,
            len: (self.len + 1) as usize,
            used_mask: self.used_mask ^ (1u8 << (idx as u8)),
        }
    }

    /// Marks the slot's tile as used and counts one tile fewer: the slot's
    /// bit is toggled, so the tile of a present slot leaves the rack, and
    /// `unmark_used` on the same slot undoes it exactly.
    pub fn mark_used(&mut self, idx: usize)
        requires
            idx < RACK_SIZE,
            old(self).len > 0,
        ensures
            final(self).tiles == old(self).tiles,
            final(self).len == old(self).len - 1,
            final(self).used_mask == old(self).used_mask ^ (1u8 << (idx as u8)),
            forall|j: int|
                0 <= j < 8 ==> (bit_set(final(self).used_mask, j) <==> (bit_set(
                    old(self).used_mask,
                    j,
                ) != (j == idx))),
            final(self).unmarked(idx as int) == *old(self),
            old(self).wf() && old(self).present(idx as int) ==> {
                &&& final(self).wf()
                &&& !final(self).present(idx as int)
                &&& forall|j: int|
                    0 <= j < RACK_SIZE && j != idx ==> (final(self).present(j) <==> old(
                        self,
                    ).present(j))
            },
    {
        let ghost prev = *self;
        self.used_mask = self.used_mask ^ (1u8 << (idx as u8));
        self.len -= 1;
        proof {
            assert forall|j: int| 0 <= j < 8 implies (bit_set(self.used_mask, j) <==> (bit_set(
                prev.used_mask,
                j,
            ) != (j == idx))) by {
                lemma_toggle(prev.used_mask, idx as u8, j as u8);
            }
            lemma_toggle(prev.used_mask, idx as u8, 0);
            if prev.wf() && prev.present(idx as int) {
                lemma_count_change(prev.used_mask, self.used_mask, idx as int, RACK_SIZE as int);
                assert forall|i: int| #[trigger] self.present(i) implies is_tile(
                    to_upper(self.tiles[i]),
                ) by {
                    assert(prev.present(i));
                }
            }
        }
    }

    /// Toggles the slot's bit back and counts one tile more.
    pub fn unmark_used(&mut self, idx: usize)
        requires
            idx < RACK_SIZE,
            old(self).len < usize::MAX,
        ensures
            *final(self) == old(self).unmarked(idx as int),
    {
        self.used_mask = self.used_mask ^ (1u8 << (idx as u8));
        self.len += 1;
    }

    /// The present slots with their tiles, in ascending slot order.
    pub fn available_tiles(&self) -> (r: Vec<(usize, char)>)
        ensures
            forall|k: int|
                0 <= k < r@.len() ==> {
                    &&& (#[trigger] r@[k]).0 < RACK_SIZE
                    &&& self.present(r@[k].0 as int)
                    &&& r@[k].1 == self.tiles[r@[k].0 as int]
                },
            forall|k1: int, k2: int| 0 <= k1 < k2 < r@.len() ==> r@[k1].0 < r@[k2].0,
            forall|i: int|
                0 <= i < RACK_SIZE && #[trigger] self.present(i) ==> exists|k: int|
                    0 <= k < r@.len() && r@[k].0 == i,
    {
        let mut r: Vec<(usize, char)> = Vec::new();
        let mut i: usize = 0;
        while i < RACK_SIZE
            invariant
                i <= RACK_SIZE,
                forall|k: int|
                    0 <= k < r@.len() ==> {
                        &&& (#[trigger] r@[k]).0 < i
                        &&& self.present(r@[k].0 as int)
                        &&& r@[k].1 == self.tiles[r@[k].0 as int]
                    },
                forall|k1: int, k2: int| 0 <= k1 < k2 < r@.len() ==> r@[k1].0 < r@[k2].0,
                forall|j: int|
                    0 <= j < i && #[trigger] self.present(j) ==> exists|k: int|
                        0 <= k < r@.len() && r@[k].0 == j,
            decreases RACK_SIZE - i,
        {
            if self.is_index_used(i) {
                let ghost before = r@;
                r.push((i, self.tiles[i]));
                assert(r@[r@.len() - 1].0 == i);
                assert forall|j: int| 0 <= j < i && #[trigger] self.present(j) implies exists|k: int|
                    0 <= k < r@.len() && r@[k].0 == j by {
                    let k = choose|k: int| 0 <= k < before.len() && before[k].0 == j;
                    assert(r@[k] == before[k]);
                }
            }
            i += 1;
        }
        r
    }
}

/// A present slot is counted in the rack's length.
pub proof fn lemma_present_counted(rack: Rack, idx: int)
    requires
        rack.wf(),
        rack.present(idx),
    ensures
        rack.len >= 1,
{
    lemma_count_positive(rack.used_mask, idx, RACK_SIZE as int);
}

/// Marking a slot used and then unmarking it gives back the rack it started
/// from, whatever the slot held.
pub proof fn lemma_mark_unmark_inverse(rack: Rack, idx: int)
    requires
        0 <= idx < RACK_SIZE,
        rack.len > 0,
    ensures
        (Rack {
            tiles: rack.tiles,
            len: (rack.len - 1) as usize,
            used_mask: rack.used_mask ^ (1u8 << (idx as u8)),
        }).unmarked(idx) == rack,
{
    lemma_toggle(rack.used_mask, idx as u8, 0);
}

pub proof fn lemma_len_bound(rack: Rack)
    requires
        rack.wf(),
    ensures
        rack.len <= RACK_SIZE,
{
    lemma_count_bound(rack.used_mask, RACK_SIZE as int);
}

} // verus!
