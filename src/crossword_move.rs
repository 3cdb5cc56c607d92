use vstd::prelude::*;

use crate::constants::{BoardPosition, RACK_SIZE};

verus! {

/// The tiles a move places, each with its board position and the rack slot
/// that supplied it, in the order they were placed; only the first `len`
/// entries count. A tile played from a blank slot is recorded as the letter
/// it stands for; its slot shows that it came from a blank.
pub struct CrosswordMove {
    tiles: [char; RACK_SIZE],
    positions: [BoardPosition; RACK_SIZE],
    slots: [usize; RACK_SIZE],
    len: u8,
}

/// Two lists of placements hold the same `(tile, position)` pairs, each as
/// many times: they are equal as multisets.
pub open spec fn same_pairs(a: Seq<(char, BoardPosition)>, b: Seq<(char, BoardPosition)>) -> bool {
    a.to_multiset() == b.to_multiset()
}

/// Number of times `x` occurs among the first `k` entries of `s`.
pub open spec fn occurrences(s: Seq<(char, BoardPosition)>, x: (char, BoardPosition), k: int) -> nat
    decreases k,
{
    if k <= 0 {
        0
    } else {
        occurrences(s, x, k - 1) + if s[k - 1] == x {
            1nat
        } else {
            0nat
        }
    }
}

proof fn lemma_occurrences(s: Seq<(char, BoardPosition)>, x: (char, BoardPosition), k: int)
    requires
        0 <= k <= s.len(),
    ensures
        s.subrange(0, k).to_multiset().count(x) == occurrences(s, x, k),
    decreases k,
{
    broadcast use vstd::seq_lib::group_to_multiset_ensures;
    if k == 0 {
        assert(s.subrange(0, 0) =~= Seq::<(char, BoardPosition)>::empty());
    } else {
        lemma_occurrences(s, x, k - 1);
        assert(s.subrange(0, k) =~= s.subrange(0, k - 1).push(s[k - 1]));
    }
}

/// Lists equal as multisets hold each entry equally often.
proof fn lemma_counts_of_same(a: Seq<(char, BoardPosition)>, b: Seq<(char, BoardPosition)>, x: (char, BoardPosition))
    ensures
        same_pairs(a, b) ==> occurrences(a, x, a.len() as int) == occurrences(b, x, b.len() as int),
{
    assert(a.subrange(0, a.len() as int) =~= a);
    assert(b.subrange(0, b.len() as int) =~= b);
    lemma_occurrences(a, x, a.len() as int);
    lemma_occurrences(b, x, b.len() as int);
}

/// Multisets of two lists agree when every entry of either occurs equally
/// often in both.
proof fn lemma_same_pairs_by_counts(a: Seq<(char, BoardPosition)>, b: Seq<(char, BoardPosition)>)
    ensures
        same_pairs(a, b) <==> (forall|i: int|
            0 <= i < a.len() ==> occurrences(a, #[trigger] a[i], a.len() as int) == occurrences(
                b,
                a[i],
                b.len() as int,
            )) && (forall|j: int|
            0 <= j < b.len() ==> occurrences(b, #[trigger] b[j], b.len() as int) == occurrences(
                a,
                b[j],
                a.len() as int,
            )),
{
    broadcast use vstd::seq_lib::group_to_multiset_ensures;
    assert(a.subrange(0, a.len() as int) =~= a);
    assert(b.subrange(0, b.len() as int) =~= b);
    assert forall|x: (char, BoardPosition)| a.to_multiset().count(x) == occurrences(a, x, a.len() as int)
        && b.to_multiset().count(x) == occurrences(b, x, b.len() as int) by {
        lemma_occurrences(a, x, a.len() as int);
        lemma_occurrences(b, x, b.len() as int);
    }
    if (forall|i: int|
        0 <= i < a.len() ==> occurrences(a, #[trigger] a[i], a.len() as int) == occurrences(
            b,
            a[i],
            b.len() as int,
        )) && (forall|j: int|
        0 <= j < b.len() ==> occurrences(b, #[trigger] b[j], b.len() as int) == occurrences(
            a,
            b[j],
            a.len() as int,
        )) {
        assert forall|x: (char, BoardPosition)| a.to_multiset().count(x) == b.to_multiset().count(x) by {
            if a.contains(x) {
                let i = choose|i: int| 0 <= i < a.len() && a[i] == x;
            } else if b.contains(x) {
                let j = choose|j: int| 0 <= j < b.len() && b[j] == x;
            } else {
                assert(a.to_multiset().count(x) == 0);
                assert(b.to_multiset().count(x) == 0);
            }
        }
        assert(a.to_multiset() =~= b.to_multiset());
    }
    if same_pairs(a, b) {
        assert forall|i: int| 0 <= i < a.len() implies occurrences(a, #[trigger] a[i], a.len() as int)
            == occurrences(b, a[i], b.len() as int) by {
            assert(a.to_multiset().count(a[i]) == b.to_multiset().count(a[i]));
        }
        assert forall|j: int| 0 <= j < b.len() implies occurrences(b, #[trigger] b[j], b.len() as int)
            == occurrences(a, b[j], a.len() as int) by {
            assert(a.to_multiset().count(b[j]) == b.to_multiset().count(b[j]));
        }
    }
}

impl CrosswordMove {
    /// The placements of the move, in the order they were made.
    pub closed spec fn placements(&self) -> Seq<(char, BoardPosition)> {
        Seq::new(self.len as nat, |i: int| (self.tiles[i], self.positions[i]))
    }

    pub closed spec fn wf(&self) -> bool {
        self.len <= RACK_SIZE
    }

    /// The rack slot that supplied each placement, in order.
    pub closed spec fn slots_used(&self) -> Seq<usize> {
        Seq::new(self.len as nat, |i: int| self.slots[i])
    }

    /// A move given by its placements alone; no slot is recorded (every slot
    /// entry is `RACK_SIZE`, which names no slot).
    pub fn from_arrays(
        tiles: [char; RACK_SIZE],
        positions: [BoardPosition; RACK_SIZE],
        len: u8,
    ) -> (r: CrosswordMove)
        requires
            len <= RACK_SIZE,
        ensures
            r.wf(),
            r.placements() == Seq::new(len as nat, |i: int| (tiles[i], positions[i])),
            r.slots_used() == Seq::new(len as nat, |i: int| RACK_SIZE),
    {
        let r = CrosswordMove { tiles, positions, slots: [RACK_SIZE; RACK_SIZE], len };
        assert(r.slots_used() =~= Seq::new(len as nat, |i: int| RACK_SIZE));
        r
    }

    /// A move made from the rack: placements with the slot of each.
    pub fn from_rack(
        tiles: [char; RACK_SIZE],
        positions: [BoardPosition; RACK_SIZE],
        slots: [usize; RACK_SIZE],
        len: u8,
    ) -> (r: CrosswordMove)
        requires
            len <= RACK_SIZE,
        ensures
            r.wf(),
            r.placements() == Seq::new(len as nat, |i: int| (tiles[i], positions[i])),
            r.slots_used() == Seq::new(len as nat, |i: int| slots[i]),
    {
        CrosswordMove { tiles, positions, slots, len }
    }

    /// The rack slot that supplied the `i`-th placement.
    pub fn slot(&self, i: usize) -> (r: usize)
        requires
            self.wf(),
            i < self.placements().len(),
        ensures
            r == self.slots_used()[i as int],
    {
        self.slots[i]
    }

    /// Number of tiles the move places.
    pub fn len(&self) -> (r: usize)
        ensures
            r == self.placements().len(),
    {
        self.len as usize
    }

    /// The `i`-th placement.
    pub fn placement(&self, i: usize) -> (r: (char, BoardPosition))
        requires
            self.wf(),
            i < self.placements().len(),
        ensures
            r == self.placements()[i as int],
    {
        (self.tiles[i], self.positions[i])
    }

    pub fn iter(&self) -> (r: MoveIterator<'_>)
        requires
            self.wf(),
        ensures
            r.wf(),
            r.remaining() == self.placements(),
    {
        MoveIterator { move_ref: self, index: 0 }
    }

    /// Whether the two moves place the same `(tile, position)` pairs, each
    /// as many times.
    pub fn same_placements(&self, other: &CrosswordMove) -> (r: bool)
        requires
            self.wf(),
            other.wf(),
        ensures
            r == same_pairs(self.placements(), other.placements()),
    {
        let ghost a = self.placements();
        let ghost b = other.placements();
        proof {
            lemma_same_pairs_by_counts(a, b);
        }
        let n = self.len();
        let mut i: usize = 0;
        while i < n
            invariant
                n == a.len(),
                self.wf(),
                other.wf(),
                i <= n,
                a == self.placements(),
                b == other.placements(),
                forall|k: int|
                    0 <= k < i ==> occurrences(a, #[trigger] a[k], a.len() as int) == occurrences(
                        b,
                        a[k],
                        b.len() as int,
                    ),
            decreases n - i,
        {
            let p = self.placement(i);
            if count_pair(self, p) != count_pair(other, p) {
                proof {
                    assert(occurrences(a, a[i as int], a.len() as int) != occurrences(
                        b,
                        a[i as int],
                        b.len() as int,
                    ));
                    lemma_counts_of_same(a, b, a[i as int]);
                }
                return false;
            }
            i += 1;
        }
        let m = other.len();
        let mut j: usize = 0;
        while j < m
            invariant
                n == a.len(),
                m == b.len(),
                self.wf(),
                other.wf(),
                j <= m,
                a == self.placements(),
                b == other.placements(),
                forall|k: int|
                    0 <= k < a.len() ==> occurrences(a, #[trigger] a[k], a.len() as int) == occurrences(
                        b,
                        a[k],
                        b.len() as int,
                    ),
                forall|k: int|
                    0 <= k < j ==> occurrences(b, #[trigger] b[k], b.len() as int) == occurrences(
                        a,
                        b[k],
                        a.len() as int,
                    ),
            decreases m - j,
        {
            let p = other.placement(j);
            if count_pair(other, p) != count_pair(self, p) {
                proof {
                    assert(occurrences(b, b[j as int], b.len() as int) != occurrences(
                        a,
                        b[j as int],
                        a.len() as int,
                    ));
                    lemma_counts_of_same(a, b, b[j as int]);
                }
                return false;
            }
            j += 1;
        }
        true
    }
}

/// Number of times `p` occurs among the placements of `m`.
fn count_pair(m: &CrosswordMove, p: (char, BoardPosition)) -> (r: usize)
    requires
        m.wf(),
    ensures
        r == occurrences(m.placements(), p, m.placements().len() as int),
{
    let n = m.len();
    let mut j: usize = 0;
    let mut count: usize = 0;
    while j < n
        invariant
            m.wf(),
            n == m.placements().len(),
            n <= RACK_SIZE,
            j <= n,
            count == occurrences(m.placements(), p, j as int),
            count <= j,
        decreases n - j,
    {
        let q = m.placement(j);
        if q.0 == p.0 && q.1 == p.1 {
            count += 1;
        }
        j += 1;
    }
    count
}

/// Walks the placements of a move.
pub struct MoveIterator<'a> {
    move_ref: &'a CrosswordMove,
    index: usize,
}

impl<'a> MoveIterator<'a> {
    /// The placements not yet handed out.
    pub closed spec fn remaining(&self) -> Seq<(char, BoardPosition)> {
        let all = self.move_ref.placements();
        all.subrange(if self.index <= all.len() { self.index as int } else { all.len() as int }, all.len() as int)
    }

    pub closed spec fn wf(&self) -> bool {
        self.move_ref.wf()
    }

    pub fn next(&mut self) -> (r: Option<(char, BoardPosition)>)
        requires
            old(self).wf(),
        ensures
            old(self).remaining().len() == 0 ==> r is None && final(self).remaining().len() == 0,
            old(self).remaining().len() > 0 ==> r == Some(old(self).remaining()[0])
                && final(self).remaining() == old(self).remaining().drop_first(),
            final(self).wf(),
    {
        if self.index < self.move_ref.len() {
            let item = self.move_ref.placement(self.index);
            self.index += 1;
            Some(item)
        } else {
            None
        }
    }
}

} // verus!
