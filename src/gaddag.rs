use vstd::prelude::*;

use crate::constants::{PIVOT, PIVOT_BIT_IDX, TileBitboard, get_index, is_tile, tile_index, to_upper};

verus! {

/// A trie holding, for every word of a dictionary and every split of it, the
/// letters before the split reversed, a pivot, and the letters after it.
pub struct Gaddag {
    root: GaddagNode,
}

/// The paths stored for a list of words; empty words store none.
pub open spec fn stored_path(words: Seq<Seq<char>>, p: Seq<int>) -> bool {
    exists|k: int, i: int|
        0 <= k < words.len() && words[k].len() > 0 && 0 <= i <= words[k].len() && p == edges(
            #[trigger] split_path(words[k], i),
        )
}

/// `p` leads to a node of the trie of the list: it is empty or a prefix of a
/// stored path.
pub open spec fn stored_prefix(words: Seq<Seq<char>>, p: Seq<int>) -> bool {
    p.len() == 0 || exists|k: int, i: int|
        0 <= k < words.len() && words[k].len() > 0 && 0 <= i <= words[k].len() && is_prefix(
            p,
            edges(#[trigger] split_path(words[k], i)),
        )
}

/// The word is, up to letter case, one of the non-empty words of the list.
pub open spec fn listed(words: Seq<Seq<char>>, w: Seq<char>) -> bool {
    exists|k: int| 0 <= k < words.len() && words[k].len() > 0 && #[trigger] edges(words[k]) == edges(w)
}

pub open spec fn views(words: Seq<String>) -> Seq<Seq<char>> {
    words.map_values(|s: String| s@)
}

impl Gaddag {
    pub closed spec fn root_node(&self) -> GaddagNode {
        self.root
    }

    /// The trie is well formed, and whenever it stores some split of a word
    /// it recognises the whole word.
    pub open spec fn wf(&self) -> bool {
        &&& self.root_node().wf()
        &&& forall|w: Seq<char>, i: int|
            all_tiles(w) && 0 <= i <= w.len() && #[trigger] self.root_node().accepts(
                edges(split_path(w, i)),
            ) ==> self.holds_word(w)
    }

    /// The trie recognises the word: the word reversed, then the pivot, leads
    /// to a node marked as a word.
    pub open spec fn holds_word(&self, w: Seq<char>) -> bool {
        self.root_node().accepts(edges(lookup_path(w)))
    }

    /// Builds the trie of the list; empty strings are skipped.
    pub fn from_wordlist(words: &Vec<String>) -> (r: Gaddag)
        requires
            forall|k: int| 0 <= k < words@.len() ==> all_tiles(#[trigger] words@[k]@),
        ensures
            r.wf(),
            forall|p: Seq<int>| #[trigger] r.root_node().accepts(p) <==> stored_path(views(words@), p),
            forall|p: Seq<int>|
                (#[trigger] r.root_node().follow(p) is Some) <==> stored_prefix(views(words@), p),
            forall|w: Seq<char>| all_tiles(w) ==> (#[trigger] r.holds_word(w) <==> listed(views(words@), w)),
    {
        let mut gaddag = Gaddag { root: GaddagNode::new() };
        let ghost ws = views(words@);
        proof {
            assert forall|p: Seq<int>|
                (#[trigger] gaddag.root.follow(p) is Some) <==> stored_prefix(ws.subrange(0, 0), p) by {
            }
        }
        let mut k: usize = 0;
        while k < words.len()
            invariant
                k <= words@.len(),
                ws == views(words@),
                ws.len() == words@.len(),
                forall|j: int| 0 <= j < words@.len() ==> all_tiles(#[trigger] words@[j]@),
                gaddag.root.wf(),
                forall|p: Seq<int>| #[trigger] gaddag.root.accepts(p) <==> stored_path(ws.subrange(0, k as int), p),
                forall|p: Seq<int>|
                    (#[trigger] gaddag.root.follow(p) is Some) <==> stored_prefix(ws.subrange(0, k as int), p),
            decreases words@.len() - k,
        {
            let word = &words[k];
            let len = word.as_str().unicode_len();
            if len > 0 {
                gaddag.root.insert_gaddag(word);
            }
            proof {
                assert(ws[k as int] == words@[k as int]@);
                assert forall|p: Seq<int>| #[trigger] gaddag.root.accepts(p) <==> stored_path(ws.subrange(0, k + 1), p) by {
                    let prev = ws.subrange(0, k as int);
                    let next = ws.subrange(0, k + 1);
                    if stored_path(prev, p) {
                        let (a, i) = choose|a: int, i: int|
                            0 <= a < prev.len() && prev[a].len() > 0 && 0 <= i <= prev[a].len() && p == edges(
                                #[trigger] split_path(prev[a], i),
                            );
                        assert(next[a] == prev[a]);
                    }
                    if stored_path(next, p) {
                        let (a, i) = choose|a: int, i: int|
                            0 <= a < next.len() && next[a].len() > 0 && 0 <= i <= next[a].len() && p == edges(
                                #[trigger] split_path(next[a], i),
                            );
                        if a < k {
                            assert(prev[a] == next[a]);
                        } else {
                            assert(next[a] == ws[k as int]);
                        }
                    }
                    if len > 0 && exists|i: int| 0 <= i <= ws[k as int].len() && p == edges(#[trigger] split_path(ws[k as int], i)) {
                        let i = choose|i: int| 0 <= i <= ws[k as int].len() && p == edges(#[trigger] split_path(ws[k as int], i));
                        assert(next[k as int] == ws[k as int]);
                    }
                }
                assert forall|p: Seq<int>|
                    (#[trigger] gaddag.root.follow(p) is Some) <==> stored_prefix(ws.subrange(0, k + 1), p) by {
                    let prev = ws.subrange(0, k as int);
                    let next = ws.subrange(0, k + 1);
                    if p.len() > 0 {
                        if stored_prefix(prev, p) {
                            let (a, i) = choose|a: int, i: int|
                                0 <= a < prev.len() && prev[a].len() > 0 && 0 <= i <= prev[a].len() && is_prefix(
                                    p,
                                    edges(#[trigger] split_path(prev[a], i)),
                                );
                            assert(next[a] == prev[a]);
                        }
                        if stored_prefix(next, p) {
                            let (a, i) = choose|a: int, i: int|
                                0 <= a < next.len() && next[a].len() > 0 && 0 <= i <= next[a].len() && is_prefix(
                                    p,
                                    edges(#[trigger] split_path(next[a], i)),
                                );
                            if a < k {
                                assert(prev[a] == next[a]);
                            } else {
                                assert(next[a] == ws[k as int]);
                            }
                        }
                        if len > 0 && exists|i: int| 0 <= i <= ws[k as int].len() && is_prefix(p, edges(#[trigger] split_path(ws[k as int], i))) {
                            let i = choose|i: int| 0 <= i <= ws[k as int].len() && is_prefix(p, edges(#[trigger] split_path(ws[k as int], i)));
                            assert(next[k as int] == ws[k as int]);
                        }
                    } else {
                        lemma_follow_empty_path(gaddag.root);
                    }
                }
            }
            k += 1;
        }
        proof {
            assert(ws.subrange(0, k as int) =~= ws);
            assert forall|p: Seq<int>|
                (#[trigger] gaddag.root_node().follow(p) is Some) <==> stored_prefix(ws, p) by {
                assert(gaddag.root_node() == gaddag.root);
            }
            assert forall|w: Seq<char>| all_tiles(w) implies (#[trigger] gaddag.holds_word(w) <==> listed(ws, w)) by {
                lemma_trie_recognises_its_words(ws, gaddag, w);
            }
            assert forall|w: Seq<char>, i: int|
                all_tiles(w) && 0 <= i <= w.len() && #[trigger] gaddag.root_node().accepts(
                    edges(split_path(w, i)),
                ) implies gaddag.holds_word(w) by {
                lemma_split_lookup(ws, w, i);
                lemma_word_lookup(ws, w);
            }
        }
        gaddag
    }

    pub fn get_root(&self) -> (r: &GaddagNode)
        ensures
            *r == self.root_node(),
    {
        &self.root
    }

    /// Walks the word reversed and then the pivot from the root.
    pub fn is_word(&self, word: &str) -> (r: bool)
        requires
            self.wf(),
            all_tiles(word@),
        ensures
            r == self.holds_word(word@),
    {
        let chars = chars_of(word);
        self.is_word_chars(chars.as_slice())
    }

    /// `is_word` on a word given as its characters.
    pub fn is_word_chars(&self, word: &[char]) -> (r: bool)
        requires
            self.wf(),
            all_tiles(word@),
        ensures
            r == self.holds_word(word@),
    {
        let n = word.len();
        let mut node: &GaddagNode = &self.root;
        let mut i: usize = n;
        proof {
            assert(word@.subrange(n as int, n as int).reverse() =~= Seq::<char>::empty());
            assert(edges(Seq::<char>::empty()) =~= Seq::<int>::empty());
        }
        while i > 0
            invariant
                n == word@.len(),
                i <= n,
                all_tiles(word@),
                node.wf(),
                self.root.follow(edges(word@.subrange(i as int, n as int).reverse())) == Some(*node),
            decreases i,
        {
            let c = word[i - 1];
            let ghost walked = edges(word@.subrange(i as int, n as int).reverse());
            proof {
                assert(is_tile(to_upper(word@[i - 1])));
                assert(edges(word@.subrange(i - 1, n as int).reverse()) =~= walked.push(edge(c)));
                lemma_follow_concat(self.root, walked, seq![edge(c)]);
                assert(walked + seq![edge(c)] =~= walked.push(edge(c)));
                assert(seq![edge(c)].drop_first() =~= Seq::<int>::empty());
            }
            match node.get_child(c) {
                Some(child) => {
                    proof {
                        assert(node.follow(seq![edge(c)]) == child.follow(Seq::<int>::empty()));
                    }
                    node = child;
                },
                None => {
                    proof {
                        assert(edges(lookup_path(word@)) =~= edges(word@.subrange(i - 1, n as int).reverse()) + edges(lookup_path(word@)).subrange(n - i + 1, n + 1));
                        lemma_follow_concat(self.root, edges(word@.subrange(i - 1, n as int).reverse()), edges(lookup_path(word@)).subrange(n - i + 1, n + 1));
                    }
                    return false;
                },
            }
            i -= 1;
        }
        proof {
            assert(word@.subrange(0, n as int) =~= word@);
            assert(edges(lookup_path(word@)) =~= edges(word@.reverse()).push(edge(PIVOT)));
            lemma_follow_concat(self.root, edges(word@.reverse()), seq![edge(PIVOT)]);
            assert(edges(word@.reverse()) + seq![edge(PIVOT)] =~= edges(word@.reverse()).push(edge(PIVOT)));
            assert(seq![edge(PIVOT)].drop_first() =~= Seq::<int>::empty());
        }
        match node.get_child(PIVOT) {
            Some(child) => {
                proof {
                    assert(node.follow(seq![edge(PIVOT)]) == child.follow(Seq::<int>::empty()));
                }
                child.is_word()
            },
            None => false,
        }
    }
}

/// The characters of a string, in order.
fn chars_of(s: &str) -> (r: Vec<char>)
    ensures
        r@ == s@,
{
    let n = s.unicode_len();
    let mut chars: Vec<char> = Vec::new();
    let mut j: usize = 0;
    while j < n
        invariant
            n == s@.len(),
            j <= n,
            chars@ == s@.subrange(0, j as int),
        decreases n - j,
    {
        chars.push(s.get_char(j));
        j += 1;
        assert(chars@ =~= s@.subrange(0, j as int));
    }
    assert(chars@ =~= s@);
    chars
}

/// A trie that stores exactly the split paths of a list of words recognises
/// a word exactly when it is, up to case, a non-empty word of the list: the
/// word inserted is found, and a word not inserted is not.
pub proof fn lemma_trie_recognises_its_words(words: Seq<Seq<char>>, g: Gaddag, w: Seq<char>)
    requires
        forall|k: int| 0 <= k < words.len() ==> all_tiles(#[trigger] words[k]),
        all_tiles(w),
        forall|p: Seq<int>| #[trigger] g.root_node().accepts(p) <==> stored_path(words, p),
    ensures
        g.holds_word(w) <==> listed(words, w),
{
    lemma_word_lookup(words, w);
}

/// Following `p + q` is following `p`, then `q` from where `p` ends.
proof fn lemma_follow_concat(n: GaddagNode, p: Seq<int>, q: Seq<int>)
    ensures
        n.follow(p + q) == match n.follow(p) {
            Some(m) => m.follow(q),
            None => None,
        },
    decreases p.len(),
{
    if p.len() > 0 {
        assert((p + q).drop_first() =~= p.drop_first() + q);
        assert((p + q)[0] == p[0]);
        match n.child(p[0]) {
            Some(c) => lemma_follow_concat(c, p.drop_first(), q),
            None => {},
        }
    } else {
        assert(p + q =~= q);
    }
}

/// A stored path that is a split of a word belongs to that word, up to case.
proof fn lemma_split_lookup(words: Seq<Seq<char>>, w: Seq<char>, i: int)
    requires
        forall|k: int| 0 <= k < words.len() ==> all_tiles(#[trigger] words[k]),
        all_tiles(w),
        0 <= i <= w.len(),
        stored_path(words, edges(split_path(w, i))),
    ensures
        listed(words, w),
{
    let target = edges(split_path(w, i));
    let (k, j) = choose|k: int, j: int|
        0 <= k < words.len() && words[k].len() > 0 && 0 <= j <= words[k].len() && target == edges(
            #[trigger] split_path(words[k], j),
        );
    let v = words[k];
    let sv = split_path(v, j);
    let sw = split_path(w, i);
    assert(sv.len() == v.len() + 1);
    assert(sw.len() == w.len() + 1);
    assert(edges(sv).len() == sv.len());
    assert(edges(sw).len() == sw.len());
    assert(v.len() == w.len());
    assert(sv[j] == PIVOT);
    assert(sw[i] == PIVOT);
    if j < i {
        assert(sw[j] == w[i - 1 - j]);
        lemma_tile_edge(w[i - 1 - j]);
        assert(edges(sw)[j] == edges(sv)[j]);
        assert(false);
    }
    if i < j {
        assert(sv[i] == v[j - 1 - i]);
        lemma_tile_edge(v[j - 1 - i]);
        assert(edges(sw)[i] == edges(sv)[i]);
        assert(false);
    }
    assert(i == j);
    assert forall|m: int| 0 <= m < w.len() implies edges(v)[m] == edges(w)[m] by {
        if m < i {
            let t = i - 1 - m;
            assert(sv[t] == v[m]);
            assert(sw[t] == w[m]);
            assert(edges(sv)[t] == edges(sw)[t]);
        } else {
            let t = m + 1;
            assert(sv[t] == v[m]);
            assert(sw[t] == w[m]);
            assert(edges(sv)[t] == edges(sw)[t]);
        }
    }
    assert(edges(v) =~= edges(w));
}

proof fn lemma_follow_empty_path(n: GaddagNode)
    ensures
        n.follow(Seq::<int>::empty()) == Some(n),
{
}

/// The empty path leads to the node itself.
pub proof fn lemma_follow_empty(n: GaddagNode)
    ensures
        n.follow(edges(Seq::<char>::empty())) == Some(n),
{
    assert(edges(Seq::<char>::empty()) =~= Seq::<int>::empty());
}

/// Following one more edge from where a path ends.
pub proof fn lemma_follow_push(root: GaddagNode, p: Seq<char>, c: char, from: GaddagNode, to: GaddagNode)
    requires
        root.follow(edges(p)) == Some(from),
        from.child(edge(c)) == Some(to),
    ensures
        root.follow(edges(p.push(c))) == Some(to),
{
    assert(edges(p.push(c)) =~= edges(p) + seq![edge(c)]);
    lemma_follow_concat(root, edges(p), seq![edge(c)]);
    assert(seq![edge(c)].drop_first() =~= Seq::<int>::empty());
    assert(from.follow(seq![edge(c)]) == to.follow(Seq::<int>::empty()));
}

proof fn lemma_tile_edge(c: char)
    requires
        is_tile(to_upper(c)),
    ensures
        0 <= edge(c) < PIVOT_BIT_IDX,
{
}

/// A stored path is the lookup path of a word exactly when the split is at
/// the end and the word is, up to case, that word.
proof fn lemma_word_lookup(words: Seq<Seq<char>>, w: Seq<char>)
    requires
        forall|k: int| 0 <= k < words.len() ==> all_tiles(#[trigger] words[k]),
        all_tiles(w),
    ensures
        stored_path(words, edges(lookup_path(w))) <==> listed(words, w),
{
    let target = edges(lookup_path(w));
    if listed(words, w) {
        let k = choose|k: int| 0 <= k < words.len() && words[k].len() > 0 && #[trigger] edges(words[k]) == edges(w);
        let v = words[k];
        assert(v.len() == w.len()) by {
            assert(edges(v).len() == v.len());
        }
        let sp = split_path(v, v.len() as int);
        assert(edges(sp) =~= target) by {
            assert forall|j: int| 0 <= j < w.len() implies edges(sp)[j] == target[j] by {
                assert(edges(v)[w.len() - 1 - j] == edges(w)[w.len() - 1 - j]);
            }
        }
        assert(stored_path(words, target));
    }
    if stored_path(words, target) {
        let (k, i) = choose|k: int, i: int|
            0 <= k < words.len() && words[k].len() > 0 && 0 <= i <= words[k].len() && target == edges(
                #[trigger] split_path(words[k], i),
            );
        let v = words[k];
        let sp = split_path(v, i);
        assert(sp.len() == v.len() + 1);
        assert(target.len() == w.len() + 1);
        assert(sp[i] == PIVOT);
        assert(edges(sp)[i] == PIVOT_BIT_IDX);
        if i < w.len() {
            lemma_tile_edge(w[w.len() - 1 - i]);
            assert(target[i] == edge(w[w.len() - 1 - i]));
            assert(false);
        }
        assert(i == v.len());
        assert forall|m: int| 0 <= m < w.len() implies edges(v)[m] == edges(w)[m] by {
            let j = w.len() - 1 - m;
            assert(target[j] == edge(w[m]));
            assert(edges(sp)[j] == edge(v[m]));
        }
        assert(edges(v) =~= edges(w));
    }
}

/// Whether bit `k` of a child mask is set.
pub open spec fn has_bit(mask: TileBitboard, k: int) -> bool {
    0 <= k < 32 && (mask >> (k as u32)) & 1u32 == 1u32
}

/// Number of set bits of `mask` below bit `k`: the place of child `k` among
/// the packed children.
pub open spec fn rank(mask: TileBitboard, k: int) -> nat
    decreases k,
{
    if k <= 0 {
        0
    } else {
        rank(mask, k - 1) + if has_bit(mask, k - 1) {
            1nat
        } else {
            0nat
        }
    }
}

/// Number of edge labels: 27 tiles and the pivot.
pub open spec fn num_edges() -> int {
    PIVOT_BIT_IDX + 1
}

/// A character that can label an edge: a tile, in either case, or the pivot.
pub open spec fn is_edge_char(c: char) -> bool {
    c == PIVOT || is_tile(to_upper(c))
}

/// The edge label of a character.
pub open spec fn edge(c: char) -> int {
    if c == PIVOT {
        PIVOT_BIT_IDX as int
    } else {
        tile_index(to_upper(c))
    }
}

pub open spec fn edges(s: Seq<char>) -> Seq<int> {
    s.map_values(|c: char| edge(c))
}

/// The path stored for `word` split before its `i`-th letter: the letters
/// before the split reversed, the pivot, then the rest.
pub open spec fn split_path(word: Seq<char>, i: int) -> Seq<char> {
    word.subrange(0, i).reverse() + seq![PIVOT] + word.subrange(i, word.len() as int)
}

/// `p` is a prefix of `q`.
pub open spec fn is_prefix(p: Seq<int>, q: Seq<int>) -> bool {
    p.len() <= q.len() && p == q.subrange(0, p.len() as int)
}

/// The path that recognises a whole word: the word reversed, then the pivot.
pub open spec fn lookup_path(word: Seq<char>) -> Seq<char> {
    word.reverse() + seq![PIVOT]
}

pub open spec fn all_tiles(s: Seq<char>) -> bool {
    forall|j: int| 0 <= j < s.len() ==> is_tile(to_upper(#[trigger] s[j]))
}

proof fn lemma_bits(mask: u32, s: u32, j: u32)
    by (bit_vector)
    requires
        s < 32,
        j < 32,
    ensures
        ((mask | (1u32 << s)) >> j) & 1u32 == 1u32 <==> (((mask >> j) & 1u32 == 1u32) || j == s),
        (mask & (1u32 << s) != 0u32) <==> ((mask >> s) & 1u32 == 1u32),
        (0u32 >> j) & 1u32 != 1u32,
{
}

proof fn lemma_rank_mono(mask: u32, j: int, k: int)
    requires
        0 <= j <= k,
    ensures
        rank(mask, j) <= rank(mask, k),
        has_bit(mask, j) && j < k ==> rank(mask, j) < rank(mask, k),
    decreases k,
{
    if k > j {
        lemma_rank_mono(mask, j, k - 1);
    }
}

proof fn lemma_rank_set(old_mask: u32, new_mask: u32, e: int, k: int)
    requires
        0 <= e < 32,
        !has_bit(old_mask, e),
        has_bit(new_mask, e),
        forall|j: int| 0 <= j < 32 && j != e ==> (has_bit(new_mask, j) <==> has_bit(old_mask, j)),
        0 <= k <= 32,
    ensures
        rank(new_mask, k) == rank(old_mask, k) + if k > e {
            1nat
        } else {
            0nat
        },
    decreases k,
{
    if k > 0 {
        lemma_rank_set(old_mask, new_mask, e, k - 1);
    }
}

/// A node of the trie: a word flag, a mask of the edges present, and one child
/// per set bit, packed in ascending bit order.
pub struct GaddagNode {
    is_word: bool,
    children_mask: TileBitboard,
    children_ptrs: Vec<Box<GaddagNode>>,
}

impl GaddagNode {
    pub closed spec fn mask(&self) -> TileBitboard {
        self.children_mask
    }

    pub closed spec fn children(&self) -> Seq<GaddagNode> {
        self.children_ptrs@.map_values(|b: Box<GaddagNode>| *b)
    }

    pub closed spec fn word_flag(&self) -> bool {
        self.is_word
    }

    /// Bits only for edge labels, one packed child per set bit, and every
    /// child well formed.
    pub closed spec fn wf(&self) -> bool
        decreases self,
    {
        &&& forall|k: int| num_edges() <= k < 32 ==> !has_bit(self.children_mask, k)
        &&& self.children_ptrs@.len() == rank(self.children_mask, num_edges())
        &&& forall|i: int|
            0 <= i < self.children_ptrs@.len() ==> (#[trigger] self.children_ptrs@[i]).wf()
    }

    /// The child along edge `k`, if its bit is set.
    pub closed spec fn child(&self, k: int) -> Option<GaddagNode> {
        if 0 <= k < num_edges() && has_bit(self.children_mask, k) && rank(self.children_mask, k)
            < self.children_ptrs@.len() {
            Some(*self.children_ptrs@[rank(self.children_mask, k) as int])
        } else {
            None
        }
    }

    /// The node reached from this one along a path of edge labels.
    pub closed spec fn follow(&self, path: Seq<int>) -> Option<GaddagNode>
        decreases path.len(),
    {
        if path.len() == 0 {
            Some(*self)
        } else {
            match self.child(path[0]) {
                Some(c) => c.follow(path.drop_first()),
                None => None,
            }
        }
    }

    /// The path leads to a node marked as the end of a word.
    pub open spec fn accepts(&self, path: Seq<int>) -> bool {
        match self.follow(path) {
            Some(n) => n.word_flag(),
            None => false,
        }
    }

    proof fn lemma_child_wf(&self, k: int)
        requires
            self.wf(),
        ensures
            0 <= k < num_edges() && has_bit(self.children_mask, k) ==> self.child(k) is Some,
            self.child(k) matches Some(c) ==> c.wf(),
    {
        if 0 <= k < num_edges() && has_bit(self.children_mask, k) {
            lemma_rank_mono(self.children_mask, k, num_edges());
            assert(self.children_ptrs@[rank(self.children_mask, k) as int].wf());
        }
    }

    /// Every node reachable from a well-formed node is well formed, so its
    /// children too come in ascending order of the set bits of its mask.
    pub proof fn lemma_reachable_children_in_bit_order(&self, p: Seq<int>)
        requires
            self.wf(),
            self.follow(p) is Some,
        ensures
            self.follow(p).unwrap().wf(),
            ({
                let n = self.follow(p).unwrap();
                &&& n.children().len() == rank(n.mask(), num_edges())
                &&& forall|k: int|
                    0 <= k < num_edges() && has_bit(n.mask(), k) ==> rank(n.mask(), k)
                        < n.children().len() && n.child(k) == Some(
                        n.children()[rank(n.mask(), k) as int],
                    )
                &&& forall|j: int, k: int|
                    0 <= j < k < num_edges() && has_bit(n.mask(), j) && has_bit(n.mask(), k)
                        ==> rank(n.mask(), j) < rank(n.mask(), k)
            }),
        decreases p.len(),
    {
        if p.len() > 0 {
            self.lemma_child_wf(p[0]);
            let c = self.child(p[0]).unwrap();
            c.lemma_reachable_children_in_bit_order(p.drop_first());
        } else {
            self.lemma_children_in_bit_order();
        }
    }

    /// Following a path: the empty path stays here, a longer one goes through
    /// the child along its first edge.
    pub proof fn lemma_follow_unfold(&self, p: Seq<int>)
        ensures
            p.len() == 0 ==> self.follow(p) == Some(*self),
            p.len() > 0 ==> self.follow(p) == match self.child(p[0]) {
                Some(c) => c.follow(p.drop_first()),
                None => None,
            },
    {
    }

    /// The children come in ascending order of the set bits of the mask: the
    /// child for bit `k` sits at the number of set bits below `k`, and there
    /// are as many children as set bits.
    pub proof fn lemma_children_in_bit_order(&self)
        requires
            self.wf(),
        ensures
            self.children().len() == rank(self.mask(), num_edges()),
            forall|k: int| num_edges() <= k < 32 ==> !has_bit(self.mask(), k),
            forall|k: int|
                0 <= k < num_edges() && has_bit(self.mask(), k) ==> rank(self.mask(), k)
                    < self.children().len() && self.child(k) == Some(
                    self.children()[rank(self.mask(), k) as int],
                ),
            forall|j: int, k: int|
                0 <= j < k < num_edges() && has_bit(self.mask(), j) && has_bit(self.mask(), k)
                    ==> rank(self.mask(), j) < rank(self.mask(), k),
            forall|k: int| 0 <= k < num_edges() && !has_bit(self.mask(), k) ==> self.child(k) is None,
    {
        assert forall|k: int|
            0 <= k < num_edges() && has_bit(self.mask(), k) implies rank(self.mask(), k)
            < self.children().len() && self.child(k) == Some(
            self.children()[rank(self.mask(), k) as int],
        ) by {
            lemma_rank_mono(self.children_mask, k, num_edges());
        }
        assert forall|j: int, k: int|
            0 <= j < k < num_edges() && has_bit(self.mask(), j) && has_bit(
                self.mask(),
                k,
            ) implies rank(self.mask(), j) < rank(self.mask(), k) by {
            lemma_rank_mono(self.children_mask, j, k);
        }
    }

    pub fn new() -> (r: GaddagNode)
        ensures
            r.wf(),
            forall|p: Seq<int>| !(#[trigger] r.accepts(p)),
            forall|k: int| #[trigger] r.child(k) is None,
            forall|p: Seq<int>| (#[trigger] r.follow(p) is Some) <==> p.len() == 0,
    {
        let r = GaddagNode { is_word: false, children_mask: 0, children_ptrs: Vec::new() };
        proof {
            assert forall|p: Seq<int>| (#[trigger] r.follow(p) is Some) <==> p.len() == 0 by {
                if p.len() > 0 {
                    assert(r.child(p[0]) is None);
                }
            }
            assert forall|k: int| 0 <= k <= 32 implies rank(r.children_mask, k) == 0 by {
                lemma_rank_zero(k);
            }
            assert forall|p: Seq<int>| !(#[trigger] r.accepts(p)) by {
                if p.len() > 0 {
                    assert(r.child(p[0]) is None);
                }
            }
            assert forall|k: int| num_edges() <= k < 32 implies !has_bit(r.children_mask, k) by {
                lemma_bits(0, 0, k as u32);
            }
        }
        r
    }

    pub fn is_word(&self) -> (r: bool)
        ensures
            r == self.word_flag(),
    {
        self.is_word
    }

    pub fn has_child(&self, tile: char) -> (r: bool)
        requires
            self.wf(),
            is_edge_char(tile),
        ensures
            r == self.child(edge(tile)) is Some,
    {
        let idx = edge_index(tile);
        proof {
            lemma_bits(self.children_mask, idx, idx);
            self.lemma_child_wf(idx as int);
        }
        (self.children_mask & (1u32 << idx)) != 0
    }

    pub fn get_child(&self, tile: char) -> (r: Option<&GaddagNode>)
        requires
            self.wf(),
            is_edge_char(tile),
        ensures
            r is Some == self.child(edge(tile)) is Some,
            r matches Some(c) ==> self.child(edge(tile)) == Some(*c) && c.wf(),
    {
        let idx = edge_index(tile);
        proof {
            lemma_bits(self.children_mask, idx, idx);
            self.lemma_child_wf(idx as int);
        }
        if (self.children_mask & (1u32 << idx)) == 0 {
            return None;
        }
        let pos = rank_below(self.children_mask, idx);
        Some(&self.children_ptrs[pos])
    }

    /// Stores every split of the word.
    pub fn insert_gaddag(&mut self, word: &String)
        requires
            old(self).wf(),
            all_tiles(word@),
        ensures
            final(self).wf(),
            forall|p: Seq<int>|
                #[trigger] final(self).accepts(p) <==> (old(self).accepts(p) || exists|i: int|
                    0 <= i <= word@.len() && p == edges(#[trigger] split_path(word@, i))),
            forall|p: Seq<int>|
                (#[trigger] final(self).follow(p) is Some) <==> (old(self).follow(p) is Some
                    || exists|i: int|
                    0 <= i <= word@.len() && is_prefix(p, edges(#[trigger] split_path(word@, i)))),
    {
        let chars = chars_of(word.as_str());
        let n = chars.len();
        assert(chars@ =~= word@);
        let mut i: usize = 0;
        loop
            invariant_except_break
                forall|p: Seq<int>|
                    #[trigger] self.accepts(p) <==> (old(self).accepts(p) || exists|s: int|
                        0 <= s < i && p == edges(#[trigger] split_path(word@, s))),
                forall|p: Seq<int>|
                    (#[trigger] self.follow(p) is Some) <==> (old(self).follow(p) is Some
                        || exists|s: int|
                        0 <= s < i && is_prefix(p, edges(#[trigger] split_path(word@, s)))),
            invariant
                n == word@.len(),
                chars@ == word@,
                all_tiles(word@),
                i <= n,
                self.wf(),
            ensures
                forall|p: Seq<int>|
                    #[trigger] self.accepts(p) <==> (old(self).accepts(p) || exists|s: int|
                        0 <= s <= n && p == edges(#[trigger] split_path(word@, s))),
                forall|p: Seq<int>|
                    (#[trigger] self.follow(p) is Some) <==> (old(self).follow(p) is Some
                        || exists|s: int|
                        0 <= s <= n && is_prefix(p, edges(#[trigger] split_path(word@, s)))),
            decreases n + 1 - i,
        {
            let path = split_at(&chars, i);
            let ghost before = *self;
            proof {
                assert forall|t: int| 0 <= t < path@.len() implies is_edge_char(#[trigger] path@[t]) by {
                    let sp = split_path(word@, i as int);
                    if t < i {
                        assert(sp[t] == word@[i - 1 - t]);
                    } else if t > i {
                        assert(sp[t] == word@[t - 1]);
                    }
                }
            }
            self.insert_path(path.as_slice());
            proof {
                assert forall|p: Seq<int>|
                    #[trigger] self.accepts(p) <==> (old(self).accepts(p) || exists|s: int|
                        0 <= s < i + 1 && p == edges(#[trigger] split_path(word@, s))) by {
                    if exists|s: int| 0 <= s < i + 1 && p == edges(#[trigger] split_path(word@, s)) {
                        let s = choose|s: int| 0 <= s < i + 1 && p == edges(#[trigger] split_path(word@, s));
                        if s < i {
                            assert(before.accepts(p));
                        }
                    }
                }
                assert(path@.len() > 0);
                assert forall|p: Seq<int>|
                    (#[trigger] self.follow(p) is Some) <==> (old(self).follow(p) is Some
                        || exists|s: int|
                        0 <= s < i + 1 && is_prefix(p, edges(#[trigger] split_path(word@, s)))) by {
                    if exists|s: int| 0 <= s < i + 1 && is_prefix(p, edges(#[trigger] split_path(word@, s))) {
                        let s = choose|s: int| 0 <= s < i + 1 && is_prefix(p, edges(#[trigger] split_path(word@, s)));
                        if s < i {
                            assert(before.follow(p) is Some);
                        }
                    }
                }
            }
            if i == n {
                break;
            }
            i += 1;
        }
    }

    /// Adds the path, creating the missing nodes in mask order, and marks its
    /// last node as a word; an empty path adds nothing.
    pub fn insert_path(&mut self, path: &[char])
        requires
            old(self).wf(),
            forall|j: int| 0 <= j < path@.len() ==> is_edge_char(#[trigger] path@[j]),
        ensures
            final(self).wf(),
            forall|p: Seq<int>|
                #[trigger] final(self).accepts(p) <==> (old(self).accepts(p) || (path@.len() > 0
                    && p == edges(path@))),
            forall|p: Seq<int>|
                (#[trigger] final(self).follow(p) is Some) <==> (old(self).follow(p) is Some || (
                path@.len() > 0 && is_prefix(p, edges(path@)))),
    {
        if path.len() == 0 {
            return;
        }
        self.insert_from(path, 0);
        proof {
            assert(edges(path@).subrange(0, path@.len() as int) =~= edges(path@));
        }
    }

    fn insert_from(&mut self, path: &[char], i: usize)
        requires
            old(self).wf(),
            i <= path@.len(),
            forall|j: int| 0 <= j < path@.len() ==> is_edge_char(#[trigger] path@[j]),
        ensures
            final(self).wf(),
            forall|p: Seq<int>|
                #[trigger] final(self).accepts(p) <==> (old(self).accepts(p) || p == edges(
                    path@,
                ).subrange(i as int, path@.len() as int)),
            forall|p: Seq<int>|
                (#[trigger] final(self).follow(p) is Some) <==> (old(self).follow(p) is Some
                    || is_prefix(p, edges(path@).subrange(i as int, path@.len() as int))),
        decreases path@.len() - i,
    {
        let ghost target = edges(path@).subrange(i as int, path@.len() as int);
        if i == path.len() {
            self.is_word = true;
            proof {
                assert forall|p: Seq<int>| #[trigger] self.accepts(p) <==> (old(self).accepts(p)
                    || p == target) by {
                    if p.len() > 0 {
                        assert(self.child(p[0]) == old(self).child(p[0]));
                    } else {
                        assert(p =~= target);
                    }
                }
                assert forall|p: Seq<int>| (#[trigger] self.follow(p) is Some) <==> (old(
                    self,
                ).follow(p) is Some || is_prefix(p, target)) by {
                    if p.len() > 0 {
                        assert(self.child(p[0]) == old(self).child(p[0]));
                    }
                }
            }
            return;
        }
        let idx = edge_index(path[i]);
        let ghost e = idx as int;
        proof {
            lemma_bits(self.children_mask, idx, idx);
            self.lemma_child_wf(e);
            assert(target[0] == e);
            assert(target.drop_first() =~= edges(path@).subrange(i + 1, path@.len() as int));
        }
        let pos = rank_below(self.children_mask, idx);
        let ghost prev = *self;
        if (self.children_mask & (1u32 << idx)) != 0 {
            let ghost old_children = self.children_ptrs@;
            proof {
                lemma_rank_mono(self.children_mask, e, num_edges());
            }
            let boxed = self.children_ptrs.remove(pos);
            let mut child: GaddagNode = *boxed;
            let ghost old_child = child;
            child.insert_from(path, i + 1);
            let ghost new_child = child;
            self.children_ptrs.insert(pos, Box::new(child));
            proof {
                assert(self.children_ptrs@ =~= old_children.update(pos as int, Box::new(new_child)));
                assert forall|q: int| 0 <= q < self.children_ptrs@.len() implies (
                #[trigger] self.children_ptrs@[q]).wf() by {
                    if q != pos {
                        assert(prev.children_ptrs@[q].wf());
                    }
                }
                assert(self.wf());
                assert forall|k: int| k != e implies self.child(k) == prev.child(k) by {
                    if 0 <= k < num_edges() && has_bit(self.children_mask, k) {
                        if k < e {
                            lemma_rank_mono(self.children_mask, k, e);
                        } else {
                            lemma_rank_mono(self.children_mask, e, k);
                        }
                    }
                }
                assert(self.child(e) == Some(new_child));
                assert(prev.child(e) == Some(old_child));
                self.lemma_accepts_step(prev, e, new_child, old_child, target);
                self.lemma_follows_step(prev, e, new_child, old_child, target);
            }
        } else {
            let mut child = GaddagNode::new();
            let ghost old_child = child;
            child.insert_from(path, i + 1);
            let ghost new_child = child;
            let ghost old_children = self.children_ptrs@;
            let ghost old_mask = self.children_mask;
            proof {
                lemma_rank_mono(old_mask, e, num_edges());
            }
            self.children_ptrs.insert(pos, Box::new(child));
            self.children_mask = self.children_mask | (1u32 << idx);
            proof {
                assert forall|j: int| 0 <= j < 32 implies (has_bit(self.children_mask, j) <==> (
                has_bit(old_mask, j) || j == e)) by {
                    lemma_bits(old_mask, idx, j as u32);
                }
                assert forall|k: int| 0 <= k <= 32 implies rank(self.children_mask, k) == rank(
                    old_mask,
                    k,
                ) + if k > e {
                    1nat
                } else {
                    0nat
                } by {
                    lemma_rank_set(old_mask, self.children_mask, e, k);
                }
                assert forall|q: int| 0 <= q < self.children_ptrs@.len() implies (
                #[trigger] self.children_ptrs@[q]).wf() by {
                    if q < pos {
                        assert(self.children_ptrs@[q] == old_children[q]);
                        assert(prev.children_ptrs@[q].wf());
                    } else if q > pos {
                        assert(self.children_ptrs@[q] == old_children[q - 1]);
                        assert(prev.children_ptrs@[q - 1].wf());
                    } else {
                        assert(self.children_ptrs@[q] == Box::new(new_child));
                    }
                }
                assert forall|k: int| num_edges() <= k < 32 implies !has_bit(self.children_mask, k) by {
                    assert(!has_bit(old_mask, k));
                }
                assert(self.children_ptrs@.len() == rank(self.children_mask, num_edges()));
                assert(self.wf());
                assert forall|k: int| k != e implies self.child(k) == prev.child(k) by {
                    if 0 <= k < num_edges() && has_bit(self.children_mask, k) {
                        if k < e {
                            lemma_rank_mono(old_mask, k, e);
                        } else {
                            lemma_rank_mono(old_mask, e, k);
                            lemma_rank_mono(old_mask, k, num_edges());
                        }
                    }
                }
                assert(self.child(e) == Some(new_child));
                assert(prev.child(e) is None);
                self.lemma_accepts_step_new(prev, e, new_child, old_child, target);
                self.lemma_follows_step(prev, e, new_child, old_child, target);
            }
        }
    }

    /// Which paths lead somewhere, when only the child along `e` changed (or
    /// was added) and the paths from it grew by the prefixes of `target`'s tail.
    proof fn lemma_follows_step(
        &self,
        prev: GaddagNode,
        e: int,
        new_child: GaddagNode,
        old_child: GaddagNode,
        target: Seq<int>,
    )
        requires
            target.len() > 0,
            target[0] == e,
            forall|k: int| k != e ==> self.child(k) == prev.child(k),
            self.child(e) == Some(new_child),
            prev.child(e) is None ==> forall|p: Seq<int>|
                (#[trigger] old_child.follow(p) is Some) <==> p.len() == 0,
            prev.child(e) is Some ==> prev.child(e) == Some(old_child),
            forall|p: Seq<int>|
                (#[trigger] new_child.follow(p) is Some) <==> (old_child.follow(p) is Some
                    || is_prefix(p, target.drop_first())),
        ensures
            forall|p: Seq<int>|
                (#[trigger] self.follow(p) is Some) <==> (prev.follow(p) is Some || is_prefix(
                    p,
                    target,
                )),
    {
        assert forall|p: Seq<int>|
            (#[trigger] self.follow(p) is Some) <==> (prev.follow(p) is Some || is_prefix(
                p,
                target,
            )) by {
            if p.len() > 0 {
                let rest = p.drop_first();
                assert(new_child.follow(rest) is Some <==> (old_child.follow(rest) is Some
                    || is_prefix(rest, target.drop_first())));
                if is_prefix(p, target) {
                    assert(p[0] == target[0]);
                    assert(rest =~= target.drop_first().subrange(0, rest.len() as int));
                }
                if p[0] == e && is_prefix(rest, target.drop_first()) {
                    assert(p =~= target.subrange(0, p.len() as int)) by {
                        assert forall|j: int| 0 <= j < p.len() implies p[j] == target[j] by {
                            if j > 0 {
                                assert(p[j] == rest[j - 1]);
                            }
                        }
                    }
                }
                if p[0] == e {
                    assert(self.follow(p) == new_child.follow(rest));
                    if prev.child(e) is None {
                        assert(prev.follow(p) is None);
                        assert(old_child.follow(rest) is Some <==> rest.len() == 0);
                        if rest.len() == 0 {
                            assert(rest =~= target.drop_first().subrange(0, 0));
                            assert(is_prefix(rest, target.drop_first()));
                        }
                    } else {
                        assert(prev.follow(p) == old_child.follow(rest));
                    }
                } else {
                    assert(self.child(p[0]) == prev.child(p[0]));
                    assert(self.follow(p) == prev.follow(p));
                    if is_prefix(p, target) {
                        assert(p[0] == target[0]);
                    }
                }
            } else {
                assert(p =~= target.subrange(0, 0));
            }
        }
    }

    /// How acceptance changes when only the child along `e` changed.
    proof fn lemma_accepts_step(
        &self,
        prev: GaddagNode,
        e: int,
        new_child: GaddagNode,
        old_child: GaddagNode,
        target: Seq<int>,
    )
        requires
            target.len() > 0,
            target[0] == e,
            self.is_word == prev.is_word,
            forall|k: int| k != e ==> self.child(k) == prev.child(k),
            self.child(e) == Some(new_child),
            prev.child(e) == Some(old_child),
            forall|p: Seq<int>|
                #[trigger] new_child.accepts(p) <==> (old_child.accepts(p) || p
                    == target.drop_first()),
        ensures
            forall|p: Seq<int>| #[trigger] self.accepts(p) <==> (prev.accepts(p) || p == target),
    {
        assert forall|p: Seq<int>| #[trigger] self.accepts(p) <==> (prev.accepts(p) || p
            == target) by {
            if p.len() > 0 && p[0] == e {
                assert(new_child.accepts(p.drop_first()) <==> (old_child.accepts(p.drop_first())
                    || p.drop_first() == target.drop_first()));
                if p.drop_first() == target.drop_first() {
                    lemma_same_head_tail(p, target);
                }
            } else if p.len() > 0 {
                assert(p != target);
            } else {
                assert(p != target);
            }
        }
    }

    /// How acceptance changes when a child along `e` was added.
    proof fn lemma_accepts_step_new(
        &self,
        prev: GaddagNode,
        e: int,
        new_child: GaddagNode,
        old_child: GaddagNode,
        target: Seq<int>,
    )
        requires
            target.len() > 0,
            target[0] == e,
            self.is_word == prev.is_word,
            forall|k: int| k != e ==> self.child(k) == prev.child(k),
            self.child(e) == Some(new_child),
            prev.child(e) is None,
            forall|p: Seq<int>| !(#[trigger] old_child.accepts(p)),
            forall|p: Seq<int>|
                #[trigger] new_child.accepts(p) <==> (old_child.accepts(p) || p
                    == target.drop_first()),
        ensures
            forall|p: Seq<int>| #[trigger] self.accepts(p) <==> (prev.accepts(p) || p == target),
    {
        assert forall|p: Seq<int>| #[trigger] self.accepts(p) <==> (prev.accepts(p) || p
            == target) by {
            if p.len() > 0 && p[0] == e {
                assert(new_child.accepts(p.drop_first()) <==> (old_child.accepts(p.drop_first())
                    || p.drop_first() == target.drop_first()));
                if p.drop_first() == target.drop_first() {
                    lemma_same_head_tail(p, target);
                }
            } else if p.len() > 0 {
                assert(p != target);
            } else {
                assert(p != target);
            }
        }
    }
}

proof fn lemma_same_head_tail(p: Seq<int>, q: Seq<int>)
    requires
        p.len() > 0,
        q.len() > 0,
        p[0] == q[0],
        p.drop_first() == q.drop_first(),
    ensures
        p == q,
{
    assert(p.drop_first().len() == p.len() - 1);
    assert(q.drop_first().len() == q.len() - 1);
    assert forall|j: int| 0 <= j < p.len() implies p[j] == q[j] by {
        if j > 0 {
            assert(p[j] == p.drop_first()[j - 1]);
            assert(q[j] == q.drop_first()[j - 1]);
        }
    }
    assert(p =~= q);
}

proof fn lemma_rank_zero(k: int)
    requires
        0 <= k <= 32,
    ensures
        rank(0, k) == 0,
    decreases k,
{
    if k > 0 {
        lemma_rank_zero(k - 1);
        lemma_bits(0, 0, (k - 1) as u32);
    }
}

/// The path for the split of `chars` before index `i`.
fn split_at(chars: &Vec<char>, i: usize) -> (r: Vec<char>)
    requires
        i <= chars@.len(),
    ensures
        r@ == split_path(chars@, i as int),
{
    let mut path: Vec<char> = Vec::new();
    let mut j: usize = i;
    while j > 0
        invariant
            j <= i <= chars@.len(),
            path@ == chars@.subrange(j as int, i as int).reverse(),
        decreases j,
    {
        path.push(chars[j - 1]);
        j -= 1;
        assert(path@ =~= chars@.subrange(j as int, i as int).reverse());
    }
    path.push(PIVOT);
    let mut k: usize = i;
    while k < chars.len()
        invariant
            i <= k <= chars@.len(),
            path@ == chars@.subrange(0, i as int).reverse() + seq![PIVOT] + chars@.subrange(i as int, k as int),
        decreases chars@.len() - k,
    {
        path.push(chars[k]);
        k += 1;
        assert(path@ =~= chars@.subrange(0, i as int).reverse() + seq![PIVOT] + chars@.subrange(i as int, k as int));
    }
    assert(path@ =~= split_path(chars@, i as int));
    path
}

/// The bit of a character's edge: the pivot's reserved bit, else the tile index.
fn edge_index(tile: char) -> (r: u32)
    requires
        is_edge_char(tile),
    ensures
        r == edge(tile),
        r < num_edges(),
{
    if tile == PIVOT {
        PIVOT_BIT_IDX
    } else {
        get_index(tile) as u32
    }
}

/// Number of set bits of `mask` below bit `idx`.
fn rank_below(mask: TileBitboard, idx: u32) -> (r: usize)
    requires
        idx <= 32,
    ensures
        r == rank(mask, idx as int),
{
    let mut k: u32 = 0;
    let mut count: usize = 0;
    while k < idx
        invariant
            k <= idx <= 32,
            count == rank(mask, k as int),
            count <= k,
        decreases idx - k,
    {
        proof {
            lemma_bits(mask, k, k);
        }
        if (mask & (1u32 << k)) != 0 {
            count += 1;
        }
        k += 1;
    }
    count
}

} // verus!
