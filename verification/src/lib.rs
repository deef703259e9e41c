//! Permissive incremental text search: a character-keyed prefix tree and a
//! stateful searcher that tracks which tree nodes are still reachable under
//! the characters typed so far, tolerating keyboard misclicks and
//! script/diacritic lookalikes.

use vstd::prelude::*;

pub mod lookalikes;

verus! {

broadcast use vstd::utf8::char_is_scalar, vstd::utf8::char_u32_cast;

/// Children of one tree node are kept strictly sorted by character, so a
/// child can be found by binary search and no character appears twice.
pub open spec fn sorted_children(s: Seq<(char, SearchTree)>) -> bool {
    forall|i: int, j: int|
        0 <= i < j < s.len() ==> ((#[trigger] s[i]).0 as u32) < ((#[trigger] s[j]).0 as u32)
}

/// A tree that associates a string key with a `usize` index.
///
/// Every key is stored as a chain of nodes, one node per character; the node
/// at the end of the chain carries the key's index in `end`.
pub struct SearchTree {
    /// The children, one per distinct first character, sorted ascending.
    pub nodes: Vec<(char, SearchTree)>,
    /// The index of the key that ends exactly at this node, if any.
    pub end: Option<usize>,
}

impl SearchTree {
    /// Well-formedness: children sorted strictly by character, recursively.
    pub open spec fn wf(self) -> bool
        decreases self,
    {
        &&& sorted_children(self.nodes@)
        &&& forall|i: int| 0 <= i < self.nodes@.len() ==> (#[trigger] self.nodes@[i]).1.wf()
    }

    /// The immediate child reached by exactly `ch`, if any.
    pub open spec fn spec_get(self, ch: char) -> Option<SearchTree> {
        if exists|i: int| 0 <= i < self.nodes@.len() && (#[trigger] self.nodes@[i]).0 == ch {
            Some(
                self.nodes@[choose|i: int|
                    0 <= i < self.nodes@.len() && (#[trigger] self.nodes@[i]).0 == ch].1,
            )
        } else {
            None
        }
    }

    /// The node reached from `self` by following `path` character by
    /// character, if the whole path exists in the tree.
    pub open spec fn node_at(self, path: Seq<char>) -> Option<SearchTree>
        decreases path.len(),
    {
        if path.len() == 0 {
            Some(self)
        } else {
            match self.spec_get(path[0]) {
                Some(child) => child.node_at(path.drop_first()),
                None => None,
            }
        }
    }

    /// The index stored for `key`, if `key` is in the tree.
    pub open spec fn lookup(self, key: Seq<char>) -> Option<usize> {
        match self.node_at(key) {
            Some(node) => node.end,
            None => None,
        }
    }

    /// All indices stored at or below this node, in depth-first pre-order:
    /// the node's own index first, then each child's indices in ascending
    /// character order.
    pub open spec fn terminals(self) -> Seq<usize>
        decreases self,
    {
        (match self.end {
            Some(i) => seq![i],
            None => Seq::<usize>::empty(),
        }) + terminals_of_children(self.nodes@)
    }
}

impl Default for SearchTree {
    /// An empty tree: no children and no stored key.
    fn default() -> (t: SearchTree)
        ensures
            t.nodes@.len() == 0,
            t.end is None,
            t.wf(),
    {
        SearchTree { nodes: Vec::new(), end: None }
    }
}

impl SearchTree {
    /// Binary search among the children for `ch`. Returns `(true, i)` if
    /// child `i` is keyed by `ch`, and `(false, i)` with the insertion point
    /// that keeps the children sorted if no child is.
    fn find_slot(nodes: &Vec<(char, SearchTree)>, ch: char) -> (r: (bool, usize))
        requires
            sorted_children(nodes@),
        ensures
            r.1 <= nodes@.len(),
            r.0 ==> r.1 < nodes@.len() && nodes@[r.1 as int].0 == ch,
            !r.0 ==> forall|k: int|
                0 <= k < nodes@.len() ==> (#[trigger] nodes@[k]).0 != ch,
            !r.0 ==> forall|k: int|
                0 <= k < r.1 ==> ((#[trigger] nodes@[k]).0 as u32) < ch as u32,
            !r.0 ==> forall|k: int|
                r.1 <= k < nodes@.len() ==> ((#[trigger] nodes@[k]).0 as u32) > ch as u32,
    {
        let mut lo: usize = 0;
        let mut hi: usize = nodes.len();
        while lo < hi
            invariant
                lo <= hi <= nodes@.len(),
                sorted_children(nodes@),
                forall|k: int| 0 <= k < lo ==> ((#[trigger] nodes@[k]).0 as u32) < ch as u32,
                forall|k: int|
                    hi <= k < nodes@.len() ==> ((#[trigger] nodes@[k]).0 as u32) > ch as u32,
            decreases hi - lo,
        {
            let mid = lo + (hi - lo) / 2;
            let probe = nodes[mid].0;
            if probe as u32 == ch as u32 {
                proof {
                    vstd::utf8::char_u32_cast(probe, probe as u32);
                    vstd::utf8::char_u32_cast(ch, ch as u32);
                    assert(nodes@[mid as int].0 == ch);
                }
                return (true, mid);
            } else if (probe as u32) < (ch as u32) {
                lo = mid + 1;
            } else {
                hi = mid;
            }
        }
        proof {
            assert forall|k: int| 0 <= k < nodes@.len() implies (#[trigger] nodes@[k]).0
                != ch by {
                if nodes@[k].0 == ch {
                    assert((nodes@[k].0 as u32) == (ch as u32));
                }
            }
        }
        (false, lo)
    }

    /// Get the immediate child node associated with the provided character.
    ///
    /// If `ch` sorts after every existing child there is nothing to search:
    /// the probe cannot match and the lookup short-circuits.
    pub fn get(&self, index: char) -> (r: Option<&Self>)
        requires
            self.wf(),
        ensures
            (r is Some) == (self.spec_get(index) is Some),
            r matches Some(node) ==> self.spec_get(index) == Some(*node),
    {
        let n = self.nodes.len();
        if n == 0 || (index as u32) > (self.nodes[n - 1].0 as u32) {
            proof {
                assert forall|i: int|
                    0 <= i < self.nodes@.len() implies (#[trigger] self.nodes@[i]).0
                    != index by {
                    if i < self.nodes@.len() - 1 {
                        assert((self.nodes@[i].0 as u32) < (self.nodes@[self.nodes@.len() - 1].0
                            as u32));
                    }
                }
            }
            return None;
        }
        let (found, i) = Self::find_slot(&self.nodes, index);
        if found {
            proof {
                let j = choose|j: int|
                    0 <= j < self.nodes@.len() && (#[trigger] self.nodes@[j]).0 == index;
                if j != i as int {
                    assert((self.nodes@[j].0 as u32) != (self.nodes@[i as int].0 as u32));
                }
            }
            Some(&self.nodes[i].1)
        } else {
            None
        }
    }
}

/// In a strictly sorted child sequence a character determines its position.
proof fn lemma_sorted_unique(s: Seq<(char, SearchTree)>, a: int, b: int)
    requires
        sorted_children(s),
        0 <= a < s.len(),
        0 <= b < s.len(),
        s[a].0 == s[b].0,
    ensures
        a == b,
{
    if a < b {
        assert((s[a].0 as u32) < (s[b].0 as u32));
    } else if b < a {
        assert((s[b].0 as u32) < (s[a].0 as u32));
    }
}

impl SearchTree {
    /// `spec_get` answers exactly the character stored at each child slot.
    proof fn lemma_spec_get_at(self, k: int)
        requires
            sorted_children(self.nodes@),
            0 <= k < self.nodes@.len(),
        ensures
            self.spec_get(self.nodes@[k].0) == Some(self.nodes@[k].1),
    {
        let c = self.nodes@[k].0;
        assert(0 <= k < self.nodes@.len() && self.nodes@[k].0 == c);
        let j = choose|j: int| 0 <= j < self.nodes@.len() && (#[trigger] self.nodes@[j]).0 == c;
        lemma_sorted_unique(self.nodes@, j, k);
    }

    /// A tree with no children and no stored key has no key at all.
    proof fn lemma_empty_lookup(self, p: Seq<char>)
        requires
            self.nodes@.len() == 0,
            self.end is None,
        ensures
            self.lookup(p) is None,
    {
    }

    /// Add a key to the tree, walking and extending the chain of nodes for
    /// the characters of `key` from position `from` on.
    ///
    /// Afterwards the suffix maps to `index`; every other key is untouched.
    #[verifier::rlimit(100)]
    fn push_chars(&mut self, key: &Vec<char>, from: usize, index: usize)
        requires
            old(self).wf(),
            from <= key@.len(),
        ensures
            final(self).wf(),
            final(self).end == if from == key@.len() {
                Some(index)
            } else {
                old(self).end
            },
            forall|p: Seq<char>|
                #[trigger] final(self).lookup(p) == if p == key@.skip(from as int) {
                    Some(index)
                } else {
                    old(self).lookup(p)
                },
        decreases key@.len() - from,
    {
        if from == key.len() {
            self.end = Some(index);
            proof {
                assert(key@.skip(from as int) =~= Seq::<char>::empty());
                assert forall|p: Seq<char>|
                    #[trigger] final(self).lookup(p) == if p == key@.skip(from as int) {
                        Some(index)
                    } else {
                        old(self).lookup(p)
                    } by {
                    if p.len() == 0 {
                        assert(p =~= key@.skip(from as int));
                    } else {
                        assert(final(self).spec_get(p[0]) == old(self).spec_get(p[0]));
                    }
                }
            }
            return;
        }
        let ch = key[from];
        let ghost oldt = *self;
        let (found, i) = Self::find_slot(&self.nodes, ch);
        let (pc, mut pt): (char, SearchTree) = if found {
            self.nodes.remove(i)
        } else {
            (ch, SearchTree::default())
        };
        proof {
            assert(pc == ch);
            if found {
                assert(oldt.nodes@[i as int].1.wf());
            }
        }
        let ghost oldchild = pt;
        pt.push_chars(key, from + 1, index);
        let ghost newchild = pt;
        self.nodes.insert(i, (pc, pt));
        proof {
            let nn = final(self).nodes@;
            let on = oldt.nodes@;
            // Element-by-element correspondence between the new children and
            // the old ones, around position `i`.
            if found {
                assert(nn =~= on.update(i as int, (ch, newchild)));
            }
            // The new child sequence is still strictly sorted.
            assert forall|a: int, b: int| 0 <= a < b < nn.len() implies ((#[trigger] nn[a]).0
                as u32) < ((#[trigger] nn[b]).0 as u32) by {
                if found {
                    if a != i {
                        assert(nn[a] == on[a]);
                    }
                    if b != i {
                        assert(nn[b] == on[b]);
                    }
                    if a == i {
                        assert(on[a].0 == ch);
                    }
                    if b == i {
                        assert(on[b].0 == ch);
                    }
                } else {
                    if a < i {
                        assert(nn[a] == on[a]);
                    }
                    if a > i {
                        assert(nn[a] == on[a - 1]);
                    }
                    if b < i {
                        assert(nn[b] == on[b]);
                    }
                    if b > i {
                        assert(nn[b] == on[b - 1]);
                    }
                }
            }
            assert(sorted_children(nn));
            // Every child subtree is well-formed.
            assert forall|a: int| 0 <= a < nn.len() implies (#[trigger] nn[a]).1.wf() by {
                if a == i {
                    assert(nn[a].1 == newchild);
                } else if found {
                    assert(nn[a] == on[a]);
                } else if a < i {
                    assert(nn[a] == on[a]);
                } else {
                    assert(nn[a] == on[a - 1]);
                }
            }
            assert(final(self).wf());
            // The new child hangs off `ch`.
            assert(nn[i as int] == (ch, newchild));
            final(self).lemma_spec_get_at(i as int);
            assert(final(self).spec_get(ch) == Some(newchild));
            // Children keyed by any other character are untouched.
            assert forall|c: char| c != ch implies final(self).spec_get(c) == oldt.spec_get(
                c,
            ) by {
                if exists|k: int| 0 <= k < nn.len() && (#[trigger] nn[k]).0 == c {
                    let k = choose|k: int| 0 <= k < nn.len() && (#[trigger] nn[k]).0 == c;
                    assert(k != i);
                    let ko = if !found && k > i {
                        k - 1
                    } else {
                        k
                    };
                    assert(on[ko] == nn[k]);
                    final(self).lemma_spec_get_at(k);
                    oldt.lemma_spec_get_at(ko);
                } else {
                    if exists|k: int| 0 <= k < on.len() && (#[trigger] on[k]).0 == c {
                        let k = choose|k: int| 0 <= k < on.len() && (#[trigger] on[k]).0 == c;
                        let kn = if !found && k >= i {
                            k + 1
                        } else {
                            k
                        };
                        if found && k == i {
                            assert(on[k].0 == ch);
                        } else {
                            assert(nn[kn] == on[k]);
                            assert(nn[kn].0 == c);
                        }
                    }
                }
            }
            // The tail of the key suffix is the suffix one position further.
            let suffix = key@.skip(from as int);
            let tail = key@.skip(from as int + 1);
            assert(suffix.len() > 0);
            assert(suffix[0] == ch);
            assert(suffix.drop_first() =~= tail);
            if found {
                oldt.lemma_spec_get_at(i as int);
                assert(oldt.spec_get(ch) == Some(oldchild));
            } else {
                assert(oldt.spec_get(ch) is None);
            }
            assert forall|p: Seq<char>|
                #[trigger] final(self).lookup(p) == if p == suffix {
                    Some(index)
                } else {
                    oldt.lookup(p)
                } by {
                if p.len() == 0 {
                    assert(p != suffix);
                    assert(final(self).end == oldt.end);
                } else {
                    let q = p.drop_first();
                    if p[0] == ch {
                        assert(final(self).lookup(p) == newchild.lookup(q));
                        if q == tail {
                            assert forall|j: int| 0 <= j < p.len() implies p[j] == suffix[j] by {
                                if j > 0 {
                                    assert(p[j] == q[j - 1]);
                                    assert(suffix[j] == tail[j - 1]);
                                }
                            }
                            assert(p =~= suffix);
                            assert(newchild.lookup(q) == Some(index));
                        } else {
                            assert(p != suffix);
                            assert(newchild.lookup(q) == oldchild.lookup(q));
                            if found {
                                assert(oldt.lookup(p) == oldchild.lookup(q));
                            } else {
                                oldchild.lemma_empty_lookup(q);
                                assert(oldt.lookup(p) is None);
                            }
                        }
                    } else {
                        assert(p != suffix);
                        assert(final(self).spec_get(p[0]) == oldt.spec_get(p[0]));
                        assert(final(self).lookup(p) == oldt.lookup(p));
                    }
                }
            }
        }
    }

    /// Add a key to the tree. Afterwards `key` maps to `index`, overwriting
    /// any index the key carried before; every other key is untouched.
    pub fn push(&mut self, key: &str, index: usize)
        requires
            old(self).wf(),
        ensures
            final(self).wf(),
            forall|p: Seq<char>|
                #[trigger] final(self).lookup(p) == if p == key@ {
                    Some(index)
                } else {
                    old(self).lookup(p)
                },
    {
        let ks = chars_of(key);
        self.push_chars(&ks, 0, index);
        proof {
            assert(ks@.skip(0) =~= key@);
        }
    }
}

/// The concatenation of `terminals` over a sequence of children, in order.
pub open spec fn terminals_of_children(s: Seq<(char, SearchTree)>) -> Seq<usize>
    decreases s,
{
    if s.len() == 0 {
        Seq::<usize>::empty()
    } else {
        terminals_of_children(s.drop_last()) + s.last().1.terminals()
    }
}

/// The index stored for `p` by a sequence of `(index, key)` insertions made
/// in order: the last insertion whose key is `p` wins.
pub open spec fn lookup_in_pairs(pairs: Seq<(usize, Seq<char>)>, p: Seq<char>) -> Option<usize>
    decreases pairs.len(),
{
    if pairs.len() == 0 {
        None
    } else if pairs.last().1 == p {
        Some(pairs.last().0)
    } else {
        lookup_in_pairs(pairs.drop_last(), p)
    }
}

impl SearchTree {
    /// Visits this node's own terminal first, then every child in ascending
    /// character order, appending each index found to `out`.
    fn for_each_base(&self, out: &mut Vec<usize>)
        ensures
            final(out)@ == old(out)@ + self.terminals(),
        decreases *self,
    {
        let ghost own = match self.end {
            Some(i) => seq![i],
            None => Seq::<usize>::empty(),
        };
        if let Some(i) = self.end {
            out.push(i);
        }
        proof {
            assert(self.nodes@.take(0) =~= Seq::<(char, SearchTree)>::empty());
            assert(out@ =~= old(out)@ + own + terminals_of_children(self.nodes@.take(0)));
        }
        let mut k: usize = 0;
        while k < self.nodes.len()
            invariant
                k <= self.nodes@.len(),
                out@ == old(out)@ + own + terminals_of_children(self.nodes@.take(k as int)),
            decreases self.nodes@.len() - k,
        {
            let node = &self.nodes[k];
            node.1.for_each_base(out);
            proof {
                assert(self.nodes@.take(k as int + 1).drop_last() =~= self.nodes@.take(k as int));
                assert(self.nodes@.take(k as int + 1).last() == self.nodes@[k as int]);
                assert(out@ =~= old(out)@ + own + terminals_of_children(
                    self.nodes@.take(k as int + 1),
                ));
            }
            k += 1;
        }
        proof {
            assert(self.nodes@.take(self.nodes@.len() as int) =~= self.nodes@);
            assert(out@ =~= old(out)@ + self.terminals());
        }
    }

    /// The indices of all the keys reachable from this tree node, in
    /// depth-first pre-order. The caller walks the returned vector and may
    /// stop early at any point.
    pub fn for_each(&self) -> (r: Vec<usize>)
        ensures
            r@ == self.terminals(),
    {
        let mut out = Vec::new();
        self.for_each_base(&mut out);
        proof {
            assert(out@ =~= self.terminals());
        }
        out
    }

    /// Builds a tree from `(index, key)` pairs, inserting in the given
    /// order; when two pairs carry the same key the later one wins.
    pub fn from_pairs(pairs: &Vec<(usize, String)>) -> (t: SearchTree)
        ensures
            t.wf(),
            forall|p: Seq<char>| #[trigger]
                t.lookup(p) == lookup_in_pairs(
                    pairs@.map_values(|pr: (usize, String)| (pr.0, pr.1@)),
                    p,
                ),
    {
        let ghost m = pairs@.map_values(|pr: (usize, String)| (pr.0, pr.1@));
        let mut t = SearchTree::default();
        proof {
            assert forall|p: Seq<char>| #[trigger] t.lookup(p) == lookup_in_pairs(
                m.take(0),
                p,
            ) by {
                t.lemma_empty_lookup(p);
            }
        }
        let mut k: usize = 0;
        while k < pairs.len()
            invariant
                k <= pairs@.len(),
                m == pairs@.map_values(|pr: (usize, String)| (pr.0, pr.1@)),
                t.wf(),
                forall|p: Seq<char>| #[trigger] t.lookup(p) == lookup_in_pairs(m.take(k as int), p),
            decreases pairs@.len() - k,
        {
            let pair = &pairs[k];
            t.push(pair.1.as_str(), pair.0);
            proof {
                assert(m.take(k as int + 1).drop_last() =~= m.take(k as int));
                assert(m.take(k as int + 1).last() == m[k as int]);
                assert(m[k as int] == (pairs@[k as int].0, pairs@[k as int].1@));
            }
            k += 1;
        }
        proof {
            assert(m.take(m.len() as int) =~= m);
        }
        t
    }
}

/// A source of lookalike characters: for each input character, a finite,
/// order-stable sequence of characters the input could plausibly stand for.
///
/// The definition of similarity is entirely the implementor's; it may be
/// empty. A searcher consults its source once per character pushed.
pub trait Lookalikes: Sized {
    /// The sequence of lookalikes this source defines for `ch`.
    spec fn spec_lookalikes(&self, ch: char) -> Seq<char>;

    /// Appends exactly `spec_lookalikes(ch)` to `dst`.
    fn push_lookalikes(&self, ch: char, dst: &mut Vec<char>)
        ensures
            final(dst)@ == old(dst)@ + self.spec_lookalikes(ch),
    ;
}

/// The tolerance set for one typed character: the character itself first,
/// then its lookalikes, in the source's order.
pub open spec fn tolerance<L: Lookalikes>(gen: L, ch: char) -> Seq<char> {
    seq![ch] + gen.spec_lookalikes(ch)
}

/// The children of `node` reached by each character of `tol` in turn,
/// skipping characters with no child; duplicates are kept.
pub open spec fn node_matches(node: SearchTree, tol: Seq<char>) -> Seq<SearchTree>
    decreases tol.len(),
{
    if tol.len() == 0 {
        Seq::<SearchTree>::empty()
    } else {
        node_matches(node, tol.drop_last()) + (match node.spec_get(tol.last()) {
            Some(child) => seq![child],
            None => Seq::<SearchTree>::empty(),
        })
    }
}

/// One frontier expansion: every child of every frontier node reachable by a
/// character of `tol`, frontier order outer, tolerance order inner.
pub open spec fn expand_frontier(frontier: Seq<SearchTree>, tol: Seq<char>) -> Seq<SearchTree>
    decreases frontier.len(),
{
    if frontier.len() == 0 {
        Seq::<SearchTree>::empty()
    } else {
        expand_frontier(frontier.drop_last(), tol) + node_matches(frontier.last(), tol)
    }
}

/// The frontier after one keystroke: the expansion if it reaches anything;
/// otherwise the keystroke is treated as unmatched noise and the frontier is
/// left as it was (the stickiness rule).
pub open spec fn step_frontier(frontier: Seq<SearchTree>, tol: Seq<char>) -> Seq<SearchTree> {
    let next = expand_frontier(frontier, tol);
    if next.len() == 0 {
        frontier
    } else {
        next
    }
}

/// The frontier reached from `root` after typing `input`, character by
/// character, under the lookalike source `gen`.
pub open spec fn replay<L: Lookalikes>(root: SearchTree, gen: L, input: Seq<char>) -> Seq<
    SearchTree,
>
    decreases input.len(),
{
    if input.len() == 0 {
        seq![root]
    } else {
        step_frontier(
            replay(root, gen, input.drop_last()),
            tolerance(gen, input.last()),
        )
    }
}

/// Storage for the state of a search through a [`SearchTree`].
///
/// Holds the characters typed so far and the frontier of tree nodes still
/// reachable under them; both are updated in place on every keystroke.
pub struct Searcher<'t, L: Lookalikes> {
    /// The root of the searched tree.
    pub root: &'t SearchTree,
    /// The characters typed so far, in order.
    pub input: Vec<char>,
    /// Nodes in consideration: the current frontier.
    pub considered: Vec<&'t SearchTree>,
    /// To be swapped with `considered` after every char input.
    pub new: Vec<&'t SearchTree>,
    /// Temporary buffer for similar chars gathered from `lookalike_gen`.
    pub lookalikes_buf: Vec<char>,
    /// The lookalike source fixed at construction.
    pub lookalike_gen: L,
}

impl<'t, L: Lookalikes> Searcher<'t, L> {
    /// The current frontier, as tree values.
    pub open spec fn frontier(self) -> Seq<SearchTree> {
        self.considered@.map_values(|n: &SearchTree| *n)
    }

    /// Invariant: the tree is well-formed and the frontier is exactly the
    /// replay of the typed input from the root, every node of it well-formed.
    pub open spec fn wf(self) -> bool {
        &&& self.root.wf()
        &&& self.frontier() == replay(*self.root, self.lookalike_gen, self.input@)
        &&& forall|i: int| 0 <= i < self.frontier().len() ==> (#[trigger] self.frontier()[i]).wf()
    }

    /// Create a new searcher.
    /// - `root` is the root of the tree to be searched.
    /// - `lookalike_gen` supplies the characters similar to an input one.
    pub fn new(root: &'t SearchTree, lookalike_gen: L) -> (s: Self)
        requires
            root.wf(),
        ensures
            s.wf(),
            s.root == root,
            s.lookalike_gen == lookalike_gen,
            s.input@ == Seq::<char>::empty(),
            s.frontier() == seq![*root],
    {
        let mut considered: Vec<&'t SearchTree> = Vec::new();
        considered.push(root);
        let s = Searcher {
            root,
            input: Vec::new(),
            considered,
            new: Vec::new(),
            lookalikes_buf: Vec::new(),
            lookalike_gen,
        };
        proof {
            assert(s.frontier() =~= seq![*root]);
        }
        s
    }

    /// The root of the searched tree.
    pub fn root(&self) -> (r: &'t SearchTree)
        ensures
            r == self.root,
    {
        self.root
    }

    /// The characters pushed so far, in order.
    pub fn input(&self) -> (r: &Vec<char>)
        ensures
            r@ == self.input@,
    {
        &self.input
    }

    /// Common frontier-update step for [`Searcher::push`] and
    /// [`Searcher::pop`]: gathers the tolerance set for `ch`, collects every
    /// child of a considered node reachable by a tolerated character, and
    /// commits the collection unless it is empty.
    fn compute_considerations(
        ch: char,
        lookalikes_buf: &mut Vec<char>,
        lookalike_gen: &L,
        considered: &mut Vec<&'t SearchTree>,
        new: &mut Vec<&'t SearchTree>,
    )
        requires
            forall|i: int|
                0 <= i < old(considered)@.len() ==> (#[trigger] old(considered)@[i]).wf(),
        ensures
            final(considered)@.map_values(|n: &SearchTree| *n) == step_frontier(
                old(considered)@.map_values(|n: &SearchTree| *n),
                tolerance(*lookalike_gen, ch),
            ),
            forall|i: int|
                0 <= i < final(considered)@.len() ==> (#[trigger] final(considered)@[i]).wf(),
    {
        let ghost f0 = old(considered)@.map_values(|n: &SearchTree| *n);
        let ghost tol = tolerance(*lookalike_gen, ch);
        lookalikes_buf.clear();
        lookalikes_buf.push(ch);
        lookalike_gen.push_lookalikes(ch, lookalikes_buf);
        proof {
            assert(lookalikes_buf@ =~= tol);
        }
        new.clear();
        let mut fi: usize = 0;
        while fi < considered.len()
            invariant
                fi <= considered@.len(),
                considered@ == old(considered)@,
                lookalikes_buf@ == tol,
                f0 == considered@.map_values(|n: &SearchTree| *n),
                forall|i: int|
                    0 <= i < considered@.len() ==> (#[trigger] considered@[i]).wf(),
                new@.map_values(|n: &SearchTree| *n) == expand_frontier(f0.take(fi as int), tol),
                forall|i: int| 0 <= i < new@.len() ==> (#[trigger] new@[i]).wf(),
            decreases considered@.len() - fi,
        {
            let node = considered[fi];
            proof {
                assert(*node == f0[fi as int]);
            }
            let mut ti: usize = 0;
            while ti < lookalikes_buf.len()
                invariant
                    fi < considered@.len(),
                    ti <= tol.len(),
                    considered@ == old(considered)@,
                    lookalikes_buf@ == tol,
                    f0 == considered@.map_values(|n: &SearchTree| *n),
                    node == considered@[fi as int],
                    *node == f0[fi as int],
                    node.wf(),
                    new@.map_values(|n: &SearchTree| *n) == expand_frontier(f0.take(fi as int), tol)
                        + node_matches(*node, tol.take(ti as int)),
                    forall|i: int| 0 <= i < new@.len() ==> (#[trigger] new@[i]).wf(),
                decreases tol.len() - ti,
            {
                let ghost prefix = expand_frontier(f0.take(fi as int), tol) + node_matches(
                    *node,
                    tol.take(ti as int),
                );
                proof {
                    assert(tol.take(ti as int + 1).drop_last() =~= tol.take(ti as int));
                    assert(tol.take(ti as int + 1).last() == tol[ti as int]);
                }
                match node.get(lookalikes_buf[ti]) {
                    Some(child) => {
                        proof {
                            lemma_child_wf(*node, tol[ti as int], *child);
                        }
                        new.push(child);
                        proof {
                            assert(new@.map_values(|n: &SearchTree| *n) =~= prefix + seq![*child]);
                            assert(node_matches(*node, tol.take(ti as int + 1))
                                == node_matches(*node, tol.take(ti as int)) + seq![*child]);
                        }
                    },
                    None => {
                        proof {
                            assert(node_matches(*node, tol.take(ti as int + 1)) =~= node_matches(
                                *node,
                                tol.take(ti as int),
                            ));
                        }
                    },
                }
                ti += 1;
            }
            proof {
                assert(tol.take(tol.len() as int) =~= tol);
                assert(f0.take(fi as int + 1).drop_last() =~= f0.take(fi as int));
                assert(f0.take(fi as int + 1).last() == f0[fi as int]);
            }
            fi += 1;
        }
        proof {
            assert(f0.take(considered@.len() as int) =~= f0);
        }
        if new.len() != 0 {
            core::mem::swap(new, considered);
        }
    }

    /// Push a character into the searched string.
    ///
    /// The input always records the character; the frontier advances to the
    /// children reachable under the character's tolerance set, or stays
    /// where it was when nothing is reachable.
    pub fn push(&mut self, ch: char)
        requires
            old(self).wf(),
        ensures
            final(self).wf(),
            final(self).root == old(self).root,
            final(self).lookalike_gen == old(self).lookalike_gen,
            final(self).input@ == old(self).input@.push(ch),
            final(self).frontier() == step_frontier(
                old(self).frontier(),
                tolerance(old(self).lookalike_gen, ch),
            ),
    {
        self.input.push(ch);
        proof {
            assert forall|i: int|
                0 <= i < self.considered@.len() implies (#[trigger] self.considered@[i]).wf() by {
                assert(old(self).frontier()[i].wf());
            }
        }
        Self::compute_considerations(
            ch,
            &mut self.lookalikes_buf,
            &self.lookalike_gen,
            &mut self.considered,
            &mut self.new,
        );
        proof {
            assert(self.input@.drop_last() =~= old(self).input@);
            assert forall|i: int|
                0 <= i < self.frontier().len() implies (#[trigger] self.frontier()[i]).wf() by {
                assert(self.considered@[i].wf());
            }
        }
    }
}

/// The candidate indices produced by a frontier: the concatenation of
/// `terminals` over its nodes, in frontier order.
pub open spec fn candidates_of(frontier: Seq<SearchTree>) -> Seq<usize>
    decreases frontier.len(),
{
    if frontier.len() == 0 {
        Seq::<usize>::empty()
    } else {
        candidates_of(frontier.drop_last()) + frontier.last().terminals()
    }
}

impl<'t, L: Lookalikes> Searcher<'t, L> {
    /// Remove the last character from the searched string, if present.
    ///
    /// The frontier is rebuilt by replaying the remaining input from the
    /// root, so it is exactly what it was before that character was pushed.
    pub fn pop(&mut self)
        requires
            old(self).wf(),
        ensures
            final(self).wf(),
            final(self).root == old(self).root,
            final(self).lookalike_gen == old(self).lookalike_gen,
            final(self).input@ == if old(self).input@.len() == 0 {
                old(self).input@
            } else {
                old(self).input@.drop_last()
            },
            old(self).input@.len() == 0 ==> *final(self) == *old(self),
    {
        if self.input.len() == 0 {
            return;
        }
        let _ = self.input.pop();
        self.considered.clear();
        self.considered.push(self.root);
        proof {
            assert(self.input@.take(0) =~= Seq::<char>::empty());
            assert(self.considered@.map_values(|n: &SearchTree| *n) =~= seq![*self.root]);
        }
        let mut i: usize = 0;
        while i < self.input.len()
            invariant
                i <= self.input@.len(),
                self.root == old(self).root,
                self.root.wf(),
                self.lookalike_gen == old(self).lookalike_gen,
                self.input@ == old(self).input@.drop_last(),
                self.considered@.map_values(|n: &SearchTree| *n) == replay(
                    *self.root,
                    self.lookalike_gen,
                    self.input@.take(i as int),
                ),
                forall|k: int|
                    0 <= k < self.considered@.len() ==> (#[trigger] self.considered@[k]).wf(),
            decreases self.input@.len() - i,
        {
            let ch = self.input[i];
            Self::compute_considerations(
                ch,
                &mut self.lookalikes_buf,
                &self.lookalike_gen,
                &mut self.considered,
                &mut self.new,
            );
            proof {
                assert(self.input@.take(i as int + 1).drop_last() =~= self.input@.take(i as int));
                assert(self.input@.take(i as int + 1).last() == self.input@[i as int]);
            }
            i += 1;
        }
        proof {
            assert(self.input@.take(self.input@.len() as int) =~= self.input@);
            assert forall|i: int|
                0 <= i < self.frontier().len() implies (#[trigger] self.frontier()[i]).wf() by {
                assert(self.considered@[i].wf());
            }
        }
    }

    /// Clear the searched string and return the frontier to the root, as if
    /// every character had been popped.
    pub fn reset(&mut self)
        requires
            old(self).wf(),
        ensures
            final(self).wf(),
            final(self).root == old(self).root,
            final(self).lookalike_gen == old(self).lookalike_gen,
            final(self).input@ == Seq::<char>::empty(),
            final(self).frontier() == seq![*old(self).root],
    {
        self.input.clear();
        self.considered.clear();
        self.considered.push(self.root);
        proof {
            assert(self.frontier() =~= seq![*self.root]);
            assert(self.frontier()[0] == *self.root);
        }
    }

    /// Push every character of `chars` into the searched string, in order.
    pub fn extend(&mut self, chars: &Vec<char>)
        requires
            old(self).wf(),
        ensures
            final(self).wf(),
            final(self).root == old(self).root,
            final(self).lookalike_gen == old(self).lookalike_gen,
            final(self).input@ == old(self).input@ + chars@,
    {
        let mut i: usize = 0;
        proof {
            assert(self.input@ =~= old(self).input@ + chars@.take(0));
        }
        while i < chars.len()
            invariant
                i <= chars@.len(),
                self.wf(),
                self.root == old(self).root,
                self.lookalike_gen == old(self).lookalike_gen,
                self.input@ == old(self).input@ + chars@.take(i as int),
            decreases chars@.len() - i,
        {
            self.push(chars[i]);
            proof {
                assert(self.input@ =~= old(self).input@ + chars@.take(i as int + 1));
            }
            i += 1;
        }
        proof {
            assert(chars@.take(chars@.len() as int) =~= chars@);
        }
    }

    /// Returns every key index that could have been referred to by the
    /// current input: for each frontier node in order, the indices of its
    /// subtree in depth-first pre-order. Duplicates, if two tolerated
    /// characters led to the same place, are kept. The caller walks the
    /// returned vector and may stop early at any point.
    pub fn for_each_candidate(&self) -> (r: Vec<usize>)
        ensures
            r@ == candidates_of(self.frontier()),
    {
        let ghost f = self.frontier();
        let mut out: Vec<usize> = Vec::new();
        proof {
            assert(f.take(0) =~= Seq::<SearchTree>::empty());
            assert(out@ =~= candidates_of(f.take(0)));
        }
        let mut k: usize = 0;
        while k < self.considered.len()
            invariant
                k <= self.considered@.len(),
                f == self.frontier(),
                out@ == candidates_of(f.take(k as int)),
            decreases self.considered@.len() - k,
        {
            let node = self.considered[k];
            node.for_each_base(&mut out);
            proof {
                assert(*node == f[k as int]);
                assert(f.take(k as int + 1).drop_last() =~= f.take(k as int));
                assert(f.take(k as int + 1).last() == f[k as int]);
            }
            k += 1;
        }
        proof {
            assert(f.take(f.len() as int) =~= f);
        }
        out
    }
}

/// A well-formed tree's children are themselves well-formed.
proof fn lemma_child_wf(t: SearchTree, ch: char, child: SearchTree)
    requires
        t.wf(),
        t.spec_get(ch) == Some(child),
    ensures
        child.wf(),
{
    let j = choose|j: int| 0 <= j < t.nodes@.len() && (#[trigger] t.nodes@[j]).0 == ch;
    assert(t.nodes@[j].1.wf());
}

/// Following one more character from the end of a path goes through the node
/// the shorter path reaches.
proof fn lemma_node_at_extend(t: SearchTree, p: Seq<char>, ch: char)
    ensures
        t.node_at(p.push(ch)) == match t.node_at(p) {
            Some(m) => m.spec_get(ch),
            None => None::<SearchTree>,
        },
    decreases p.len(),
{
    let e = p.push(ch);
    if p.len() == 0 {
        assert(e[0] == ch);
        assert(e.drop_first() =~= Seq::<char>::empty());
        match t.spec_get(ch) {
            Some(c) => {
                assert(c.node_at(e.drop_first()) == Some(c));
                assert(t.node_at(e) == Some(c));
            },
            None => {
                assert(t.node_at(e) is None);
            },
        }
    } else {
        assert(e[0] == p[0]);
        assert(e.drop_first() =~= p.drop_first().push(ch));
        match t.spec_get(p[0]) {
            Some(c) => {
                lemma_node_at_extend(c, p.drop_first(), ch);
                assert(t.node_at(e) == c.node_at(e.drop_first()));
                assert(t.node_at(p) == c.node_at(p.drop_first()));
            },
            None => {
                assert(t.node_at(e) is None);
                assert(t.node_at(p) is None);
            },
        }
    }
}

/// A child reached by the `k`th tolerated character appears among the
/// matches of its parent node.
proof fn lemma_node_matches_has(node: SearchTree, tol: Seq<char>, k: int, child: SearchTree)
    requires
        0 <= k < tol.len(),
        node.spec_get(tol[k]) == Some(child),
    ensures
        node_matches(node, tol).contains(child),
    decreases tol.len(),
{
    let m = node_matches(node, tol);
    if k == tol.len() - 1 {
        assert(tol.last() == tol[k]);
        assert(m[m.len() - 1] == child);
    } else {
        assert(tol.drop_last()[k] == tol[k]);
        lemma_node_matches_has(node, tol.drop_last(), k, child);
        let pre = node_matches(node, tol.drop_last());
        let j = choose|j: int| 0 <= j < pre.len() && pre[j] == child;
        assert(m[j] == child);
    }
}

/// A match of the `i`th frontier node appears in the frontier's expansion.
proof fn lemma_expand_has(frontier: Seq<SearchTree>, tol: Seq<char>, i: int, child: SearchTree)
    requires
        0 <= i < frontier.len(),
        node_matches(frontier[i], tol).contains(child),
    ensures
        expand_frontier(frontier, tol).contains(child),
    decreases frontier.len(),
{
    let e = expand_frontier(frontier, tol);
    if i == frontier.len() - 1 {
        let m = node_matches(frontier.last(), tol);
        let j = choose|j: int| 0 <= j < m.len() && m[j] == child;
        assert(e[expand_frontier(frontier.drop_last(), tol).len() + j] == child);
    } else {
        assert(frontier.drop_last()[i] == frontier[i]);
        lemma_expand_has(frontier.drop_last(), tol, i, child);
        let pre = expand_frontier(frontier.drop_last(), tol);
        let j = choose|j: int| 0 <= j < pre.len() && pre[j] == child;
        assert(e[j] == child);
    }
}

/// Every match of a node is a child reached by some tolerated character.
proof fn lemma_node_matches_membership(node: SearchTree, tol: Seq<char>)
    ensures
        forall|j: int|
            #![trigger node_matches(node, tol)[j]]
            0 <= j < node_matches(node, tol).len() ==> exists|k: int|
                0 <= k < tol.len() && node.spec_get(tol[k]) == Some(node_matches(node, tol)[j]),
    decreases tol.len(),
{
    if tol.len() != 0 {
        lemma_node_matches_membership(node, tol.drop_last());
        let m = node_matches(node, tol);
        let pre = node_matches(node, tol.drop_last());
        assert forall|j: int| 0 <= j < m.len() implies exists|k: int|
            0 <= k < tol.len() && node.spec_get(tol[k]) == Some(#[trigger] m[j]) by {
            if j < pre.len() {
                assert(m[j] == pre[j]);
                let k = choose|k: int|
                    0 <= k < tol.drop_last().len() && node.spec_get(tol.drop_last()[k]) == Some(
                        pre[j],
                    );
                assert(tol[k] == tol.drop_last()[k]);
                assert(node.spec_get(tol[k]) == Some(m[j]));
            } else {
                assert(node.spec_get(tol[tol.len() - 1]) == Some(m[j]));
            }
        }
    }
}

/// Law: prefix monotonicity. Every node of an expansion is a child of some
/// node of the frontier it expands, reached by some tolerated character; a
/// keystroke never conjures nodes unreachable from the previous frontier.
pub proof fn lemma_expand_membership(frontier: Seq<SearchTree>, tol: Seq<char>)
    ensures
        forall|j: int|
            #![trigger expand_frontier(frontier, tol)[j]]
            0 <= j < expand_frontier(frontier, tol).len() ==> exists|i: int, k: int|
                {
                    &&& 0 <= i < frontier.len()
                    &&& 0 <= k < tol.len()
                    &&& frontier[i].spec_get(tol[k]) == Some(expand_frontier(frontier, tol)[j])
                },
    decreases frontier.len(),
{
    if frontier.len() != 0 {
        lemma_expand_membership(frontier.drop_last(), tol);
        lemma_node_matches_membership(frontier.last(), tol);
        let e = expand_frontier(frontier, tol);
        let pre = expand_frontier(frontier.drop_last(), tol);
        let m = node_matches(frontier.last(), tol);
        assert forall|j: int| 0 <= j < e.len() implies exists|i: int, k: int|
            {
                &&& 0 <= i < frontier.len()
                &&& 0 <= k < tol.len()
                &&& frontier[i].spec_get(tol[k]) == Some(#[trigger] e[j])
            } by {
            if j < pre.len() {
                assert(e[j] == pre[j]);
                let (i, k): (int, int) = choose|i: int, k: int|
                    {
                        &&& 0 <= i < frontier.drop_last().len()
                        &&& 0 <= k < tol.len()
                        &&& frontier.drop_last()[i].spec_get(tol[k]) == Some(pre[j])
                    };
                assert(frontier[i].spec_get(tol[k]) == Some(e[j]));
            } else {
                assert(e[j] == m[j - pre.len()]);
                let k = choose|k: int|
                    0 <= k < tol.len() && frontier.last().spec_get(tol[k]) == Some(m[j - pre.len()]);
                assert(frontier[frontier.len() - 1].spec_get(tol[k]) == Some(e[j]));
            }
        }
    }
}

/// Law: one keystroke advances the frontier by exactly one step — the
/// expansion of the previous frontier under the character's tolerance set,
/// or, when that expansion is empty, the previous frontier itself.
pub proof fn lemma_replay_extend<L: Lookalikes>(
    root: SearchTree,
    gen: L,
    input: Seq<char>,
    ch: char,
)
    ensures
        replay(root, gen, input.push(ch)) == step_frontier(
            replay(root, gen, input),
            tolerance(gen, ch),
        ),
{
    assert(input.push(ch).drop_last() =~= input);
    assert(input.push(ch).last() == ch);
}

/// Law: stickiness. A keystroke whose tolerance set matches nothing leaves
/// the frontier exactly as it was, even though the input records it.
pub proof fn lemma_sticky<L: Lookalikes>(root: SearchTree, gen: L, input: Seq<char>, ch: char)
    requires
        expand_frontier(replay(root, gen, input), tolerance(gen, ch)).len() == 0,
    ensures
        replay(root, gen, input.push(ch)) == replay(root, gen, input),
{
    assert(input.push(ch).drop_last() =~= input);
    assert(input.push(ch).last() == ch);
}

/// Law: the frontier is a function of the root, the lookalike source, and
/// the typed input alone. In particular a `pop` right after a `push`
/// restores the frontier that preceded the push, and replaying the whole
/// input after a `reset` reproduces the pre-reset frontier.
pub proof fn lemma_frontier_determined<'t, L: Lookalikes>(a: Searcher<'t, L>, b: Searcher<'t, L>)
    requires
        a.wf(),
        b.wf(),
        a.root == b.root,
        a.lookalike_gen == b.lookalike_gen,
        a.input@ == b.input@,
    ensures
        a.frontier() == b.frontier(),
{
}

/// Typing a path that exists in the tree keeps its endpoint in the
/// frontier: the exact character is always in its own tolerance set, so no
/// step loses it.
proof fn lemma_replay_reaches<L: Lookalikes>(root: SearchTree, gen: L, p: Seq<char>)
    requires
        root.node_at(p) is Some,
    ensures
        replay(root, gen, p).contains(root.node_at(p).unwrap()),
    decreases p.len(),
{
    if p.len() == 0 {
        assert(replay(root, gen, p)[0] == root);
    } else {
        let q = p.drop_last();
        let ch = p.last();
        lemma_node_at_extend(root, q, ch);
        assert(q.push(ch) =~= p);
        let m = root.node_at(q).unwrap();
        let node = root.node_at(p).unwrap();
        assert(m.spec_get(ch) == Some(node));
        lemma_replay_reaches(root, gen, q);
        let f = replay(root, gen, q);
        let i = choose|i: int| 0 <= i < f.len() && f[i] == m;
        let tol = tolerance(gen, ch);
        assert(tol[0] == ch);
        lemma_node_matches_has(m, tol, 0, node);
        lemma_expand_has(f, tol, i, node);
        let e = expand_frontier(f, tol);
        let j = choose|j: int| 0 <= j < e.len() && e[j] == node;
        assert(e.len() != 0);
        assert(replay(root, gen, p) == step_frontier(f, tol));
    }
}

/// Whatever one frontier node's subtree yields is among the frontier's
/// candidates.
proof fn lemma_candidates_cover(frontier: Seq<SearchTree>, i: int, x: usize)
    requires
        0 <= i < frontier.len(),
        frontier[i].terminals().contains(x),
    ensures
        candidates_of(frontier).contains(x),
    decreases frontier.len(),
{
    let c = candidates_of(frontier);
    if i == frontier.len() - 1 {
        let t = frontier.last().terminals();
        let j = choose|j: int| 0 <= j < t.len() && t[j] == x;
        assert(c[candidates_of(frontier.drop_last()).len() + j] == x);
    } else {
        assert(frontier.drop_last()[i] == frontier[i]);
        lemma_candidates_cover(frontier.drop_last(), i, x);
        let pre = candidates_of(frontier.drop_last());
        let j = choose|j: int| 0 <= j < pre.len() && pre[j] == x;
        assert(c[j] == x);
    }
}

/// Law: round-trip membership. If the tree stores `key` with index `idx`,
/// then after typing exactly `key` — under any lookalike source — the
/// candidates include `idx`.
pub proof fn lemma_round_trip<L: Lookalikes>(root: SearchTree, gen: L, key: Seq<char>, idx: usize)
    requires
        root.lookup(key) == Some(idx),
    ensures
        candidates_of(replay(root, gen, key)).contains(idx),
{
    let node = root.node_at(key).unwrap();
    assert(node.end == Some(idx));
    lemma_replay_reaches(root, gen, key);
    let f = replay(root, gen, key);
    let i = choose|i: int| 0 <= i < f.len() && f[i] == node;
    assert(node.terminals()[0] == idx);
    assert(node.terminals().contains(idx));
    lemma_candidates_cover(f, i, idx);
}

/// Collects the characters of a string slice into a vector, in order.
pub fn chars_of(s: &str) -> (v: Vec<char>)
    ensures
        v@ == s@,
{
    let n = s.unicode_len();
    let mut v: Vec<char> = Vec::new();
    let mut i: usize = 0;
    while i < n
        invariant
            n == s@.len(),
            i <= n,
            v@ == s@.take(i as int),
        decreases n - i,
    {
        v.push(s.get_char(i));
        proof {
            assert(v@ =~= s@.take(i + 1));
        }
        i += 1;
    }
    proof {
        assert(v@ =~= s@);
    }
    v
}

} // verus!
