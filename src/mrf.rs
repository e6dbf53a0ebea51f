use vstd::prelude::*;
use vstd::string::StringSliceAdditionalSpecFns;
use vstd::utf8::encode_utf8;

verus! {

/// A position in one of the input sequences.
#[derive(Clone, Copy, Debug, PartialEq, Eq, Structural, Hash)]
pub struct Node {
    /// Index of the sequence in the input collection.
    pub seq: usize,
    /// Byte offset of the position within that sequence.
    pub pos: usize,
}

/// The relation carried by an edge between two adjacent positions.
#[derive(Debug)]
pub struct MrfEdge<P> {
    pub potential: P,
}

/// Length in bytes of a sequence, the unit in which positions are counted,
/// as `str::len` reports it.
pub open spec fn byte_len(s: String) -> nat {
    (encode_utf8(s@).len() as usize) as nat
}

/// The byte lengths of a collection of sequences.
pub open spec fn lengths(seqs: Seq<String>) -> Seq<nat> {
    seqs.map_values(|s: String| byte_len(s))
}

/// Number of positions in a sequence of length `len` that have a successor.
pub open spec fn chain_len(len: nat) -> nat {
    if len == 0 { 0 } else { (len - 1) as nat }
}

/// The node that follows `n` in its sequence.
pub open spec fn successor(n: Node) -> Node {
    Node { seq: n.seq, pos: (n.pos + 1) as usize }
}

/// The source nodes of sequence `s`, in order of position.
pub open spec fn chain_of(s: int, len: nat) -> Seq<Node> {
    Seq::new(chain_len(len), |p: int| Node { seq: s as usize, pos: p as usize })
}

/// The source nodes of all sequences, sequence by sequence, each in order of
/// position: the order in which the builder inserts them.
pub open spec fn chain_nodes(lens: Seq<nat>) -> Seq<Node>
    decreases lens.len(),
{
    if lens.len() == 0 {
        Seq::empty()
    } else {
        chain_nodes(lens.drop_last()) + chain_of(lens.len() - 1, lens.last())
    }
}

/// Whether `n` has a successor among sequences of lengths `lens`.
pub open spec fn is_chain_source(lens: Seq<nat>, n: Node) -> bool {
    n.seq < lens.len() && n.pos + 1 < lens[n.seq as int]
}

/// The sum over all sequences of `max(len - 1, 0)`.
pub open spec fn total_edges(lens: Seq<nat>) -> nat
    decreases lens.len(),
{
    if lens.len() == 0 {
        0
    } else {
        total_edges(lens.drop_last()) + chain_len(lens.last())
    }
}

/// `a` comes before `b` in the builder's order of insertion.
pub open spec fn node_before(a: Node, b: Node) -> bool {
    a.seq < b.seq || (a.seq == b.seq && a.pos < b.pos)
}

/// The graph: each source node with its outgoing edges, in order of insertion.
/// Source nodes are unique and in builder order, and each has exactly one edge,
/// to its successor.
pub struct Mrf<P> {
    entries: Vec<(Node, Vec<(Node, MrfEdge<P>)>)>,
}

/// Source nodes of a graph's entries.
pub open spec fn keys_of<P>(entries: Seq<(Node, Seq<(Node, MrfEdge<P>)>)>) -> Seq<Node> {
    entries.map_values(|e: (Node, Seq<(Node, MrfEdge<P>)>)| e.0)
}

/// Total number of edges over a graph's entries.
pub open spec fn edges_in<P>(entries: Seq<(Node, Seq<(Node, MrfEdge<P>)>)>) -> nat
    decreases entries.len(),
{
    if entries.len() == 0 {
        0
    } else {
        edges_in(entries.drop_last()) + entries.last().1.len()
    }
}

/// `entries` is the graph of sequences of lengths `lens`, whatever the
/// potentials: one entry per source node, in builder order, each with one
/// edge, to the node's successor.
pub open spec fn is_chain_graph<P>(entries: Seq<(Node, Seq<(Node, MrfEdge<P>)>)>, lens: Seq<nat>) -> bool {
    &&& keys_of(entries) == chain_nodes(lens)
    &&& forall|k: int|
        0 <= k < entries.len() ==> {
            &&& (#[trigger] entries[k]).1.len() == 1
            &&& entries[k].1[0].0 == successor(entries[k].0)
        }
}

/// The graph built by the baseline policy: one entry per source node, in
/// builder order, holding one edge to the successor with the given potential.
pub open spec fn chain_entries<P>(lens: Seq<nat>, potential: P) -> Seq<
    (Node, Seq<(Node, MrfEdge<P>)>),
> {
    chain_nodes(lens).map_values(
        |n: Node| (n, seq![(successor(n), MrfEdge { potential })]),
    )
}

impl<P> View for Mrf<P> {
    type V = Seq<(Node, Seq<(Node, MrfEdge<P>)>)>;

    closed spec fn view(&self) -> Self::V {
        self.entries@.map_values(|e: (Node, Vec<(Node, MrfEdge<P>)>)| (e.0, e.1@))
    }
}

impl<P> Mrf<P> {
    #[verifier::type_invariant]
    spec fn well_formed(self) -> bool {
        &&& forall|j: int, k: int|
            0 <= j < k < self.entries@.len() ==> node_before(
                #[trigger] self.entries@[j].0,
                #[trigger] self.entries@[k].0,
            )
        &&& forall|k: int|
            0 <= k < self.entries@.len() ==> {
                &&& (#[trigger] self.entries@[k]).1@.len() == 1
                &&& self.entries@[k].1@[0].0 == successor(self.entries@[k].0)
            }
    }

    /// Source nodes, in order of insertion.
    pub open spec fn keys(&self) -> Seq<Node> {
        keys_of(self@)
    }

    /// Number of source nodes.
    pub fn len(&self) -> (r: usize)
        ensures
            r == self@.len(),
    {
        self.entries.len()
    }

    /// Whether the graph has no source node.
    pub fn is_empty(&self) -> (r: bool)
        ensures
            r == (self@.len() == 0),
    {
        self.entries.len() == 0
    }

    /// Total number of edges.
    pub fn edge_count(&self) -> (r: usize)
        ensures
            r == edges_in(self@),
    {
        proof {
            use_type_invariant(self);
        }
        let n = self.entries.len();
        let mut total: usize = 0;
        let mut k: usize = 0;
        while k < n
            invariant
                n == self.entries@.len(),
                k <= n,
                total == k,
                total == edges_in(self@.take(k as int)),
                forall|j: int| 0 <= j < n ==> (#[trigger] self.entries@[j]).1@.len() == 1,
            decreases n - k,
        {
            assert(self@.take(k + 1).drop_last() =~= self@.take(k as int));
            total = total + self.entries[k].1.len();
            k += 1;
        }
        assert(self@.take(n as int) =~= self@);
        total
    }

    /// Source nodes, in order of insertion.
    pub fn nodes(&self) -> (r: Vec<Node>)
        ensures
            r@ == self.keys(),
    {
        let n = self.entries.len();
        let mut r: Vec<Node> = Vec::new();
        let mut k: usize = 0;
        while k < n
            invariant
                n == self.entries@.len(),
                k <= n,
                r@ == self.keys().take(k as int),
            decreases n - k,
        {
            r.push(self.entries[k].0);
            k += 1;
            assert(r@ =~= self.keys().take(k as int));
        }
        assert(self.keys().take(n as int) =~= self.keys());
        r
    }

    /// Outgoing edges of `node`, in order of insertion, or `None` where `node`
    /// is no source node.
    pub fn neighbors(&self, node: Node) -> (r: Option<&Vec<(Node, MrfEdge<P>)>>)
        ensures
            r is None <==> !self.keys().contains(node),
            forall|k: int|
                0 <= k < self@.len() && #[trigger] self@[k].0 == node ==> r is Some && r->0@
                    == self@[k].1,
    {
        proof {
            use_type_invariant(self);
        }
        let mut lo: usize = 0;
        let mut hi: usize = self.entries.len();
        while lo < hi
            invariant
                lo <= hi <= self.entries@.len(),
                forall|j: int, k: int|
                    0 <= j < k < self.entries@.len() ==> node_before(
                        #[trigger] self.entries@[j].0,
                        #[trigger] self.entries@[k].0,
                    ),
                forall|k: int| 0 <= k < lo ==> node_before(#[trigger] self.entries@[k].0, node),
                forall|k: int|
                    hi <= k < self.entries@.len() ==> node_before(
                        node,
                        #[trigger] self.entries@[k].0,
                    ),
            decreases hi - lo,
        {
            let mid = lo + (hi - lo) / 2;
            let key = self.entries[mid].0;
            if key.seq == node.seq && key.pos == node.pos {
                proof {
                    assert forall|k: int|
                        0 <= k < self@.len() && #[trigger] self@[k].0 == node implies k == mid by {
                        if k < mid {
                            assert(node_before(self.entries@[k].0, self.entries@[mid as int].0));
                        } else if k > mid {
                            assert(node_before(self.entries@[mid as int].0, self.entries@[k].0));
                        }
                    }
                    assert(self.keys()[mid as int] == node);
                }
                return Some(&self.entries[mid].1);
            } else if key.seq < node.seq || (key.seq == node.seq && key.pos < node.pos) {
                assert forall|k: int| 0 <= k <= mid implies node_before(
                    #[trigger] self.entries@[k].0,
                    node,
                ) by {
                    if k < mid {
                        assert(node_before(self.entries@[k].0, self.entries@[mid as int].0));
                    }
                }
                lo = mid + 1;
            } else {
                assert forall|k: int| mid <= k < self.entries@.len() implies node_before(
                    node,
                    #[trigger] self.entries@[k].0,
                ) by {
                    if k > mid {
                        assert(node_before(self.entries@[mid as int].0, self.entries@[k].0));
                    }
                }
                hi = mid;
            }
        }
        proof {
            assert forall|k: int| 0 <= k < self.keys().len() implies self.keys()[k] != node by {
                assert(self.keys()[k] == self.entries@[k].0);
            }
        }
        None
    }
}

/// Builds the graph of a collection of sequences: every position of sequence
/// `s` that has a successor becomes a source node `(s, i)`, with one edge to
/// `(s, i + 1)` whose potential is `policy(s, i, i + 1, &sequences[s])`.
/// Positions are counted in bytes; a sequence of length 0 or 1 adds nothing.
pub fn build_mrf_with_policy<P, F: Fn(usize, usize, usize, &String) -> P>(
    sequences: &[String],
    policy: F,
) -> (r: Mrf<P>)
    requires
        forall|s: usize, i: usize, j: usize, q: &String| #[trigger]
            policy.requires((s, i, j, q)),
    ensures
        is_chain_graph(r@, lengths(sequences@)),
        forall|k: int|
            0 <= k < r@.len() ==> {
                let n = #[trigger] r@[k].0;
                policy.ensures(
                    (n.seq, n.pos, successor(n).pos, &sequences@[n.seq as int]),
                    r@[k].1[0].1.potential,
                )
            },
{
    let mut entries: Vec<(Node, Vec<(Node, MrfEdge<P>)>)> = Vec::new();
    let n = sequences.len();
    let mut s: usize = 0;
    while s < n
        invariant
            n == sequences@.len(),
            s <= n,
            forall|s2: usize, i: usize, j: usize, q: &String| #[trigger]
                policy.requires((s2, i, j, q)),
            keys_of(entries@.map_values(|e: (Node, Vec<(Node, MrfEdge<P>)>)| (e.0, e.1@)))
                == chain_nodes(lengths(sequences@).take(s as int)),
            forall|j: int, k: int|
                0 <= j < k < entries@.len() ==> node_before(
                    #[trigger] entries@[j].0,
                    #[trigger] entries@[k].0,
                ),
            forall|k: int| 0 <= k < entries@.len() ==> (#[trigger] entries@[k]).0.seq < s,
            forall|k: int|
                0 <= k < entries@.len() ==> {
                    let m = (#[trigger] entries@[k]).0;
                    &&& entries@[k].1@.len() == 1
                    &&& entries@[k].1@[0].0 == successor(m)
                    &&& policy.ensures(
                        (m.seq, m.pos, successor(m).pos, &sequences@[m.seq as int]),
                        entries@[k].1@[0].1.potential,
                    )
                },
        decreases n - s,
    {
        let seq = &sequences[s];
        let text = seq.as_str();
        let len = text.len();
        assert(text.spec_bytes() == encode_utf8(seq@));
        let last = len.saturating_sub(1);
        assert(lengths(sequences@)[s as int] == len as nat);
        let mut i: usize = 0;
        while i < last
            invariant
                n == sequences@.len(),
                s < n,
                seq == &sequences@[s as int],
                i <= last,
                last as nat == chain_len(lengths(sequences@)[s as int]),
                forall|s2: usize, i2: usize, j: usize, q: &String| #[trigger]
                    policy.requires((s2, i2, j, q)),
                keys_of(entries@.map_values(|e: (Node, Vec<(Node, MrfEdge<P>)>)| (e.0, e.1@)))
                    == chain_nodes(lengths(sequences@).take(s as int)) + chain_of(
                    s as int,
                    lengths(sequences@)[s as int],
                ).take(i as int),
                forall|j: int, k: int|
                    0 <= j < k < entries@.len() ==> node_before(
                        #[trigger] entries@[j].0,
                        #[trigger] entries@[k].0,
                    ),
                forall|k: int|
                    0 <= k < entries@.len() ==> node_before(
                        #[trigger] entries@[k].0,
                        Node { seq: s, pos: i },
                    ),
                forall|k: int|
                    0 <= k < entries@.len() ==> {
                        let m = (#[trigger] entries@[k]).0;
                        &&& entries@[k].1@.len() == 1
                        &&& entries@[k].1@[0].0 == successor(m)
                        &&& policy.ensures(
                            (m.seq, m.pos, successor(m).pos, &sequences@[m.seq as int]),
                            entries@[k].1@[0].1.potential,
                        )
                    },
            decreases last - i,
        {
            let a = Node { seq: s, pos: i };
            let b = Node { seq: s, pos: i + 1 };
            let potential = policy(s, i, i + 1, seq);
            let mut edges: Vec<(Node, MrfEdge<P>)> = Vec::new();
            edges.push((b, MrfEdge { potential }));
            let ghost old_entries = entries@;
            entries.push((a, edges));
            proof {
                let lens = lengths(sequences@);
                let f = |e: (Node, Vec<(Node, MrfEdge<P>)>)| (e.0, e.1@);
                assert(entries@.map_values(f) =~= old_entries.map_values(f).push(f((a, edges))));
                assert(keys_of(entries@.map_values(f)) =~= keys_of(old_entries.map_values(f)).push(a));
                assert(chain_of(s as int, lens[s as int]).take(i + 1) =~= chain_of(
                    s as int,
                    lens[s as int],
                ).take(i as int).push(a));
            }
            i += 1;
        }
        proof {
            let lens = lengths(sequences@);
            assert(lens.take(s + 1).drop_last() =~= lens.take(s as int));
            assert(chain_of(s as int, lens[s as int]).take(i as int) =~= chain_of(
                s as int,
                lens[s as int],
            ));
        }
        s += 1;
    }
    proof {
        assert(lengths(sequences@).take(n as int) =~= lengths(sequences@));
    }
    let r = Mrf { entries };
    r
}

/// Builds the graph of a collection of sequences with the baseline policy:
/// every edge carries the same `potential`, whatever its endpoints.
pub fn build_mrf_from_sequences<P: Copy>(sequences: &[String], potential: P) -> (r: Mrf<P>)
    ensures
        r@ == chain_entries(lengths(sequences@), potential),
{
    let constant = move |s: usize, i: usize, j: usize, q: &String| -> (p: P)
        ensures
            p == potential,
        {
            potential
        };
    let r = build_mrf_with_policy(sequences, constant);
    proof {
        let lens = lengths(sequences@);
        assert(r@.len() == chain_nodes(lens).len()) by {
            assert(keys_of(r@).len() == r@.len());
        }
        assert(forall|k: int| 0 <= k < r@.len() ==> (#[trigger] r@[k]).1.len() == 1);
        assert forall|k: int| 0 <= k < r@.len() implies r@[k] == chain_entries(
            lens,
            potential,
        )[k] by {
            assert(keys_of(r@)[k] == r@[k].0);
            assert(r@[k].1 =~= seq![(successor(r@[k].0), MrfEdge { potential })]);
        }
        assert(r@ =~= chain_entries(lens, potential));
    }
    r
}

} // verus!
