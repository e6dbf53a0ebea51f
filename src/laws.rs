//! Properties of the graph that the builders produce, proved over the model
//! that their contracts state.

use vstd::prelude::*;
use crate::mrf::{
    byte_len, chain_entries, chain_nodes, chain_of, edges_in, is_chain_graph, is_chain_source,
    keys_of, lengths, node_before, total_edges, Mrf, MrfEdge, Node,
};

verus! {

/// A graph whose entries each hold exactly one edge has as many edges as entries.
proof fn lemma_edges_in_single<P>(entries: Seq<(Node, Seq<(Node, MrfEdge<P>)>)>)
    requires
        forall|k: int| 0 <= k < entries.len() ==> (#[trigger] entries[k]).1.len() == 1,
    ensures
        edges_in(entries) == entries.len(),
    decreases entries.len(),
{
    if entries.len() > 0 {
        let rest = entries.drop_last();
        assert forall|k: int| 0 <= k < rest.len() implies (#[trigger] rest[k]).1.len() == 1 by {
            assert(rest[k] == entries[k]);
        }
        lemma_edges_in_single(rest);
    }
}

/// There is one source node for each position that has a successor.
pub proof fn lemma_chain_nodes_len(lens: Seq<nat>)
    ensures
        chain_nodes(lens).len() == total_edges(lens),
    decreases lens.len(),
{
    if lens.len() > 0 {
        lemma_chain_nodes_len(lens.drop_last());
    }
}

/// The source nodes are exactly the positions that have a successor.
pub proof fn lemma_chain_nodes_members(lens: Seq<nat>)
    requires
        lens.len() <= usize::MAX,
        forall|s: int| 0 <= s < lens.len() ==> #[trigger] lens[s] <= usize::MAX,
    ensures
        forall|k: int|
            0 <= k < chain_nodes(lens).len() ==> is_chain_source(
                lens,
                #[trigger] chain_nodes(lens)[k],
            ),
        forall|n: Node| is_chain_source(lens, n) ==> #[trigger] chain_nodes(lens).contains(n),
    decreases lens.len(),
{
    if lens.len() > 0 {
        let init = lens.drop_last();
        let s = lens.len() - 1;
        lemma_chain_nodes_members(init);
        let front = chain_nodes(init);
        let back = chain_of(s, lens.last());
        assert(chain_nodes(lens) == front + back);
        assert forall|k: int| 0 <= k < chain_nodes(lens).len() implies is_chain_source(
            lens,
            #[trigger] chain_nodes(lens)[k],
        ) by {
            if k < front.len() {
                assert(is_chain_source(init, front[k]));
                assert(init[front[k].seq as int] == lens[front[k].seq as int]);
            } else {
                assert(chain_nodes(lens)[k] == back[k - front.len()]);
            }
        }
        assert forall|n: Node| is_chain_source(lens, n) implies #[trigger] chain_nodes(
            lens,
        ).contains(n) by {
            if n.seq < s {
                assert(init[n.seq as int] == lens[n.seq as int]);
                assert(is_chain_source(init, n));
                assert(front.contains(n));
                let k = choose|k: int| 0 <= k < front.len() && front[k] == n;
                assert(chain_nodes(lens)[k] == n);
            } else {
                assert(back[n.pos as int] == n);
                assert(chain_nodes(lens)[front.len() + n.pos] == n);
            }
        }
    }
}

/// The source nodes come in builder order, so none appears twice.
pub proof fn lemma_chain_nodes_ordered(lens: Seq<nat>)
    requires
        lens.len() <= usize::MAX,
        forall|s: int| 0 <= s < lens.len() ==> #[trigger] lens[s] <= usize::MAX,
    ensures
        forall|j: int, k: int|
            0 <= j < k < chain_nodes(lens).len() ==> node_before(
                #[trigger] chain_nodes(lens)[j],
                #[trigger] chain_nodes(lens)[k],
            ),
        chain_nodes(lens).no_duplicates(),
    decreases lens.len(),
{
    if lens.len() > 0 {
        let init = lens.drop_last();
        let s = lens.len() - 1;
        lemma_chain_nodes_ordered(init);
        lemma_chain_nodes_members(init);
        let front = chain_nodes(init);
        let back = chain_of(s, lens.last());
        let all = chain_nodes(lens);
        assert(all == front + back);
        assert forall|j: int, k: int| 0 <= j < k < all.len() implies node_before(
            #[trigger] all[j],
            #[trigger] all[k],
        ) by {
            if k < front.len() {
                assert(all[j] == front[j] && all[k] == front[k]);
            } else if j < front.len() {
                assert(all[j] == front[j]);
                assert(is_chain_source(init, front[j]));
                assert(all[k] == back[k - front.len()]);
            } else {
                assert(all[j] == back[j - front.len()]);
                assert(all[k] == back[k - front.len()]);
            }
        }
        assert forall|j: int, k: int| 0 <= j < all.len() && 0 <= k < all.len() && j != k implies all[j]
            != all[k] by {
            if j < k {
                assert(node_before(all[j], all[k]));
            } else {
                assert(node_before(all[k], all[j]));
            }
        }
    }
}

/// The lengths of real sequences fit in a `usize`.
proof fn lemma_lengths_bounded(seqs: Seq<String>)
    requires
        seqs.len() <= usize::MAX,
    ensures
        lengths(seqs).len() <= usize::MAX,
        forall|s: int| 0 <= s < lengths(seqs).len() ==> #[trigger] lengths(seqs)[s] <= usize::MAX,
{
    assert forall|s: int| 0 <= s < lengths(seqs).len() implies #[trigger] lengths(seqs)[s]
        <= usize::MAX by {
        assert(lengths(seqs)[s] == byte_len(seqs[s]));
    }
}

/// The baseline graph is a chain graph of its sequences.
pub proof fn lemma_baseline_is_chain_graph<P>(seqs: Seq<String>, potential: P)
    ensures
        is_chain_graph(chain_entries(lengths(seqs), potential), lengths(seqs)),
{
    let e = chain_entries(lengths(seqs), potential);
    assert(keys_of(e) =~= chain_nodes(lengths(seqs)));
}

/// The number of edges equals the sum, over all sequences, of
/// `max(length - 1, 0)`.
pub proof fn lemma_edge_count<P>(entries: Seq<(Node, Seq<(Node, MrfEdge<P>)>)>, seqs: Seq<String>)
    requires
        is_chain_graph(entries, lengths(seqs)),
    ensures
        edges_in(entries) == total_edges(lengths(seqs)),
{
    lemma_edges_in_single(entries);
    lemma_chain_nodes_len(lengths(seqs));
    assert(keys_of(entries).len() == entries.len());
}

/// Every edge runs from a position `(s, i)` to `(s, i + 1)`: within one
/// sequence, one step forward.
pub proof fn lemma_edges_step_forward<P>(
    entries: Seq<(Node, Seq<(Node, MrfEdge<P>)>)>,
    seqs: Seq<String>,
)
    requires
        seqs.len() <= usize::MAX,
        is_chain_graph(entries, lengths(seqs)),
    ensures
        forall|k: int, j: int|
            0 <= k < entries.len() && 0 <= j < entries[k].1.len() ==> {
                let a = entries[k].0;
                let b = (#[trigger] entries[k].1[j]).0;
                b.seq == a.seq && b.pos == a.pos + 1
            },
{
    let lens = lengths(seqs);
    lemma_lengths_bounded(seqs);
    lemma_chain_nodes_members(lens);
    assert forall|k: int, j: int| 0 <= k < entries.len() && 0 <= j < entries[k].1.len() implies {
        let a = entries[k].0;
        let b = (#[trigger] entries[k].1[j]).0;
        b.seq == a.seq && b.pos == a.pos + 1
    } by {
        assert(keys_of(entries)[k] == entries[k].0);
        assert(is_chain_source(lens, chain_nodes(lens)[k]));
    }
}

/// Every source node has a successor in its own sequence, and every position
/// that has a successor is a source node.
pub proof fn lemma_keys_have_successors<P>(
    entries: Seq<(Node, Seq<(Node, MrfEdge<P>)>)>,
    seqs: Seq<String>,
)
    requires
        seqs.len() <= usize::MAX,
        is_chain_graph(entries, lengths(seqs)),
    ensures
        forall|k: int|
            0 <= k < entries.len() ==> {
                let n = (#[trigger] entries[k]).0;
                n.seq < seqs.len() && n.pos + 1 < byte_len(seqs[n.seq as int])
            },
        forall|n: Node|
            n.seq < seqs.len() && n.pos + 1 < byte_len(seqs[n.seq as int]) ==> #[trigger] keys_of(
                entries,
            ).contains(n),
{
    let lens = lengths(seqs);
    lemma_lengths_bounded(seqs);
    lemma_chain_nodes_members(lens);
    assert forall|k: int| 0 <= k < entries.len() implies {
        let n = (#[trigger] entries[k]).0;
        n.seq < seqs.len() && n.pos + 1 < byte_len(seqs[n.seq as int])
    } by {
        assert(keys_of(entries)[k] == entries[k].0);
        assert(is_chain_source(lens, chain_nodes(lens)[k]));
    }
    assert forall|n: Node| n.seq < seqs.len() && n.pos + 1 < byte_len(
        seqs[n.seq as int],
    ) implies #[trigger] keys_of(entries).contains(n) by {
        assert(is_chain_source(lens, n));
    }
}

/// No node is a key twice: the entries form a mapping.
pub proof fn lemma_keys_unique<P>(entries: Seq<(Node, Seq<(Node, MrfEdge<P>)>)>, seqs: Seq<String>)
    requires
        seqs.len() <= usize::MAX,
        is_chain_graph(entries, lengths(seqs)),
    ensures
        keys_of(entries).no_duplicates(),
{
    lemma_lengths_bounded(seqs);
    lemma_chain_nodes_ordered(lengths(seqs));
}

/// Building twice from the same sequences gives the same source nodes, each
/// with the same edges.
pub proof fn lemma_build_deterministic<P>(seqs: Seq<String>, potential: P, a: Mrf<P>, b: Mrf<P>)
    requires
        a@ == chain_entries(lengths(seqs), potential),
        b@ == chain_entries(lengths(seqs), potential),
    ensures
        a.keys() == b.keys(),
        forall|k: int| 0 <= k < a@.len() ==> #[trigger] a@[k].1 == b@[k].1,
{
}

/// Under the baseline policy every edge carries the one given potential.
pub proof fn lemma_constant_potential<P>(seqs: Seq<String>, potential: P)
    ensures
        forall|k: int, j: int|
            0 <= k < chain_entries(lengths(seqs), potential).len() && 0 <= j
                < chain_entries(lengths(seqs), potential)[k].1.len() ==> (#[trigger] chain_entries(
                lengths(seqs),
                potential,
            )[k].1[j]).1.potential == potential,
{
}

} // verus!
