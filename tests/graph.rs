use seq_mrf::{build_mrf_from_sequences, build_mrf_with_policy, Mrf, Node};

fn seqs(items: &[&str]) -> Vec<String> {
    items.iter().map(|s| s.to_string()).collect()
}

fn node(seq: usize, pos: usize) -> Node {
    Node { seq, pos }
}

fn edges_of(mrf: &Mrf<f32>) -> Vec<(Node, Node, f32)> {
    let mut out = Vec::new();
    for n in mrf.nodes() {
        for (b, e) in mrf.neighbors(n).unwrap() {
            out.push((n, *b, e.potential));
        }
    }
    out
}

#[test]
fn empty_collection_has_no_keys() {
    let mrf = build_mrf_from_sequences(&seqs(&[]), 1.0f32);
    assert_eq!(mrf.len(), 0);
    assert!(mrf.is_empty());
    assert_eq!(mrf.edge_count(), 0);
    assert!(mrf.nodes().is_empty());
}

#[test]
fn single_length_one_sequence_has_no_keys() {
    let mrf = build_mrf_from_sequences(&seqs(&["A"]), 1.0f32);
    assert_eq!(mrf.len(), 0);
    assert!(mrf.is_empty());
    assert_eq!(mrf.edge_count(), 0);
}

#[test]
fn empty_strings_add_nothing() {
    let mrf = build_mrf_from_sequences(&seqs(&["", "", "G"]), 1.0f32);
    assert_eq!(mrf.len(), 0);
    assert_eq!(mrf.edge_count(), 0);
}

#[test]
fn two_sequences_one_edge() {
    let mrf = build_mrf_from_sequences(&seqs(&["AC", "G"]), 1.0f32);
    assert_eq!(mrf.len(), 1);
    assert_eq!(mrf.edge_count(), 1);
    assert_eq!(edges_of(&mrf), vec![(node(0, 0), node(0, 1), 1.0f32)]);
    assert!(mrf.neighbors(node(1, 0)).is_none());
    assert!(mrf.neighbors(node(0, 1)).is_none());
}

#[test]
fn one_sequence_three_edges() {
    let mrf = build_mrf_from_sequences(&seqs(&["ACGT"]), 1.0f32);
    assert_eq!(mrf.len(), 3);
    assert_eq!(mrf.edge_count(), 3);
    assert_eq!(
        edges_of(&mrf),
        vec![
            (node(0, 0), node(0, 1), 1.0f32),
            (node(0, 1), node(0, 2), 1.0f32),
            (node(0, 2), node(0, 3), 1.0f32),
        ]
    );
    assert!(mrf.neighbors(node(0, 3)).is_none());
}

#[test]
fn edge_count_is_sum_of_chain_lengths() {
    let input = seqs(&["ACGTA", "", "G", "TT", "ACG"]);
    let mrf = build_mrf_from_sequences(&input, 1.0f32);
    let expected: usize = input.iter().map(|s| s.len().saturating_sub(1)).sum();
    assert_eq!(expected, 7);
    assert_eq!(mrf.edge_count(), expected);
    assert_eq!(edges_of(&mrf).len(), expected);
}

#[test]
fn edges_step_forward_within_a_sequence() {
    let mrf = build_mrf_from_sequences(&seqs(&["ACG", "TTTT", "A", "GC"]), 1.0f32);
    let edges = edges_of(&mrf);
    assert!(!edges.is_empty());
    for (a, b, _) in edges {
        assert_eq!(a.seq, b.seq);
        assert_eq!(b.pos, a.pos + 1);
    }
}

#[test]
fn every_key_has_a_successor() {
    let input = seqs(&["ACG", "T", "GGTC"]);
    let mrf = build_mrf_from_sequences(&input, 1.0f32);
    let keys = mrf.nodes();
    assert_eq!(
        keys,
        vec![node(0, 0), node(0, 1), node(2, 0), node(2, 1), node(2, 2)]
    );
    for n in keys {
        assert!(n.pos + 1 < input[n.seq].len());
    }
}

#[test]
fn building_twice_gives_the_same_graph() {
    let input = seqs(&["ACGT", "GA", "C"]);
    let first = build_mrf_from_sequences(&input, 1.0f32);
    let second = build_mrf_from_sequences(&input, 1.0f32);
    assert_eq!(first.nodes(), second.nodes());
    assert_eq!(edges_of(&first), edges_of(&second));
}

#[test]
fn baseline_potential_is_one() {
    let mrf = build_mrf_from_sequences(&seqs(&["ACGT", "GGA"]), 1.0f32);
    let edges = edges_of(&mrf);
    assert_eq!(edges.len(), 5);
    for (_, _, p) in edges {
        assert_eq!(p, 1.0f32);
    }
}

#[test]
fn positions_count_bytes() {
    // 'é' takes two bytes, so "Aé" has three positions.
    let mrf = build_mrf_from_sequences(&seqs(&["Aé"]), 1.0f32);
    assert_eq!(mrf.edge_count(), 2);
    assert_eq!(mrf.nodes(), vec![node(0, 0), node(0, 1)]);
}

#[test]
fn lookup_of_each_key() {
    let mrf = build_mrf_from_sequences(&seqs(&["AC", "GTA"]), 1.0f32);
    let e = mrf.neighbors(node(1, 1)).unwrap();
    assert_eq!(e.len(), 1);
    assert_eq!(e[0].0, node(1, 2));
    assert_eq!(mrf.neighbors(node(0, 0)).unwrap()[0].0, node(0, 1));
    assert!(mrf.neighbors(node(1, 2)).is_none());
    assert!(mrf.neighbors(node(2, 0)).is_none());
}

#[test]
fn policy_sees_positions_and_content() {
    let input = seqs(&["ACG", "TA"]);
    let mrf = build_mrf_with_policy(&input, |s: usize, i: usize, j: usize, q: &String| {
        let bytes = q.as_bytes();
        (s, i, j, bytes[i], bytes[j])
    });
    assert_eq!(mrf.len(), 3);
    let got: Vec<(usize, usize, usize, u8, u8)> = mrf
        .nodes()
        .into_iter()
        .map(|n| mrf.neighbors(n).unwrap()[0].1.potential)
        .collect();
    assert_eq!(
        got,
        vec![
            (0, 0, 1, b'A', b'C'),
            (0, 1, 2, b'C', b'G'),
            (1, 0, 1, b'T', b'A'),
        ]
    );
}

#[test]
fn integer_potential() {
    let mrf = build_mrf_from_sequences(&seqs(&["ACG"]), 7u32);
    assert_eq!(mrf.neighbors(node(0, 1)).unwrap()[0].1.potential, 7);
    assert_eq!(mrf.edge_count(), 2);
}
