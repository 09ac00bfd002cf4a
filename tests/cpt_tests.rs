use cpt_rust::cpt::CPT;
use cpt_rust::data_types::{DataTypes, ScoreError, SequenceMatchFunction, SimilarityScores};
use cpt_rust::inverted_index::InvertedIndex;
use cpt_rust::nodes::{Node, NodeId};
use cpt_rust::predict::PredictError;
use std::cmp::Ordering;

fn ints(v: &[usize]) -> Vec<DataTypes> {
    v.iter().map(|&x| DataTypes::Integer(x)).collect()
}

fn id(i: usize) -> NodeId {
    NodeId::new_with_value(i)
}

fn symbols(cpt: &CPT, path: &[(NodeId, Vec<(SequenceMatchFunction, SimilarityScores)>)]) -> Vec<DataTypes> {
    path.iter().map(|step| cpt.get_data(step.0).unwrap()).collect()
}

fn trained(seqs: &[&[usize]]) -> CPT {
    let mut cpt = CPT::new();
    for s in seqs {
        cpt.add_sequence_to_root(ints(s));
    }
    cpt
}

#[test]
fn it_works() {
    let mut cpt = CPT::new();
    cpt.add_sequence(ints(&[2, 2, 3]), CPT::get_root_id());
    cpt.add_sequence(ints(&[2, 3, 3]), CPT::get_root_id());
    assert_eq!(cpt.nodes.len(), 6);
    assert_eq!(cpt.get_data(id(2)), Some(DataTypes::Integer(2)));
    assert_eq!(cpt.get(id(2)).unwrap().children, vec![id(3), id(5)]);
    assert_eq!(cpt.get(id(5)).unwrap().parent, Some(id(2)));
    assert_eq!(cpt.sequences_lookup_table, vec![id(4), id(6)]);
    assert_eq!(cpt.inverted_index.get_value_ids(DataTypes::Integer(2)).unwrap(), &vec![id(2), id(3)]);

    let cpt = trained(&[&[1, 2, 3], &[3, 5, 6], &[1, 5, 6], &[1, 5, 4]]);
    let p = cpt.predict(&ints(&[3, 7, 1]), 3).unwrap();
    assert_eq!(
        p,
        vec![
            (DataTypes::Integer(5), 3, 2),
            (DataTypes::Integer(6), 2, 2),
            (DataTypes::Integer(4), 1, 1),
        ]
    );
}

#[test]
fn scenario_predict_shared_values() {
    let cpt = trained(&[&[1, 2, 3], &[4, 5, 6], &[1, 5, 6], &[1, 5, 4]]);
    let p = cpt.predict(&ints(&[3, 7, 1]), 3).unwrap();
    assert!(!p.is_empty());
    assert_eq!(
        p,
        vec![
            (DataTypes::Integer(5), 2, 2),
            (DataTypes::Integer(4), 1, 2),
            (DataTypes::Integer(6), 1, 2),
        ]
    );
    // Every predicted symbol follows 1 or 3 in a trained sequence.
    for (sym, _, _) in &p {
        assert!([DataTypes::Integer(2), DataTypes::Integer(3), DataTypes::Integer(4), DataTypes::Integer(5), DataTypes::Integer(6)]
            .contains(sym));
    }
}

#[test]
fn scenario_shared_first_symbol() {
    let cpt = trained(&[&[2, 2, 3], &[2, 3, 3]]);
    assert_eq!(cpt.nodes.len(), 6);
    assert_eq!(cpt.inverted_index.get_value_ids(DataTypes::Integer(2)).unwrap().len(), 2);
}

#[test]
fn retraining_adds_no_node() {
    let mut cpt = CPT::new();
    cpt.add_sequence_to_root(ints(&[1, 2, 3]));
    let once = cpt.nodes.len();
    cpt.add_sequence_to_root(ints(&[1, 2, 3]));
    assert_eq!(cpt.nodes.len(), once);
    assert_eq!(once, 4);
    assert_eq!(cpt.sequences_lookup_table, vec![id(4), id(4)]);
    cpt.add_sequence_to_root(ints(&[1, 2]));
    assert_eq!(cpt.nodes.len(), 4);
    assert_eq!(cpt.sequences_lookup_table[2], id(3));
}

#[test]
fn index_consistent_after_training() {
    let cpt = trained(&[&[5, 1, 9], &[1, 5, 5], &[9, 0, 3]]);
    for i in 1..cpt.nodes.len() {
        let d = cpt.nodes[i].data.unwrap();
        assert!(cpt.inverted_index.get_value_ids(d).unwrap().contains(&id(i + 1)));
    }
    let values = cpt.inverted_index.values();
    for w in values.windows(2) {
        assert_eq!(InvertedIndex::element_ordering(w[0], w[1]), Ordering::Less);
    }
    assert_eq!(values, &ints(&[0, 1, 3, 5, 9]));
    assert_eq!(cpt.inverted_index.get_value_ids(DataTypes::Integer(7)), None);
}

#[test]
fn index_parts_round_trip() {
    let cpt = trained(&[&[4, 2], &[2, 4, 4]]);
    let ix = &cpt.inverted_index;
    let back = InvertedIndex::from_parts(ix.values().clone(), ix.node_ids().clone()).unwrap();
    assert_eq!(back.values(), ix.values());
    assert_eq!(back.node_ids(), ix.node_ids());
    assert!(InvertedIndex::from_parts(ints(&[2, 1]), vec![vec![id(2)], vec![id(3)]]).is_none());
    assert!(InvertedIndex::from_parts(ints(&[1]), vec![vec![]]).is_none());
    assert!(InvertedIndex::from_parts(ints(&[1]), vec![]).is_none());
}

#[test]
fn forward_and_backward_find_the_query() {
    let cpt = trained(&[&[1, 2, 3, 4], &[2, 9]]);
    let q = ints(&[2, 3]);
    let fwd = cpt.match_sequence_forward(&q, &[SequenceMatchFunction::StrictEqual]).unwrap();
    assert!(fwd.iter().any(|p| symbols(&cpt, p) == q));
    let bwd = cpt.match_sequence_backward(&q, &[SequenceMatchFunction::StrictEqual]).unwrap();
    assert!(bwd.iter().any(|p| symbols(&cpt, p) == q));
    assert_eq!(bwd.len(), 1);
    assert_eq!(bwd[0].iter().map(|s| s.0).collect::<Vec<_>>(), vec![id(3), id(4)]);
}

#[test]
fn distance_ranks_smaller_last() {
    let cpt = trained(&[&[10, 12], &[10, 15]]);
    let r = cpt
        .match_sequence(&ints(&[10, 10]), false, &[SequenceMatchFunction::AlgebraicDistance])
        .unwrap();
    assert_eq!(r.len(), 2);
    assert_eq!(r[0].1, vec![(SequenceMatchFunction::AlgebraicDistance, SimilarityScores::Distance(5))]);
    assert_eq!(r[1].1, vec![(SequenceMatchFunction::AlgebraicDistance, SimilarityScores::Distance(2))]);
}

#[test]
fn length_ranks_larger_last() {
    let cpt = trained(&[&[7, 8, 9], &[9]]);
    let r = cpt
        .match_sequence(&ints(&[8, 9]), true, &[SequenceMatchFunction::SequenceLength])
        .unwrap();
    let lens: Vec<SimilarityScores> = r.iter().map(|x| x.1[0].1).collect();
    assert_eq!(
        lens,
        vec![
            SimilarityScores::Length(1),
            SimilarityScores::Length(1),
            SimilarityScores::Length(2),
            SimilarityScores::Length(2)
        ]
    );
    let firsts: Vec<NodeId> = r.iter().map(|x| x.0[0].0).collect();
    assert_eq!(firsts, vec![id(2), id(5), id(2), id(3)]);
}

#[test]
fn last_metric_dominates() {
    let cpt = trained(&[&[7, 8, 9], &[9]]);
    let r = cpt
        .match_sequence(
            &ints(&[8, 9]),
            true,
            &[SequenceMatchFunction::AlgebraicDistance, SequenceMatchFunction::SequenceLength],
        )
        .unwrap();
    let keys: Vec<(SimilarityScores, SimilarityScores)> = r.iter().map(|x| (x.1[1].1, x.1[0].1)).collect();
    assert_eq!(
        keys,
        vec![
            (SimilarityScores::Length(1), SimilarityScores::Distance(2)),
            (SimilarityScores::Length(1), SimilarityScores::Distance(0)),
            (SimilarityScores::Length(2), SimilarityScores::Distance(2)),
            (SimilarityScores::Length(2), SimilarityScores::Distance(0)),
        ]
    );
    let firsts: Vec<NodeId> = r.iter().map(|x| x.0[0].0).collect();
    assert_eq!(firsts, vec![id(2), id(5), id(2), id(3)]);
}

#[test]
fn strict_equal_scores_each_step() {
    let cpt = trained(&[&[1, 2], &[1, 3]]);
    let r = cpt.match_sequence(&ints(&[1, 3]), false, &[SequenceMatchFunction::StrictEqual]).unwrap();
    assert_eq!(r.len(), 2);
    assert_eq!(r[0].1, vec![(SequenceMatchFunction::StrictEqual, SimilarityScores::IsEqual(false))]);
    assert_eq!(r[1].1, vec![(SequenceMatchFunction::StrictEqual, SimilarityScores::IsEqual(true))]);
    assert_eq!(symbols(&cpt, &r[1].0), ints(&[1, 3]));
}

#[test]
fn incomparable_metric_is_refused() {
    let mut cpt = CPT::new();
    cpt.add_sequence_to_root(vec![DataTypes::U8(1), DataTypes::U8(2)]);
    let r = cpt.match_sequence(&[DataTypes::U8(1)], false, &[SequenceMatchFunction::AlgebraicDistance]);
    assert_eq!(r.unwrap_err(), ScoreError::Incomparable);
    let r = cpt.match_sequence_backward(&ints(&[1]), &[SequenceMatchFunction::AlgebraicDistance]);
    assert_eq!(r.unwrap_err(), ScoreError::Incomparable);
    assert!(cpt.match_sequence(&[DataTypes::U8(1)], false, &[SequenceMatchFunction::SequenceLength]).is_ok());
}

#[test]
fn empty_query_and_empty_tree() {
    let cpt = CPT::new();
    assert!(cpt.match_sequence(&ints(&[1, 2]), false, &[SequenceMatchFunction::StrictEqual]).unwrap().is_empty());
    assert!(cpt.predict(&ints(&[1, 2]), 2).unwrap().is_empty());
    let cpt = trained(&[&[1, 2]]);
    assert!(cpt.match_sequence(&[], true, &[SequenceMatchFunction::StrictEqual]).unwrap().is_empty());
    assert!(cpt.predict(&[], 0).unwrap().is_empty());
}

#[test]
fn predict_prefix_too_long() {
    let cpt = trained(&[&[1, 2]]);
    assert_eq!(cpt.predict(&ints(&[1]), 2), Err(PredictError::PrefixTooLong));
}

#[test]
fn predict_ignores_inner_terminals() {
    // [1, 2] ends at an inner node of [1, 2, 3]: only the leaf counts.
    let cpt = trained(&[&[1, 2, 3], &[1, 2]]);
    assert_eq!(cpt.predict(&ints(&[1]), 1).unwrap(), vec![(DataTypes::Integer(2), 1, 1), (DataTypes::Integer(3), 1, 1)]);
}

#[test]
fn predict_counts_repeated_sequences() {
    let cpt = trained(&[&[1, 4], &[1, 4], &[1, 5, 5]]);
    assert_eq!(cpt.predict(&ints(&[1]), 1).unwrap(), vec![(DataTypes::Integer(4), 2, 1), (DataTypes::Integer(5), 2, 2)]);
}

#[test]
fn similarity_formulas() {
    let a = DataTypes::Integer(3);
    let b = DataTypes::Integer(7);
    assert_eq!(a.compute_similarity(SequenceMatchFunction::AlgebraicDistance, b), Ok(SimilarityScores::Distance(4)));
    assert_eq!(b.compute_similarity(SequenceMatchFunction::AlgebraicDistance, a), Ok(SimilarityScores::Distance(4)));
    assert_eq!(a.compute_similarity(SequenceMatchFunction::StrictEqual, b), Ok(SimilarityScores::IsEqual(false)));
    assert_eq!(a.compute_similarity(SequenceMatchFunction::StrictEqual, a), Ok(SimilarityScores::IsEqual(true)));
    assert_eq!(a.compute_similarity(SequenceMatchFunction::SequenceLength, b), Ok(SimilarityScores::Length(1)));
    assert_eq!(
        DataTypes::U8(3).compute_similarity(SequenceMatchFunction::AlgebraicDistance, a),
        Err(ScoreError::Incomparable)
    );
    assert_eq!(
        InvertedIndex::element_matching(SequenceMatchFunction::AlgebraicDistance, a, DataTypes::Integer(1)),
        Ok(SimilarityScores::Distance(2))
    );
}

#[test]
fn score_arithmetic_and_order() {
    assert_eq!(SimilarityScores::Distance(2).add(SimilarityScores::Distance(5)), Ok(SimilarityScores::Distance(7)));
    assert_eq!(SimilarityScores::Length(2).add(SimilarityScores::Length(5)), Ok(SimilarityScores::Length(7)));
    assert_eq!(SimilarityScores::IsEqual(true).add(SimilarityScores::IsEqual(false)), Ok(SimilarityScores::IsEqual(false)));
    assert_eq!(SimilarityScores::Similarity(1).add(SimilarityScores::Similarity(2)), Ok(SimilarityScores::Similarity(3)));
    assert_eq!(SimilarityScores::Distance(2).add(SimilarityScores::Length(5)), Err(ScoreError::Incomparable));
    assert_eq!(SimilarityScores::NoScore.add(SimilarityScores::NoScore), Err(ScoreError::Incomparable));
    assert_eq!(SimilarityScores::Distance(u128::MAX).add(SimilarityScores::Distance(1)), Err(ScoreError::Overflow));
    assert_eq!(SimilarityScores::Distance(2).compare(&SimilarityScores::Distance(5)), Ok(Ordering::Greater));
    assert_eq!(SimilarityScores::Length(1).compare(&SimilarityScores::Length(3)), Ok(Ordering::Less));
    assert_eq!(SimilarityScores::IsEqual(true).compare(&SimilarityScores::IsEqual(false)), Ok(Ordering::Greater));
    assert_eq!(SimilarityScores::Length(1).compare(&SimilarityScores::Distance(3)), Err(ScoreError::Incomparable));
    assert_eq!(SimilarityScores::Distance(9).get_zero(), Ok(SimilarityScores::Distance(0)));
    assert_eq!(SimilarityScores::IsEqual(false).get_zero(), Ok(SimilarityScores::IsEqual(true)));
    assert_eq!(SimilarityScores::NoScore.get_zero(), Err(ScoreError::Incomparable));
    assert_eq!(SequenceMatchFunction::SequenceLength.zero_score(), SimilarityScores::Length(0));
}

#[test]
fn symbol_order() {
    assert_eq!(DataTypes::Integer(3).ordering(DataTypes::Integer(4)), Ordering::Less);
    assert_eq!(DataTypes::Integer(300).ordering(DataTypes::U8(4)), Ordering::Less);
    assert_eq!(DataTypes::U8(4).ordering(DataTypes::U8(4)), Ordering::Equal);
    assert!(InvertedIndex::insert_element_matching(DataTypes::U8(4), DataTypes::U8(4)));
    assert!(!InvertedIndex::insert_element_matching(DataTypes::U8(4), DataTypes::Integer(4)));
}

#[test]
fn similar_lookup() {
    let cpt = trained(&[&[1, 2], &[4]]);
    let strict = cpt.inverted_index.get_similar_value_ids(&[SequenceMatchFunction::StrictEqual], DataTypes::Integer(2)).unwrap();
    assert_eq!(strict, vec![(id(3), vec![(SequenceMatchFunction::StrictEqual, SimilarityScores::IsEqual(true))])]);
    let dist = cpt
        .inverted_index
        .get_similar_value_ids(&[SequenceMatchFunction::StrictEqual, SequenceMatchFunction::AlgebraicDistance], DataTypes::Integer(2))
        .unwrap();
    assert_eq!(
        dist,
        vec![
            (id(2), vec![(SequenceMatchFunction::AlgebraicDistance, SimilarityScores::Distance(1))]),
            (
                id(3),
                vec![
                    (SequenceMatchFunction::StrictEqual, SimilarityScores::IsEqual(true)),
                    (SequenceMatchFunction::AlgebraicDistance, SimilarityScores::Distance(0))
                ]
            ),
            (id(4), vec![(SequenceMatchFunction::AlgebraicDistance, SimilarityScores::Distance(2))]),
        ]
    );
}

#[test]
fn tree_accessors() {
    let mut cpt = CPT::new();
    assert_eq!(CPT::get_root_id(), id(1));
    assert!(cpt.get(id(1)).unwrap().data.is_none());
    assert!(cpt.get(id(2)).is_none());
    assert!(cpt.get(NodeId { index1: 0 }).is_none());
    let c = cpt.add_child(DataTypes::Integer(8), id(1));
    assert_eq!(c, id(2));
    assert_eq!(cpt.add_child(DataTypes::Integer(8), id(1)), id(2));
    assert_eq!(cpt.child_exists(DataTypes::Integer(8), id(1)), Some(id(2)));
    assert_eq!(cpt.child_exists(DataTypes::Integer(9), id(1)), None);
    assert_eq!(cpt.child_exists(DataTypes::Integer(8), id(7)), None);
    let n = cpt.new_node(Node { parent: Some(id(2)), children: vec![], data: Some(DataTypes::U8(1)) });
    assert_eq!(n, id(3));
    assert_eq!(cpt.inverted_index.get_value_ids(DataTypes::U8(1)).unwrap(), &vec![id(3)]);
    cpt.update_node(id(3), Node { parent: Some(id(2)), children: vec![], data: Some(DataTypes::U8(1)) });
    assert_eq!(cpt.get_data(id(3)), Some(DataTypes::U8(1)));
    let d: CPT = Default::default();
    assert_eq!(d.nodes.len(), 1);
}

#[test]
fn node_and_id_helpers() {
    let mut n = Node::new(DataTypes::Integer(4));
    assert_eq!(n.get(), &Some(DataTypes::Integer(4)));
    *n.get_mut() = Some(DataTypes::U8(2));
    assert_eq!(n.data, Some(DataTypes::U8(2)));
    assert!(n.parent.is_none() && n.children.is_empty());
    assert_eq!(NodeId::new(), id(1));
    assert_eq!(NodeId::default(), id(1));
    assert_eq!(id(5).index0(), 4);
    assert_eq!(NodeId::from_non_zero_usize(3), id(3));
    assert!(id(2) < id(10));
}

#[test]
fn dot_description() {
    let cpt = trained(&[&[1]]);
    assert_eq!(
        cpt.to_dot(),
        "digraph  Result { \nsubgraph cluster_cpt {0[label=\"ID=1, None\"];\n0 -> 1;\n1[label=\"ID=2, Some(Integer(1))\"];\n}\nsubgraph cluster_seq {seq0[label=\"Seq 0\"; shape=\"rectangle\"];\nseq0 -> 1;\n}}"
    );
    let mut big = CPT::new();
    big.add_sequence_to_root((0..12).map(DataTypes::Integer).collect());
    big.add_sequence_to_root(vec![DataTypes::U8(200)]);
    let dot = big.to_dot();
    assert!(dot.contains("10[label=\"ID=11, Some(Integer(9))\"];\n10 -> 11;\n"));
    assert!(dot.contains("13[label=\"ID=14, Some(U8(200))\"];\n"));
    assert!(dot.contains("seq1 -> 13;\n"));
}

#[test]
fn tree_parts_round_trip() {
    let cpt = trained(&[&[3, 1, 2], &[3, 2], &[2, 2, 2]]);
    assert!(cpt.is_well_formed());
    let ix = InvertedIndex::from_parts(cpt.inverted_index.values().clone(), cpt.inverted_index.node_ids().clone()).unwrap();
    let back = CPT { inverted_index: ix, nodes: cpt.nodes.clone(), sequences_lookup_table: cpt.sequences_lookup_table.clone() };
    assert!(back.is_well_formed());
    assert_eq!(back.inverted_index.values(), cpt.inverted_index.values());
    assert_eq!(back.inverted_index.node_ids(), cpt.inverted_index.node_ids());
    for (a, b) in back.nodes.iter().zip(cpt.nodes.iter()) {
        assert_eq!((a.parent, &a.children, a.data), (b.parent, &b.children, b.data));
    }
    assert_eq!(back.sequences_lookup_table, cpt.sequences_lookup_table);
    assert_eq!(back.to_dot(), cpt.to_dot());

    let mut broken = CPT { inverted_index: InvertedIndex::new(), nodes: cpt.nodes.clone(), sequences_lookup_table: vec![] };
    assert!(!broken.is_well_formed());
    broken.nodes.truncate(1);
    broken.nodes[0].children.clear();
    assert!(broken.is_well_formed());
    let mut bad_parent = trained(&[&[1, 2]]);
    bad_parent.nodes[2].parent = Some(id(1));
    assert!(!bad_parent.is_well_formed());
    let mut bad_table = trained(&[&[1, 2]]);
    bad_table.sequences_lookup_table.push(id(9));
    assert!(!bad_table.is_well_formed());
}

#[test]
fn retraining_after_others_keeps_terminal() {
    let mut cpt = trained(&[&[1, 2, 3], &[1, 2, 4], &[5]]);
    let nodes = cpt.nodes.len();
    cpt.add_sequence_to_root(ints(&[1, 2, 3]));
    assert_eq!(cpt.nodes.len(), nodes);
    assert_eq!(cpt.sequences_lookup_table[3], cpt.sequences_lookup_table[0]);
}

#[test]
fn shared_first_symbol_exact_tree() {
    let cpt = trained(&[&[2, 2, 3], &[2, 3, 3]]);
    let shape: Vec<(Option<NodeId>, Option<DataTypes>, Vec<NodeId>)> =
        cpt.nodes.iter().map(|n| (n.parent, n.data, n.children.clone())).collect();
    let i = DataTypes::Integer;
    assert_eq!(
        shape,
        vec![
            (None, None, vec![id(2)]),
            (Some(id(1)), Some(i(2)), vec![id(3), id(5)]),
            (Some(id(2)), Some(i(2)), vec![id(4)]),
            (Some(id(3)), Some(i(3)), vec![]),
            (Some(id(2)), Some(i(3)), vec![id(6)]),
            (Some(id(5)), Some(i(3)), vec![]),
        ]
    );
    assert_eq!(cpt.inverted_index.values(), &ints(&[2, 3]));
    assert_eq!(cpt.inverted_index.node_ids(), &vec![vec![id(2), id(3)], vec![id(4), id(5), id(6)]]);
}
