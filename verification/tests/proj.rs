use conllx::proj::{is_tree, update_sentence};
use conllx::{
    non_projective_edges, sentence_to_graph, Deprojectivize, GraphError, HeadProjectivizer,
    Projectivize, Sentence, Token, TokenBuilder,
};
use petgraph::graph::{edge_index, node_index, NodeIndex};

fn token(form: &str, head: usize, head_rel: &str) -> Token {
    TokenBuilder::new(form).head(head).head_rel(head_rel).token()
}

fn projective_sentences() -> Vec<Sentence> {
    vec![
        vec![
            token("Für", 4, "PP|OBJA"),
            token("diese", 3, "DET"),
            token("Behauptung", 1, "PN"),
            token("hat", 0, "ROOT"),
            token("Beckmeyer", 4, "SUBJ"),
            token("bisher", 9, "ADV"),
            token("keinen", 8, "DET"),
            token("Nachweis", 9, "OBJA"),
            token("geliefert", 4, "AUX"),
            token(".", 9, "-PUNCT-"),
        ],
        vec![
            token("Auch", 2, "ADV"),
            token("für", 5, "PP|PN"),
            token("Rumänien", 2, "PN"),
            token("selbst", 3, "ADV"),
            token("ist", 0, "ROOT"),
            token("der", 7, "DET"),
            token("Papst-Besuch", 5, "SUBJ"),
            token("von", 5, "PRED"),
            token("großer", 10, "ATTR"),
            token("Bedeutung", 8, "PN"),
            token(".", 10, "-PUNCT-"),
        ],
        // From Nivre & Nilsson, 2005
        vec![
            token("Z", 3, "AuxP|Sb"),
            token("nich", 1, "Atr"),
            token("je", 0, "ROOT"),
            token("jen", 5, "AuxZ"),
            token("jedna", 3, "Sb"),
            token("na", 3, "AuxP"),
            token("kvalitu", 6, "Adv"),
            token(".", 3, "AuxZ"),
        ],
        // Two non-projective edges.
        vec![
            token("a", 4, "a"),
            token("b", 4, "b"),
            token("c", 4, "c|a"),
            token("d", 0, "ROOT"),
            token("e", 4, "e|g"),
            token("f", 4, "f"),
            token("g", 4, "g"),
        ],
    ]
}

fn non_projective_sentences() -> Vec<Sentence> {
    vec![
        vec![
            token("Für", 8, "PP"),
            token("diese", 3, "DET"),
            token("Behauptung", 1, "PN"),
            token("hat", 0, "ROOT"),
            token("Beckmeyer", 4, "SUBJ"),
            token("bisher", 9, "ADV"),
            token("keinen", 8, "DET"),
            token("Nachweis", 9, "OBJA"),
            token("geliefert", 4, "AUX"),
            token(".", 9, "-PUNCT-"),
        ],
        vec![
            token("Auch", 2, "ADV"),
            token("für", 10, "PP"),
            token("Rumänien", 2, "PN"),
            token("selbst", 3, "ADV"),
            token("ist", 0, "ROOT"),
            token("der", 7, "DET"),
            token("Papst-Besuch", 5, "SUBJ"),
            token("von", 5, "PRED"),
            token("großer", 10, "ATTR"),
            token("Bedeutung", 8, "PN"),
            token(".", 10, "-PUNCT-"),
        ],
        // From Nivre & Nilsson, 2005
        vec![
            token("Z", 5, "AuxP"),
            token("nich", 1, "Atr"),
            token("je", 0, "ROOT"),
            token("jen", 5, "AuxZ"),
            token("jedna", 3, "Sb"),
            token("na", 3, "AuxP"),
            token("kvalitu", 6, "Adv"),
            token(".", 3, "AuxZ"),
        ],
        // Two non-projective edges.
        vec![
            token("a", 4, "a"),
            token("b", 4, "b"),
            token("c", 1, "c"),
            token("d", 0, "ROOT"),
            token("e", 7, "e"),
            token("f", 4, "f"),
            token("g", 4, "g"),
        ],
    ]
}

fn expected_non_projective_edges() -> Vec<Vec<(NodeIndex, NodeIndex)>> {
    vec![
        vec![(node_index(8), node_index(1))],
        vec![(node_index(10), node_index(2))],
        vec![(node_index(5), node_index(1))],
        vec![(node_index(1), node_index(3)), (node_index(7), node_index(5))],
    ]
}

fn sent_non_projective_edges(sents: &[Sentence]) -> Vec<Vec<(NodeIndex, NodeIndex)>> {
    let mut np_edges = Vec::new();

    for sent in sents {
        let graph = sentence_to_graph(sent).unwrap();
        let np: Vec<_> = non_projective_edges(&graph)
            .iter()
            .map(|idx| graph.edge_endpoints(edge_index(*idx)).unwrap())
            .collect();
        np_edges.push(np);
    }

    np_edges
}

fn deprojectivize_all(sents: &[Sentence]) -> Vec<Sentence> {
    let projectivizer = HeadProjectivizer::new();
    sents
        .iter()
        .map(|s| {
            projectivizer
                .deprojectivize(s)
                .expect("Cannot deprojectivize sentence")
        })
        .collect()
}

fn projectivize_all(sents: &[Sentence]) -> Vec<Sentence> {
    let projectivizer = HeadProjectivizer::new();
    sents
        .iter()
        .map(|s| {
            projectivizer
                .projectivize(s)
                .expect("Cannot projectivize sentence")
        })
        .collect()
}

#[test]
fn proj_deprojectivize_test() {
    assert_eq!(
        non_projective_sentences(),
        deprojectivize_all(&projective_sentences())
    );
}

#[test]
fn proj_non_projective_test() {
    let test_edges = sent_non_projective_edges(&non_projective_sentences());
    assert_eq!(expected_non_projective_edges(), test_edges);
}

#[test]
fn proj_projectivize_test() {
    assert_eq!(
        projective_sentences(),
        projectivize_all(&non_projective_sentences())
    );
}

#[test]
fn proj_tests_deprojectivize_test() {
    let non_projective = deprojectivize_all(&projective_sentences());
    assert_eq!(non_projective_sentences(), non_projective);
}

#[test]
fn proj_tests_non_projective_test() {
    let test_edges = sent_non_projective_edges(&non_projective_sentences());
    assert_eq!(expected_non_projective_edges(), test_edges);
}

#[test]
fn proj_tests_projectivize_test() {
    let projective = projectivize_all(&non_projective_sentences());
    assert_eq!(projective_sentences(), projective);
}

#[test]
fn projectivize_keeps_a_projective_tree() {
    for sentence in projective_sentences() {
        let again = HeadProjectivizer::new().projectivize(&sentence).unwrap();
        assert_eq!(sentence, again);
    }
}

#[test]
fn projectivize_leaves_no_non_projective_edge() {
    for sentence in projectivize_all(&non_projective_sentences()) {
        let graph = sentence_to_graph(&sentence).unwrap();
        assert!(non_projective_edges(&graph).is_empty());
    }
}

#[test]
fn projectivize_keeps_a_tree() {
    for sentence in projectivize_all(&non_projective_sentences()) {
        for (i, token) in sentence.iter().enumerate() {
            // Every token has a head, and the heads lead to the root.
            let mut at = i + 1;
            let mut steps = 0;
            while at != 0 {
                at = sentence[at - 1].head().unwrap();
                steps += 1;
                assert!(steps <= sentence.len());
            }
            assert!(token.head_rel().is_some());
        }
    }
}

#[test]
fn round_trip_restores_the_trees() {
    let restored = deprojectivize_all(&projectivize_all(&non_projective_sentences()));
    assert_eq!(non_projective_sentences(), restored);
}

#[test]
fn single_token_is_kept() {
    let sentence = vec![token("a", 0, "ROOT")];
    let projectivizer = HeadProjectivizer::new();
    assert_eq!(sentence, projectivizer.projectivize(&sentence).unwrap());
    assert_eq!(sentence, projectivizer.deprojectivize(&sentence).unwrap());
}

#[test]
fn flat_sentence_is_kept() {
    let sentence = vec![token("a", 0, "x"), token("b", 0, "y"), token("c", 0, "z")];
    let projectivizer = HeadProjectivizer::new();
    assert_eq!(sentence, projectivizer.projectivize(&sentence).unwrap());
    assert_eq!(sentence, projectivizer.deprojectivize(&sentence).unwrap());
}

#[test]
fn empty_sentence_is_kept() {
    let sentence: Sentence = Vec::new();
    let projectivizer = HeadProjectivizer::new();
    assert!(projectivizer.projectivize(&sentence).unwrap().is_empty());
    assert!(projectivizer.deprojectivize(&sentence).unwrap().is_empty());
}

#[test]
fn missing_label_is_an_error() {
    let sentence = vec![
        token("a", 2, "x"),
        TokenBuilder::new("b").head(0).token(),
        TokenBuilder::new("c").head(2).token(),
    ];
    match sentence_to_graph(&sentence) {
        Err(GraphError::IncompleteGraph { value }) => {
            assert_eq!(value, "edge from 0 to 2 does not have a label")
        }
        Ok(_) => panic!("a graph without a label"),
    }
    match HeadProjectivizer::new().projectivize(&sentence) {
        Err(GraphError::IncompleteGraph { value }) => {
            assert_eq!(value, "edge from 0 to 2 does not have a label")
        }
        Ok(_) => panic!("a sentence without a label"),
    }
    assert!(HeadProjectivizer::new().deprojectivize(&sentence).is_err());
}

#[test]
fn graph_has_an_edge_for_each_head() {
    let sentence = vec![token("a", 2, "x"), token("b", 0, "y"), TokenBuilder::new("c").token()];
    let graph = sentence_to_graph(&sentence).unwrap();
    assert_eq!(graph.node_count(), 4);
    assert_eq!(graph.edge_count(), 2);
    assert_eq!(
        graph.edge_endpoints(edge_index(0)),
        Some((node_index(2), node_index(1)))
    );
    assert_eq!(graph.edge_weight(edge_index(0)).unwrap(), "x");
    assert_eq!(
        graph.edge_endpoints(edge_index(1)),
        Some((node_index(0), node_index(2)))
    );
    assert_eq!(graph.edge_weight(edge_index(1)).unwrap(), "y");
}

fn heads(list: &[usize]) -> Sentence {
    list.iter()
        .enumerate()
        .map(|(i, head)| token("t", *head, &format!("r{}", i + 1)))
        .collect()
}

fn ends(sentence: &Sentence) -> Vec<(usize, usize)> {
    let graph = sentence_to_graph(sentence).unwrap();
    non_projective_edges(&graph)
        .iter()
        .map(|idx| {
            let (a, b) = graph.edge_endpoints(edge_index(*idx)).unwrap();
            (a.index(), b.index())
        })
        .collect()
}

#[test]
fn non_projective_edges_come_shortest_first() {
    // The walk meets the edges with the spans 7, 2, 8 and 3, in this order.
    let sentence = heads(&[3, 3, 0, 3, 3, 4, 3, 1, 3, 3, 3, 9, 5]);
    assert_eq!(ends(&sentence), vec![(4, 6), (9, 12), (1, 8), (5, 13)]);
}

#[test]
fn non_projective_edges_of_one_span_keep_the_order_of_the_walk() {
    // Both edges leave token 4; the one added last is met first.
    let sentence = heads(&[0, 4, 0, 0, 0, 4]);
    assert_eq!(ends(&sentence), vec![(4, 6), (4, 2)]);
    // Edges of different nodes are met in the order of the nodes.
    let sentence = heads(&[0, 0, 1, 2, 0]);
    assert_eq!(ends(&sentence), vec![(1, 3), (2, 4)]);
}

#[test]
fn tree_test_tells_trees_from_other_sentences() {
    for sentence in non_projective_sentences() {
        assert!(is_tree(&sentence));
    }
    assert!(is_tree(&Vec::new()));
    // A token without a head.
    assert!(!is_tree(&vec![token("a", 0, "x"), Token::new("b")]));
    // A head outside the sentence.
    assert!(!is_tree(&heads(&[0, 3])));
    // A token that is its own head, and two tokens that are each other's.
    assert!(!is_tree(&heads(&[1])));
    assert!(!is_tree(&heads(&[0, 3, 2])));
    // A chain as long as the sentence.
    assert!(is_tree(&heads(&[2, 3, 4, 0])));
}

#[test]
fn second_lift_adds_no_second_mark() {
    // Token 1 hangs two levels too deep and is lifted twice.
    let sentence = vec![
        token("a", 5, "x"),
        token("b", 0, "root"),
        token("c", 2, "y"),
        token("d", 3, "z"),
        token("e", 4, "w"),
    ];
    let projective = HeadProjectivizer::new().projectivize(&sentence).unwrap();
    let graph = sentence_to_graph(&projective).unwrap();
    assert!(non_projective_edges(&graph).is_empty());
    let label = projective[0].head_rel().unwrap();
    assert_eq!(label.matches('|').count(), 1);
    assert!(label.starts_with("x|"));
}

#[test]
fn stuck_token_keeps_its_head_and_loses_its_mark() {
    let sentence = vec![token("a", 0, "x|nowhere"), token("b", 1, "y")];
    let restored = HeadProjectivizer::new().deprojectivize(&sentence).unwrap();
    assert_eq!(restored[0].head(), Some(0));
    assert_eq!(restored[0].head_rel(), Some("x"));
    assert_eq!(restored[1].head(), Some(1));
    assert_eq!(restored[1].head_rel(), Some("y"));
}

#[test]
fn attachment_point_is_the_nearest_of_the_shallowest() {
    // Tokens 2 and 6 both hang from 4 with the label "t"; token 5 is marked
    // and hangs from 4. Token 6 is nearer to 4 than token 2 is.
    let sentence = vec![
        token("a", 4, "x"),
        token("b", 1, "t"),
        token("c", 4, "t"),
        token("d", 0, "root"),
        token("e", 4, "m|t"),
        token("f", 4, "y"),
    ];
    let restored = HeadProjectivizer::new().deprojectivize(&sentence).unwrap();
    assert_eq!(restored[4].head(), Some(3));
    assert_eq!(restored[4].head_rel(), Some("m"));
}

#[test]
fn graph_has_the_root_and_a_node_for_each_token() {
    let empty: Sentence = Vec::new();
    assert_eq!(sentence_to_graph(&empty).unwrap().node_count(), 1);
    let headless = vec![Token::new("a")];
    let graph = sentence_to_graph(&headless).unwrap();
    assert_eq!(graph.node_count(), 2);
    assert_eq!(graph.edge_count(), 0);
    assert!(non_projective_edges(&graph).is_empty());
    // The last tokens have no head.
    let sentence = vec![token("a", 0, "x"), Token::new("b"), Token::new("c")];
    assert_eq!(sentence_to_graph(&sentence).unwrap().node_count(), 4);
    // A head beyond the sentence brings its node with it.
    let sentence = vec![token("a", 5, "x")];
    assert_eq!(sentence_to_graph(&sentence).unwrap().node_count(), 6);
}

#[test]
fn no_non_projective_edge_is_listed_twice() {
    for sentence in non_projective_sentences() {
        let graph = sentence_to_graph(&sentence).unwrap();
        let mut edges = non_projective_edges(&graph);
        let listed = edges.len();
        edges.sort();
        edges.dedup();
        assert_eq!(edges.len(), listed);
    }
}

#[test]
fn headless_tokens_stay_headless() {
    let sentence = vec![token("a", 0, "x|y"), Token::new("b")];
    let restored = HeadProjectivizer::new().deprojectivize(&sentence).unwrap();
    assert_eq!(restored[0].head_rel(), Some("x"));
    assert_eq!(restored[1].head(), None);
}

#[test]
fn update_sentence_writes_heads_and_labels() {
    let sentence = vec![token("a", 2, "x"), token("b", 0, "y")];
    let graph = sentence_to_graph(&sentence).unwrap();
    let blank = vec![Token::new("a"), Token::new("b")];
    assert_eq!(update_sentence(&graph, &blank), sentence);
}
