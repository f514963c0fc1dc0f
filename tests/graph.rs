use scratch_test_graph_analysis::block_graph::{BlockGraph, CyclicBlockReferences};
use scratch_test_graph_analysis::graph_construction::{add_edges_from_block, visit_attribute};
use scratch_test_graph_analysis::model::{
    Attribute, Block, Choice, Expression, ListDef, NoValidBlockForId, NoValidListForId,
    ProjectDoc, Target,
};
use std::collections::HashMap;

fn block(id: u64, opcode: &str, next: Option<u64>, parent: Option<u64>, attrs: Vec<Attribute>) -> Block {
    Block { id, opcode: opcode.to_string(), next, parent, attrs }
}

fn list(id: u64, name: &str) -> ListDef {
    ListDef { id, name: name.to_string(), items: vec!["a".to_string(), "b".to_string()] }
}

fn doc_of(blocks: Vec<Block>) -> ProjectDoc {
    ProjectDoc { targets: vec![Target { blocks, lists: vec![] }] }
}

#[test]
fn empty_document_passes() {
    let doc = ProjectDoc { targets: vec![] };
    let g = BlockGraph::new(&doc);
    assert!(g.check_no_cycles_in_next_or_param_edges().is_ok());
    let doc = ProjectDoc { targets: vec![Target { blocks: vec![], lists: vec![list(1, "l")] }] };
    let g = BlockGraph::new(&doc);
    let proof = g.check_no_cycles_in_next_or_param_edges().unwrap();
    assert_eq!(proof.doc(), &doc);
}

#[test]
fn acyclic_forest_passes() {
    // script: 1 -> 2 -> 3, with 2 holding reporter 4, which holds reporter 5; a lone hat 6
    let doc = ProjectDoc {
        targets: vec![
            Target {
                blocks: vec![
                    block(1, "event_whenflagclicked", Some(2), None, vec![]),
                    block(2, "motion_movesteps", Some(3), Some(1), vec![Attribute::Block(4)]),
                    block(3, "motion_turnright", None, Some(2), vec![]),
                ],
                lists: vec![],
            },
            Target {
                blocks: vec![
                    block(4, "operator_add", None, Some(2), vec![Attribute::Expr(Expression::Blo(5))]),
                    block(5, "operator_random", None, Some(4), vec![]),
                    block(6, "event_whenkeypressed", None, None, vec![]),
                ],
                lists: vec![],
            },
        ],
    };
    let g = BlockGraph::new(&doc);
    assert!(g.check_no_cycles_in_next_or_param_edges().is_ok());
}

#[test]
fn single_chain_passes() {
    let doc = doc_of(vec![
        block(1, "a", Some(2), None, vec![]),
        block(2, "b", Some(3), Some(1), vec![]),
        block(3, "c", None, Some(2), vec![]),
    ]);
    let g = BlockGraph::new(&doc);
    assert!(g.check_no_cycles_in_next_or_param_edges().is_ok());
}

#[test]
fn two_block_cycle_has_no_entry() {
    let doc = doc_of(vec![block(1, "a", Some(2), None, vec![]), block(2, "b", Some(1), None, vec![])]);
    let g = BlockGraph::new(&doc);
    assert_eq!(
        g.check_no_cycles_in_next_or_param_edges().unwrap_err(),
        CyclicBlockReferences::CycleWithoutEntry { doc_block_count: 2, visited_count: 0 }
    );
}

#[test]
fn cycle_behind_an_entry_is_visited_twice() {
    let doc = doc_of(vec![
        block(9, "e", None, None, vec![Attribute::Block(1)]),
        block(1, "a", Some(2), None, vec![]),
        block(2, "b", Some(1), None, vec![]),
    ]);
    let g = BlockGraph::new(&doc);
    assert_eq!(
        g.check_no_cycles_in_next_or_param_edges().unwrap_err(),
        CyclicBlockReferences::BlockVisitedTwice(1)
    );
}

#[test]
fn shared_reporter_is_visited_twice() {
    let doc = doc_of(vec![
        block(1, "a", None, None, vec![Attribute::Block(2), Attribute::Block(3)]),
        block(2, "b", None, None, vec![Attribute::Block(4)]),
        block(3, "c", None, None, vec![Attribute::Block(4)]),
        block(4, "d", None, None, vec![]),
    ]);
    let g = BlockGraph::new(&doc);
    assert_eq!(
        g.check_no_cycles_in_next_or_param_edges().unwrap_err(),
        CyclicBlockReferences::BlockVisitedTwice(4)
    );
}

#[test]
fn cycle_beside_a_script_reports_counts() {
    let doc = doc_of(vec![
        block(1, "a", Some(2), None, vec![]),
        block(2, "b", None, None, vec![]),
        block(3, "c", Some(4), None, vec![]),
        block(4, "d", Some(5), None, vec![]),
        block(5, "e", Some(3), None, vec![]),
    ]);
    let g = BlockGraph::new(&doc);
    assert_eq!(
        g.check_no_cycles_in_next_or_param_edges().unwrap_err(),
        CyclicBlockReferences::CycleWithoutEntry { doc_block_count: 5, visited_count: 2 }
    );
}

#[test]
fn dangling_successor_counts_more_than_the_document() {
    let doc = doc_of(vec![block(1, "a", Some(77), None, vec![])]);
    let g = BlockGraph::new(&doc);
    assert_eq!(
        g.check_no_cycles_in_next_or_param_edges().unwrap_err(),
        CyclicBlockReferences::VisitedMoreThanInDoc
    );
}

#[test]
fn parent_and_list_edges_are_not_traversed() {
    let doc = ProjectDoc {
        targets: vec![Target {
            blocks: vec![
                block(1, "a", Some(2), Some(2), vec![Attribute::Expr(Expression::Lis(5))]),
                block(2, "b", None, Some(1), vec![]),
            ],
            lists: vec![list(5, "l")],
        }],
    };
    let g = BlockGraph::new(&doc);
    assert!(g.check_no_cycles_in_next_or_param_edges().is_ok());
}

fn sample_doc() -> ProjectDoc {
    ProjectDoc {
        targets: vec![
            Target {
                blocks: vec![
                    block(
                        1,
                        "data_itemoflist",
                        Some(2),
                        None,
                        vec![
                            Attribute::Expr(Expression::Lis(10)),
                            Attribute::OneOf(Box::new(Choice::ExprRef(Expression::Lis(11)))),
                            Attribute::Block(3),
                        ],
                    ),
                    block(2, "looks_say", None, Some(1), vec![Attribute::Color("#ff0000".to_string())]),
                    block(3, "operator_length", None, Some(1), vec![Attribute::Expr(Expression::Lis(99))]),
                ],
                lists: vec![list(10, "ten")],
            },
            Target { blocks: vec![], lists: vec![list(11, "eleven")] },
        ],
    }
}

#[test]
fn construction_is_deterministic() {
    let doc = sample_doc();
    let g1 = BlockGraph::new(&doc);
    let g2 = BlockGraph::new(&doc);
    assert_eq!(g1.parameter_edges(), g2.parameter_edges());
    assert_eq!(g1.read_list_edges(), g2.read_list_edges());
    assert_eq!(g1.next_block_edges(), g2.next_block_edges());
    assert_eq!(g1.parent_block_edges(), g2.parent_block_edges());
}

#[test]
fn relations_of_sample_document() {
    let doc = sample_doc();
    let g = BlockGraph::new(&doc);
    let mut params = HashMap::new();
    params.insert(1u64, vec![3u64]);
    assert_eq!(g.parameter_edges(), &params);
    let mut reads = HashMap::new();
    reads.insert(1u64, vec![10u64, 11u64]);
    reads.insert(3u64, vec![99u64]);
    assert_eq!(g.read_list_edges(), &reads);
    let mut next = HashMap::new();
    next.insert(1u64, Some(2u64));
    next.insert(2u64, None);
    next.insert(3u64, None);
    assert_eq!(g.next_block_edges(), &next);
    let mut parent = HashMap::new();
    parent.insert(1u64, None);
    parent.insert(2u64, Some(1u64));
    parent.insert(3u64, Some(1u64));
    assert_eq!(g.parent_block_edges(), &parent);
    assert_eq!(g.doc(), &doc);
}

#[test]
fn reading_pairs_are_one_per_list_reference() {
    let doc = sample_doc();
    let g = BlockGraph::new(&doc);
    let pairs: Vec<(u64, u64)> = g
        .blocks_directly_reading_list_item_concatenation()
        .iter()
        .map(|(b, l)| (b.id, *l))
        .collect();
    assert_eq!(pairs, vec![(1, 10), (1, 11), (3, 99)]);
    let total: usize = g.read_list_edges().values().map(|v| v.len()).sum();
    assert_eq!(pairs.len(), total);
}

#[test]
fn dangling_list_fails_only_its_own_advisory() {
    let doc = sample_doc();
    let g = BlockGraph::new(&doc);
    let adv = g.list_concatenation_advisories();
    assert_eq!(adv.len(), 3);
    assert_eq!(adv[0], Ok((&"data_itemoflist".to_string(), &"ten".to_string())));
    assert_eq!(adv[1], Ok((&"data_itemoflist".to_string(), &"eleven".to_string())));
    assert_eq!(adv[2], Err(NoValidListForId { id: 99 }));
}

#[test]
fn quiet_block_has_only_empty_dense_entries() {
    let doc = doc_of(vec![block(4, "motion_ifonedgebounce", None, None, vec![
        Attribute::Flag(true),
        Attribute::Menu("_mouse_".to_string()),
        Attribute::ListField(3),
        Attribute::OptionalBlock(None),
    ])]);
    let g = BlockGraph::new(&doc);
    assert!(g.parameter_edges().is_empty());
    assert!(g.read_list_edges().is_empty());
    assert_eq!(g.next_block_edges().get(&4), Some(&None));
    assert_eq!(g.parent_block_edges().get(&4), Some(&None));
    assert_eq!(g.next_block_edges().len(), 1);
    assert_eq!(g.parent_block_edges().len(), 1);
}

#[test]
fn visitor_covers_every_shape() {
    let attrs = vec![
        Attribute::Block(1),
        Attribute::OptionalBlock(Some(2)),
        Attribute::OptionalBlock(None),
        Attribute::ProcedureArguments(vec![
            ("x".to_string(), Some(Expression::Blo(3))),
            ("y".to_string(), None),
            ("z".to_string(), Some(Expression::Lis(20))),
            ("w".to_string(), Some(Expression::Lit("5".to_string()))),
        ]),
        Attribute::OneOf(Box::new(Choice::Value(Attribute::Block(4)))),
        Attribute::OneOf(Box::new(Choice::ExprRef(Expression::Blo(5)))),
        Attribute::Expr(Expression::Var(6)),
        Attribute::Expr(Expression::Lis(21)),
        Attribute::Dropdown("left".to_string()),
        Attribute::VariableField(7),
        Attribute::Broadcast("go".to_string()),
        Attribute::Procedure("p".to_string()),
        Attribute::ArgumentReporterName("n".to_string()),
        Attribute::ArgumentDefs(vec!["a".to_string()]),
        Attribute::Text("t".to_string()),
    ];
    let mut blocks = vec![100];
    let mut lists = vec![];
    for a in &attrs {
        visit_attribute(a, &mut blocks, &mut lists);
    }
    assert_eq!(blocks, vec![100, 1, 2, 3, 4, 5]);
    assert_eq!(lists, vec![20, 21]);
}

#[test]
fn repeated_block_id_is_signalled() {
    let mut p = HashMap::new();
    let mut r = HashMap::new();
    let mut n = HashMap::new();
    let mut q = HashMap::new();
    let b = block(1, "a", Some(2), None, vec![Attribute::Block(5)]);
    assert_eq!(add_edges_from_block(&mut p, &mut r, &mut n, &mut q, &b), Some(()));
    assert_eq!(add_edges_from_block(&mut p, &mut r, &mut n, &mut q, &b), None);
    let quiet = block(1, "a", None, None, vec![]);
    assert_eq!(add_edges_from_block(&mut p, &mut r, &mut n, &mut q, &quiet), None);
    assert_eq!(p.get(&1), Some(&vec![5]));
    assert_eq!(n.get(&1), Some(&None));
    let other = block(2, "b", None, None, vec![]);
    assert_eq!(add_edges_from_block(&mut p, &mut r, &mut n, &mut q, &other), Some(()));
}

#[test]
fn lookups_find_first_match_or_fail() {
    let doc = sample_doc();
    assert_eq!(doc.get_block(3).unwrap().opcode, "operator_length");
    assert_eq!(doc.get_block(8), Err(NoValidBlockForId { id: 8 }));
    assert_eq!(doc.get_list(11).unwrap().name, "eleven");
    assert_eq!(doc.get_list(12), Err(NoValidListForId { id: 12 }));
    assert_eq!(doc.block_ids(), vec![1, 2, 3]);
}

#[test]
fn repeated_checks_agree() {
    let doc = doc_of(vec![
        block(9, "e", None, None, vec![Attribute::Block(1), Attribute::Block(3)]),
        block(1, "a", Some(2), None, vec![]),
        block(2, "b", Some(1), None, vec![]),
        block(3, "c", None, None, vec![]),
    ]);
    let g1 = BlockGraph::new(&doc);
    let g2 = BlockGraph::new(&doc);
    let r1 = g1.check_no_cycles_in_next_or_param_edges();
    let r2 = g2.check_no_cycles_in_next_or_param_edges();
    assert!(matches!(r1, Err(CyclicBlockReferences::BlockVisitedTwice(_))));
    assert_eq!(r1.unwrap_err(), r2.unwrap_err());
}

#[test]
fn unique_block_ids_are_checked_across_targets() {
    assert!(sample_doc().has_unique_block_ids());
    let doc = ProjectDoc {
        targets: vec![
            Target { blocks: vec![block(1, "a", None, None, vec![])], lists: vec![] },
            Target { blocks: vec![block(2, "b", None, None, vec![]), block(1, "c", None, None, vec![])], lists: vec![] },
        ],
    };
    assert!(!doc.has_unique_block_ids());
    assert!(ProjectDoc { targets: vec![] }.has_unique_block_ids());
}
