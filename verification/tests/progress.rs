use aeon_bdt::bdt::Attribute;
use aeon_bdt::bdt::BdtNode;
use aeon_bdt::behaviour::Behaviour;
use aeon_bdt::class::Class;
use aeon_bdt::classifier::AttractorComponent;
use aeon_bdt::classifier::Classifier;
use aeon_bdt::computation::get_results;
use aeon_bdt::computation::get_tree_data;
use aeon_bdt::computation::BuildError;
use aeon_bdt::computation::TreeData;
use aeon_bdt::mass::Mass;
use aeon_bdt::progress::GraphTaskContext;
use aeon_bdt::progress::ProgressTracker;
use biodivine_lib_param_bn::biodivine_std::traits::Set as SymbolicSet;
use biodivine_lib_param_bn::symbolic_async_graph::GraphColors;
use biodivine_lib_param_bn::symbolic_async_graph::SymbolicAsyncGraph;
use biodivine_lib_param_bn::BooleanNetwork;

fn graph() -> SymbolicAsyncGraph {
    let network = BooleanNetwork::try_from("a -?? a\n$a: (p & a) | q").unwrap();
    SymbolicAsyncGraph::new(&network).unwrap()
}

fn wider_graph() -> SymbolicAsyncGraph {
    let network = BooleanNetwork::try_from("a -?? a\n$a: (p & a) | (q & r)").unwrap();
    SymbolicAsyncGraph::new(&network).unwrap()
}

fn parameter(graph: &SymbolicAsyncGraph, k: usize) -> GraphColors {
    let context = graph.symbolic_context();
    let variable = context.parameter_variables()[k];
    GraphColors::new(context.bdd_variable_set().mk_var(variable), context)
}

fn tracker(total: u64, remaining: u64) -> ProgressTracker {
    let mut tracker = ProgressTracker::new();
    tracker.reset(&Mass::from_u64(total));
    tracker.set_remaining(&Mass::from_u64(remaining));
    tracker
}

#[test]
fn fresh_tracker_is_finished() {
    let tracker = ProgressTracker::new();
    assert!(tracker.is_finished());
    assert_eq!(tracker.get_percent(), 10000);
    assert_eq!(tracker.get_percent_string(), "100.00");
}

#[test]
fn tracker_starts_with_everything_remaining() {
    let mut tracker = ProgressTracker::new();
    tracker.reset(&Mass::from_u64(4096));
    assert!(!tracker.is_finished());
    assert_eq!(tracker.get_percent(), 0);
    assert_eq!(tracker.get_percent_string(), "0.00");
}

#[test]
fn percent_is_the_share_that_is_done() {
    assert_eq!(tracker(1000, 625).get_percent(), 3750);
    assert_eq!(tracker(1000, 625).get_percent_string(), "37.50");
    assert_eq!(tracker(3, 2).get_percent(), 3333);
    assert_eq!(tracker(3, 2).get_percent_string(), "33.33");
    assert_eq!(tracker(3, 1).get_percent_string(), "66.66");
    assert_eq!(tracker(200, 199).get_percent_string(), "0.50");
    assert_eq!(tracker(10000, 9995).get_percent_string(), "0.05");
    assert_eq!(tracker(8, 0).get_percent_string(), "100.00");
    assert_eq!(tracker(u64::MAX, 1).get_percent(), 9999);
    assert_eq!(tracker(u64::MAX, u64::MAX / 2 + 1).get_percent(), 4999);
    let mut huge = ProgressTracker::new();
    huge.reset(&Mass::from_digits(vec![0, 0, 0, 0, 0, 0, 8]));
    huge.set_remaining(&Mass::from_digits(vec![0, 0, 0, 0, 0, 0, 5]));
    assert_eq!(huge.get_percent(), 3750);
    assert_eq!(huge.get_percent_string(), "37.50");
    let copy = huge.duplicate();
    assert_eq!(copy.get_percent(), 3750);
}

#[test]
fn percent_is_clamped() {
    assert_eq!(tracker(10, 25).get_percent(), 0);
    assert_eq!(tracker(10, 25).get_percent_string(), "0.00");
    assert_eq!(tracker(0, 25).get_percent(), 10000);
    assert!(!tracker(0, 25).is_finished());
    assert!(tracker(10, 0).is_finished());
}

#[test]
fn update_keeps_the_total() {
    let mut tracker = ProgressTracker::new();
    tracker.reset(&Mass::from_u64(50));
    tracker.set_remaining(&Mass::from_u64(40));
    assert_eq!(tracker.get_percent(), 2000);
    tracker.set_remaining(&Mass::from_u64(10));
    assert_eq!(tracker.get_percent(), 8000);
    tracker.set_remaining(&Mass::from_u64(0));
    assert_eq!(tracker.get_percent(), 10000);
    assert!(tracker.is_finished());
}

#[test]
fn tracker_counts_coloured_vertices() {
    let g = graph();
    let p = parameter(&g, 0);
    let q = parameter(&g, 1);
    let universe = g.mk_unit_colored_vertices();
    let mut tracker = ProgressTracker::new();
    tracker.init_from_graph(&universe);
    assert_eq!(tracker.get_percent(), 0);
    tracker.update_remaining(&universe.intersect_colors(&p));
    assert_eq!(tracker.get_percent(), 5000);
    tracker.update_remaining(&universe.intersect_colors(&p.intersect(&q)));
    assert_eq!(tracker.get_percent(), 7500);
    assert_eq!(tracker.get_percent_string(), "75.00");
    tracker.update_remaining(&universe.intersect_colors(&p.union(&q)));
    assert_eq!(tracker.get_percent(), 2500);
    tracker.update_remaining(&g.mk_empty_colored_vertices());
    assert!(tracker.is_finished());
    assert_eq!(tracker.get_percent_string(), "100.00");
}

#[test]
fn task_context_is_cancelled_once() {
    let g = graph();
    let universe = g.mk_unit_colored_vertices();
    let mut task = GraphTaskContext::new();
    assert!(!task.is_cancelled());
    assert!(task.cancel());
    assert!(task.is_cancelled());
    assert!(!task.cancel());
    assert!(task.is_cancelled());
    task.restart(&universe);
    assert!(!task.is_cancelled());
    assert_eq!(task.progress().get_percent(), 0);
    task.update_remaining(&universe.intersect_colors(&parameter(&g, 0).minus(&parameter(&g, 1))));
    assert_eq!(task.progress().get_percent(), 7500);
    assert_eq!(task.progress().get_percent_string(), "75.00");
    assert!(task.cancel());
    assert_eq!(task.progress().get_percent(), 7500);
    let copy = task.duplicate();
    assert!(copy.is_cancelled());
    assert_eq!(copy.progress().get_percent(), 7500);
}

#[test]
fn summary_lists_the_classes_with_their_sizes() {
    let g = graph();
    let p = parameter(&g, 0);
    let q = parameter(&g, 1);
    let mut classifier = Classifier::new();
    let component = AttractorComponent::new(
        g.mk_empty_colored_vertices(),
        vec![
            (Behaviour::Stability, p.clone()),
            (Behaviour::Disorder, q.minus(&p)),
        ],
    )
    .unwrap();
    assert!(classifier.accepts(&component));
    classifier.add_component(component);
    let universe = g.mk_unit_colored_vertices();
    let mut task = GraphTaskContext::new();
    task.restart(&universe);
    task.update_remaining(&universe.intersect_colors(&p.intersect(&q)));
    let summary = get_results(&classifier, &task, 1234);
    assert_eq!(summary.elapsed, 1234);
    assert!(!summary.is_finished);
    assert_eq!(summary.progress, "75.00");
    assert_eq!(summary.data.len(), 2);
    assert_eq!(summary.data[0].phenotype, vec![Behaviour::Stability]);
    assert_eq!(summary.data[0].sat_count.to_u128(), Some(2));
    assert_eq!(summary.data[1].phenotype, vec![Behaviour::Disorder]);
    assert_eq!(summary.data[1].sat_count.to_u128(), Some(1));
    task.update_remaining(&g.mk_empty_colored_vertices());
    assert!(get_results(&classifier, &task, 0).is_finished);
}

#[test]
fn tree_data_pairs_each_class_with_its_bytes() {
    let g = graph();
    let p = parameter(&g, 0);
    let q = parameter(&g, 1);
    let mut classifier = Classifier::new();
    let component = AttractorComponent::new(
        g.mk_empty_colored_vertices(),
        vec![
            (Behaviour::Oscillation, q.minus(&p)),
            (Behaviour::Stability, p.clone()),
        ],
    )
    .unwrap();
    assert!(classifier.accepts(&component));
    classifier.add_component(component);
    let exported = classifier.export_result();
    let encoded: Vec<Vec<u8>> = (0..exported.len())
        .map(|i| exported.colors_at(i).as_bdd().to_bytes())
        .collect();
    let data = get_tree_data(&classifier, "a -?? a".to_string(), &encoded).unwrap();
    assert_eq!(data.network(), "a -?? a");
    assert_eq!(data.len(), 2);
    for i in 0..2 {
        assert!(data.class_at(i).equals(exported.class_at(i)));
        assert_eq!(data.bytes_at(i), &encoded[i]);
    }
    assert_eq!(data.class_at(0).get_vector(), vec![Behaviour::Oscillation]);
    assert_eq!(data.bytes_at(0), &q.minus(&p).as_bdd().to_bytes());
    assert!(data.bytes_at(0) != data.bytes_at(1));
    assert!(get_tree_data(&classifier, String::new(), &encoded[..1].to_vec()).is_none());
    assert!(get_tree_data(&classifier, String::new(), &Vec::new()).is_none());
    assert!(get_tree_data(&Classifier::new(), String::new(), &Vec::new()).is_some());
}

#[test]
fn tree_data_keeps_what_it_was_given() {
    let data = TreeData::new(
        "a -> b".to_string(),
        vec![
            (Class::from_vector(&vec![Behaviour::Oscillation]), vec![1, 2, 3]),
            (Class::new_empty(), vec![]),
        ],
    );
    assert_eq!(data.network(), "a -> b");
    assert_eq!(data.len(), 2);
    assert_eq!(data.class_at(0).get_vector(), vec![Behaviour::Oscillation]);
    assert_eq!(data.bytes_at(0), &vec![1u8, 2, 3]);
    assert!(data.class_at(1).is_empty());
    assert!(data.bytes_at(1).is_empty());
}

#[test]
fn tree_is_built_from_the_classes_of_the_data() {
    let g = graph();
    let p = parameter(&g, 0);
    let q = parameter(&g, 1);
    let data = TreeData::new(
        String::new(),
        vec![
            (Class::from_vector(&vec![Behaviour::Stability]), vec![]),
            (Class::from_vector(&vec![Behaviour::Disorder]), vec![]),
            (Class::from_vector(&vec![Behaviour::Stability]), vec![]),
            (Class::from_vector(&vec![Behaviour::Oscillation]), vec![]),
        ],
    );
    let decoded = vec![
        p.intersect(&q),
        p.minus(&q),
        q.minus(&p),
        g.mk_empty_colors(),
    ];
    let attribute =
        Attribute::new("p".to_string(), p.clone(), g.mk_unit_colors().minus(&p)).unwrap();
    let tree = data.build_tree(&decoded, vec![attribute]).ok().unwrap();
    assert_eq!(tree.capacity(), 1);
    assert_eq!(tree.attribute_count(), 1);
    assert_eq!(tree.get_precision(), 10000);
    match tree.node(tree.root_id()).unwrap() {
        BdtNode::Unprocessed { classes } => {
            assert_eq!(classes.len(), 2);
            assert_eq!(classes.class_at(0).get_vector(), vec![Behaviour::Stability]);
            assert_eq!(classes.colors_at(0), &p.intersect(&q).union(&q.minus(&p)));
            assert_eq!(classes.class_at(1).get_vector(), vec![Behaviour::Disorder]);
            assert_eq!(classes.colors_at(1), &p.minus(&q));
        }
        _ => panic!("two classes make an unprocessed root"),
    }
}

#[test]
fn tree_is_not_built_from_data_that_does_not_match() {
    let g = graph();
    let other = wider_graph();
    let data = TreeData::new(
        String::new(),
        vec![
            (Class::from_vector(&vec![Behaviour::Stability]), vec![]),
            (Class::from_vector(&vec![Behaviour::Disorder]), vec![]),
        ],
    );
    assert_eq!(
        data.build_tree(&vec![g.mk_unit_colors()], Vec::new()).err(),
        Some(BuildError::LengthMismatch)
    );
    assert_eq!(
        data.build_tree(&vec![g.mk_unit_colors(), other.mk_empty_colors()], Vec::new()).err(),
        Some(BuildError::EncodingMismatch)
    );
    let foreign =
        Attribute::new("x".to_string(), other.mk_unit_colors(), other.mk_empty_colors()).unwrap();
    assert_eq!(
        data.build_tree(&vec![g.mk_unit_colors(), g.mk_empty_colors()], vec![foreign]).err(),
        Some(BuildError::EncodingMismatch)
    );
    assert!(data.build_tree(&vec![g.mk_unit_colors(), g.mk_empty_colors()], Vec::new()).is_ok());
}
