use aeon_bdt::bdt::decide::DecisionError;
use aeon_bdt::bdt::expand::choose_attribute;
use aeon_bdt::bdt::gains::rank_attributes;
use aeon_bdt::bdt::json::NodeJson;
use aeon_bdt::bdt::majority::get_majority_class;
use aeon_bdt::bdt::majority::reaches_threshold;
use aeon_bdt::bdt::Attribute;
use aeon_bdt::bdt::AttributeId;
use aeon_bdt::bdt::Bdt;
use aeon_bdt::bdt::BdtNode;
use aeon_bdt::bdt::BdtNodeId;
use aeon_bdt::behaviour::Behaviour;
use aeon_bdt::bifurcation::BifurcationFunction;
use aeon_bdt::class::Class;
use aeon_bdt::decision_tree::DecisionTree;
use aeon_bdt::mass::Mass;
use biodivine_lib_param_bn::biodivine_std::traits::Set as SymbolicSet;
use biodivine_lib_param_bn::symbolic_async_graph::GraphColors;
use biodivine_lib_param_bn::symbolic_async_graph::SymbolicAsyncGraph;
use biodivine_lib_param_bn::BooleanNetwork;

/// A graph over four parameters, hence sixteen colours.
fn graph() -> SymbolicAsyncGraph {
    let network = BooleanNetwork::try_from("a -?? a\n$a: (p & a) | (q & r) | s").unwrap();
    SymbolicAsyncGraph::new(&network).unwrap()
}

/// A graph over two parameters: its sets have another encoding.
fn narrow_graph() -> SymbolicAsyncGraph {
    let network = BooleanNetwork::try_from("a -?? a\n$a: (p & a) | q").unwrap();
    SymbolicAsyncGraph::new(&network).unwrap()
}

/// The colours in which parameter `k` is true.
fn parameter(graph: &SymbolicAsyncGraph, k: usize) -> GraphColors {
    let context = graph.symbolic_context();
    let variable = context.parameter_variables()[k];
    GraphColors::new(context.bdd_variable_set().mk_var(variable), context)
}

/// The single colour whose parameters are the bits of `index`.
fn color(graph: &SymbolicAsyncGraph, index: usize) -> GraphColors {
    let mut set = graph.mk_unit_colors();
    for k in 0..4 {
        let on = parameter(graph, k);
        set = if (index >> k) & 1 == 1 { set.intersect(&on) } else { set.minus(&on) };
    }
    set
}

/// The colours of the given indices.
fn colors(graph: &SymbolicAsyncGraph, indices: &[usize]) -> GraphColors {
    let mut set = graph.mk_empty_colors();
    for index in indices {
        set = set.union(&color(graph, *index));
    }
    set
}

fn class(labels: &[Behaviour]) -> Class {
    Class::from_vector(&labels.to_vec())
}

fn class_a() -> Class {
    class(&[Behaviour::Stability])
}

fn class_b() -> Class {
    class(&[Behaviour::Oscillation])
}

fn class_c() -> Class {
    class(&[Behaviour::Disorder])
}

/// Classes A, B and C with 6, 2 and 2 colours.
fn three_classes(graph: &SymbolicAsyncGraph) -> BifurcationFunction {
    let mut classes = BifurcationFunction::new();
    classes.add(class_a(), colors(graph, &[0, 1, 2, 3, 4, 5]));
    classes.add(class_b(), colors(graph, &[6, 7]));
    classes.add(class_c(), colors(graph, &[8, 9]));
    classes
}

/// One attribute for each parameter: attribute `k` is met where parameter
/// `k` is true.
fn parameter_attributes(graph: &SymbolicAsyncGraph) -> Vec<Attribute> {
    let mut attributes = Vec::new();
    for k in 0..4 {
        let on = parameter(graph, k);
        let off = graph.mk_unit_colors().minus(&on);
        attributes.push(Attribute::new(format!("param_{}", k), on, off).unwrap());
    }
    attributes
}

fn attribute(graph: &SymbolicAsyncGraph, name: &str, positive: &[usize]) -> Attribute {
    let on = colors(graph, positive);
    let off = graph.mk_unit_colors().minus(&on);
    Attribute::new(name.to_string(), on, off).unwrap()
}

fn tree(graph: &SymbolicAsyncGraph) -> Bdt {
    Bdt::new(three_classes(graph), parameter_attributes(graph)).unwrap()
}

fn node_id(tree: &Bdt, index: usize) -> BdtNodeId {
    BdtNodeId::try_from_index(index, tree).unwrap()
}

fn attribute_id(tree: &Bdt, index: usize) -> AttributeId {
    AttributeId::try_from_index(index, tree).unwrap()
}

fn masses(classes: &BifurcationFunction) -> Vec<f64> {
    (0..classes.len())
        .map(|i| classes.cardinality_at(i).to_u128().unwrap() as f64)
        .collect()
}

fn entropy(masses: &[f64]) -> f64 {
    let total: f64 = masses.iter().sum();
    if total == 0.0 {
        return 0.0;
    }
    let mut result = 0.0;
    for m in masses {
        if *m > 0.0 {
            let share = m / total;
            result -= share * share.log2();
        }
    }
    result
}

fn gain(
    held: &BifurcationFunction,
    left: &BifurcationFunction,
    right: &BifurcationFunction,
) -> f64 {
    let (h, l, r) = (masses(held), masses(left), masses(right));
    let total: f64 = h.iter().sum();
    let left_total: f64 = l.iter().sum();
    let right_total: f64 = r.iter().sum();
    entropy(&h) - left_total / total * entropy(&l) - right_total / total * entropy(&r)
}

fn score(
    held: &BifurcationFunction,
    left: &BifurcationFunction,
    right: &BifurcationFunction,
) -> i64 {
    (gain(held, left, right) * 1e12).round() as i64
}

fn never(_: &BifurcationFunction, _: &BifurcationFunction, _: &BifurcationFunction) -> i64 {
    0
}

fn labels_of(node: &BdtNode) -> Vec<(Vec<Behaviour>, u128)> {
    let classes = node.classes();
    (0..classes.len())
        .map(|i| {
            (
                classes.class_at(i).get_vector(),
                classes.cardinality_at(i).to_u128().unwrap(),
            )
        })
        .collect()
}

fn depth_of(tree: &Bdt, index: usize) -> usize {
    let mut depth = 0;
    let mut current = node_id(tree, index);
    while let Some(parent) = tree.parent(current) {
        depth += 1;
        current = parent;
    }
    depth
}

#[test]
fn attribute_with_overlapping_sides_is_refused() {
    let g = graph();
    assert!(Attribute::new("x".to_string(), colors(&g, &[0, 1]), colors(&g, &[1, 2])).is_none());
    let narrow = narrow_graph();
    assert!(
        Attribute::new("x".to_string(), colors(&g, &[0]), narrow.mk_empty_colors()).is_none()
    );
    let made = Attribute::new("x".to_string(), colors(&g, &[0, 1]), colors(&g, &[2])).unwrap();
    assert_eq!(made.name(), "x");
    assert_eq!(made.positive_colors(), &colors(&g, &[0, 1]));
    assert_eq!(made.negative_colors(), &colors(&g, &[2]));
}

#[test]
fn attribute_splits_classes_in_two() {
    let g = graph();
    let split = attribute(&g, "x", &[0, 1, 6, 8, 9]);
    let (left, right) = split.split(&three_classes(&g));
    assert_eq!(left.len(), 3);
    assert_eq!(masses(&left), vec![2.0, 1.0, 2.0]);
    assert_eq!(right.len(), 2);
    assert_eq!(masses(&right), vec![4.0, 1.0]);
    assert_eq!(right.class_at(1).get_vector(), vec![Behaviour::Oscillation]);
}

#[test]
fn tree_of_several_classes_starts_unprocessed() {
    let g = graph();
    let t = tree(&g);
    assert_eq!(t.capacity(), 1);
    assert_eq!(t.attribute_count(), 4);
    assert_eq!(t.root_id().to_index(), 0);
    assert!(t.contains(t.root_id()));
    let root = t.node(t.root_id()).unwrap();
    assert!(root.is_unprocessed());
    assert!(!root.is_leaf());
    assert!(!root.is_decision());
    assert!(t.parent(t.root_id()).is_none());
    assert_eq!(
        labels_of(root),
        vec![
            (vec![Behaviour::Stability], 6),
            (vec![Behaviour::Oscillation], 2),
            (vec![Behaviour::Disorder], 2)
        ]
    );
}

#[test]
fn tree_of_one_class_starts_as_a_leaf() {
    let g = graph();
    let classes = BifurcationFunction::single(class_b(), colors(&g, &[3, 4]));
    let t = Bdt::new(classes, parameter_attributes(&g)).unwrap();
    match t.node(t.root_id()).unwrap() {
        BdtNode::Leaf { class, params } => {
            assert_eq!(class.get_vector(), vec![Behaviour::Oscillation]);
            assert_eq!(params, &colors(&g, &[3, 4]));
        }
        _ => panic!("a single class makes a leaf"),
    }
}

#[test]
fn tree_of_mixed_encodings_is_refused() {
    let g = graph();
    let narrow = narrow_graph();
    let on = narrow.mk_unit_colors();
    let foreign = Attribute::new("x".to_string(), on, narrow.mk_empty_colors()).unwrap();
    assert!(Bdt::new(three_classes(&g), vec![foreign]).is_none());
    let mut mixed = parameter_attributes(&g);
    mixed.push(
        Attribute::new("y".to_string(), narrow.mk_unit_colors(), narrow.mk_empty_colors())
            .unwrap(),
    );
    assert!(Bdt::new(BifurcationFunction::new(), mixed).is_none());
    assert!(Bdt::new(BifurcationFunction::new(), Vec::new()).is_some());
}

#[test]
fn ids_are_checked_against_the_tree() {
    let g = graph();
    let t = tree(&g);
    assert_eq!(BdtNodeId::try_from_index(0, &t).unwrap().to_index(), 0);
    assert!(BdtNodeId::try_from_index(1, &t).is_none());
    assert!(BdtNodeId::try_from_index(usize::MAX, &t).is_none());
    assert_eq!(AttributeId::try_from_index(3, &t).unwrap().to_index(), 3);
    assert!(AttributeId::try_from_index(4, &t).is_none());
    assert_eq!(t.attribute(attribute_id(&t, 2)).unwrap().name(), "param_2");
}

#[test]
fn decision_makes_two_children_with_the_next_ids() {
    let g = graph();
    let mut t = tree(&g);
    let (left, right) = t.make_decision(t.root_id(), attribute_id(&t, 3)).unwrap();
    assert_eq!((left.to_index(), right.to_index()), (1, 2));
    assert_eq!(t.capacity(), 3);
    match t.node(t.root_id()).unwrap() {
        BdtNode::Decision { attribute, left, right, classes } => {
            assert_eq!(attribute.to_index(), 3);
            assert_eq!((left.to_index(), right.to_index()), (1, 2));
            assert_eq!(masses(classes), vec![6.0, 2.0, 2.0]);
        }
        _ => panic!("the node is a decision now"),
    }
    assert_eq!(labels_of(t.node(left).unwrap()), vec![(vec![Behaviour::Disorder], 2)]);
    assert!(t.node(left).unwrap().is_leaf());
    assert_eq!(
        labels_of(t.node(right).unwrap()),
        vec![(vec![Behaviour::Stability], 6), (vec![Behaviour::Oscillation], 2)]
    );
    assert!(t.node(right).unwrap().is_unprocessed());
    assert_eq!(t.parent(left).unwrap().to_index(), 0);
    assert_eq!(t.parent(right).unwrap().to_index(), 0);
}

#[test]
fn split_conserves_the_colours_of_the_node() {
    let g = graph();
    for k in 0..4 {
        let mut t = tree(&g);
        if let Ok((left, right)) = t.make_decision(t.root_id(), attribute_id(&t, k)) {
            let l = t.node(left).unwrap().classes().total_cardinality().to_u128().unwrap();
            let r = t.node(right).unwrap().classes().total_cardinality().to_u128().unwrap();
            assert_eq!(l + r, 10);
        }
    }
}

#[test]
fn split_divides_the_colours_of_each_class() {
    let g = graph();
    let mut t = tree(&g);
    let held = t.node(t.root_id()).unwrap().classes();
    let (left, right) = t.make_decision(t.root_id(), attribute_id(&t, 1)).unwrap();
    let on = parameter(&g, 1);
    let left = t.node(left).unwrap().classes();
    let right = t.node(right).unwrap().classes();
    for i in 0..held.len() {
        let key = held.class_at(i);
        let all = held.colors_at(i);
        let met = left.get(key).cloned().unwrap_or(g.mk_empty_colors());
        let unmet = right.get(key).cloned().unwrap_or(g.mk_empty_colors());
        assert_eq!(met, all.intersect(&on));
        assert_eq!(unmet, all.minus(&on));
        assert!(met.intersect(&unmet).is_empty());
        assert_eq!(&met.union(&unmet), all);
    }
    assert_eq!((left.len(), right.len()), (2, 2));
}

#[test]
fn split_counts_only_colours_inside_the_attribute() {
    let g = graph();
    let partial = Attribute::new("x".to_string(), colors(&g, &[0, 6]), colors(&g, &[1, 8]))
        .unwrap();
    let mut t = Bdt::new(three_classes(&g), vec![partial]).unwrap();
    let (left, right) = t.make_decision(t.root_id(), attribute_id(&t, 0)).unwrap();
    assert_eq!(t.node(left).unwrap().classes().total_cardinality().to_u128(), Some(2));
    assert_eq!(t.node(right).unwrap().classes().total_cardinality().to_u128(), Some(2));
}

#[test]
fn split_that_leaves_a_side_empty_is_refused() {
    let g = graph();
    let all = Attribute::new("all".to_string(), g.mk_unit_colors(), g.mk_empty_colors()).unwrap();
    let none = Attribute::new("none".to_string(), colors(&g, &[15]), colors(&g, &[14])).unwrap();
    let mut t = Bdt::new(three_classes(&g), vec![all, none]).unwrap();
    assert_eq!(
        t.make_decision(t.root_id(), attribute_id(&t, 0)),
        Err(DecisionError::NoOpSplit)
    );
    assert_eq!(
        t.make_decision(t.root_id(), attribute_id(&t, 1)),
        Err(DecisionError::NoOpSplit)
    );
    assert_eq!(t.capacity(), 1);
    assert!(t.node(t.root_id()).unwrap().is_unprocessed());
}

#[test]
fn stale_and_foreign_ids_are_refused() {
    let g = graph();
    let mut t = tree(&g);
    let (left, _) = t.make_decision(t.root_id(), attribute_id(&t, 3)).unwrap();
    t.revert_decision(t.root_id()).unwrap();
    assert_eq!(
        t.make_decision(left, attribute_id(&t, 0)),
        Err(DecisionError::InvalidNode)
    );
    assert!(t.revert_decision(left).is_none());
    assert!(t.node(left).is_none());
    let foreign = attribute_id(&t, 3);
    let mut small =
        Bdt::new(three_classes(&g), vec![attribute(&g, "x", &[0, 6])]).unwrap();
    assert_eq!(
        small.make_decision(small.root_id(), foreign),
        Err(DecisionError::InvalidAttribute)
    );
    assert_eq!(small.capacity(), 1);
}

#[test]
fn revert_takes_a_split_back() {
    let g = graph();
    let mut t = tree(&g);
    let before = labels_of(t.node(t.root_id()).unwrap());
    t.make_decision(t.root_id(), attribute_id(&t, 1)).unwrap();
    let removed = t.revert_decision(t.root_id()).unwrap();
    assert_eq!(removed.iter().map(|id| id.to_index()).collect::<Vec<_>>(), vec![1, 2]);
    let root = t.node(t.root_id()).unwrap();
    assert!(root.is_unprocessed());
    assert_eq!(labels_of(root), before);
    assert_eq!(root.classes().colors_at(0), &colors(&g, &[0, 1, 2, 3, 4, 5]));
    assert_eq!(t.capacity(), 3);
    assert!(BdtNodeId::try_from_index(1, &t).is_none());
    assert!(BdtNodeId::try_from_index(2, &t).is_none());
    assert!(t.parent(t.root_id()).is_none());
}

#[test]
fn revert_of_a_node_that_is_no_decision_changes_nothing() {
    let g = graph();
    let mut t = tree(&g);
    assert!(t.revert_decision(t.root_id()).is_none());
    let (left, right) = t.make_decision(t.root_id(), attribute_id(&t, 3)).unwrap();
    assert!(t.revert_decision(left).is_none());
    assert!(t.revert_decision(right).is_none());
    assert_eq!(t.capacity(), 3);
    assert!(t.node(t.root_id()).unwrap().is_decision());
}

#[test]
fn revert_removes_everything_below() {
    let g = graph();
    let mut t = tree(&g);
    let (_, right) = t.make_decision(t.root_id(), attribute_id(&t, 3)).unwrap();
    let (deep_left, deep_right) = t.make_decision(right, attribute_id(&t, 1)).unwrap();
    assert_eq!((deep_left.to_index(), deep_right.to_index()), (3, 4));
    let (a, b) = t.make_decision(deep_left, attribute_id(&t, 2)).unwrap();
    assert_eq!((a.to_index(), b.to_index()), (5, 6));
    let removed = t.revert_decision(right).unwrap();
    assert_eq!(removed.iter().map(|id| id.to_index()).collect::<Vec<_>>(), vec![3, 4, 5, 6]);
    assert!(t.node(right).unwrap().is_unprocessed());
    assert!(t.node(t.root_id()).unwrap().is_decision());
    assert!(t.contains(node_id(&t, 1)));
    let removed = t.revert_decision(t.root_id()).unwrap();
    assert_eq!(removed.iter().map(|id| id.to_index()).collect::<Vec<_>>(), vec![1, 2]);
}

#[test]
fn removed_ids_are_never_given_out_again() {
    let g = graph();
    let mut t = tree(&g);
    t.make_decision(t.root_id(), attribute_id(&t, 3)).unwrap();
    t.revert_decision(t.root_id()).unwrap();
    let (left, right) = t.make_decision(t.root_id(), attribute_id(&t, 3)).unwrap();
    assert_eq!((left.to_index(), right.to_index()), (3, 4));
    assert_eq!(t.capacity(), 5);
    assert!(BdtNodeId::try_from_index(1, &t).is_none());
    assert!(BdtNodeId::try_from_index(3, &t).is_some());
}

#[test]
fn leaf_can_be_split_and_comes_back_with_its_class() {
    let g = graph();
    let classes = BifurcationFunction::single(class_a(), colors(&g, &[0, 1, 2, 3]));
    let mut t = Bdt::new(classes, parameter_attributes(&g)).unwrap();
    let (left, right) = t.make_decision(t.root_id(), attribute_id(&t, 0)).unwrap();
    assert!(t.node(left).unwrap().is_leaf());
    assert!(t.node(right).unwrap().is_leaf());
    assert_eq!(labels_of(t.node(left).unwrap()), vec![(vec![Behaviour::Stability], 2)]);
    let removed = t.revert_decision(t.root_id()).unwrap();
    assert_eq!(removed.len(), 2);
    assert_eq!(
        labels_of(t.node(t.root_id()).unwrap()),
        vec![(vec![Behaviour::Stability], 4)]
    );
}

#[test]
fn decision_can_be_split_again() {
    let g = graph();
    let mut t = tree(&g);
    let (_, right) = t.make_decision(t.root_id(), attribute_id(&t, 3)).unwrap();
    t.make_decision(right, attribute_id(&t, 1)).unwrap();
    let (left, right) = t.make_decision(t.root_id(), attribute_id(&t, 2)).unwrap();
    assert_eq!((left.to_index(), right.to_index()), (5, 6));
    for index in 1..5 {
        assert!(BdtNodeId::try_from_index(index, &t).is_none());
    }
    match t.node(t.root_id()).unwrap() {
        BdtNode::Decision { attribute, classes, .. } => {
            assert_eq!(attribute.to_index(), 2);
            assert_eq!(masses(classes), vec![6.0, 2.0, 2.0]);
        }
        _ => panic!("the node is a decision"),
    }
}

#[test]
fn precision_is_kept_as_it_is_set() {
    let g = graph();
    let mut t = tree(&g);
    assert_eq!(t.get_precision(), 10000);
    for p in [0u32, 1, 5000, 9350, 10000] {
        t.set_precision(p);
        assert_eq!(t.get_precision(), p);
    }
    t.set_precision(10001);
    assert_eq!(t.get_precision(), 10000);
    assert_eq!(t.capacity(), 1);
    assert!(t.node(t.root_id()).unwrap().is_unprocessed());
}

fn reaches(m: u64, total: u64, p: u32) -> bool {
    reaches_threshold(&Mass::from_u64(m), &Mass::from_u64(total), p)
}

#[test]
fn threshold_is_exact() {
    assert!(reaches(6, 10, 6000));
    assert!(!reaches(6, 10, 6001));
    assert!(reaches(0, 10, 0));
    assert!(reaches(0, 0, 10000));
    assert!(!reaches(9, 10, 10000));
    assert!(reaches(10, 10, 10000));
    assert!(!reaches(10, 10, 10001));
    assert!(reaches(1, 3, 3333));
    assert!(!reaches(1, 3, 3334));
    assert!(reaches(u64::MAX, u64::MAX, 10000));
    assert!(!reaches(u64::MAX - 1, u64::MAX, 10000));
    assert!(!reaches(u64::MAX, u64::MAX, u32::MAX));
    assert!(reaches(u64::MAX / 2 + 1, u64::MAX, 5000));
    assert!(!reaches(u64::MAX / 2, u64::MAX, 5001));
    let huge = Mass::from_digits(vec![u32::MAX; 9]);
    let mut digits = vec![u32::MAX; 8];
    digits.push(u32::MAX / 2);
    let half = Mass::from_digits(digits);
    assert!(reaches_threshold(&huge, &huge, 10000));
    assert!(!reaches_threshold(&half, &huge, 5000));
    assert!(reaches_threshold(&half, &huge, 4999));
    assert!(reaches_threshold(&half.plus(&Mass::from_u64(1)), &huge, 5000));
}

#[test]
fn majority_is_the_heaviest_class_that_reaches_the_share() {
    let g = graph();
    let classes = three_classes(&g);
    assert_eq!(get_majority_class(&classes, None), None);
    assert_eq!(get_majority_class(&classes, Some(0)), Some(0));
    assert_eq!(get_majority_class(&classes, Some(6000)), Some(0));
    assert_eq!(get_majority_class(&classes, Some(6001)), None);
    assert_eq!(get_majority_class(&classes, Some(10000)), None);
    assert_eq!(get_majority_class(&BifurcationFunction::new(), Some(0)), None);
    let mut later = BifurcationFunction::new();
    later.add(class_c(), colors(&g, &[8, 9]));
    later.add(class_a(), colors(&g, &[0, 1, 2, 3, 4, 5]));
    assert_eq!(get_majority_class(&later, Some(6000)), Some(1));
}

#[test]
fn majority_among_equals_goes_by_the_order_of_classes() {
    let g = graph();
    let mut one = BifurcationFunction::new();
    one.add(class_c(), colors(&g, &[0, 1]));
    one.add(class_a(), colors(&g, &[2, 3]));
    one.add(class_b(), colors(&g, &[4, 5]));
    assert_eq!(get_majority_class(&one, Some(3000)), Some(1));
    let mut other = BifurcationFunction::new();
    other.add(class_a(), colors(&g, &[2, 3]));
    other.add(class_b(), colors(&g, &[4, 5]));
    other.add(class_c(), colors(&g, &[0, 1]));
    assert_eq!(get_majority_class(&other, Some(3000)), Some(0));
    assert_eq!(get_majority_class(&other, Some(3334)), None);
}

#[test]
fn raising_the_precision_never_brings_a_majority_back() {
    let g = graph();
    let classes = three_classes(&g);
    let mut gone = false;
    for p in (0..=10000).step_by(250) {
        let found = get_majority_class(&classes, Some(p));
        if gone {
            assert_eq!(found, None);
        }
        match found {
            Some(i) => assert_eq!(i, 0),
            None => gone = true,
        }
    }
    assert!(gone);
}

#[test]
fn record_of_an_unprocessed_node() {
    let g = graph();
    let t = tree(&g);
    match t.node_to_json(t.root_id()).unwrap() {
        NodeJson::Unprocessed { id, cardinality, classes } => {
            assert_eq!(id, Some(0));
            assert_eq!(cardinality.to_u128(), Some(10));
            assert_eq!(classes.len(), 3);
            assert_eq!(classes[0].cardinality.to_u128(), Some(6));
            assert_eq!(classes[0].class.get_vector(), vec![Behaviour::Stability]);
            assert_eq!(classes[2].cardinality.to_u128(), Some(2));
            assert_eq!(classes[2].class.get_vector(), vec![Behaviour::Disorder]);
        }
        _ => panic!("the root is unprocessed"),
    }
    match t.node(t.root_id()).unwrap().to_json(None) {
        NodeJson::Unprocessed { id, .. } => assert_eq!(id, None),
        _ => panic!("the root is unprocessed"),
    }
}

#[test]
fn record_of_a_decision_and_of_its_leaf() {
    let g = graph();
    let mut t = tree(&g);
    let (left, _) = t.make_decision(t.root_id(), attribute_id(&t, 3)).unwrap();
    match t.node_to_json(t.root_id()).unwrap() {
        NodeJson::Decision {
            id,
            cardinality,
            classes,
            attribute_id,
            attribute_name,
            left,
            right,
        } => {
            assert_eq!(id, Some(0));
            assert_eq!(cardinality.to_u128(), Some(10));
            assert_eq!(classes.len(), 3);
            assert_eq!(attribute_id, 3);
            assert_eq!(attribute_name, Some("param_3".to_string()));
            assert_eq!((left, right), (1, 2));
        }
        _ => panic!("the root is a decision"),
    }
    match t.node_to_json(left).unwrap() {
        NodeJson::Leaf { id, cardinality, class, all_classes } => {
            assert_eq!(id, Some(1));
            assert_eq!(cardinality.to_u128(), Some(2));
            assert_eq!(class.get_vector(), vec![Behaviour::Disorder]);
            assert!(all_classes.is_none());
        }
        _ => panic!("the left child is a leaf"),
    }
}

#[test]
fn node_with_a_majority_is_shown_as_a_leaf() {
    let g = graph();
    let mut t = tree(&g);
    t.make_decision(t.root_id(), attribute_id(&t, 3)).unwrap();
    t.set_precision(6000);
    match t.node_to_json(t.root_id()).unwrap() {
        NodeJson::Leaf { id, cardinality, class, all_classes } => {
            assert_eq!(id, Some(0));
            assert_eq!(cardinality.to_u128(), Some(10));
            assert_eq!(class.get_vector(), vec![Behaviour::Stability]);
            let all = all_classes.unwrap();
            assert_eq!(all.len(), 3);
            assert_eq!(all[0].cardinality.to_u128(), Some(6));
            assert_eq!(all[1].cardinality.to_u128(), Some(2));
            assert_eq!(all[2].cardinality.to_u128(), Some(2));
        }
        _ => panic!("the root is shown as a leaf"),
    }
    let shown = t.to_json();
    assert_eq!(shown.len(), 1);
    t.set_precision(6001);
    assert!(matches!(t.node_to_json(t.root_id()).unwrap(), NodeJson::Decision { .. }));
    assert_eq!(t.to_json().len(), 3);
    match t.node_to_json(node_id(&t, 2)).unwrap() {
        NodeJson::Leaf { cardinality, class, all_classes, .. } => {
            assert_eq!(cardinality.to_u128(), Some(8));
            assert_eq!(class.get_vector(), vec![Behaviour::Stability]);
            assert_eq!(all_classes.unwrap().len(), 2);
        }
        _ => panic!("six of eight colours are a majority at 60.01%"),
    }
    assert!(t.node(node_id(&t, 2)).unwrap().is_unprocessed());
}

fn mass_of(record: &NodeJson) -> Option<u128> {
    match record {
        NodeJson::Leaf { cardinality, .. } => cardinality.to_u128(),
        NodeJson::Unprocessed { cardinality, .. } => cardinality.to_u128(),
        NodeJson::Decision { cardinality, .. } => cardinality.to_u128(),
    }
}

#[test]
fn every_record_carries_all_colours_of_its_node() {
    let g = graph();
    for precision in [0u32, 2000, 6000, 6001, 7500, 7501, 10000, 10001] {
        let mut t = DecisionTree::new(tree(&g));
        t.apply_tree_precision(precision);
        assert_eq!(mass_of(&t.get_full_tree()[0]), Some(10));
        let records = t.apply_attribute(0, 3).unwrap();
        assert_eq!(mass_of(&records[0]), Some(10));
        assert_eq!(mass_of(&records[1]), Some(2));
        assert_eq!(mass_of(&records[2]), Some(8));
        let (node, removed) = t.revert_decision(0).unwrap();
        assert_eq!(mass_of(&node), Some(10));
        assert_eq!(removed, vec![1, 2]);
        assert_eq!(t.get_tree_precision(), if precision <= 10000 { precision } else { 10000 });
    }
    let t = tree(&g);
    let root = t.node(t.root_id()).unwrap();
    assert_eq!(mass_of(&root.to_json(Some(0))), Some(10));
    assert_eq!(mass_of(&root.to_json(Some(6000))), Some(10));
    assert_eq!(mass_of(&root.to_json(None)), Some(10));
    assert!(matches!(root.to_json(Some(6000)), NodeJson::Leaf { .. }));
    assert!(matches!(root.to_json(Some(6001)), NodeJson::Unprocessed { .. }));
}

#[test]
fn records_come_by_ascending_id_and_only_for_the_ids_asked() {
    let g = graph();
    let mut t = tree(&g);
    let (left, right) = t.make_decision(t.root_id(), attribute_id(&t, 3)).unwrap();
    let (deep_left, deep_right) = t.make_decision(right, attribute_id(&t, 1)).unwrap();
    let ids = |records: &Vec<NodeJson>| -> Vec<usize> {
        records
            .iter()
            .map(|record| match record {
                NodeJson::Leaf { id, .. } => id.unwrap(),
                NodeJson::Unprocessed { id, .. } => id.unwrap(),
                NodeJson::Decision { id, .. } => id.unwrap(),
            })
            .collect()
    };
    assert_eq!(ids(&t.to_json()), vec![0, 1, 2, 3, 4]);
    assert_eq!(ids(&t.to_json_partial(&vec![deep_right, left])), vec![1, 4]);
    assert_eq!(ids(&t.to_json_partial(&Vec::new())), Vec::<usize>::new());
    assert_eq!(ids(&t.nodes_to_json(&vec![deep_left, t.root_id()])), vec![3, 0]);
    t.revert_decision(right).unwrap();
    assert_eq!(ids(&t.to_json()), vec![0, 1, 2]);
    assert_eq!(ids(&t.to_json_partial(&vec![deep_right, left])), vec![1]);
}

#[test]
fn children_of_a_collapsed_decision_are_not_shown() {
    let g = graph();
    let mut t = tree(&g);
    let (_, right) = t.make_decision(t.root_id(), attribute_id(&t, 3)).unwrap();
    t.make_decision(right, attribute_id(&t, 1)).unwrap();
    t.set_precision(7500);
    let shown = t.to_json();
    assert_eq!(shown.len(), 3);
    assert!(matches!(shown[0], NodeJson::Decision { .. }));
    assert!(matches!(shown[2], NodeJson::Leaf { .. }));
    assert_eq!(t.to_json_partial(&vec![node_id(&t, 3), node_id(&t, 4)]).len(), 0);
}

#[test]
fn best_attribute_has_the_highest_positive_score() {
    assert_eq!(choose_attribute(&vec![]), None);
    assert_eq!(choose_attribute(&vec![None, None]), None);
    assert_eq!(choose_attribute(&vec![Some(0), Some(-3), None]), None);
    assert_eq!(choose_attribute(&vec![Some(1), Some(5), None, Some(3)]), Some(1));
    assert_eq!(choose_attribute(&vec![None, Some(4), Some(7), Some(7)]), Some(2));
    assert_eq!(choose_attribute(&vec![Some(i64::MIN), Some(i64::MAX)]), Some(1));
}

#[test]
fn ranking_goes_by_score_and_then_by_id() {
    assert_eq!(rank_attributes(&vec![]), Vec::<usize>::new());
    assert_eq!(
        rank_attributes(&vec![Some(1), None, Some(5), Some(1), Some(-2), Some(5)]),
        vec![2, 5, 0, 3, 4]
    );
    assert_eq!(rank_attributes(&vec![None, None]), Vec::<usize>::new());
}

#[test]
fn gain_of_an_even_and_of_an_uneven_split() {
    let g = graph();
    let held = three_classes(&g);
    let even = attribute(&g, "even", &[0, 1, 2, 3, 4, 5]);
    let uneven = attribute(&g, "uneven", &[0]);
    let (left, right) = even.split(&held);
    assert_eq!(masses(&left), vec![6.0]);
    assert_eq!(masses(&right), vec![2.0, 2.0]);
    assert_eq!(entropy(&masses(&left)), 0.0);
    assert_eq!(entropy(&masses(&right)), 1.0);
    let parent = -(0.6f64 * 0.6f64.log2() + 2.0 * 0.2f64 * 0.2f64.log2());
    assert!((entropy(&masses(&held)) - parent).abs() < 1e-12);
    let best = gain(&held, &left, &right);
    assert!((best - (parent - 0.4)).abs() < 1e-12);
    assert!((best - 0.9709505944546687).abs() < 1e-12);
    let (left, right) = uneven.split(&held);
    assert_eq!(masses(&left), vec![1.0]);
    assert_eq!(masses(&right), vec![5.0, 2.0, 2.0]);
    let worse = gain(&held, &left, &right);
    assert!(worse <= entropy(&masses(&held)));
    assert!(best > worse);
}

#[test]
fn gains_are_ranked_and_leave_out_what_cannot_be_applied() {
    let g = graph();
    let attributes = vec![
        attribute(&g, "uneven", &[0]),
        attribute(&g, "outside", &[12, 13]),
        attribute(&g, "even", &[0, 1, 2, 3, 4, 5]),
        attribute(&g, "twin", &[6, 7, 8, 9]),
    ];
    let mut t = Bdt::new(three_classes(&g), attributes).unwrap();
    let gains = t.attribute_gains_json(t.root_id(), &score);
    assert_eq!(gains.iter().map(|it| it.id).collect::<Vec<_>>(), vec![2, 3, 0]);
    assert_eq!(gains[0].name, "even");
    assert_eq!(gains[0].gain, 970950594455);
    assert_eq!(gains[1].gain, gains[0].gain);
    assert!(gains[2].gain < gains[1].gain);
    assert!(gains[2].gain > 0);
    assert_eq!(gains[0].left.len(), 1);
    assert_eq!(gains[0].left[0].cardinality.to_u128(), Some(6));
    assert_eq!(gains[0].right.len(), 2);
    assert_eq!(gains[1].left.len(), 2);
    assert_eq!(gains[1].right[0].class.get_vector(), vec![Behaviour::Stability]);
    let (_, right) = t.make_decision(t.root_id(), attribute_id(&t, 2)).unwrap();
    let below = t.attribute_gains_json(right, &score);
    assert_eq!(below.len(), 0);
    let used = t.attributes_above(right);
    assert_eq!(used, vec![false, false, true, false]);
    let scores = t.score_attributes(right, &score);
    assert_eq!(scores, vec![None, None, None, None]);
}

#[test]
fn expansion_to_depth_zero_changes_nothing() {
    let g = graph();
    let mut t = tree(&g);
    let changed = t.auto_expand(t.root_id(), 0, &score);
    assert!(changed.is_empty());
    assert_eq!(t.capacity(), 1);
}

#[test]
fn expansion_by_one_level_applies_the_best_attribute() {
    let g = graph();
    let mut t = tree(&g);
    let scores = t.score_attributes(t.root_id(), &score);
    let best = choose_attribute(&scores).unwrap();
    let changed = t.auto_expand(t.root_id(), 1, &score);
    assert_eq!(changed.iter().map(|id| id.to_index()).collect::<Vec<_>>(), vec![0, 1, 2]);
    match t.node(t.root_id()).unwrap() {
        BdtNode::Decision { attribute, .. } => assert_eq!(attribute.to_index(), best),
        _ => panic!("the root was split"),
    }
    assert_eq!(best, 3);
    assert_eq!(t.capacity(), 3);
}

#[test]
fn expansion_stops_at_leaves_and_where_nothing_is_gained() {
    let g = graph();
    let mut t = tree(&g);
    let changed = t.auto_expand(t.root_id(), 10, &score);
    let mut listed: Vec<usize> = changed.iter().map(|id| id.to_index()).collect();
    listed.sort();
    let mut unique = listed.clone();
    unique.dedup();
    assert_eq!(listed, unique);
    assert_eq!(listed, (0..t.capacity()).collect::<Vec<_>>());
    for index in 0..t.capacity() {
        let node = t.node(node_id(&t, index)).unwrap();
        if node.is_unprocessed() {
            let scores = t.score_attributes(node_id(&t, index), &score);
            assert_eq!(choose_attribute(&scores), None);
        }
        assert!(depth_of(&t, index) <= 10);
    }
    let again = t.auto_expand(t.root_id(), 10, &score);
    assert!(again.is_empty());
    assert_eq!(t.capacity(), listed.len());
}

#[test]
fn expansion_is_bounded_by_its_depth() {
    let g = graph();
    let mut classes = BifurcationFunction::new();
    for index in 0..16 {
        let labels: Vec<Behaviour> = (0..index % 5).map(|_| Behaviour::Stability).collect();
        let mut key = Class::from_vector(&labels);
        if index % 2 == 1 {
            key = key.clone_extended(Behaviour::Disorder);
        }
        if index >= 8 {
            key = key.clone_extended(Behaviour::Oscillation);
        }
        classes.add(key, color(&g, index));
    }
    for depth in 0..4u32 {
        let mut t = Bdt::new(classes.duplicate(), parameter_attributes(&g)).unwrap();
        let changed = t.auto_expand(t.root_id(), depth, &score);
        let deepest = (0..t.capacity()).map(|index| depth_of(&t, index)).max().unwrap();
        assert!(deepest <= depth as usize);
        assert!(t.capacity() - 1 <= (1usize << (depth + 1)) - 2);
        assert_eq!(t.capacity() - 1, (1usize << (depth + 1)) - 2);
        assert_eq!(changed.is_empty(), depth == 0);
        let again = t.auto_expand(t.root_id(), depth, &score);
        assert!(again.is_empty());
        assert_eq!(t.capacity() - 1, (1usize << (depth + 1)) - 2);
        let deeper = t.auto_expand(t.root_id(), depth + 1, &score);
        assert!(!deeper.is_empty());
    }
    let mut full = Bdt::new(classes.duplicate(), parameter_attributes(&g)).unwrap();
    full.auto_expand(full.root_id(), 10, &score);
    let mut capped = Bdt::new(classes.duplicate(), parameter_attributes(&g)).unwrap();
    capped.auto_expand(capped.root_id(), u32::MAX, &score);
    assert_eq!(full.capacity(), capped.capacity());
    assert!((0..full.capacity()).all(|index| depth_of(&full, index) <= 4));
}

#[test]
fn expansion_without_a_positive_score_changes_nothing() {
    let g = graph();
    let mut t = tree(&g);
    assert!(t.auto_expand(t.root_id(), 10, &never).is_empty());
    assert_eq!(t.capacity(), 1);
    assert!(t.node(t.root_id()).unwrap().is_unprocessed());
}

#[test]
fn expansion_goes_on_below_decisions_that_are_there() {
    let g = graph();
    let mut t = tree(&g);
    let (_, right) = t.make_decision(t.root_id(), attribute_id(&t, 0)).unwrap();
    let changed = t.auto_expand(t.root_id(), 2, &score);
    let listed: Vec<usize> = changed.iter().map(|id| id.to_index()).collect();
    assert!(!listed.contains(&0));
    assert!(listed.contains(&right.to_index()));
    match t.node(t.root_id()).unwrap() {
        BdtNode::Decision { attribute, .. } => assert_eq!(attribute.to_index(), 0),
        _ => panic!("the root stays a decision"),
    }
    assert!((0..t.capacity()).all(|index| depth_of(&t, index) <= 2));
}

#[test]
fn numbers_drive_the_tree() {
    let g = graph();
    let mut t = DecisionTree::new(tree(&g));
    assert_eq!(t.get_tree_precision(), 10000);
    t.apply_tree_precision(9350);
    assert_eq!(t.get_tree_precision(), 9350);
    assert_eq!(t.get_full_tree().len(), 1);
    let records = t.apply_attribute(0, 3).unwrap();
    assert_eq!(records.len(), 3);
    assert!(matches!(records[0], NodeJson::Decision { id: Some(0), .. }));
    assert!(matches!(records[1], NodeJson::Leaf { id: Some(1), .. }));
    assert!(matches!(records[2], NodeJson::Unprocessed { id: Some(2), .. }));
    assert_eq!(t.apply_attribute(7, 0).err(), Some(DecisionError::InvalidNode));
    assert_eq!(t.apply_attribute(2, 4).err(), Some(DecisionError::InvalidAttribute));
    assert_eq!(t.apply_attribute(1, 3).err(), Some(DecisionError::NoOpSplit));
    assert_eq!(t.get_full_tree().len(), 3);
    assert!(t.get_attributes(9, &score).is_none());
    let gains = t.get_attributes(2, &score).unwrap();
    assert!(!gains.is_empty());
    assert!(gains.iter().all(|it| it.id != 3));
    let grown = t.auto_expand(2, 20, &score).unwrap();
    assert!(!grown.is_empty());
    assert!(t.auto_expand(2, 20, &score).unwrap().is_empty());
    assert!(t.auto_expand(400, 1, &score).is_none());
    let (leaf, none_removed) = t.revert_decision(1).unwrap();
    assert!(matches!(leaf, NodeJson::Leaf { id: Some(1), .. }));
    assert!(none_removed.is_empty());
    assert!(t.inner().node(node_id(t.inner(), 0)).unwrap().is_decision());
    assert!(t.revert_decision(77).is_none());
    t.get_stability_data();
    let (node, removed) = t.revert_decision(0).unwrap();
    assert!(matches!(node, NodeJson::Unprocessed { id: Some(0), .. }));
    assert_eq!(removed, (1..t.inner().capacity()).collect::<Vec<_>>());
    assert_eq!(t.get_full_tree().len(), 1);
}
