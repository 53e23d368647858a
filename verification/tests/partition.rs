use aeon_bdt::behaviour::Behaviour;
use aeon_bdt::bifurcation::BifurcationFunction;
use aeon_bdt::class::Class;
use aeon_bdt::classifier::refine;
use aeon_bdt::classifier::AttractorComponent;
use aeon_bdt::classifier::Classifier;
use biodivine_lib_param_bn::biodivine_std::traits::Set as SymbolicSet;
use biodivine_lib_param_bn::symbolic_async_graph::GraphColors;
use biodivine_lib_param_bn::symbolic_async_graph::SymbolicAsyncGraph;
use biodivine_lib_param_bn::BooleanNetwork;

/// A graph over two parameters, hence four colours.
fn graph() -> SymbolicAsyncGraph {
    let network = BooleanNetwork::try_from("a -?? a\n$a: (p & a) | q").unwrap();
    SymbolicAsyncGraph::new(&network).unwrap()
}

/// A graph over three parameters: its sets have another encoding.
fn wider_graph() -> SymbolicAsyncGraph {
    let network = BooleanNetwork::try_from("a -?? a\n$a: (p & a) | (q & r)").unwrap();
    SymbolicAsyncGraph::new(&network).unwrap()
}

/// The single colour in which the two parameters have the given values.
fn color(graph: &SymbolicAsyncGraph, first: bool, second: bool) -> GraphColors {
    let context = graph.symbolic_context();
    let variables = context.parameter_variables();
    let set = context.bdd_variable_set();
    let x = set.mk_var(variables[0]);
    let y = set.mk_var(variables[1]);
    let x = if first { x } else { x.not() };
    let y = if second { y } else { y.not() };
    GraphColors::new(x.and(&y), context)
}

fn c1(graph: &SymbolicAsyncGraph) -> GraphColors {
    color(graph, true, true)
}

fn c2(graph: &SymbolicAsyncGraph) -> GraphColors {
    color(graph, true, false)
}

fn c3(graph: &SymbolicAsyncGraph) -> GraphColors {
    color(graph, false, true)
}

fn c4(graph: &SymbolicAsyncGraph) -> GraphColors {
    color(graph, false, false)
}

fn class(labels: &[Behaviour]) -> Class {
    Class::from_vector(&labels.to_vec())
}

fn component(
    graph: &SymbolicAsyncGraph,
    behaviours: Vec<(Behaviour, GraphColors)>,
) -> AttractorComponent {
    AttractorComponent::new(graph.mk_empty_colored_vertices(), behaviours).unwrap()
}

/// The colours of a class in a function; the empty set where it is absent.
fn colors_of(graph: &SymbolicAsyncGraph, classes: &BifurcationFunction, key: &Class) -> GraphColors {
    match classes.get(key) {
        Some(colors) => colors.clone(),
        None => graph.mk_empty_colors(),
    }
}

fn feed(classifier: &mut Classifier, component: AttractorComponent) {
    assert!(classifier.accepts(&component));
    classifier.add_component(component);
}

#[test]
fn new_function_maps_nothing() {
    let classes = BifurcationFunction::new();
    assert!(classes.is_empty());
    assert_eq!(classes.len(), 0);
    assert_eq!(classes.total_cardinality().to_u128(), Some(0));
    assert!(classes.get(&Class::new_empty()).is_none());
}

#[test]
fn add_appends_a_new_class() {
    let g = graph();
    let mut classes = BifurcationFunction::new();
    classes.add(class(&[Behaviour::Stability]), c1(&g));
    classes.add(class(&[Behaviour::Disorder]), c2(&g));
    assert_eq!(classes.len(), 2);
    assert_eq!(classes.class_at(0).get_vector(), vec![Behaviour::Stability]);
    assert_eq!(classes.class_at(1).get_vector(), vec![Behaviour::Disorder]);
    assert_eq!(classes.colors_at(0), &c1(&g));
    assert_eq!(classes.colors_at(1), &c2(&g));
}

#[test]
fn add_merges_into_a_present_class_by_union() {
    let g = graph();
    let mut classes = BifurcationFunction::new();
    classes.add(class(&[Behaviour::Stability]), c1(&g));
    classes.add(class(&[Behaviour::Stability]), c2(&g));
    assert_eq!(classes.len(), 1);
    assert_eq!(classes.colors_at(0), &c1(&g).union(&c2(&g)));
    assert_eq!(classes.cardinality_at(0).to_u128(), Some(2));
}

#[test]
fn add_ignores_an_empty_set() {
    let g = graph();
    let mut classes = BifurcationFunction::new();
    classes.add(class(&[Behaviour::Stability]), g.mk_empty_colors());
    assert!(classes.is_empty());
    classes.add(class(&[Behaviour::Stability]), c1(&g));
    classes.add(class(&[Behaviour::Stability]), g.mk_empty_colors());
    classes.add(class(&[Behaviour::Oscillation]), g.mk_empty_colors());
    assert_eq!(classes.len(), 1);
    assert_eq!(classes.colors_at(0), &c1(&g));
}

#[test]
fn position_and_get_find_a_class_by_its_labels() {
    let g = graph();
    let mut classes = BifurcationFunction::new();
    classes.add(class(&[Behaviour::Stability]), c1(&g));
    classes.add(class(&[Behaviour::Stability, Behaviour::Disorder]), c2(&g));
    let key = class(&[Behaviour::Disorder, Behaviour::Stability]);
    assert_eq!(classes.position(&key), Some(1));
    assert_eq!(classes.get(&key), Some(&c2(&g)));
    assert_eq!(classes.position(&class(&[Behaviour::Disorder])), None);
    assert!(classes.get(&class(&[Behaviour::Disorder])).is_none());
}

#[test]
fn cardinalities_count_colours() {
    let g = graph();
    let mut classes = BifurcationFunction::new();
    classes.add(class(&[Behaviour::Stability]), c1(&g).union(&c2(&g)).union(&c3(&g)));
    classes.add(class(&[Behaviour::Disorder]), c4(&g));
    assert_eq!(classes.cardinality_at(0).to_u128(), Some(3));
    assert_eq!(classes.cardinality_at(1).to_u128(), Some(1));
    assert_eq!(classes.total_cardinality().to_u128(), Some(4));
}

#[test]
fn restricted_keeps_the_colours_inside_and_drops_empty_classes() {
    let g = graph();
    let mut classes = BifurcationFunction::new();
    classes.add(class(&[Behaviour::Stability]), c1(&g).union(&c2(&g)));
    classes.add(class(&[Behaviour::Oscillation]), c3(&g));
    classes.add(class(&[Behaviour::Disorder]), c4(&g));
    let cut = classes.restricted(&c2(&g).union(&c4(&g)));
    assert_eq!(cut.len(), 2);
    assert_eq!(cut.class_at(0).get_vector(), vec![Behaviour::Stability]);
    assert_eq!(cut.colors_at(0), &c2(&g));
    assert_eq!(cut.class_at(1).get_vector(), vec![Behaviour::Disorder]);
    assert_eq!(cut.colors_at(1), &c4(&g));
    assert_eq!(classes.len(), 3);
}

#[test]
fn duplicate_copies_every_entry() {
    let g = graph();
    let mut classes = BifurcationFunction::new();
    classes.add(class(&[Behaviour::Stability]), c1(&g));
    classes.add(class(&[Behaviour::Disorder]), c4(&g));
    let copy = classes.duplicate();
    assert_eq!(copy.len(), 2);
    assert!(copy.class_at(0).equals(classes.class_at(0)));
    assert!(copy.class_at(1).equals(classes.class_at(1)));
    assert_eq!(copy.colors_at(0), classes.colors_at(0));
    assert_eq!(copy.colors_at(1), classes.colors_at(1));
}

#[test]
fn fits_tells_encodings_apart() {
    let g = graph();
    let other = wider_graph();
    let mut classes = BifurcationFunction::new();
    assert!(classes.fits(&other.mk_unit_colors()));
    classes.add(class(&[Behaviour::Stability]), c1(&g));
    assert!(classes.fits(&c2(&g)));
    assert!(classes.fits(&g.mk_empty_colors()));
    assert!(!classes.fits(&other.mk_unit_colors()));
}

#[test]
fn fits_tells_parameters_apart() {
    let g = graph();
    let network = BooleanNetwork::try_from("a -?? b\nb -?? a\n$a: b\n$b: a & p").unwrap();
    let other = SymbolicAsyncGraph::new(&network).unwrap();
    assert_eq!(
        g.mk_unit_colors().as_bdd().num_vars(),
        other.mk_unit_colors().as_bdd().num_vars()
    );
    let mut classes = BifurcationFunction::new();
    classes.add(class(&[Behaviour::Stability]), c1(&g));
    assert!(!classes.fits(&other.mk_unit_colors()));
    let mut others = BifurcationFunction::new();
    others.add(class(&[Behaviour::Stability]), other.mk_unit_colors());
    assert!(others.fits(&other.mk_empty_colors()));
    assert!(!others.fits(&c1(&g)));
}

#[test]
fn insert_adds_only_what_fits() {
    let g = graph();
    let other = wider_graph();
    let mut classes = BifurcationFunction::new();
    assert!(classes.insert(class(&[Behaviour::Stability]), c1(&g)));
    assert!(classes.insert(class(&[Behaviour::Stability]), c2(&g)));
    assert!(!classes.insert(class(&[Behaviour::Disorder]), other.mk_unit_colors()));
    assert!(!classes.insert(class(&[Behaviour::Stability]), other.mk_unit_colors()));
    assert_eq!(classes.len(), 1);
    assert_eq!(classes.colors_at(0), &c1(&g).union(&c2(&g)));
    assert!(classes.insert(class(&[Behaviour::Disorder]), c4(&g)));
    assert_eq!(classes.len(), 2);
}

#[test]
fn single_and_into_only_are_inverse() {
    let g = graph();
    let classes = BifurcationFunction::single(class(&[Behaviour::Oscillation]), c3(&g));
    assert_eq!(classes.len(), 1);
    let (key, colors) = classes.into_only();
    assert_eq!(key.get_vector(), vec![Behaviour::Oscillation]);
    assert_eq!(colors, c3(&g));
    assert!(BifurcationFunction::single(Class::new_empty(), g.mk_empty_colors()).is_empty());
}

#[test]
fn component_with_overlapping_behaviours_is_refused() {
    let g = graph();
    let overlapping = vec![
        (Behaviour::Stability, c1(&g).union(&c2(&g))),
        (Behaviour::Disorder, c2(&g).union(&c3(&g))),
    ];
    assert!(AttractorComponent::new(g.mk_empty_colored_vertices(), overlapping).is_none());
}

#[test]
fn component_with_mixed_encodings_is_refused() {
    let g = graph();
    let other = wider_graph();
    let mixed = vec![
        (Behaviour::Stability, c1(&g)),
        (Behaviour::Disorder, other.mk_empty_colors()),
    ];
    assert!(AttractorComponent::new(g.mk_empty_colored_vertices(), mixed).is_none());
}

#[test]
fn component_keeps_what_it_was_given() {
    let g = graph();
    let vertices = g.mk_unit_colored_vertices();
    let given = vec![(Behaviour::Stability, c1(&g)), (Behaviour::Oscillation, c3(&g))];
    let made = AttractorComponent::new(vertices.clone(), given).unwrap();
    assert_eq!(made.len(), 2);
    assert_eq!(made.vertices(), &vertices);
    assert_eq!(made.behaviour(0), Behaviour::Stability);
    assert_eq!(made.behaviour(1), Behaviour::Oscillation);
    assert_eq!(made.colors(0), &c1(&g));
    assert_eq!(made.colors(1), &c3(&g));
}

#[test]
fn refine_cuts_each_class_in_two() {
    let g = graph();
    let mut classes = BifurcationFunction::new();
    classes.add(class(&[Behaviour::Stability]), c1(&g).union(&c2(&g)));
    let next = refine(&classes, Behaviour::Disorder, &c2(&g).union(&c3(&g)));
    assert_eq!(next.len(), 3);
    let both = class(&[Behaviour::Stability, Behaviour::Disorder]);
    assert_eq!(colors_of(&g, &next, &both), c2(&g));
    assert_eq!(colors_of(&g, &next, &class(&[Behaviour::Stability])), c1(&g));
    assert_eq!(colors_of(&g, &next, &class(&[Behaviour::Disorder])), c3(&g));
}

#[test]
fn new_classifier_has_no_class_and_no_attractor() {
    let classifier = Classifier::new();
    assert!(classifier.export_result().is_empty());
    assert_eq!(classifier.attractor_count(), 0);
    assert!(classifier.attractor(0).is_none());
}

#[test]
fn first_component_seeds_single_label_classes() {
    let g = graph();
    let mut classifier = Classifier::new();
    feed(
        &mut classifier,
        component(
            &g,
            vec![
                (Behaviour::Stability, c1(&g).union(&c2(&g))),
                (Behaviour::Oscillation, c3(&g)),
            ],
        ),
    );
    let result = classifier.export_result();
    assert_eq!(result.len(), 2);
    assert_eq!(
        colors_of(&g, &result, &class(&[Behaviour::Stability])),
        c1(&g).union(&c2(&g))
    );
    assert_eq!(colors_of(&g, &result, &class(&[Behaviour::Oscillation])), c3(&g));
    assert_eq!(classifier.attractor_count(), 1);
}

#[test]
fn classification_of_two_components() {
    let g = graph();
    let mut classifier = Classifier::new();
    feed(
        &mut classifier,
        component(
            &g,
            vec![
                (Behaviour::Stability, c1(&g).union(&c2(&g))),
                (Behaviour::Oscillation, c3(&g)),
            ],
        ),
    );
    feed(
        &mut classifier,
        component(
            &g,
            vec![
                (Behaviour::Stability, c1(&g)),
                (Behaviour::Disorder, c2(&g).union(&c3(&g))),
            ],
        ),
    );
    let result = classifier.export_result();
    assert_eq!(result.len(), 3);
    assert_eq!(
        colors_of(&g, &result, &class(&[Behaviour::Stability, Behaviour::Stability])),
        c1(&g)
    );
    assert_eq!(
        colors_of(&g, &result, &class(&[Behaviour::Stability, Behaviour::Disorder])),
        c2(&g)
    );
    assert_eq!(
        colors_of(&g, &result, &class(&[Behaviour::Oscillation, Behaviour::Disorder])),
        c3(&g)
    );
    assert_eq!(result.total_cardinality().to_u128(), Some(3));
}

#[test]
fn colours_outside_a_component_keep_their_class() {
    let g = graph();
    let mut classifier = Classifier::new();
    feed(
        &mut classifier,
        component(&g, vec![(Behaviour::Stability, c1(&g).union(&c2(&g)))]),
    );
    feed(
        &mut classifier,
        component(&g, vec![(Behaviour::Oscillation, c2(&g).union(&c4(&g)))]),
    );
    let result = classifier.export_result();
    assert_eq!(result.len(), 3);
    assert_eq!(colors_of(&g, &result, &class(&[Behaviour::Stability])), c1(&g));
    assert_eq!(
        colors_of(&g, &result, &class(&[Behaviour::Stability, Behaviour::Oscillation])),
        c2(&g)
    );
    assert_eq!(colors_of(&g, &result, &class(&[Behaviour::Oscillation])), c4(&g));
}

#[test]
fn equal_classes_from_different_branches_are_merged() {
    let g = graph();
    let mut classifier = Classifier::new();
    feed(
        &mut classifier,
        component(
            &g,
            vec![(Behaviour::Stability, c1(&g)), (Behaviour::Disorder, c2(&g))],
        ),
    );
    feed(
        &mut classifier,
        component(
            &g,
            vec![(Behaviour::Disorder, c1(&g)), (Behaviour::Stability, c2(&g))],
        ),
    );
    let result = classifier.export_result();
    assert_eq!(result.len(), 1);
    assert_eq!(
        colors_of(&g, &result, &class(&[Behaviour::Stability, Behaviour::Disorder])),
        c1(&g).union(&c2(&g))
    );
}

#[test]
fn partition_stays_disjoint_and_covers_the_domains() {
    let g = graph();
    let mut classifier = Classifier::new();
    let first = vec![(Behaviour::Stability, c1(&g).union(&c2(&g)))];
    let second = vec![(Behaviour::Oscillation, c2(&g)), (Behaviour::Disorder, c3(&g))];
    let third = vec![(Behaviour::Stability, c3(&g).union(&c1(&g)))];
    feed(&mut classifier, component(&g, first));
    feed(&mut classifier, component(&g, second));
    feed(&mut classifier, component(&g, third));
    let result = classifier.export_result();
    let mut union = g.mk_empty_colors();
    for i in 0..result.len() {
        for j in 0..result.len() {
            if i != j {
                assert!(result.colors_at(i).intersect(result.colors_at(j)).is_empty());
            }
        }
        assert!(!result.colors_at(i).is_empty());
        union = union.union(result.colors_at(i));
    }
    assert_eq!(union, c1(&g).union(&c2(&g)).union(&c3(&g)));
    assert_eq!(result.total_cardinality().to_u128(), Some(3));
}

#[test]
fn order_of_components_does_not_matter() {
    let g = graph();
    let make = |index: usize| -> AttractorComponent {
        match index {
            0 => component(
                &g,
                vec![
                    (Behaviour::Stability, c1(&g).union(&c2(&g))),
                    (Behaviour::Oscillation, c3(&g)),
                ],
            ),
            1 => component(
                &g,
                vec![
                    (Behaviour::Stability, c1(&g)),
                    (Behaviour::Disorder, c2(&g).union(&c3(&g))),
                ],
            ),
            _ => component(&g, vec![(Behaviour::Oscillation, c4(&g).union(&c1(&g)))]),
        }
    };
    let orders: Vec<[usize; 3]> = vec![
        [0, 1, 2],
        [0, 2, 1],
        [1, 0, 2],
        [1, 2, 0],
        [2, 0, 1],
        [2, 1, 0],
    ];
    let mut reference = Classifier::new();
    for index in orders[0] {
        feed(&mut reference, make(index));
    }
    let expected = reference.export_result();
    assert_eq!(expected.len(), 4);
    for order in &orders {
        let mut classifier = Classifier::new();
        for index in order {
            feed(&mut classifier, make(*index));
        }
        let result = classifier.export_result();
        assert_eq!(result.len(), expected.len());
        for i in 0..expected.len() {
            assert_eq!(
                colors_of(&g, &result, expected.class_at(i)),
                expected.colors_at(i).clone()
            );
        }
    }
}

#[test]
fn classifier_keeps_the_attractors_in_order() {
    let g = graph();
    let mut classifier = Classifier::new();
    let first = g.mk_unit_colored_vertices().intersect_colors(&c1(&g));
    let second = g.mk_empty_colored_vertices();
    let third = g.mk_unit_colored_vertices().intersect_colors(&c2(&g));
    let given = vec![
        (first.clone(), vec![(Behaviour::Stability, c1(&g))]),
        (second.clone(), vec![]),
        (third.clone(), vec![(Behaviour::Disorder, c1(&g))]),
    ];
    for (vertices, behaviours) in given {
        feed(&mut classifier, AttractorComponent::new(vertices, behaviours).unwrap());
    }
    assert_eq!(classifier.attractor_count(), 3);
    assert_eq!(classifier.attractor(0).unwrap().behaviour(0), Behaviour::Stability);
    assert_eq!(classifier.attractor(0).unwrap().vertices(), &first);
    assert_eq!(classifier.attractor(1).unwrap().len(), 0);
    assert_eq!(classifier.attractor(1).unwrap().vertices(), &second);
    assert_eq!(classifier.attractor(2).unwrap().behaviour(0), Behaviour::Disorder);
    assert_eq!(classifier.attractor(2).unwrap().vertices(), &third);
    assert!(first != third);
    assert!(classifier.attractor(3).is_none());
}

#[test]
fn classifier_refuses_a_component_of_another_encoding() {
    let g = graph();
    let other = wider_graph();
    let mut classifier = Classifier::new();
    let foreign = AttractorComponent::new(
        other.mk_empty_colored_vertices(),
        vec![(Behaviour::Stability, other.mk_unit_colors())],
    )
    .unwrap();
    assert!(classifier.accepts(&foreign));
    feed(&mut classifier, component(&g, vec![(Behaviour::Stability, c1(&g))]));
    assert!(!classifier.accepts(&foreign));
    assert!(classifier.accepts(&component(&g, vec![(Behaviour::Disorder, c2(&g))])));
}
