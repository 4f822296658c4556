//! The layout engine: validation, tree placement, seeding and the force
//! simulation.

use graph_demo::force::seed_positions;
use graph_demo::force::simulate;
use graph_demo::model::build;
use graph_demo::model::check;
use graph_demo::model::LayoutError;
use graph_demo::model::Pos;
use graph_demo::project::update_graphic;
use graph_demo::project::Project;
use graph_demo::tree::layout_tree;

fn names(ns: &[&str]) -> Vec<String> {
    ns.iter().map(|s| s.to_string()).collect()
}

fn edges(es: &[(&str, &str, i32)]) -> Vec<(String, String, i32)> {
    es.iter().map(|(a, b, w)| (a.to_string(), b.to_string(), *w)).collect()
}

#[test]
fn check_accepts_resolved_edges() {
    let ns = names(&["a", "b"]);
    assert!(check(&ns, &edges(&[("a", "b", 1)])));
    assert!(!check(&ns, &edges(&[("a", "z", 1)])));
    assert!(!check(&ns, &edges(&[("z", "b", 1)])));
    assert!(check(&ns, &edges(&[])));
}

#[test]
fn build_rejects_bad_input() {
    assert!(build(names(&["a", "a"]), &edges(&[])).is_err());
    assert!(build(names(&["a"]), &edges(&[("a", "z", 1)])).is_err());
    assert!(build(names(&["a", "b"]), &edges(&[("a", "b", 2)])).is_ok());
}

#[test]
fn tree_layout_places_weighted_child_below() {
    // An edge of weight one drops the child a full vertical scale below
    // its root, on the same spine.
    let g = build(names(&["A", "B"]), &edges(&[("A", "B", 1)])).unwrap();
    let roots = vec![0usize];
    let pm = layout_tree(&g, &roots).unwrap();
    assert_eq!(pm[0], Some(Pos { x: 100, y: 0 }));
    assert_eq!(pm[1], Some(Pos { x: 100, y: 100 }));
}

#[test]
fn tree_layout_spreads_siblings() {
    let g = build(
        names(&["r", "s", "t"]),
        &edges(&[("r", "s", 1), ("r", "t", 2)]),
    )
    .unwrap();
    let pm = layout_tree(&g, &vec![0usize]).unwrap();
    let r = pm[0].unwrap();
    let s = pm[1].unwrap();
    let t = pm[2].unwrap();
    assert_eq!(r, Pos { x: 100, y: 0 });
    assert_eq!(s, Pos { x: 100, y: 100 });
    assert_eq!(t, Pos { x: 200, y: 200 });
    assert!(t.x - s.x >= 100);
}

#[test]
fn tree_layout_is_deterministic() {
    // The placement is a function of the edge list and root order alone.
    let g = build(
        names(&["r", "s", "t"]),
        &edges(&[("r", "s", 1), ("r", "t", 2)]),
    )
    .unwrap();
    let first = layout_tree(&g, &vec![0usize]).unwrap();
    let second = layout_tree(&g, &vec![0usize]).unwrap();
    assert_eq!(first, second);
}

#[test]
fn tree_layout_rejects_negative_weights() {
    let g = build(names(&["A", "B"]), &edges(&[("A", "B", -1)])).unwrap();
    assert_eq!(layout_tree(&g, &vec![0usize]), Err(LayoutError::OutOfRange));
}

#[test]
fn layout_pass_covers_every_node() {
    // Acyclic pass.
    let g = build(
        names(&["a", "b", "c", "d"]),
        &edges(&[("a", "b", 1), ("a", "c", 2), ("b", "d", 1)]),
    )
    .unwrap();
    let pm = update_graphic(&g).unwrap();
    assert_eq!(pm.len(), 4);
    assert!(pm.iter().all(|p| p.is_some()));

    // Cyclic pass.
    let g2 = build(
        names(&["x", "y", "z"]),
        &edges(&[("x", "y", 1), ("y", "z", 1), ("z", "x", 1)]),
    )
    .unwrap();
    let pm2 = update_graphic(&g2).unwrap();
    assert_eq!(pm2.len(), 3);
    assert!(pm2.iter().all(|p| p.is_some()));
}

#[test]
fn layout_pass_is_deterministic() {
    let g = build(
        names(&["x", "y", "z"]),
        &edges(&[("x", "y", 1), ("y", "z", 1), ("z", "x", 1)]),
    )
    .unwrap();
    let first = update_graphic(&g).unwrap();
    let second = update_graphic(&g).unwrap();
    assert_eq!(first, second);
}

#[test]
fn seed_single_node_at_centre() {
    let seeds = seed_positions(1).unwrap();
    assert_eq!(seeds, vec![Pos { x: 300, y: 300 }]);
    assert!(seed_positions(40000).is_err());
    assert_eq!(seed_positions(0).unwrap().len(), 0);
}

#[test]
fn simulation_single_node_is_stable() {
    // One node feels no force: its position survives all iterations.
    let g = build(names(&["only"]), &edges(&[])).unwrap();
    let out = simulate(&g, &vec![Pos { x: 300, y: 300 }]).unwrap();
    assert_eq!(out, vec![Pos { x: 300, y: 300 }]);
}

#[test]
fn simulation_coincident_unconnected_pair_is_stuck() {
    // Two unconnected nodes on the same spot exert nothing on each
    // other: the displacement is zero, so the neutral spring never acts.
    let g = build(names(&["P", "Q"]), &edges(&[])).unwrap();
    let out = simulate(&g, &vec![Pos { x: 350, y: 300 }, Pos { x: 350, y: 300 }]).unwrap();
    assert_eq!(out[0], Pos { x: 350, y: 300 });
    assert_eq!(out[1], Pos { x: 350, y: 300 });
}

#[test]
fn simulation_unconnected_pair_moves_and_repeats() {
    // Two distant unconnected nodes interact through the neutral
    // spring: they move, and the run is deterministic.
    let g = build(names(&["P", "Q"]), &edges(&[])).unwrap();
    let start = vec![Pos { x: 0, y: 0 }, Pos { x: 2000, y: 0 }];
    let out = simulate(&g, &start).unwrap();
    assert_eq!(out.len(), 2);
    assert!(out != start, "the pair should have moved");
    let again = simulate(&g, &start).unwrap();
    assert_eq!(out, again);
}

#[test]
fn simulation_rejects_negative_mean_weight() {
    let g = build(names(&["a", "b"]), &edges(&[("a", "b", -5)])).unwrap();
    let r = simulate(&g, &vec![Pos { x: 0, y: 0 }, Pos { x: 100, y: 0 }]);
    assert_eq!(r, Err(LayoutError::OutOfRange));
}

#[test]
fn sample_project_is_laid_out() {
    let p = Project::new();
    assert_eq!(p.graph.names, vec!["node 1", "node 2", "node 3", "node 4"]);
    assert_eq!(p.graphic.len(), 4);
    assert!(p.graphic.iter().all(|e| e.is_some()));
    // The sample is acyclic: node 1 roots the tree at the first column.
    assert_eq!(p.graphic[0], Some(Pos { x: 100, y: 0 }));
    assert_eq!(p.graphic[1], Some(Pos { x: 100, y: 100 }));
    assert_eq!(p.graphic[3], Some(Pos { x: 100, y: 200 }));
    assert_eq!(p.graphic[2], Some(Pos { x: 200, y: 200 }));
}

#[test]
fn project_rejects_malformed_text_and_keeps_state() {
    // Scenario: a description referencing the absent node Z is rejected
    // and the active graph and layout stay the previous valid ones.
    let mut p = Project::empty();
    assert!(p.update_graph(names(&["a", "b"]), &edges(&[("a", "b", 1)])));
    let kept_names: Vec<String> = p.graph.names.clone();
    let kept_graphic = p.graphic.clone();

    assert!(!p.update_graph(names(&["a", "b"]), &edges(&[("a", "Z", 1)])));
    assert_eq!(p.graph.names, kept_names);
    assert_eq!(p.graphic, kept_graphic);

    assert!(!p.update_graph(names(&["a", "a"]), &edges(&[])));
    assert_eq!(p.graph.names, kept_names);
}
