//! The dispatcher and its handlers, end to end.

use graph_demo::dispatch::handle_input;
use graph_demo::dispatch::CmdError;
use graph_demo::graph::DirectedGraph;
use graph_demo::registry::build_actions;
use graph_demo::text::normalize;
use graph_demo::text::tokenize;

fn fresh() -> (DirectedGraph, Vec<graph_demo::registry::Action>) {
    (DirectedGraph::new(), build_actions())
}

#[test]
fn normalize_trims_and_lowercases() {
    assert_eq!(normalize("  Add -n Foo  "), "add -n foo");
    assert_eq!(normalize("LIST"), "list");
    assert_eq!(normalize(""), "");
    assert_eq!(normalize("   "), "");
}

#[test]
fn normalize_folds_per_unicode() {
    assert_eq!(normalize("MiXeD 123"), "mixed 123");
    assert_eq!(normalize("ÉCLAIR"), "éclair");
    assert_eq!(normalize("\u{00a0}list\u{00a0}"), "list");
}

#[test]
fn tokenize_splits_on_whitespace() {
    assert_eq!(tokenize("add a b"), vec!["add", "a", "b"]);
    assert_eq!(tokenize("  add\t x  "), vec!["add", "x"]);
    assert!(tokenize("").is_empty());
}

#[test]
fn dispatcher_normalization() {
    // "Add -n Foo", " add -n Foo " and "ADD -n Foo" all resolve to the
    // same handler and leave identical graphs behind.
    let inputs = ["Add -n Foo", " add -n Foo ", "ADD -n Foo"];
    let mut results: Vec<Vec<String>> = Vec::new();
    for input in inputs {
        let (mut g, actions) = fresh();
        let r = handle_input(input, &mut g, &actions);
        assert!(matches!(r, Ok((true, _))));
        results.push(g.get_all());
    }
    assert_eq!(results[0], results[1]);
    assert_eq!(results[1], results[2]);
    assert_eq!(results[0], vec!["-n"]);
}

#[test]
fn empty_input_is_an_error() {
    let (mut g, actions) = fresh();
    let r = handle_input("   ", &mut g, &actions);
    assert_eq!(r, Err(CmdError::NoCommand));
    assert_eq!(CmdError::NoCommand.message(), "No command given");
}

#[test]
fn unknown_command_suggests() {
    let (mut g, actions) = fresh();
    let r = handle_input("adx", &mut g, &actions).unwrap();
    assert!(r.0);
    assert_eq!(r.1[0], "Unknown command, did you mean one of these?");
    assert_eq!(r.1.len(), 4);
    assert_eq!(r.1[1], "    add");
}

#[test]
fn add_list_remove_flow() {
    let (mut g, actions) = fresh();
    assert!(matches!(handle_input("add b", &mut g, &actions), Ok((true, _))));
    assert!(matches!(handle_input("add a", &mut g, &actions), Ok((true, _))));
    let r = handle_input("list", &mut g, &actions).unwrap();
    assert_eq!(r.1, vec!["- a", "- b"]);

    assert!(matches!(handle_input("remove a", &mut g, &actions), Ok((true, _))));
    let r2 = handle_input("list", &mut g, &actions).unwrap();
    assert_eq!(r2.1, vec!["- b"]);

    assert_eq!(handle_input("add", &mut g, &actions), Err(CmdError::MissingNode));
}

#[test]
fn connect_inspect_disconnect() {
    let (mut g, actions) = fresh();
    handle_input("add a", &mut g, &actions).unwrap();
    handle_input("add b", &mut g, &actions).unwrap();
    handle_input("connect a b", &mut g, &actions).unwrap();
    let r = handle_input("inspect a", &mut g, &actions).unwrap();
    assert_eq!(r.1, vec!["- a", "    - b"]);

    handle_input("disconnect a b", &mut g, &actions).unwrap();
    let r2 = handle_input("inspect a", &mut g, &actions).unwrap();
    assert_eq!(r2.1, vec!["- a"]);

    assert_eq!(handle_input("connect a", &mut g, &actions), Err(CmdError::MissingTo));
    assert_eq!(handle_input("connect", &mut g, &actions), Err(CmdError::MissingFrom));
}

#[test]
fn filter_matches_prefixes() {
    let (mut g, actions) = fresh();
    handle_input("add apple", &mut g, &actions).unwrap();
    handle_input("add apricot", &mut g, &actions).unwrap();
    handle_input("add banana", &mut g, &actions).unwrap();
    let r = handle_input("filter ap", &mut g, &actions).unwrap();
    assert_eq!(r.1, vec!["- apple", "- apricot"]);
    assert_eq!(handle_input("filter", &mut g, &actions), Err(CmdError::MissingFilter));
}

#[test]
fn route_finds_a_path() {
    let (mut g, actions) = fresh();
    for n in ["a", "b", "c", "d"] {
        handle_input(&format!("add {}", n), &mut g, &actions).unwrap();
    }
    handle_input("connect a b", &mut g, &actions).unwrap();
    handle_input("connect b c", &mut g, &actions).unwrap();
    let r = handle_input("route a c", &mut g, &actions).unwrap();
    assert_eq!(r.1, vec!["- a", "- b", "- c"]);

    let r2 = handle_input("route a d", &mut g, &actions).unwrap();
    assert_eq!(r2.1, vec!["Couldn't reach d from a"]);
}

#[test]
fn schedule_orders_or_rejects() {
    let (mut g, actions) = fresh();
    handle_input("add a", &mut g, &actions).unwrap();
    handle_input("add b", &mut g, &actions).unwrap();
    handle_input("connect a b", &mut g, &actions).unwrap();
    let r = handle_input("schedule", &mut g, &actions).unwrap();
    assert_eq!(r.1, vec![" -> a -> b"]);

    handle_input("connect b a", &mut g, &actions).unwrap();
    let r2 = handle_input("schedule", &mut g, &actions);
    assert_eq!(r2, Err(CmdError::CyclicGraph));
    assert_eq!(CmdError::CyclicGraph.message(), "Unable to sort cyclical graph");
}

#[test]
fn help_and_quit() {
    let (mut g, actions) = fresh();
    let r = handle_input("help", &mut g, &actions).unwrap();
    assert!(r.0);
    assert_eq!(r.1.len(), 22);
    assert_eq!(r.1[0], "- add <node>");
    assert_eq!(r.1[1], "    Add the given node to the graph");

    let q = handle_input("quit", &mut g, &actions).unwrap();
    assert!(!q.0);
    assert!(q.1.is_empty());
}
