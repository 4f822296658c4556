//! The console's action registry: command names mapped to their handler
//! tag, usage pattern and description. It is built once at startup, in
//! name order, and read-only afterwards.

use vstd::prelude::*;

use crate::text::normal_seq;
use crate::text::normalize;

verus! {

/// The handler a command name resolves to.
#[derive(Clone, Copy, PartialEq, Eq, Structural, Debug)]
pub enum ActionKind {
    List,
    Add,
    Remove,
    Connect,
    Disconnect,
    Filter,
    Inspect,
    Route,
    Schedule,
    Help,
    Quit,
}

/// One registered command: its normalized name, usage pattern,
/// description, and handler tag.
pub struct Action {
    pub name: String,
    pub pattern: String,
    pub desc: String,
    pub kind: ActionKind,
}

impl Action {
    /// The fields a contract can speak of.
    pub open spec fn view_of(&self) -> (Seq<char>, Seq<char>, Seq<char>, ActionKind) {
        (self.name@, self.pattern@, self.desc@, self.kind)
    }
}

/// Builds one action record.
pub fn action(desc: &str, kind: ActionKind, pt: &str) -> (r: Action)
    ensures
        r.name@ == Seq::<char>::empty(),
        r.pattern@ == pt@,
        r.desc@ == desc@,
        r.kind == kind,
{
    Action { name: String::new(), pattern: pt.to_owned(), desc: desc.to_owned(), kind }
}

/// Registers one action under its normalized name.
pub fn add_action(actions: &mut Vec<Action>, nm: &str, pt: &str, desc: &str, kind: ActionKind)
    ensures
        final(actions)@.len() == old(actions)@.len() + 1,
        final(actions)@.drop_last() == old(actions)@,
        final(actions)@.last().name@ == normal_seq(nm@),
        final(actions)@.last().pattern@ == pt@,
        final(actions)@.last().desc@ == desc@,
        final(actions)@.last().kind == kind,
{
    let mut a = action(desc, kind, pt);
    a.name = normalize(nm);
    actions.push(a);
    proof {
        assert(actions@.drop_last() =~= old(actions)@);
    }
}

/// The first registered action whose name matches, if any.
pub open spec fn lookup_spec(acts: Seq<Action>, name: Seq<char>) -> Option<int>
    decreases acts.len(),
{
    if acts.len() == 0 {
        None
    } else if acts[0].name@ == name {
        Some(0int)
    } else {
        match lookup_spec(acts.drop_first(), name) {
            None => None,
            Some(i) => Some(i + 1),
        }
    }
}

/// Finds the first action with the given name.
pub fn lookup(actions: &Vec<Action>, name: &String) -> (r: Option<usize>)
    ensures
        match r {
            Some(i) => {
                &&& lookup_spec(actions@, name@) == Some(i as int)
                &&& 0 <= i < actions@.len()
                &&& actions@[i as int].name@ == name@
            },
            None => lookup_spec(actions@, name@) is None,
        },
{
    let n = actions.len();
    let mut i: usize = 0;
    proof {
        assert(actions@.skip(0) =~= actions@);
    }
    while i < n
        invariant
            0 <= i <= n,
            n == actions@.len(),
            forall|j: int| 0 <= j < i ==> actions@[j].name@ != name@,
            lookup_spec(actions@, name@) == match lookup_spec(
                actions@.skip(i as int),
                name@,
            ) {
                None => None::<int>,
                Some(k) => Some(k + i),
            },
        decreases n - i,
    {
        let ghost rest = actions@.skip(i as int);
        proof {
            assert(rest[0] == actions@[i as int]);
            assert(rest.drop_first() =~= actions@.skip(i + 1));
        }
        if actions[i].name.eq(name) {
            return Some(i);
        }
        i = i + 1;
    }
    proof {
        assert(actions@.skip(n as int) =~= Seq::<Action>::empty());
    }
    None
}

/// Builds the console's registry: every command under its normalized
/// name, in name order.
pub fn build_actions() -> (r: Vec<Action>)
    ensures
        r@.len() == 11,
        r@[0].name@ == normal_seq("add"@) && r@[0].kind == ActionKind::Add && r@[0].pattern@
            == "<node>"@,
        r@[1].name@ == normal_seq("connect"@) && r@[1].kind == ActionKind::Connect && r@[
            1
        ].pattern@ == "<from> <to>"@,
        r@[2].name@ == normal_seq("disconnect"@) && r@[2].kind == ActionKind::Disconnect && r@[
            2
        ].pattern@ == "<from> <to>"@,
        r@[3].name@ == normal_seq("filter"@) && r@[3].kind == ActionKind::Filter && r@[
            3
        ].pattern@ == "<filter>"@,
        r@[4].name@ == normal_seq("help"@) && r@[4].kind == ActionKind::Help,
        r@[5].name@ == normal_seq("inspect"@) && r@[5].kind == ActionKind::Inspect && r@[
            5
        ].pattern@ == "<node>"@,
        r@[6].name@ == normal_seq("list"@) && r@[6].kind == ActionKind::List,
        r@[7].name@ == normal_seq("quit"@) && r@[7].kind == ActionKind::Quit,
        r@[8].name@ == normal_seq("remove"@) && r@[8].kind == ActionKind::Remove && r@[
            8
        ].pattern@ == "<node>"@,
        r@[9].name@ == normal_seq("route"@) && r@[9].kind == ActionKind::Route && r@[9].pattern@
            == "<from> <to>"@,
        r@[10].name@ == normal_seq("schedule"@) && r@[10].kind == ActionKind::Schedule,
{
    let mut actions: Vec<Action> = Vec::new();
    add_action(&mut actions, "add", "<node>", "Add the given node to the graph", ActionKind::Add);
    add_action(
        &mut actions,
        "connect",
        "<from> <to>",
        "Connects the two given nodes",
        ActionKind::Connect,
    );
    add_action(
        &mut actions,
        "disconnect",
        "<from> <to>",
        "Disconnects the two given nodes",
        ActionKind::Disconnect,
    );
    add_action(
        &mut actions,
        "filter",
        "<filter>",
        "Returns all nodes that match the filter",
        ActionKind::Filter,
    );
    add_action(&mut actions, "help", "", "Displays this message", ActionKind::Help);
    add_action(
        &mut actions,
        "inspect",
        "<node>",
        "Returns all info on the given node",
        ActionKind::Inspect,
    );
    add_action(&mut actions, "list", "", "Lists all nodes in the graph", ActionKind::List);
    add_action(&mut actions, "quit", "", "Quits the application", ActionKind::Quit);
    add_action(
        &mut actions,
        "remove",
        "<node>",
        "Removes the given node from the graph",
        ActionKind::Remove,
    );
    add_action(
        &mut actions,
        "route",
        "<from> <to>",
        "Find the shortest path from node a to node b",
        ActionKind::Route,
    );
    add_action(&mut actions, "schedule", "", "Topo sort", ActionKind::Schedule);
    actions
}

} // verus!
