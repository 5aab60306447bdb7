use homespring::river::{Node, NodeType};
use homespring::{ParseError, Program};

#[test]
fn basic_program() {
    let river = Node::parse_program("a b c").unwrap().to_node().unwrap();
    let root_node = &river;

    assert_eq!(root_node.node_type, NodeType::Other("a".to_owned()));
    assert_eq!(root_node.children.len(), 1);

    let child = root_node.borrow_child(0);
    assert_eq!(child.node_type, NodeType::Other("b".to_owned()));

    let sub_child = child.borrow_child(0);
    assert_eq!(sub_child.node_type, NodeType::Other("c".to_owned()));
    assert_eq!(sub_child.children.len(), 0);
}

#[test]
fn empty_nodes() {
    let river = Node::parse_program("a b  c  d e").unwrap().to_node().unwrap();
    let root_node = &river;

    let c = root_node.borrow_child(1);
    let d = root_node.borrow_child(2);
    let e = d.borrow_child(0);

    assert_eq!(c.node_type, NodeType::Other("c".to_owned()));
    assert_eq!(d.node_type, NodeType::Other("d".to_owned()));
    assert_eq!(e.node_type, NodeType::Other("e".to_owned()));
}

#[test]
fn empty_nodes_sibling_count() {
    let river = Node::parse_program("a b  c  d e").unwrap().to_node().unwrap();
    assert_eq!(river.children.len(), 3);
    assert_eq!(river.borrow_child(0).node_type, NodeType::Other("b".to_owned()));
    assert_eq!(river.borrow_child(2).children.len(), 1);
    assert_eq!(river.borrow_child(0).children.len(), 0);
    assert_eq!(river.borrow_child(1).children.len(), 0);
}

#[test]
fn empty_program_is_quine() {
    let program = Node::parse_program("").unwrap();
    assert!(matches!(program, Program::Quine));
    let message = program.execute();
    assert_eq!(message.as_str(), "In Homespring, the null program is not a quine.");
}

#[test]
fn all_spaces_is_quine() {
    let program = Node::parse_program("   ").unwrap();
    assert!(program.to_node().is_none());
}

#[test]
fn trailing_escape_is_malformed() {
    let result = Node::parse_program("a b.");
    assert_eq!(result.unwrap_err(), ParseError::MalformedProgram);
}

#[test]
fn dedent_past_root_is_malformed() {
    let result = Node::parse_program("a  b");
    assert_eq!(result.unwrap_err(), ParseError::MalformedProgram);
}

#[test]
fn escape_joins_dot_terminated_token() {
    let river = Node::parse_program("a hydro. power").unwrap().to_node().unwrap();
    assert_eq!(river.children.len(), 1);
    let child = river.borrow_child(0);
    assert_eq!(child.name.as_str(), "hydro. power");
    assert_eq!(child.node_type, NodeType::HydroPower);
    assert_eq!(child.children.len(), 0);
}

#[test]
fn escape_joins_dot_initial_token() {
    let river = Node::parse_program("a .b").unwrap().to_node().unwrap();
    assert_eq!(river.name.as_str(), "a .b");
    assert_eq!(river.children.len(), 0);
}

#[test]
fn escape_joins_runs_of_dots() {
    let river = Node::parse_program("x upstream. killing. device").unwrap().to_node().unwrap();
    let child = river.borrow_child(0);
    assert_eq!(child.node_type, NodeType::UpstreamKillingDevice);
    assert_eq!(child.name.as_str(), "upstream. killing. device");
}

#[test]
fn from_name_is_case_insensitive() {
    assert_eq!(NodeType::from_name("Hatchery"), NodeType::Hatchery);
    assert_eq!(NodeType::from_name("SNOWMELT"), NodeType::Snowmelt);
    assert_eq!(NodeType::from_name("HYDRO. POWER"), NodeType::HydroPower);
    assert_eq!(NodeType::from_name("shallows"), NodeType::Shallows(2));
    assert_eq!(NodeType::from_name("Rapids"), NodeType::Rapids(2));
    assert_eq!(NodeType::from_name("young bear"), NodeType::YoungBear);
}

#[test]
fn from_name_keeps_unknown_names_lowercased() {
    assert_eq!(NodeType::from_name("WeIrD"), NodeType::Other("weird".to_owned()));
    assert_eq!(NodeType::from_name("universe!"), NodeType::Other("universe!".to_owned()));
    assert_eq!(NodeType::from_name("\u{c4}rger"), NodeType::Other("\u{e4}rger".to_owned()));
}

#[test]
fn resolving_a_name_equals_resolving_its_lowercase() {
    for name in ["Hatchery", "HYDRO. POWER", "Shallows", "WeIrD", "LOC\u{212a}", "\u{c4}rger"] {
        assert_eq!(NodeType::from_name(name), NodeType::from_name(&name.to_lowercase()));
    }
}

#[test]
fn from_name_lowercases_per_unicode() {
    assert_eq!(NodeType::from_name("LOC\u{212a}"), NodeType::Lock);
    assert_eq!(NodeType::from_name("BEAR\u{130}"), NodeType::Other("bear\u{69}\u{307}".to_owned()));
}

#[test]
fn new_node_starting_flags() {
    let snowmelt = Node::new("snowmelt");
    assert!(snowmelt.snowy);
    assert!(!snowmelt.powered);
    let powers = Node::new("powers");
    assert!(powers.powered);
    assert!(!powers.snowy);
    let plain = Node::new("bear");
    assert!(!plain.snowy && !plain.powered && !plain.watered && !plain.destroyed);
    assert!(!plain.block_salmon && !plain.very_block_salmon && !plain.block_power);
}

#[test]
fn find_node_path_points_toward_name() {
    let river = Node::parse_program("Universe hatchery powers   snowmelt")
        .unwrap()
        .to_node()
        .unwrap();
    assert_eq!(river.find_node_path("hatchery"), Some(0));
    assert_eq!(river.find_node_path("powers"), Some(0));
    assert_eq!(river.find_node_path("snowmelt"), Some(1));
    assert_eq!(river.find_node_path("nope"), None);
}

fn node_count(n: &Node) -> usize {
    let mut total = 1;
    for child in &n.children {
        total += node_count(child);
    }
    total
}

#[test]
fn node_count_matches_nonempty_tokens() {
    let river = Node::parse_program("a b  c  d e").unwrap().to_node().unwrap();
    assert_eq!(node_count(&river), 5);
    let joined = Node::parse_program("a hydro. power  b").unwrap().to_node().unwrap();
    assert_eq!(node_count(&joined), 3);
}
