use homespring::river::Node;
use homespring::salmon::{Age, Direction, Salmon};
use homespring::{PropagationOrder, Tick};

fn downstream_salmon(name: &str) -> Salmon {
    Salmon { age: Age::Young, direction: Direction::Downstream, name: name.to_owned() }
}

fn upstream_salmon(name: &str) -> Salmon {
    Salmon { age: Age::Mature, direction: Direction::Upstream, name: name.to_owned() }
}

#[test]
fn propagation_orders() {
    assert_eq!(Tick::Snow.propagation_order(), PropagationOrder::PreOrder);
    assert_eq!(Tick::Water.propagation_order(), PropagationOrder::PreOrder);
    assert_eq!(Tick::Power.propagation_order(), PropagationOrder::Any);
    assert_eq!(Tick::FishDown.propagation_order(), PropagationOrder::PreOrder);
    assert_eq!(Tick::FishUp.propagation_order(), PropagationOrder::PostOrder);
    assert_eq!(Tick::FishHatch.propagation_order(), PropagationOrder::PreOrder);
    assert_eq!(Tick::Misc.propagation_order(), PropagationOrder::PreOrder);
    assert_eq!(Tick::Input.propagation_order(), PropagationOrder::Any);
}

#[test]
fn snow_climbs_one_level_per_tick() {
    let mut river = Node::parse_program("a b snowmelt").unwrap().to_node().unwrap();
    assert!(!river.snowy);
    assert!(!river.borrow_child(0).snowy);
    assert!(river.borrow_child(0).borrow_child(0).snowy);

    let out = river.tick(Tick::Snow);
    assert!(out.is_empty());
    assert!(!river.snowy);
    assert!(river.borrow_child(0).snowy);

    river.tick(Tick::Snow);
    assert!(river.snowy);
}

#[test]
fn snow_destroys_hydro_power() {
    let mut river = Node::parse_program("hydro. power snowmelt").unwrap().to_node().unwrap();
    assert!(!river.destroyed);
    river.tick(Tick::Snow);
    assert!(river.snowy);
    assert!(river.destroyed);
}

#[test]
fn water_rises_without_destruction() {
    let mut river = Node::parse_program("a b").unwrap().to_node().unwrap();
    river.borrow_mut_child(0).watered = true;
    river.tick(Tick::Water);
    assert!(river.watered);
    assert!(!river.destroyed);
}

#[test]
fn power_tick_powers_watered_hydro_power() {
    let mut river = Node::parse_program("hydro. power").unwrap().to_node().unwrap();
    assert!(!river.powered);
    river.watered = true;
    river.tick(Tick::Power);
    assert!(river.powered);
    river.watered = false;
    river.tick(Tick::Power);
    assert!(!river.powered);
}

#[test]
fn hatchery_needs_power() {
    let mut lone = Node::new("hatchery");
    lone.tick(Tick::FishHatch);
    assert_eq!(lone.salmon.len(), 0);

    let mut powered = Node::new("hatchery");
    powered.add_child(Node::new("powers"));
    powered.tick(Tick::FishHatch);
    assert_eq!(powered.salmon.len(), 1);
    assert_eq!(powered.salmon[0].name.as_str(), "homeless");
    assert_eq!(powered.salmon[0].direction, Direction::Upstream);
    assert_eq!(powered.salmon[0].age, Age::Mature);
}

#[test]
fn hatchery_grows_monotonically() {
    let mut river = Node::new("hatchery");
    river.add_child(Node::new("powers"));
    river.tick(Tick::FishHatch);
    river.tick(Tick::FishHatch);
    river.tick(Tick::FishHatch);
    assert_eq!(river.salmon.len(), 3);
}

#[test]
fn blocked_power_cuts_the_subtree_off() {
    let mut river = Node::new("hatchery");
    river.add_child(Node::new("powers"));
    river.block_power = true;
    assert!(!river.is_powered());
    river.tick(Tick::FishHatch);
    assert_eq!(river.salmon.len(), 0);
}

#[test]
fn downstream_salmon_caught_at_root_in_fifo_order() {
    let mut river = Node::new("universe");
    river.add_salmon(downstream_salmon("first"));
    river.add_salmon(upstream_salmon("stays"));
    river.add_salmon(downstream_salmon("second"));
    let out = river.tick(Tick::FishDown);
    assert_eq!(out, vec!["first".to_owned(), "second".to_owned()]);
    assert_eq!(river.salmon.len(), 1);
    assert_eq!(river.salmon[0].name.as_str(), "stays");
    let again = river.tick(Tick::FishDown);
    assert!(again.is_empty());
}

#[test]
fn downstream_salmon_moves_toward_root() {
    let mut river = Node::parse_program("a b").unwrap().to_node().unwrap();
    river.borrow_mut_child(0).add_salmon(downstream_salmon("swimmer"));
    let out = river.tick(Tick::FishDown);
    assert!(out.is_empty());
    assert_eq!(river.salmon.len(), 1);
    assert_eq!(river.borrow_child(0).salmon.len(), 0);
    let out2 = river.tick(Tick::FishDown);
    assert_eq!(out2, vec!["swimmer".to_owned()]);
    assert_eq!(river.salmon.len(), 0);
}

#[test]
fn upstream_salmon_follows_its_name() {
    let mut river = Node::parse_program("Universe hatchery powers   snowmelt")
        .unwrap()
        .to_node()
        .unwrap();
    river.tick(Tick::FishHatch);
    assert_eq!(river.borrow_child(0).salmon.len(), 1);
    river.tick(Tick::FishUp);
    assert_eq!(river.borrow_child(0).salmon.len(), 0);
    assert_eq!(river.borrow_child(0).borrow_child(0).salmon.len(), 1);
}

#[test]
fn upstream_salmon_picks_named_subtree() {
    let mut river = Node::new("fork");
    river.add_child(Node::new("left"));
    river.add_child(Node::new("right"));
    river.add_salmon(upstream_salmon("right"));
    river.tick(Tick::FishUp);
    assert_eq!(river.salmon.len(), 0);
    assert_eq!(river.borrow_child(0).salmon.len(), 0);
    assert_eq!(river.borrow_child(1).salmon.len(), 1);
}

#[test]
fn block_salmon_holds_upstream_salmon() {
    let mut river = Node::new("gate");
    river.add_child(Node::new("pool"));
    river.block_salmon = true;
    river.add_salmon(upstream_salmon("pool"));
    river.tick(Tick::FishUp);
    assert_eq!(river.salmon.len(), 1);
    assert_eq!(river.borrow_child(0).salmon.len(), 0);
}

#[test]
fn very_blocked_destination_falls_back_to_first_open_child() {
    let mut river = Node::new("fork");
    river.add_child(Node::new("left"));
    river.add_child(Node::new("right"));
    river.borrow_mut_child(1).very_block_salmon = true;
    river.add_salmon(upstream_salmon("right"));
    river.tick(Tick::FishUp);
    assert_eq!(river.borrow_child(0).salmon.len(), 1);
    assert_eq!(river.borrow_child(1).salmon.len(), 0);
}

#[test]
fn stranded_upstream_salmon_waits_indefinitely() {
    let mut river = Node::new("universe");
    river.add_child(Node::new("closed"));
    river.borrow_mut_child(0).very_block_salmon = true;
    river.add_salmon(upstream_salmon("nowhere"));
    river.tick(Tick::FishUp);
    river.tick(Tick::FishUp);
    river.tick(Tick::FishUp);
    assert_eq!(river.salmon.len(), 1);
    assert_eq!(river.salmon[0].name.as_str(), "nowhere");
    assert_eq!(river.borrow_child(0).salmon.len(), 0);
}

#[test]
fn shallows_blocks_exactly_two_movement_ticks() {
    let mut river = Node::new("shallows");
    river.add_salmon(downstream_salmon("fish"));
    let first = river.tick(Tick::FishDown);
    assert!(first.is_empty());
    let second = river.tick(Tick::FishUp);
    assert!(second.is_empty());
    assert_eq!(river.salmon.len(), 1);
    let third = river.tick(Tick::FishDown);
    assert_eq!(third, vec!["fish".to_owned()]);
    assert_eq!(river.salmon.len(), 0);
}

#[test]
fn rapids_blocks_exactly_two_movement_ticks() {
    let mut river = Node::new("rapids");
    river.add_salmon(downstream_salmon("fish"));
    assert!(river.tick(Tick::FishDown).is_empty());
    assert!(river.tick(Tick::FishDown).is_empty());
    let third = river.tick(Tick::FishDown);
    assert_eq!(third, vec!["fish".to_owned()]);
}

#[test]
fn misc_tick_changes_nothing() {
    let mut river = Node::parse_program("a snowmelt").unwrap().to_node().unwrap();
    river.add_salmon(downstream_salmon("still here"));
    let out = river.tick(Tick::Misc);
    assert!(out.is_empty());
    assert_eq!(river.salmon.len(), 1);
    assert!(!river.snowy);
}
