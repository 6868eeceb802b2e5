use anglerfish::betting::BettingTree;
use anglerfish::game::{ChipState, Position};
use anglerfish::tree::{NodeType, Spot};

fn spot(cs: ChipState, position: Position, node_type: NodeType, streets: u8, actions: u8) -> Spot {
    Spot {
        terminal: false,
        position,
        node_type,
        chip_state: cs,
        outcome: None,
        streets_remaining: streets,
        actions_this_street: actions,
    }
}

fn chips(pot: i32, sb_stack: i32, bb_stack: i32, sb: i32, bb: i32, max_bet: i32) -> ChipState {
    ChipState { pot, sb_stack, bb_stack, sb_this_street: sb, bb_this_street: bb, max_bet }
}

#[test]
fn river_tree_with_one_chip_stacks() {
    let root = spot(chips(4, 1, 1, 0, 0, 0), Position::BigBlind, NodeType::EvenNode, 1, 0);
    assert!(BettingTree::try_grow(root).is_some());
    let mut tree = BettingTree::new(root);
    assert!(tree.children.is_empty());
    tree.gen_subtree();
    assert_eq!(tree.spot, root);
    assert_eq!(tree.legal, vec![true, true, false, false, false]);
    assert_eq!(tree.children.len(), 5);
    // check, then the small blind checks behind (showdown) or bets its chip
    let check = &tree.children[0];
    assert_eq!(check.legal, vec![true, true, false, false, false]);
    assert!(check.children[0].spot.terminal);
    assert_eq!(check.children[1].legal, vec![true, true, false, false]);
    // the unexplored duplicates stay unexpanded
    assert!(tree.children[2].children.is_empty());
    assert_eq!(tree.node_count(), 9);
}

#[test]
fn preflop_tree_is_grown() {
    let root = spot(chips(3, 199, 198, 1, 2, 2), Position::SmallBlind, NodeType::BehindNode, 4, 0);
    assert!(BettingTree::try_grow(root).is_some());
    let mut tree = BettingTree::new(root);
    tree.gen_subtree();
    assert_eq!(tree.children.len(), 4);
    assert_eq!(tree.legal[0], true);
    // folding ends the hand
    assert!(tree.children[0].spot.terminal);
    assert!(tree.children[0].children.is_empty());
    // completing the blind gives the big blind its option
    let option = &tree.children[1];
    assert_eq!(option.spot.position, Position::BigBlind);
    assert_eq!(option.spot.node_type, NodeType::EvenNode);
    assert_eq!(option.children.len(), 5);
    assert!(tree.node_count() > 100);
}

#[test]
fn terminal_node_is_a_leaf() {
    let mut s = spot(chips(10, 5, 5, 0, 0, 0), Position::BigBlind, NodeType::AheadNode, 1, 0);
    s.terminal = true;
    let mut tree = BettingTree::new(s);
    tree.gen_subtree();
    assert!(tree.children.is_empty());
    assert_eq!(tree.node_count(), 1);
}

#[test]
fn overflowing_trees_are_refused() {
    // a 2.5x re-raise of a 500 million bet overflows i32
    let facing = spot(chips(1_500_000_000, 600_000_000, 0, 0, 500_000_000, 500_000_000), Position::SmallBlind, NodeType::BehindNode, 1, 1);
    assert!(facing.action_ok(0));
    assert!(facing.action_ok(1));
    assert!(!facing.action_ok(2));
    assert!(!facing.all_actions_ok());
    assert!(BettingTree::try_grow(facing).is_none());
    // closing the round on a street count of zero would underflow it
    let no_street = spot(chips(4, 1, 1, 0, 0, 0), Position::BigBlind, NodeType::EvenNode, 0, 1);
    assert!(!no_street.action_ok(0));
    // odd but representable states still grow: negative stacks, bets beyond the pot
    let odd = spot(chips(2, -1, 1, 2, 2, 2), Position::BigBlind, NodeType::EvenNode, 1, 1);
    assert!(BettingTree::try_grow(odd).is_some());
}

#[test]
fn deep_stacks_tree_is_grown() {
    let root = spot(chips(100_000_000, 100_000_000, 100_000_000, 0, 0, 0), Position::BigBlind, NodeType::EvenNode, 1, 0);
    let deeper = spot(chips(1, 250_000_000, 250_000_000, 0, 0, 0), Position::BigBlind, NodeType::EvenNode, 2, 0);
    assert!(BettingTree::try_grow(deeper).is_some());
    assert!(BettingTree::try_grow(root).is_some());
    let mut tree = BettingTree::new(root);
    tree.gen_subtree();
    // a pot-sized bet is the whole stack, so all-in adds nothing
    assert_eq!(tree.legal, vec![true, true, true, true, false]);
    assert!(tree.node_count() > 5);
}
