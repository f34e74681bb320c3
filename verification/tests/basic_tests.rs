use behave::{action, custom, repeater, selector, sequence, Action, Behavior, Status, Tree};

const STEPS: usize = 10_000;

#[test]
fn test() {
    let mut tree = Tree::new();
    let a1 = action(&mut tree, vec![Status::Success]);
    let a2 = action(&mut tree, vec![Status::Failure]);
    let root = sequence(&mut tree, vec![a1, a2]);
    println!("{:?}", tree.run(root, STEPS));
}

#[test]
fn exit_on_first_child_failure() {
    let mut tree = Tree::new();
    let a1 = custom(&mut tree, Behavior::Action(Action::new(vec![Status::Success])));
    let a2 = custom(&mut tree, Behavior::Action(Action::new(vec![Status::Failure])));
    let a3 = custom(&mut tree, Behavior::Action(Action::new(vec![Status::Success])));
    let root = sequence(&mut tree, vec![a1, a2, a3]);
    tree.run(root, STEPS);

    assert_eq!(tree.state_of(a1).ticks, 1);
    assert_eq!(tree.state_of(a2).ticks, 1);
    assert_eq!(tree.state_of(a3).ticks, 0);
}

#[test]
fn fail_if_any_fail() {
    let mut tree = Tree::new();
    let a1 = action(&mut tree, vec![Status::Success]);
    let a2 = action(&mut tree, vec![Status::Failure]);
    let root = sequence(&mut tree, vec![a1, a2]);
    assert_eq!(Status::Failure, tree.run(root, STEPS))
}

#[test]
fn succeed_if_all_succeed() {
    let mut tree = Tree::new();
    let a1 = action(&mut tree, vec![Status::Success]);
    let a2 = action(&mut tree, vec![Status::Success]);
    let root = sequence(&mut tree, vec![a1, a2]);
    assert_eq!(Status::Success, tree.run(root, STEPS))
}

#[test]
fn exit_on_first_child_success() {
    let mut tree = Tree::new();
    let a1 = custom(&mut tree, Behavior::Action(Action::new(vec![Status::Success])));
    let a2 = custom(&mut tree, Behavior::Action(Action::new(vec![Status::Failure])));
    let a3 = custom(&mut tree, Behavior::Action(Action::new(vec![Status::Success])));
    let root = selector(&mut tree, vec![a1, a2, a3]);
    tree.run(root, STEPS);

    assert_eq!(tree.state_of(a1).ticks, 1);
    assert_eq!(tree.state_of(a2).ticks, 0);
    assert_eq!(tree.state_of(a3).ticks, 0);
}

#[test]
fn fail_if_all_fail() {
    let mut tree = Tree::new();
    let a1 = action(&mut tree, vec![Status::Failure]);
    let a2 = action(&mut tree, vec![Status::Failure]);
    let root = selector(&mut tree, vec![a1, a2]);
    assert_eq!(Status::Failure, tree.run(root, STEPS))
}

#[test]
fn succeed_if_any_succeed() {
    let mut tree = Tree::new();
    let a1 = action(&mut tree, vec![Status::Failure]);
    let a2 = action(&mut tree, vec![Status::Success]);
    let root = selector(&mut tree, vec![a1, a2]);
    assert_eq!(Status::Success, tree.run(root, STEPS))
}

#[test]
fn repeater_count() {
    let mut tree = Tree::new();
    let a = custom(&mut tree, Behavior::Action(Action::new(vec![Status::Success])));
    let root = repeater(&mut tree, a, 3);
    assert_eq!(Status::Success, tree.run(root, STEPS));
    assert_eq!(tree.state_of(a).ticks, 3);
}
