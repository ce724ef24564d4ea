use behaviour_tree::behaviour::Behaviour;
use behaviour_tree::behaviour::Status;
use behaviour_tree::behaviour::StatusLeaf;
use behaviour_tree::behaviour::TodoBehaviour;
use behaviour_tree::compositor::Compositor;
use behaviour_tree::compositor::Select;
use behaviour_tree::compositor::Sequence;
use behaviour_tree::decorator::Decorator;
use behaviour_tree::decorator::Invert;
use behaviour_tree::registry::BehaviourId;
use behaviour_tree::registry::BehaviourTrees;
use behaviour_tree::registry::Skip;

/// A branch of the select tree below: an inverted fixed leaf, or a leaf
/// whose absent status converts to a failure.
enum Branch {
    Inverted(Invert<StatusLeaf>),
    NeverDoAnything,
}

impl Behaviour<()> for Branch {
    fn initialize(&mut self, ctx: &mut ()) {
        match self {
            Branch::Inverted(node) => node.initialize(ctx),
            Branch::NeverDoAnything => {}
        }
    }

    fn run(&mut self, subject: u64, ctx: &mut ()) -> Status {
        match self {
            Branch::Inverted(node) => node.run(subject, ctx),
            Branch::NeverDoAnything => Status::from(None::<Status>),
        }
    }
}

/// A root stored in the registry: one of the two tree shapes the test
/// builds.
enum TestTree {
    InvertedSequence(Invert<Sequence<StatusLeaf>>),
    Selection(Select<Branch>),
}

impl Behaviour<()> for TestTree {
    fn initialize(&mut self, ctx: &mut ()) {
        match self {
            TestTree::InvertedSequence(node) => node.initialize(ctx),
            TestTree::Selection(node) => node.initialize(ctx),
        }
    }

    fn run(&mut self, subject: u64, ctx: &mut ()) -> Status {
        match self {
            TestTree::InvertedSequence(node) => node.run(subject, ctx),
            TestTree::Selection(node) => node.run(subject, ctx),
        }
    }
}

#[test]
fn main() {
    let mut world = ();
    let mut trees: BehaviourTrees<TestTree> = BehaviourTrees::default();

    let id = trees.create(TestTree::InvertedSequence(
        vec![StatusLeaf(Status::Failure), StatusLeaf(Status::Success)]
            .sequence()
            .invert(),
    ));

    let mut active: Vec<(u64, BehaviourId)> = Vec::new();
    for entity in 0..100 {
        active.push((entity, id));
    }

    let other = trees.create(TestTree::Selection(
        vec![
            Branch::Inverted(StatusLeaf(Status::Success).invert()),
            Branch::NeverDoAnything,
            Branch::Inverted(StatusLeaf(Status::Failure).invert()),
        ]
        .select(),
    ));

    for entity in 100..200 {
        active.push((entity, other));
    }

    let mut ticks = 0;
    while ticks < 500 {
        trees.run_ticks(active.clone(), &mut world);
        ticks += 1;
    }
}

/// The extension point: any decorator input can be given further decorator
/// methods by a downstream trait.
trait DecoratorExtensions {
    fn extended(self) -> TodoBehaviour;
}

impl<T: Decorator> DecoratorExtensions for T {
    fn extended(self) -> TodoBehaviour {
        TodoBehaviour
    }
}

#[test]
fn test() {
    let mut trees: BehaviourTrees<TodoBehaviour> = BehaviourTrees::default();
    let test_behaviour = StatusLeaf(Status::Failure);
    let succeeding = test_behaviour.extended();
    trees.create(succeeding);
}

/// A world counting initializations and recording runs in order.
struct DriverWorld {
    inits: u32,
    runs: Vec<(u32, u64)>,
}

/// A leaf that counts how often it is initialized and records its runs
/// under its tag.
struct InitCountingLeaf {
    tag: u32,
}

impl Behaviour<DriverWorld> for InitCountingLeaf {
    fn initialize(&mut self, ctx: &mut DriverWorld) {
        ctx.inits += 1;
    }

    fn run(&mut self, subject: u64, ctx: &mut DriverWorld) -> Status {
        ctx.runs.push((self.tag, subject));
        Status::Running
    }
}

#[test]
fn test_initialize_exactly_once() {
    // one handle shared by a thousand subjects, ticked across several
    // passes: each child of the stored tree is initialized exactly once in
    // total, never once per subject or per pass
    let mut world = DriverWorld { inits: 0, runs: Vec::new() };
    let mut trees: BehaviourTrees<Sequence<InitCountingLeaf>> = BehaviourTrees::default();

    let id = trees.create(
        vec![InitCountingLeaf { tag: 0 }, InitCountingLeaf { tag: 1 }].sequence(),
    );

    let mut active: Vec<(u64, BehaviourId)> = Vec::new();
    for entity in 0..1000 {
        active.push((entity, id));
    }

    for _pass in 0..5 {
        trees.run_ticks(active.clone(), &mut world);
    }

    assert_eq!(world.inits, 2);
    assert_eq!(world.runs.len(), 5000);
}

#[test]
fn test_driver_sorts_by_handle() {
    // pairs arrive unsorted; the driver processes them in ascending handle
    // order, ties keeping their arrival order
    let mut world = DriverWorld { inits: 0, runs: Vec::new() };
    let mut trees: BehaviourTrees<InitCountingLeaf> = BehaviourTrees::default();

    let first = trees.create(InitCountingLeaf { tag: 0 });
    let second = trees.create(InitCountingLeaf { tag: 1 });

    let active = vec![(10, second), (11, first), (12, second), (13, first)];
    trees.run_ticks(active, &mut world);

    assert_eq!(world.runs, vec![(0, 11), (0, 13), (1, 10), (1, 12)]);
    assert_eq!(world.inits, 2);
}

#[test]
fn test_unknown_handle_is_noop() {
    // ticking a handle that was never created is not an error: the pair is
    // silently skipped
    let mut world = DriverWorld { inits: 0, runs: Vec::new() };
    let mut trees: BehaviourTrees<InitCountingLeaf> = BehaviourTrees::default();

    let active = vec![(1, BehaviourId(42))];
    trees.run_ticks(active, &mut world);

    assert_eq!(world.inits, 0);
    assert!(world.runs.is_empty());
}

#[test]
fn test_skipped_subjects_are_not_ticked() {
    // the host excludes subjects carrying the skip marker from the active
    // pairs; the driver then never reaches their trees
    let marker = Skip;
    assert_eq!(marker, Skip::default());

    let mut world = DriverWorld { inits: 0, runs: Vec::new() };
    let mut trees: BehaviourTrees<InitCountingLeaf> = BehaviourTrees::default();
    let id = trees.create(InitCountingLeaf { tag: 0 });

    let skipped: Vec<u64> = vec![2];
    let mut active: Vec<(u64, BehaviourId)> = Vec::new();
    for entity in 0..4 {
        if !skipped.contains(&entity) {
            active.push((entity, id));
        }
    }
    trees.run_ticks(active, &mut world);

    assert_eq!(world.runs, vec![(0, 0), (0, 1), (0, 3)]);
}

#[test]
fn test_vacate_and_restore() {
    // a vacated slot resolves to nothing until the behaviour is restored
    let mut world = DriverWorld { inits: 0, runs: Vec::new() };
    let mut trees: BehaviourTrees<InitCountingLeaf> = BehaviourTrees::default();
    let id = trees.create(InitCountingLeaf { tag: 7 });

    let node = trees.vacate(id).expect("the slot was filled by create");
    trees.run_ticks(vec![(1, id)], &mut world);
    assert!(world.runs.is_empty(), "a vacated slot must not be ticked");

    trees.restore(id, node);
    trees.run_ticks(vec![(1, id)], &mut world);
    assert_eq!(world.runs, vec![(7, 1)]);

    // vacating an unknown handle resolves to nothing
    assert!(trees.vacate(BehaviourId(99)).is_none());
}

#[test]
fn test_todo_behaviour_is_inert() {
    let mut world = ();
    let mut placeholder = StatusLeaf(Status::Success).repeat(3);
    placeholder.initialize(&mut world);
    assert_eq!(placeholder.run(0, &mut world), Status::Failure);
}
