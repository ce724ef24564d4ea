use behaviour_tree::behaviour::Behaviour;
use behaviour_tree::behaviour::Condition;
use behaviour_tree::behaviour::IntoBehaviour;
use behaviour_tree::behaviour::SelfMarker;
use behaviour_tree::behaviour::Status;
use behaviour_tree::behaviour::StatusLeaf;
use behaviour_tree::decorator::Decorator;

/// A world holding one counter, standing in for per-subject host state.
struct TestWorld {
    counter: u32,
}

/// Fails while the counter is below the threshold, counting every call.
struct CountingLeaf {
    threshold: u32,
}

impl Behaviour<TestWorld> for CountingLeaf {
    fn initialize(&mut self, _ctx: &mut TestWorld) {}

    fn run(&mut self, _subject: u64, ctx: &mut TestWorld) -> Status {
        ctx.counter += 1;
        if ctx.counter < self.threshold {
            Status::Failure
        } else {
            Status::Success
        }
    }
}

/// Panics when run: decorators that promise not to tick their child are held
/// to it with this.
struct PanicLeaf;

impl Behaviour<TestWorld> for PanicLeaf {
    fn initialize(&mut self, _ctx: &mut TestWorld) {}

    fn run(&mut self, _subject: u64, _ctx: &mut TestWorld) -> Status {
        panic!(":(");
    }
}

/// True while the counter is below the threshold.
struct BelowCondition {
    threshold: u32,
}

impl Condition<TestWorld> for BelowCondition {
    fn initialize(&mut self, _ctx: &mut TestWorld) {}

    fn check(&mut self, _subject: u64, ctx: &mut TestWorld) -> bool {
        ctx.counter < self.threshold
    }
}

/// A condition with a fixed answer for this world type.
struct FixedCondition(bool);

impl Condition<TestWorld> for FixedCondition {
    fn initialize(&mut self, _ctx: &mut TestWorld) {}

    fn check(&mut self, _subject: u64, _ctx: &mut TestWorld) -> bool {
        self.0
    }
}

#[test]
fn test_invert() {
    let mut world = ();

    let mut system = StatusLeaf(Status::Success).invert();

    let entity: u64 = 0;

    Behaviour::initialize(&mut system, &mut world);

    let status = Behaviour::run(&mut system, entity, &mut world);

    assert_eq!(status, Status::Failure);
}

#[test]
fn test_invert_all_statuses() {
    let mut world = ();
    let entity: u64 = 0;

    let mut inverted_failure = StatusLeaf(Status::Failure).invert();
    assert_eq!(inverted_failure.run(entity, &mut world), Status::Success);

    let mut inverted_success = StatusLeaf(Status::Success).invert();
    assert_eq!(inverted_success.run(entity, &mut world), Status::Failure);

    let mut inverted_running = StatusLeaf(Status::Running).invert();
    assert_eq!(inverted_running.run(entity, &mut world), Status::Running);
}

#[test]
fn test_retry() {
    let mut world = TestWorld { counter: 0 };

    let system = CountingLeaf { threshold: 3 };

    let mut retry = system.retry(5);

    retry.initialize(&mut world);

    let entity: u64 = 0;

    while let Status::Running = retry.run(entity, &mut world) {}

    assert_eq!(world.counter, 3);
}

#[test]
fn test_retry_tick_by_tick() {
    // the child fails exactly twice and then succeeds, within a budget of
    // five tries: two Running answers, then Success on the third tick
    let mut world = TestWorld { counter: 0 };
    let mut retry = CountingLeaf { threshold: 3 }.retry(5);
    retry.initialize(&mut world);

    let entity: u64 = 0;
    assert_eq!(retry.run(entity, &mut world), Status::Running);
    assert_eq!(retry.run(entity, &mut world), Status::Running);
    assert_eq!(retry.run(entity, &mut world), Status::Success);
}

#[test]
fn test_retry_exhausts_budget() {
    // a child that always fails: Running for the first two ticks of a
    // three-try budget, Failure on the third
    let mut world = TestWorld { counter: 0 };
    let mut retry = StatusLeaf(Status::Failure).retry(3);
    let entity: u64 = 0;

    assert_eq!(retry.run(entity, &mut world), Status::Running);
    assert_eq!(retry.run(entity, &mut world), Status::Running);
    assert_eq!(retry.run(entity, &mut world), Status::Failure);
}

#[test]
fn test_retry_counter_resets_after_failure() {
    // after the budget is spent the counter is observably reset: the next
    // round behaves identically from its first tick
    let mut world = TestWorld { counter: 0 };
    let mut retry = StatusLeaf(Status::Failure).retry(2);
    let entity: u64 = 0;

    for _round in 0..3 {
        assert_eq!(retry.run(entity, &mut world), Status::Running);
        assert_eq!(retry.run(entity, &mut world), Status::Failure);
    }
}

#[test]
fn test_retry_zero_tries() {
    // a budget of zero: the very first failure is final
    let mut world = TestWorld { counter: 0 };
    let mut retry = StatusLeaf(Status::Failure).retry(0);
    let entity: u64 = 0;

    assert_eq!(retry.run(entity, &mut world), Status::Failure);
}

#[test]
fn test_retry_passes_running_through() {
    let mut world = TestWorld { counter: 0 };
    let mut retry = StatusLeaf(Status::Running).retry(2);
    let entity: u64 = 0;

    assert_eq!(retry.run(entity, &mut world), Status::Running);
    assert_eq!(retry.run(entity, &mut world), Status::Running);
    assert_eq!(retry.tries, 0);
}

#[test]
fn test_retry_while() {
    let mut world = TestWorld { counter: 0 };

    let mut retry_system = CountingLeaf { threshold: 10 }.retry_while(BelowCondition {
        threshold: 5,
    });

    retry_system.initialize(&mut world);

    let entity: u64 = 0;

    let mut last_status: Status = Status::Running;

    for _ in 0..=10 {
        last_status = retry_system.run(entity, &mut world);

        if matches!(last_status, Status::Failure) {
            break;
        }
    }

    assert_eq!(last_status, Status::Failure);
    assert_eq!(world.counter, 5);
}

#[test]
fn test_retry_while_abort_skips_child() {
    // once the condition is false the decorator fails on that very tick and
    // the child is not run: a panicking child proves it was never reached
    let mut world = TestWorld { counter: 0 };
    let mut decorated = PanicLeaf.retry_while(FixedCondition(false));
    let entity: u64 = 0;

    assert_eq!(decorated.run(entity, &mut world), Status::Failure);
}

#[test]
fn test_retry_while_collapses_failure() {
    // while the condition holds, a failing child keeps the decorator running
    let mut world = TestWorld { counter: 0 };
    let mut decorated = StatusLeaf(Status::Failure).retry_while(FixedCondition(true));
    let entity: u64 = 0;

    assert_eq!(decorated.run(entity, &mut world), Status::Running);

    let mut succeeding = StatusLeaf(Status::Success).retry_while(FixedCondition(true));
    assert_eq!(succeeding.run(entity, &mut world), Status::Success);
}

#[test]
fn test_run_if_short_circuit() {
    // a false condition answers the default short-circuit, Success, and the
    // child is never ticked
    let mut world = TestWorld { counter: 0 };
    let mut decorated = PanicLeaf.run_if(FixedCondition(false));
    let entity: u64 = 0;

    assert_eq!(decorated.run(entity, &mut world), Status::Success);
}

#[test]
fn test_run_if_with_return_short_circuit() {
    // the short-circuit answer is exactly the configured status
    let mut world = TestWorld { counter: 0 };
    let entity: u64 = 0;

    let mut failing = PanicLeaf.run_if_with_return(FixedCondition(false), Status::Failure);
    assert_eq!(failing.run(entity, &mut world), Status::Failure);

    let mut running = PanicLeaf.run_if_with_return(FixedCondition(false), Status::Running);
    assert_eq!(running.run(entity, &mut world), Status::Running);
}

#[test]
fn test_run_if_passes_child_through() {
    let mut world = TestWorld { counter: 0 };
    let entity: u64 = 0;

    let mut decorated = StatusLeaf(Status::Failure).run_if(FixedCondition(true));
    assert_eq!(decorated.run(entity, &mut world), Status::Failure);

    let mut succeeding = StatusLeaf(Status::Success).run_if(FixedCondition(true));
    assert_eq!(succeeding.run(entity, &mut world), Status::Success);
}

#[test]
fn test_into_behaviour_is_identity() {
    let node = StatusLeaf(Status::Success);
    let converted = IntoBehaviour::<SelfMarker>::into_behaviour(node);
    assert_eq!(converted, node);
}

#[test]
fn test_status_conversions() {
    assert_eq!(Status::from(true), Status::Success);
    assert_eq!(Status::from(false), Status::Failure);
    assert_eq!(Status::from(None::<Status>), Status::Failure);
    assert_eq!(Status::from(Some(Status::Running)), Status::Running);
}
