use pathtrace::trace::{PathRun, TraceEvent, TraceStep};

#[test]
fn a_miss_always_shows_the_sky() {
    let mut run = PathRun::new(50);
    assert_eq!(run.step(TraceEvent::Miss), TraceStep::Sky);
    assert_eq!(run.depth, 0);
    let mut spent = PathRun::new(0);
    assert_eq!(spent.step(TraceEvent::Miss), TraceStep::Sky);
}

#[test]
fn an_absorbed_ray_is_black() {
    let mut run = PathRun::new(50);
    assert_eq!(run.step(TraceEvent::Absorbed), TraceStep::Black);
    assert_eq!(run.depth, 0);
}

#[test]
fn scattering_bounces_until_the_budget_is_spent() {
    let mut run = PathRun::new(2);
    assert!(run.may_bounce());
    assert_eq!(run.step(TraceEvent::Scattered), TraceStep::Bounce);
    assert_eq!(run.depth, 1);
    assert!(run.may_bounce());
    assert_eq!(run.step(TraceEvent::Scattered), TraceStep::Bounce);
    assert_eq!(run.depth, 2);
    assert!(!run.may_bounce());
    assert_eq!(run.step(TraceEvent::Scattered), TraceStep::Black);
    assert_eq!(run.depth, 2);
}

#[test]
fn zero_budget_never_bounces() {
    let mut run = PathRun::new(0);
    assert!(!run.may_bounce());
    assert_eq!(run.step(TraceEvent::Scattered), TraceStep::Black);
    assert_eq!(run.step(TraceEvent::Miss), TraceStep::Sky);
}
