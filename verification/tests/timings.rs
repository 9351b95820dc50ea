use cielo::pipeline::compiler::V0PipelineTimings;
use cielo::pipeline::timings::MAX_NANOS;

fn timings(parse: u128, lower: u128) -> V0PipelineTimings {
    V0PipelineTimings {
        parse,
        lower,
        typecheck: 3,
        monomorphize: 4,
        ct_eval: 5,
        bta: 6,
        residualize: 7,
    }
}

#[test]
fn total_is_the_sum_of_all_steps() {
    assert_eq!(timings(1, 2).total(), 28);
}

#[test]
fn total_stops_at_the_longest_time() {
    assert_eq!(timings(MAX_NANOS, 2).total(), MAX_NANOS);
    assert_eq!(timings(MAX_NANOS - 100, 2).total(), MAX_NANOS - 100 + 27);
}

#[test]
fn longest_time_is_that_of_a_duration() {
    assert_eq!(std::time::Duration::MAX.as_nanos(), MAX_NANOS);
}

#[test]
fn times_are_added_step_by_step() {
    let mut sum = timings(1, MAX_NANOS);
    sum.saturating_add_assign(timings(10, 20));
    assert_eq!(sum.parse, 11);
    assert_eq!(sum.lower, MAX_NANOS);
    assert_eq!(sum.typecheck, 6);
    assert_eq!(sum.residualize, 14);
}

#[test]
fn per_iteration_divides_and_rounds_down() {
    let one = timings(10, 11).per_iteration(4);
    assert_eq!(one.parse, 2);
    assert_eq!(one.lower, 2);
    assert_eq!(one.ct_eval, 1);
    let duration = std::time::Duration::new(7, 5) / 3;
    let nanos = V0PipelineTimings {
        parse: std::time::Duration::new(7, 5).as_nanos(),
        ..V0PipelineTimings::default()
    };
    assert_eq!(nanos.per_iteration(3).parse, duration.as_nanos());
}

#[test]
fn per_iteration_of_no_run_is_nothing() {
    assert_eq!(timings(10, 11).per_iteration(0), V0PipelineTimings::default());
}
