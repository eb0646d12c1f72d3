use raytrace::camera::PassPlan;

#[test]
fn samples_are_split_into_steps() {
    let plan = PassPlan::new(4500, 100);
    assert_eq!(plan, PassPlan { passes: 45, samples_per_pass: 100 });
    assert_eq!(plan.samples_after(1), 100);
    assert_eq!(plan.samples_after(45), 4500);
}

#[test]
fn remainder_of_last_step_is_dropped() {
    let plan = PassPlan::new(250, 100);
    assert_eq!(plan, PassPlan { passes: 2, samples_per_pass: 100 });
    assert_eq!(plan.samples_after(2), 200);
}

#[test]
fn small_or_missing_step_means_one_pass() {
    assert_eq!(PassPlan::new(10, 100), PassPlan { passes: 1, samples_per_pass: 10 });
    assert_eq!(PassPlan::new(10, 0), PassPlan { passes: 1, samples_per_pass: 10 });
    assert_eq!(PassPlan::new(100, 100), PassPlan { passes: 1, samples_per_pass: 100 });
    assert_eq!(PassPlan::new(0, 5), PassPlan { passes: 1, samples_per_pass: 0 });
}

#[test]
fn largest_sample_count() {
    let plan = PassPlan::new(u16::MAX, 2);
    assert_eq!(plan, PassPlan { passes: 32767, samples_per_pass: 2 });
    assert_eq!(plan.samples_after(32767), 65534);
}
