use betterjenkins::config::{job_instance, stage_number, Config, TaskRow};

fn config(stages: &[(&str, &str)]) -> Config {
    Config::new(
        "demo".to_string(),
        "someone".to_string(),
        "a demo job".to_string(),
        stages.iter().map(|(k, d)| (k.to_string(), d.to_string())).collect(),
    )
    .unwrap()
}

fn task(job: &str, number: &str, def: &str) -> TaskRow {
    TaskRow { job_name: job.to_string(), stage_number: number.to_string(), definition: def.to_string() }
}

#[test]
fn stage_number_is_the_part_after_the_last_underscore() {
    assert_eq!(stage_number("stage_1"), "1");
    assert_eq!(stage_number("build_stage_2"), "2");
    assert_eq!(stage_number("deploy"), "deploy");
    assert_eq!(stage_number("stage_"), "");
    assert_eq!(stage_number(""), "");
}

#[test]
fn job_instance_joins_name_and_number() {
    assert_eq!(job_instance("demo", 1), "demo_1");
    assert_eq!(job_instance("demo", 12), "demo_12");
    assert_eq!(job_instance("my_job", -3), "my_job_-3");
}

#[test]
fn first_job_of_a_name_is_number_one() {
    let plan = config(&[("stage_1", "echo one")]).plan_job(None);
    assert_eq!(plan.job.job_count, 1);
    assert_eq!(plan.job.name, "demo");
    assert_eq!(plan.job.author, "someone");
    assert_eq!(plan.job.description, "a demo job");
    assert_eq!(plan.tasks, vec![task("demo_1", "1", "echo one")]);
}

#[test]
fn next_job_follows_the_highest_number() {
    let plan = config(&[("stage_1", "make"), ("stage_2", "make test")]).plan_job(Some(4));
    assert_eq!(plan.job.job_count, 5);
    assert_eq!(plan.tasks, vec![task("demo_5", "1", "make"), task("demo_5", "2", "make test")]);
}

#[test]
fn stages_without_a_number_get_no_task() {
    let plan = config(&[("stage_", "skipped"), ("single", "kept"), ("a_b", "b stage")]).plan_job(None);
    assert_eq!(plan.tasks, vec![task("demo_1", "single", "kept"), task("demo_1", "b", "b stage")]);
}

#[test]
fn config_without_stages_plans_no_tasks() {
    let plan = config(&[]).plan_job(Some(0));
    assert_eq!(plan.job.job_count, 1);
    assert!(plan.tasks.is_empty());
}

#[test]
fn planned_tasks_shape_holds_on_an_example() {
    let plan = config(&[("x_1", "a"), ("y_", "b"), ("z", "c"), ("w_2_3", "d")]).plan_job(Some(9));
    assert!(plan.tasks.len() <= 4);
    for t in &plan.tasks {
        assert_eq!(t.job_name, "demo_10");
        assert!(!t.stage_number.is_empty());
        assert!(!t.stage_number.contains('_'));
    }
}

#[test]
fn stage_number_laws_hold_on_examples() {
    assert_eq!(stage_number(&format!("{}_{}", "any_prefix", "7")), "7");
    assert_eq!(stage_number("nounderscore"), "nounderscore");
}

#[test]
fn job_number_read_back_on_examples() {
    assert_eq!(stage_number(&job_instance("my_job", 12)), "12");
    assert_eq!(stage_number(&job_instance("demo", -3)), "-3");
    assert_eq!(stage_number(&job_instance("", 0)), "0");
}

#[test]
fn job_instances_distinct_on_examples() {
    assert_ne!(job_instance("demo", 1), job_instance("demo", 11));
    assert_ne!(job_instance("demo_1", 1), job_instance("demo", 11));
    assert_ne!(job_instance("demo", -1), job_instance("demo", 1));
}

#[test]
fn config_new_keeps_fields_in_order() {
    let c = config(&[("b_2", "second"), ("a_1", "first")]);
    assert_eq!(c.name(), "demo");
    assert_eq!(c.author(), "someone");
    assert_eq!(c.description(), "a demo job");
    assert_eq!(
        c.stages(),
        &vec![("b_2".to_string(), "second".to_string()), ("a_1".to_string(), "first".to_string())]
    );
}

#[test]
fn config_new_refuses_a_repeated_stage_key() {
    let stages = vec![
        ("stage_1".to_string(), "a".to_string()),
        ("stage_2".to_string(), "b".to_string()),
        ("stage_1".to_string(), "c".to_string()),
    ];
    assert!(Config::new("x".to_string(), "y".to_string(), String::new(), stages).is_none());
    assert!(Config::new("x".to_string(), "y".to_string(), String::new(), vec![]).is_some());
}

#[test]
fn job_counts_stay_distinct_on_an_example() {
    // Existing numbers 1, 3, 2 of "demo": the highest is 3, the next is 4.
    let existing = [1, 3, 2];
    let plan = config(&[("s_1", "x")]).plan_job(existing.iter().copied().max());
    assert_eq!(plan.job.job_count, 4);
    assert!(!existing.contains(&plan.job.job_count));
    for c in existing {
        assert_ne!(job_instance("demo", c), plan.tasks[0].job_name);
    }
}
