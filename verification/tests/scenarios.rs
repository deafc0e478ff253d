use runner::cli::parse_args;
use runner::error::ConfigError;
use runner::executor::{Action, Event, Executor, Job};
use runner::plan::prepare;

fn strings(items: &[&str]) -> Vec<String> {
    items.iter().map(|s| s.to_string()).collect()
}

fn jobs(args: &[&str]) -> Result<Vec<Job>, ConfigError> {
    let settings = parse_args(&strings(args))?;
    prepare(&settings)
}

/// Runs the jobs with every process succeeding, and returns the command lines
/// in the order in which they were started or shown.
fn run(args: &[&str]) -> (Vec<Vec<String>>, usize, usize) {
    let settings = parse_args(&strings(args)).unwrap();
    let jobs = prepare(&settings).unwrap();
    let mut executor =
        Executor::new(&jobs, settings.runners, settings.dry_run, settings.background);
    let mut action = executor.action();
    let mut lines = Vec::new();
    let mut most = 0;
    loop {
        most = most.max(executor.in_flight());
        action = match action {
            Action::Print(tokens) => {
                lines.push(tokens);
                executor.step(Event::Shown)
            }
            Action::Spawn(tokens) => {
                assert!(!settings.dry_run);
                lines.push(tokens);
                executor.step(Event::Started)
            }
            Action::Wait => executor.step(Event::Exited { success: true }),
            Action::Abort => panic!("aborted"),
            Action::Finish => break,
        };
    }
    (lines, executor.count_run(), most)
}

#[test]
fn one_option_with_three_values_runs_three_times_in_turn() {
    let (lines, count, most) = run(&["echo", "--", "-x", "a,b,c"]);
    assert_eq!(
        lines,
        vec![
            strings(&["echo", "-x", "a"]),
            strings(&["echo", "-x", "b"]),
            strings(&["echo", "-x", "c"]),
        ]
    );
    assert_eq!(count, 3);
    assert_eq!(most, 1);
    let (lines, count, _) = run(&["echo", "--", "-x", "a", "b", "c"]);
    assert_eq!(lines.len(), 3);
    assert_eq!(lines[2], strings(&["echo", "-x", "c"]));
    assert_eq!(count, 3);
}

#[test]
fn two_options_with_two_values_run_four_times() {
    let (lines, count, _) = run(&["echo", "--", "-x", "a", "b", "-y", "1", "2"]);
    assert_eq!(
        lines,
        vec![
            strings(&["echo", "-x", "a", "-y", "1"]),
            strings(&["echo", "-x", "a", "-y", "2"]),
            strings(&["echo", "-x", "b", "-y", "1"]),
            strings(&["echo", "-x", "b", "-y", "2"]),
        ]
    );
    assert_eq!(count, 4);
}

#[test]
fn two_options_with_two_values_run_twice_in_ordered_mode() {
    let (lines, count, _) =
        run(&["--ordered-runner", "echo", "--", "-x", "a", "b", "-y", "1", "2"]);
    assert_eq!(
        lines,
        vec![strings(&["echo", "-x", "a", "-y", "1"]), strings(&["echo", "-x", "b", "-y", "2"])]
    );
    assert_eq!(count, 2);
}

#[test]
fn comma_joined_values_are_zipped_in_either_mode() {
    let (lines, _, _) = run(&["echo", "--", "-x", "a,b", "-y", "1,2"]);
    assert_eq!(
        lines,
        vec![strings(&["echo", "-x", "a", "-y", "1"]), strings(&["echo", "-x", "b", "-y", "2"])]
    );
    let (ordered, _, _) = run(&["--ordered-runner", "echo", "--", "-x", "a,b", "-y", "1,2"]);
    assert_eq!(ordered, lines);
}

#[test]
fn a_filter_rule_removes_one_of_the_four() {
    let (lines, count, _) =
        run(&["echo", "--filter-runs", "a,1", "--", "-x", "a", "b", "-y", "1", "2"]);
    assert_eq!(
        lines,
        vec![
            strings(&["echo", "-x", "a", "-y", "2"]),
            strings(&["echo", "-x", "b", "-y", "1"]),
            strings(&["echo", "-x", "b", "-y", "2"]),
        ]
    );
    assert_eq!(count, 3);
}

#[test]
fn a_dry_run_counts_every_combination_of_every_command() {
    let (lines, count, most) = run(&[
        "--dry-runner", "--runners", "3", "echo", ",", "ls", "--", "-x", "a", "b", "-1,l", "-y",
        "1", "2", "3",
    ]);
    assert_eq!(count, 6 + 6);
    assert_eq!(lines.len(), 12);
    assert_eq!(most, 0);
    assert_eq!(lines[0], strings(&["echo", "-x", "a", "-y", "1"]));
    assert_eq!(lines[6], strings(&["ls", "-x", "a", "-y", "1", "-l"]));
}

#[test]
fn several_runners_fill_the_window() {
    let (lines, count, most) =
        run(&["--runners", "3", "echo", "--", "-x", "a", "b", "c", "d", "e"]);
    assert_eq!(lines.len(), 5);
    assert_eq!(count, 5);
    assert_eq!(most, 3);
}

#[test]
fn a_command_without_arguments_runs_once() {
    let (lines, count, _) = run(&["true", "--"]);
    assert_eq!(lines, vec![strings(&["true"])]);
    assert_eq!(count, 1);
}

#[test]
fn distributed_values_are_spread_over_the_runners() {
    let (lines, _, _) = run(&["--runners", "2", "cat", "--", "-f%", "a", "b", "c"]);
    assert_eq!(lines, vec![strings(&["cat", "-f", "a c"]), strings(&["cat", "-f", "b"])]);
}

#[test]
fn a_bad_matrix_is_reported_before_anything_runs() {
    assert_eq!(
        jobs(&["echo", "--", "-x", "a,b", "-y", "1,2,3"]).err(),
        Some(ConfigError::PositionalMismatch)
    );
    assert_eq!(
        jobs(&["--ordered-runner", "echo", "--", "-x", "a", "b", "-y", "1", "2", "3"]).err(),
        Some(ConfigError::OrderedMismatch)
    );
    assert_eq!(
        jobs(&["--ordered-runner", "echo", "--", "-x", "a,b", "c,d,e", "-y", "1", "2", "3"]).err(),
        Some(ConfigError::PositionalMismatch)
    );
}

#[test]
fn without_the_double_dash_there_is_nothing_to_run() {
    assert_eq!(jobs(&["echo", "hi"]).unwrap().len(), 0);
}
