use combogen::combos::all_combos;
use combogen::dispatch::{plan_tasks, worker_combos};

#[test]
fn plan_covers_every_length_and_letter() {
    let counts = vec![2usize, 3usize];
    let alphabet = vec!['a', 'b', 'c'];
    let tasks = plan_tasks(&counts, &alphabet);
    assert_eq!(tasks.len(), 6);
    for (k, task) in tasks.iter().enumerate() {
        assert_eq!(task.letter_index, k % 3);
        assert_eq!(task.remaining, counts[k / 3] - 1);
    }
}

#[test]
fn workers_together_emit_the_sequential_output() {
    let counts = vec![2usize];
    let alphabet = vec!['A', 'B'];
    let sequential = all_combos(&alphabet, 2, String::new());

    let mut parallel: Vec<String> = Vec::new();
    for task in plan_tasks(&counts, &alphabet) {
        let part = worker_combos(&alphabet, alphabet[task.letter_index], task.remaining);
        parallel.extend(part);
    }
    assert_eq!(parallel, sequential);

    let mut seq_sorted = sequential.clone();
    let mut par_sorted = parallel.clone();
    seq_sorted.sort();
    par_sorted.sort();
    assert_eq!(par_sorted, seq_sorted);
}

#[test]
fn more_workers_than_branches_still_covers_everything() {
    let counts = vec![1usize];
    let alphabet = vec!['x', 'y'];
    let tasks = plan_tasks(&counts, &alphabet);
    assert_eq!(tasks.len(), 2);

    let mut emitted: Vec<String> = Vec::new();
    for task in &tasks {
        emitted.extend(worker_combos(
            &alphabet,
            alphabet[task.letter_index],
            task.remaining,
        ));
    }
    emitted.sort();
    assert_eq!(emitted, vec!["x".to_string(), "y".to_string()]);
}

#[test]
fn worker_owns_its_first_letter() {
    let alphabet = vec!['a', 'b'];
    let out = worker_combos(&alphabet, 'b', 1);
    assert_eq!(out, vec!["ba".to_string(), "bb".to_string()]);
}

#[test]
fn plan_drains_one_length_before_the_next() {
    let counts = vec![1usize, 2usize];
    let alphabet = vec!['a'];
    let tasks = plan_tasks(&counts, &alphabet);
    assert_eq!(tasks.len(), 2);
    assert_eq!(tasks[0].remaining, 0);
    assert_eq!(tasks[1].remaining, 1);
}
