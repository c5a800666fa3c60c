use ttags::order::{bytes_less, str_less};
use ttags::query::{completion_plan, lookup, lower_bound, table_fits_lists, CompletionStep};

fn table(names: &[(&str, usize)]) -> Vec<(String, usize)> {
    names.iter().map(|(n, i)| (n.to_string(), *i)).collect()
}

fn step(entry: usize, name: usize) -> CompletionStep {
    CompletionStep { entry, name }
}

#[test]
fn byte_order() {
    assert!(str_less("Z", "a"));
    assert!(str_less("ab", "abc"));
    assert!(!str_less("abc", "ab"));
    assert!(!str_less("abc", "abc"));
    assert!(str_less("é", "ê"));
    assert!(bytes_less(&[1, 2], &[1, 3]));
    assert!(!bytes_less(&[], &[]));
}

#[test]
fn lower_bound_positions() {
    let t = table(&[("a", 0), ("c", 1), ("e", 2)]);
    assert_eq!(lower_bound(&t, ""), 0);
    assert_eq!(lower_bound(&t, "a"), 0);
    assert_eq!(lower_bound(&t, "b"), 1);
    assert_eq!(lower_bound(&t, "c"), 1);
    assert_eq!(lower_bound(&t, "d"), 2);
    assert_eq!(lower_bound(&t, "f"), 3);
    assert_eq!(lower_bound(&Vec::new(), "f"), 0);
}

#[test]
fn tables_must_point_at_lists() {
    let t = table(&[("a", 0), ("b", 5)]);
    let lists = vec![vec![0usize]];
    assert!(!table_fits_lists(&t, &lists));
    assert!(table_fits_lists(&table(&[("a", 0)]), &lists));
    assert!(table_fits_lists(&Vec::new(), &Vec::new()));
}

#[test]
fn lookup_finds_only_the_name_itself() {
    let t = table(&[("a", 1), ("c", 0)]);
    let lists = vec![vec![5usize], vec![2, 3]];
    assert_eq!(lookup(&t, &lists, "a"), Some(&vec![2, 3]));
    assert_eq!(lookup(&t, &lists, "c"), Some(&vec![5]));
    assert_eq!(lookup(&t, &lists, "b"), None);
    assert_eq!(lookup(&t, &lists, "d"), None);
    assert_eq!(lookup(&t, &lists, ""), None);
}

#[test]
fn completion_of_single_record_names() {
    let t = table(&[("fa", 0), ("fb", 1), ("fc", 2)]);
    let lists = vec![vec![7usize], vec![8], vec![9]];
    let steps = completion_plan(&t, &lists, "fb");
    assert_eq!(steps, vec![step(8, 1), step(9, 2)]);
}

#[test]
fn completion_shows_each_record_beside_its_own_name() {
    let t = table(&[("a", 0), ("b", 1), ("c", 2), ("d", 3)]);
    let lists = vec![vec![0usize, 1], vec![2], vec![3], vec![4]];
    let steps = completion_plan(&t, &lists, "a");
    assert_eq!(steps, vec![step(0, 0), step(1, 0), step(2, 1), step(3, 2), step(4, 3)]);
    let steps = completion_plan(&t, &lists, "bb");
    assert_eq!(steps, vec![step(3, 2), step(4, 3)]);
}

#[test]
fn completion_shows_ten_names() {
    let names: Vec<(String, usize)> = (0..12).map(|i| (format!("n{:02}", i), i)).collect();
    let lists: Vec<Vec<usize>> = (0..12).map(|i| vec![2 * i, 2 * i + 1]).collect();
    let steps = completion_plan(&names, &lists, "n");
    assert_eq!(steps.len(), 20);
    assert_eq!(steps[18], step(18, 9));
    assert_eq!(steps[19], step(19, 9));
    let steps = completion_plan(&names, &lists, "n05");
    assert_eq!(steps.len(), 14);
    assert_eq!(steps[0], step(10, 5));
    assert_eq!(steps[13], step(23, 11));
}

#[test]
fn completion_past_every_name() {
    let t = table(&[("a", 0)]);
    let lists = vec![vec![0usize]];
    let steps = completion_plan(&t, &lists, "b");
    assert!(steps.is_empty());
}
