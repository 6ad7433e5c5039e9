use extcopy::plan::Config;
use extcopy::plan::Entry;
use extcopy::plan::plan_tasks;
use extcopy::plan::select_files;
use extcopy::run::ExistingPaths;
use extcopy::run::decide_copies;
use extcopy::run::run_pipeline;

fn path(parts: &[&str]) -> Vec<String> {
    parts.iter().map(|s| s.to_string()).collect()
}

/// The tree `a/x.txt`, `a/b/y.txt`, `c.md` under the source root.
fn sample_tree() -> Vec<Entry> {
    vec![
        Entry { path: path(&["root"]), is_file: false },
        Entry { path: path(&["root", "a"]), is_file: false },
        Entry { path: path(&["root", "a", "x.txt"]), is_file: true },
        Entry { path: path(&["root", "a", "b"]), is_file: false },
        Entry { path: path(&["root", "a", "b", "y.txt"]), is_file: true },
        Entry { path: path(&["root", "c.md"]), is_file: true },
    ]
}

fn sample_config(flatten: bool) -> Config {
    Config::new(path(&["root"]), path(&["out"]), "txt", flatten)
}

#[test]
fn selection_keeps_only_matching_files() {
    let cfg = sample_config(false);
    let files = select_files(&cfg, &sample_tree());
    assert_eq!(
        files,
        vec![path(&["root", "a", "x.txt"]), path(&["root", "a", "b", "y.txt"])]
    );
}

#[test]
fn directories_are_never_selected() {
    let cfg = Config::new(path(&["root"]), path(&["out"]), "txt", false);
    let entries = vec![Entry { path: path(&["root", "dir.txt"]), is_file: false }];
    assert_eq!(select_files(&cfg, &entries), Vec::<Vec<String>>::new());
}

#[test]
fn preserve_mode_reproduces_relative_paths() {
    let cfg = sample_config(false);
    let files = select_files(&cfg, &sample_tree());
    let tasks = plan_tasks(&cfg, &files);
    assert_eq!(tasks.len(), 2);
    assert_eq!(tasks[0].source_path, path(&["root", "a", "x.txt"]));
    assert_eq!(tasks[0].dest_path, path(&["out", "a", "x.txt"]));
    assert_eq!(tasks[1].source_path, path(&["root", "a", "b", "y.txt"]));
    assert_eq!(tasks[1].dest_path, path(&["out", "a", "b", "y.txt"]));
}

#[test]
fn flatten_mode_collapses_to_base_names() {
    let cfg = sample_config(true);
    let files = select_files(&cfg, &sample_tree());
    let tasks = plan_tasks(&cfg, &files);
    assert_eq!(tasks.len(), 2);
    assert_eq!(tasks[0].dest_path, path(&["out", "x.txt"]));
    assert_eq!(tasks[1].dest_path, path(&["out", "y.txt"]));
}

#[test]
fn fresh_destination_copies_every_task() {
    let cfg = sample_config(false);
    let tasks = plan_tasks(&cfg, &select_files(&cfg, &sample_tree()));
    let mut existing = ExistingPaths::new();
    let decisions = decide_copies(&tasks, &mut existing);
    assert_eq!(decisions, vec![true, true]);
    assert!(existing.contains(&path(&["out", "a", "x.txt"])));
    assert!(existing.contains(&path(&["out", "a", "b", "y.txt"])));
    assert!(!existing.contains(&path(&["out", "c.md"])));
}

#[test]
fn second_run_copies_nothing() {
    let cfg = sample_config(false);
    let tasks = plan_tasks(&cfg, &select_files(&cfg, &sample_tree()));
    let mut existing = ExistingPaths::new();
    let first = decide_copies(&tasks, &mut existing);
    assert_eq!(first, vec![true, true]);
    let second = decide_copies(&tasks, &mut existing);
    assert_eq!(second, vec![false, false]);
}

#[test]
fn preexisting_destination_is_skipped() {
    let cfg = sample_config(false);
    let tasks = plan_tasks(&cfg, &select_files(&cfg, &sample_tree()));
    let mut existing = ExistingPaths::new();
    existing.insert(path(&["out", "a", "x.txt"]));
    let decisions = decide_copies(&tasks, &mut existing);
    assert_eq!(decisions, vec![false, true]);
}

#[test]
fn whole_pipeline_in_one_call() {
    let cfg = sample_config(true);
    let mut existing = ExistingPaths::new();
    let decisions = run_pipeline(&cfg, &sample_tree(), &mut existing);
    assert_eq!(decisions, vec![true, true]);
    assert!(existing.contains(&path(&["out", "x.txt"])));
    assert!(existing.contains(&path(&["out", "y.txt"])));
    assert!(!existing.contains(&path(&["out", "c.md"])));
}

#[test]
fn flatten_collision_keeps_first_file() {
    let cfg = Config::new(path(&["root"]), path(&["out"]), "txt", true);
    let entries = vec![
        Entry { path: path(&["root", "a", "x.txt"]), is_file: true },
        Entry { path: path(&["root", "b", "x.txt"]), is_file: true },
    ];
    let tasks = plan_tasks(&cfg, &select_files(&cfg, &entries));
    assert_eq!(tasks[0].dest_path, path(&["out", "x.txt"]));
    assert_eq!(tasks[1].dest_path, path(&["out", "x.txt"]));
    let mut existing = ExistingPaths::new();
    let decisions = decide_copies(&tasks, &mut existing);
    assert_eq!(decisions, vec![true, false]);
}
