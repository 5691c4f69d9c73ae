use rebos::generation::{history_gen, Generation, GenerationFile, GenerationLegacy};
use rebos::history::HistoryMode;
use rebos::reconcile::plan_build;

fn strings(items: &[&str]) -> Vec<String> {
    items.iter().map(|s| s.to_string()).collect()
}

fn with(backends: &[(&str, &[&str])]) -> Generation {
    let mut g = Generation::new();
    for (name, items) in backends {
        g.add_items(&name.to_string(), &strings(items));
    }
    g
}

#[test]
fn add_items_appends_to_a_backend() {
    let mut g = with(&[("system", &["git"])]);
    g.add_items(&"system".to_string(), &strings(&["vim"]));
    assert_eq!(g.items(&"system".to_string()), Some(strings(&["git", "vim"])));
    assert_eq!(g.items(&"cargo".to_string()), None);
    assert!(g.items_or_empty(&"cargo".to_string()).is_empty());
}

#[test]
fn extend_concatenates_imports_and_lists() {
    let mut a = with(&[("system", &["git"]), ("flatpak", &["app"])]);
    a.imports = strings(&["base"]);
    let mut b = with(&[("system", &["vim"]), ("cargo", &["bacon"])]);
    b.imports = strings(&["extra"]);
    a.extend(b);
    assert_eq!(a.imports, strings(&["base", "extra"]));
    assert_eq!(a.items(&"system".to_string()), Some(strings(&["git", "vim"])));
    assert_eq!(a.items(&"flatpak".to_string()), Some(strings(&["app"])));
    assert_eq!(a.items(&"cargo".to_string()), Some(strings(&["bacon"])));
    let mut names = a.manager_names();
    names.sort();
    assert_eq!(names, strings(&["cargo", "flatpak", "system"]));
}

#[test]
fn same_as_compares_structure() {
    let a = with(&[("system", &["git"]), ("cargo", &["bacon"])]);
    let b = with(&[("cargo", &["bacon"]), ("system", &["git"])]);
    let c = with(&[("system", &["git"])]);
    let d = with(&[("system", &["git", "vim"]), ("cargo", &["bacon"])]);
    assert!(a.same_as(&b));
    assert!(!a.same_as(&c));
    assert!(!c.same_as(&a));
    assert!(!a.same_as(&d));
    let mut e = with(&[("system", &["git"]), ("cargo", &["bacon"])]);
    e.imports = strings(&["x"]);
    assert!(!a.same_as(&e));
}

#[test]
fn legacy_generation_migrates_to_backends() {
    let legacy = GenerationLegacy {
        imports: strings(&["common"]),
        pkgs: strings(&["git"]),
        flatpaks: strings(&["org.app"]),
        crates: strings(&["bacon"]),
    };
    let g = GenerationFile::Legacy(legacy).into_generation();
    assert_eq!(g.imports, strings(&["common"]));
    assert_eq!(g.items(&"system".to_string()), Some(strings(&["git"])));
    assert_eq!(g.items(&"flatpak".to_string()), Some(strings(&["org.app"])));
    assert_eq!(g.items(&"cargo".to_string()), Some(strings(&["bacon"])));
    let current = GenerationFile::Current(with(&[("system", &["vim"])])).into_generation();
    assert_eq!(current.items(&"system".to_string()), Some(strings(&["vim"])));
}

#[test]
fn history_gen_covers_every_backend() {
    let a = with(&[("system", &["git", "vim"]), ("cargo", &["bacon"])]);
    let b = with(&[("system", &["git", "htop"]), ("flatpak", &["app"])]);
    let mut h = history_gen(&a, &b);
    h.sort_by(|x, y| x.name.cmp(&y.name));
    let names: Vec<String> = h.iter().map(|x| x.name.clone()).collect();
    assert_eq!(names, strings(&["cargo", "flatpak", "system"]));
    let lines = |i: usize| -> Vec<(HistoryMode, String)> { h[i].entries.iter().map(|e| (e.mode, e.line.clone())).collect() };
    assert_eq!(lines(0), vec![(HistoryMode::Remove, "bacon".to_string())]);
    assert_eq!(lines(1), vec![(HistoryMode::Add, "app".to_string())]);
    assert_eq!(lines(2), vec![(HistoryMode::Remove, "vim".to_string()), (HistoryMode::Add, "htop".to_string())]);
}

#[test]
fn first_build_installs_everything() {
    let current = with(&[("system", &["git"])]);
    let plan = plan_build(&Generation::new(), &current);
    assert_eq!(plan.len(), 1);
    assert_eq!(plan[0].name, "system");
    assert_eq!(plan[0].install, strings(&["git"]));
    assert!(plan[0].remove.is_empty());
}

#[test]
fn build_after_a_build_installs_only_the_difference() {
    let built = with(&[("system", &["git"])]);
    let current = with(&[("system", &["git", "vim"])]);
    let plan = plan_build(&built, &current);
    assert_eq!(plan.len(), 1);
    assert_eq!(plan[0].install, strings(&["vim"]));
    assert!(plan[0].remove.is_empty());
}

#[test]
fn build_removes_backends_that_left() {
    let built = with(&[("system", &["git"]), ("cargo", &["bacon", "bacon"])]);
    let current = with(&[("system", &["git"])]);
    let mut plan = plan_build(&built, &current);
    plan.sort_by(|x, y| x.name.cmp(&y.name));
    assert_eq!(plan.len(), 2);
    assert_eq!(plan[0].name, "cargo");
    assert_eq!(plan[0].remove, strings(&["bacon"]));
    assert!(plan[1].install.is_empty() && plan[1].remove.is_empty());
}
