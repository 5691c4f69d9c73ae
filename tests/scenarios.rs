use rebos::generation::Generation;
use rebos::history::{history, HistoryMode};
use rebos::manager::{Manager, ManagerConfig, Step};
use rebos::reconcile::plan_build;
use rebos::store::{Store, StoreOp};

fn strings(items: &[&str]) -> Vec<String> {
    items.iter().map(|s| s.to_string()).collect()
}

fn system(items: &[&str]) -> Generation {
    let mut g = Generation::new();
    g.add_items(&"system".to_string(), &strings(items));
    g
}

fn system_manager() -> Manager {
    Manager {
        add: "pkg add #:?".to_string(),
        remove: "pkg del #:?".to_string(),
        sync: None,
        upgrade: None,
        config: ManagerConfig { many_args: true },
        hook_name: "system_packages".to_string(),
        plural_name: "system packages".to_string(),
    }
}

fn commands(steps: &[Step]) -> Vec<String> {
    steps
        .iter()
        .filter_map(|s| match s {
            Step::Run(c) => Some(c.clone()),
            Step::Hook(_) => None,
        })
        .collect()
}

#[test]
fn commit_then_first_build() {
    let mut store = Store::new(Vec::new(), None, None);
    assert_eq!(store.commit(), Ok(1));
    assert_eq!(store.current, Some(1));
    assert!(!store.been_built());

    let current = system(&["git"]);
    let plan = plan_build(&Generation::new(), &current);
    assert_eq!(plan.len(), 1);
    assert_eq!(plan[0].name, "system");
    let m = system_manager();
    assert_eq!(commands(&m.install(&plan[0].install)), vec!["pkg add git".to_string()]);
    assert!(m.uninstall(&plan[0].remove).is_empty());

    let target = store.get_current().unwrap();
    assert_eq!(store.set_built(target), Ok(()));
    assert_eq!(store.built, Some(1));
    assert_eq!(
        store.journal,
        vec![StoreOp::Create(1), StoreOp::WriteCurrent(1), StoreOp::WriteBuilt(1)]
    );
}

#[test]
fn second_build_installs_only_the_addition() {
    let before = strings(&["git"]);
    let after = strings(&["git", "vim"]);
    let h: Vec<(HistoryMode, String)> = history(&before, &after).into_iter().map(|e| (e.mode, e.line)).collect();
    assert_eq!(h, vec![(HistoryMode::Add, "vim".to_string())]);

    let mut store = Store::new(vec![1, 2], Some(2), Some(1));
    let plan = plan_build(&system(&["git"]), &system(&["git", "vim"]));
    assert_eq!(plan.len(), 1);
    let m = system_manager();
    assert_eq!(commands(&m.install(&plan[0].install)), vec!["pkg add vim".to_string()]);
    assert!(m.uninstall(&plan[0].remove).is_empty());
    let target = store.get_current().unwrap();
    assert_eq!(store.set_built(target), Ok(()));
    assert_eq!(store.built, Some(2));
}

#[test]
fn rollback_by_one_from_five() {
    let mut store = Store::new(vec![1, 2, 3, 4, 5], Some(5), None);
    assert_eq!(store.rollback(1), Ok(()));
    assert_eq!(store.current, Some(4));
    assert_eq!(store.journal, vec![StoreOp::WriteCurrent(4)]);
}

#[test]
fn align_two_five_seven() {
    let mut store = Store::new(vec![2, 5, 7], Some(7), Some(5));
    store.align();
    assert_eq!(store.list_gen_nums(), vec![1, 2, 3]);
    assert_eq!(store.latest_number(), 3);
    assert_eq!(store.current, Some(3));
    assert_eq!(store.built, Some(2));
}
