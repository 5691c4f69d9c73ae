use rebos::generation::Generation;
use rebos::resolver::{ResolveError, Resolver};

fn strings(items: &[&str]) -> Vec<String> {
    items.iter().map(|s| s.to_string()).collect()
}

fn with(imports: &[&str], system: &[&str]) -> Generation {
    let mut g = Generation::new();
    g.imports = strings(imports);
    g.add_items(&"system".to_string(), &strings(system));
    g
}

#[test]
fn resolves_machine_and_transitive_imports() {
    let mut r = Resolver::new(with(&["a"], &["git"]));
    r.add_machine(with(&[], &["vim"]));
    assert_eq!(r.next_import(), Some("a".to_string()));
    r.add_import(&"a".to_string(), with(&["b"], &["htop"]));
    assert_eq!(r.next_import(), Some("b".to_string()));
    r.add_import(&"b".to_string(), with(&[], &["curl"]));
    assert_eq!(r.next_import(), None);
    let g = r.finish().unwrap();
    assert!(g.imports.is_empty());
    assert_eq!(g.items(&"system".to_string()), Some(strings(&["git", "vim", "htop", "curl"])));
}

#[test]
fn an_import_cycle_ends_and_is_refused() {
    let mut r = Resolver::new(with(&["a"], &[]));
    r.add_import(&"a".to_string(), with(&["b"], &["x"]));
    r.add_import(&"b".to_string(), with(&["a"], &["y"]));
    assert_eq!(r.next_import(), None);
    r.add_import(&"a".to_string(), with(&["b"], &["x"]));
    assert_eq!(r.generation.items(&"system".to_string()), Some(strings(&["x", "y"])));
    assert_eq!(r.finish().err(), Some(ResolveError::ImportCycle));
}

#[test]
fn a_self_import_is_refused() {
    let mut r = Resolver::new(with(&["a"], &[]));
    r.add_import(&"a".to_string(), with(&["a"], &["x"]));
    assert_eq!(r.next_import(), None);
    assert_eq!(r.finish().err(), Some(ResolveError::ImportCycle));
}

#[test]
fn a_shared_import_is_no_cycle() {
    let mut r = Resolver::new(with(&["a", "b"], &[]));
    r.add_import(&"a".to_string(), with(&["c"], &["x"]));
    r.add_import(&"b".to_string(), with(&["c"], &["y"]));
    r.add_import(&"c".to_string(), with(&[], &["z"]));
    assert_eq!(r.next_import(), None);
    let g = r.finish().unwrap();
    assert_eq!(g.items(&"system".to_string()), Some(strings(&["x", "y", "z"])));
}
