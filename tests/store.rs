use rebos::generation::Generation;
use rebos::store::{list_print, Deletion, Store, StoreError, StoreOp};

fn generation_with(system: &[&str]) -> Generation {
    let mut g = Generation::new();
    let items: Vec<String> = system.iter().map(|s| s.to_string()).collect();
    g.add_items(&"system".to_string(), &items);
    g
}

#[test]
fn new_sorts_and_dedups_numbers() {
    let s = Store::new(vec![5, 2, 7, 2, 0], None, None);
    assert_eq!(s.list_gen_nums(), vec![2, 5, 7]);
    assert_eq!(s.latest_number(), 7);
    assert_eq!(s.get_oldest(), Ok(2));
    assert!(s.journal.is_empty());
}

#[test]
fn latest_and_oldest_of_empty_store() {
    let s = Store::new(Vec::new(), None, None);
    assert_eq!(s.latest_number(), 0);
    assert_eq!(s.get_oldest(), Err(StoreError::NoGenerations));
}

#[test]
fn set_current_checks_range() {
    let mut s = Store::new(vec![1, 2, 3], Some(1), None);
    assert_eq!(s.set_current(0), Err(StoreError::OutOfRange));
    assert_eq!(s.set_current(4), Err(StoreError::OutOfRange));
    assert_eq!(s.current, Some(1));
    assert!(s.journal.is_empty());
    assert_eq!(s.set_current(3), Ok(()));
    assert_eq!(s.current, Some(3));
    assert_eq!(s.journal, vec![StoreOp::WriteCurrent(3)]);
}

#[test]
fn set_built_checks_range() {
    let mut s = Store::new(vec![1, 2], Some(2), None);
    assert_eq!(s.set_built(0), Err(StoreError::OutOfRange));
    assert_eq!(s.set_built(3), Err(StoreError::OutOfRange));
    assert!(!s.been_built());
    assert_eq!(s.set_built(2), Ok(()));
    assert_eq!(s.get_built(), Ok(2));
    assert_eq!(s.journal, vec![StoreOp::WriteBuilt(2)]);
}

#[test]
fn pointer_getters_report_missing_pointers() {
    let s = Store::new(vec![1], None, None);
    assert_eq!(s.get_current(), Err(StoreError::NoCurrent));
    assert_eq!(s.get_built(), Err(StoreError::NotBuilt));
    assert!(!s.is_current(1));
    assert!(!s.is_built(1));
}

#[test]
fn delete_protects_current_and_built() {
    let mut s = Store::new(vec![1, 2, 3], Some(3), Some(2));
    assert_eq!(s.delete(3), Ok(Deletion::ProtectedCurrent));
    assert_eq!(s.delete(2), Ok(Deletion::ProtectedBuilt));
    assert_eq!(s.list_gen_nums(), vec![1, 2, 3]);
    assert!(s.journal.is_empty());
    assert_eq!(s.delete(9), Err(StoreError::NotFound));
    assert_eq!(s.delete(1), Ok(Deletion::Deleted));
    assert_eq!(s.list_gen_nums(), vec![2, 3]);
    assert_eq!(s.journal, vec![StoreOp::Delete(1)]);
}

#[test]
fn delete_old_skips_protected_and_stops_at_latest() {
    let mut s = Store::new(vec![1, 2, 3, 4], Some(2), None);
    assert_eq!(s.delete_old(10), Ok(()));
    assert_eq!(s.list_gen_nums(), vec![2]);
    assert_eq!(s.journal, vec![StoreOp::Delete(1), StoreOp::Delete(3), StoreOp::Delete(4)]);
}

#[test]
fn delete_old_counts_numbers_from_the_oldest() {
    let mut s = Store::new(vec![3, 4, 5, 6], Some(6), None);
    assert_eq!(s.delete_old(2), Ok(()));
    assert_eq!(s.list_gen_nums(), vec![5, 6]);
}

#[test]
fn delete_old_fails_on_a_gap() {
    let mut s = Store::new(vec![1, 3], Some(3), None);
    assert_eq!(s.delete_old(2), Err(StoreError::NotFound));
    let mut empty = Store::new(Vec::new(), None, None);
    assert_eq!(empty.delete_old(1), Err(StoreError::NoGenerations));
}

#[test]
fn move_gen_carries_pointers() {
    let mut s = Store::new(vec![1, 4], Some(4), Some(4));
    assert_eq!(s.move_gen(9, 2), Err(StoreError::NotFound));
    assert_eq!(s.move_gen(4, 0), Err(StoreError::OutOfRange));
    assert_eq!(s.move_gen(4, 1), Err(StoreError::Occupied));
    assert_eq!(s.move_gen(4, 2), Ok(()));
    assert_eq!(s.list_gen_nums(), vec![1, 2]);
    assert_eq!(s.current, Some(2));
    assert_eq!(s.built, Some(2));
    assert_eq!(
        s.journal,
        vec![StoreOp::Move(4, 2), StoreOp::WriteCurrent(2), StoreOp::WriteBuilt(2)]
    );
}

#[test]
fn align_renumbers_densely() {
    let mut s = Store::new(vec![2, 5, 7], Some(5), Some(7));
    assert_eq!(s.align(), 3);
    assert_eq!(s.list_gen_nums(), vec![1, 2, 3]);
    assert_eq!(s.latest_number(), 3);
    assert_eq!(s.current, Some(2));
    assert_eq!(s.built, Some(3));
    assert_eq!(
        s.journal,
        vec![
            StoreOp::Move(2, 1),
            StoreOp::Move(5, 2),
            StoreOp::WriteCurrent(2),
            StoreOp::Move(7, 3),
            StoreOp::WriteBuilt(3),
        ]
    );
}

#[test]
fn align_leaves_dense_numbers_alone() {
    let mut s = Store::new(vec![1, 2, 3], Some(3), None);
    assert_eq!(s.align(), 0);
    assert!(s.journal.is_empty());
}

#[test]
fn clean_dups_keeps_one_of_identical_neighbours() {
    let mut s = Store::new(vec![3, 4, 5], Some(5), None);
    let contents = vec![generation_with(&["git"]), generation_with(&["git"]), generation_with(&["git"])];
    assert_eq!(s.clean_dups(&contents), 2);
    assert_eq!(s.list_gen_nums(), vec![3]);
    assert_eq!(s.current, Some(3));
    assert_eq!(
        s.journal,
        vec![StoreOp::Delete(4), StoreOp::WriteCurrent(3), StoreOp::Delete(5)]
    );
}

#[test]
fn clean_dups_only_compares_neighbours() {
    let mut s = Store::new(vec![1, 2, 3, 4], Some(4), Some(2));
    let contents = vec![
        generation_with(&["git"]),
        generation_with(&["git"]),
        generation_with(&["vim"]),
        generation_with(&["git"]),
    ];
    assert_eq!(s.clean_dups(&contents), 1);
    assert_eq!(s.list_gen_nums(), vec![1, 3, 4]);
    assert_eq!(s.built, Some(1));
    assert_eq!(s.current, Some(4));
}

#[test]
fn commit_on_empty_store_creates_generation_one() {
    let mut s = Store::new(Vec::new(), None, None);
    assert_eq!(s.commit(), Ok(1));
    assert_eq!(s.list_gen_nums(), vec![1]);
    assert_eq!(s.current, Some(1));
    assert_eq!(s.journal, vec![StoreOp::Create(1), StoreOp::WriteCurrent(1)]);
    assert_eq!(s.commit(), Ok(2));
    assert_eq!(s.current, Some(2));
}

#[test]
fn commit_refuses_when_numbers_run_out() {
    let mut s = Store::new(vec![usize::MAX], None, None);
    assert_eq!(s.commit(), Err(StoreError::Exhausted));
}

#[test]
fn rollback_moves_current_back() {
    let mut s = Store::new(vec![1, 2, 3, 4, 5], Some(5), None);
    assert_eq!(s.rollback(1), Ok(()));
    assert_eq!(s.current, Some(4));
    assert_eq!(s.rollback(-1), Ok(()));
    assert_eq!(s.current, Some(5));
    assert_eq!(s.rollback(5), Err(StoreError::OutOfRange));
    assert_eq!(s.rollback(-1), Err(StoreError::OutOfRange));
    assert_eq!(s.current, Some(5));
    let mut none = Store::new(vec![1], None, None);
    assert_eq!(none.rollback(1), Err(StoreError::NoCurrent));
}

#[test]
fn latest_points_current_at_the_newest() {
    let mut s = Store::new(vec![1, 2, 9], Some(1), None);
    assert_eq!(s.latest(), Ok(()));
    assert_eq!(s.current, Some(9));
    let mut empty = Store::new(Vec::new(), None, None);
    assert_eq!(empty.latest(), Err(StoreError::OutOfRange));
}

#[test]
fn list_marks_pointers_and_missing_messages() {
    let s = Store::new(vec![1, 10], Some(10), Some(1));
    let entries = s.list(&vec![Some("init".to_string()), None]);
    assert_eq!(entries.len(), 2);
    assert_eq!(entries[0].number, 1);
    assert_eq!(entries[0].message, "init");
    assert!(entries[0].is_built && !entries[0].is_current);
    assert_eq!(entries[1].message, "<< COMMIT MESSAGE MISSING >>");
    assert!(entries[1].is_current && !entries[1].is_built);
    let lines = list_print(&entries);
    assert_eq!(lines, vec![" 1 ... (init) [BUILT]".to_string(), "10 ... (<< COMMIT MESSAGE MISSING >>) [CURRENT]".to_string()]);
}

#[test]
fn gen_exists_checks_membership() {
    let s = Store::new(vec![1, 3], None, None);
    assert!(s.gen_exists(3));
    assert!(!s.gen_exists(2));
}

#[test]
fn tidy_up_dedups_then_aligns() {
    let mut s = Store::new(vec![2, 3, 6], Some(6), Some(2));
    let contents = vec![generation_with(&["git"]), generation_with(&["git"]), generation_with(&["vim"])];
    assert_eq!(s.tidy_up(&contents), (1, 2));
    assert_eq!(s.list_gen_nums(), vec![1, 2]);
    assert_eq!(
        s.journal,
        vec![
            StoreOp::Delete(3),
            StoreOp::Move(2, 1),
            StoreOp::WriteBuilt(1),
            StoreOp::Move(6, 2),
            StoreOp::WriteCurrent(2),
        ]
    );
    assert_eq!(s.built, Some(1));
    assert_eq!(s.current, Some(2));
}
