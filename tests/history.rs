use rebos::history::{contains_str, history, missing_items, remove_array_duplicates, History, HistoryMode};

fn strings(items: &[&str]) -> Vec<String> {
    items.iter().map(|s| s.to_string()).collect()
}

fn pairs(h: &[History]) -> Vec<(HistoryMode, String)> {
    h.iter().map(|e| (e.mode, e.line.clone())).collect()
}

#[test]
fn history_of_same_list_is_empty() {
    let a = strings(&["git", "vim", "git", "  ", "curl"]);
    assert!(history(&a, &a).is_empty());
}

#[test]
fn history_reports_removals_then_additions() {
    let before = strings(&["git", "vim", "htop"]);
    let after = strings(&["git", "curl", "htop", "wget"]);
    let h = pairs(&history(&before, &after));
    assert_eq!(
        h,
        vec![
            (HistoryMode::Remove, "vim".to_string()),
            (HistoryMode::Add, "curl".to_string()),
            (HistoryMode::Add, "wget".to_string()),
        ]
    );
}

#[test]
fn history_swapped_lists_swap_modes() {
    let a = strings(&["git", "vim", "htop"]);
    let b = strings(&["git", "curl"]);
    let forward = pairs(&history(&a, &b));
    let backward = pairs(&history(&b, &a));
    assert_eq!(forward.len(), backward.len());
    for (mode, item) in forward {
        let flipped = match mode {
            HistoryMode::Add => HistoryMode::Remove,
            HistoryMode::Remove => HistoryMode::Add,
        };
        assert!(backward.contains(&(flipped, item)));
    }
}

#[test]
fn history_drops_duplicates_and_blank_entries() {
    let before = strings(&["a", "a", " ", "\t", "b"]);
    let after = strings(&["c", "c", "", "c"]);
    let h = pairs(&history(&before, &after));
    assert_eq!(
        h,
        vec![
            (HistoryMode::Remove, "a".to_string()),
            (HistoryMode::Remove, "b".to_string()),
            (HistoryMode::Add, "c".to_string()),
        ]
    );
}

#[test]
fn history_of_empty_lists() {
    let empty: Vec<String> = Vec::new();
    assert!(history(&empty, &empty).is_empty());
    let after = strings(&["git"]);
    assert_eq!(pairs(&history(&empty, &after)), vec![(HistoryMode::Add, "git".to_string())]);
    assert_eq!(pairs(&history(&after, &empty)), vec![(HistoryMode::Remove, "git".to_string())]);
}

#[test]
fn dedup_keeps_first_occurrences() {
    let v = strings(&["b", "a", "b", "c", "a"]);
    assert_eq!(remove_array_duplicates(&v), strings(&["b", "a", "c"]));
}

#[test]
fn missing_items_filters_present_and_blank() {
    let from = strings(&["x", "y", " ", "x", "z"]);
    let other = strings(&["y"]);
    assert_eq!(missing_items(&from, &other), strings(&["x", "z"]));
}

#[test]
fn contains_str_compares_whole_strings() {
    let v = strings(&["git", "vim"]);
    assert!(contains_str(&v, &"vim".to_string()));
    assert!(!contains_str(&v, &"vi".to_string()));
}
