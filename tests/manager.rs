use rebos::manager::{check_hook_name, hook_file_name, Action, Manager, ManagerConfig, Step};

fn apt(many: bool) -> Manager {
    Manager {
        add: "sudo apt install #:?".to_string(),
        remove: "sudo apt remove #:?".to_string(),
        sync: Some("sudo apt update".to_string()),
        upgrade: None,
        config: ManagerConfig { many_args: many },
        hook_name: "system_packages".to_string(),
        plural_name: "system packages".to_string(),
    }
}

fn show(steps: &[Step]) -> Vec<String> {
    steps
        .iter()
        .map(|s| match s {
            Step::Hook(h) => format!("hook {}", h),
            Step::Run(c) => format!("run {}", c),
        })
        .collect()
}

fn strings(items: &[&str]) -> Vec<String> {
    items.iter().map(|s| s.to_string()).collect()
}

#[test]
fn install_many_items_in_one_command() {
    let steps = apt(true).install(&strings(&["git", "vim"]));
    assert_eq!(
        show(&steps),
        vec![
            "hook pre_system_packages_add",
            "run sudo apt install git vim",
            "hook post_system_packages_add",
        ]
    );
}

#[test]
fn install_one_command_per_item() {
    let steps = apt(false).install(&strings(&["git", " ", "vim"]));
    assert_eq!(
        show(&steps),
        vec![
            "hook pre_system_packages_add",
            "run sudo apt install git",
            "run sudo apt install vim",
            "hook post_system_packages_add",
        ]
    );
}

#[test]
fn install_or_remove_of_nothing_is_a_no_op() {
    assert!(apt(true).install(&Vec::new()).is_empty());
    assert!(apt(false).uninstall(&strings(&["", "  "])).is_empty());
}

#[test]
fn uninstall_uses_the_remove_template() {
    let steps = apt(true).uninstall(&strings(&["vim"]));
    assert_eq!(
        show(&steps),
        vec![
            "hook pre_system_packages_remove",
            "run sudo apt remove vim",
            "hook post_system_packages_remove",
        ]
    );
}

#[test]
fn sync_and_upgrade_run_hooks_even_without_command() {
    assert_eq!(
        show(&apt(true).sync()),
        vec!["hook pre_system_packages_sync", "run sudo apt update", "hook post_system_packages_sync"]
    );
    assert_eq!(
        show(&apt(true).upgrade()),
        vec!["hook pre_system_packages_upgrade", "hook post_system_packages_upgrade"]
    );
}

#[test]
fn hook_file_names_follow_the_convention() {
    let h = "crates".to_string();
    assert_eq!(hook_file_name("post", &h, Action::Upgrade), "post_crates_upgrade");
    assert_eq!(hook_file_name("pre", &h, Action::Sync), "pre_crates_sync");
}

#[test]
fn check_config_accepts_a_safe_hook_name() {
    assert_eq!(apt(true).check_config(), Ok(()));
}

#[test]
fn check_config_rejects_an_unsafe_hook_name() {
    let mut m = apt(true);
    m.hook_name = "a/b".to_string();
    let errors = m.check_config().unwrap_err();
    assert_eq!(errors, vec!["Field 'hook_name' must be filename safe! (Fixed version: a_b)".to_string()]);
}

#[test]
fn check_hook_name_compares_with_the_fixed_form() {
    assert_eq!(check_hook_name(&"x".to_string(), &"x".to_string()), Ok(()));
    assert_eq!(
        check_hook_name(&"x?".to_string(), &"x_".to_string()),
        Err(vec!["Field 'hook_name' must be filename safe! (Fixed version: x_)".to_string()])
    );
}

#[test]
fn set_plural_name_replaces_the_name() {
    let mut m = apt(true);
    m.set_plural_name("packages");
    assert_eq!(m.plural_name, "packages");
}
