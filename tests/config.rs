use rebos::config::{unused_hooks, ConfigError, ConfigWarning};

fn strings(items: &[&str]) -> Vec<String> {
    items.iter().map(|s| s.to_string()).collect()
}

#[test]
fn invalid_manager_message_lists_every_problem() {
    let e = ConfigError::InvalidManager("system".to_string(), strings(&["one", "two"]));
    assert_eq!(e.msg(), "Manager 'system' is not configured properly! Errors:\n  one\n  two");
    assert_eq!(
        ConfigError::MissingMachine.msg(),
        "Missing configuration for machine! (Machine specific gen.toml...)"
    );
}

#[test]
fn unused_hook_message() {
    let w = ConfigWarning::UnusedHook("post_foo_add".to_string());
    assert_eq!(w.msg(), "Hook 'post_foo_add' is never used. (Doesn't match any manager 'hook_name' fields.)");
}

#[test]
fn unused_hooks_are_those_no_operation_runs() {
    let hook_names = strings(&["crates", "flatpaks"]);
    let present = strings(&["pre_build", "post_crates_add", "pre_flatpaks_upgrade", "pre_system_add", "post_build", "random"]);
    assert_eq!(unused_hooks(&hook_names, &present), strings(&["pre_system_add", "random"]));
}
