//! Checks of the user configuration, and the messages that report them.

use vstd::prelude::*;
use crate::text::{lemma_views_prefix, views};
use crate::manager::{Action, hook_file_name, hook_of};

verus! {

/// A problem that makes the configuration unusable.
pub enum ConfigError {
    /// A backend definition failed its checks: its name and the problems.
    InvalidManager(String, Vec<String>),
    /// The machine-specific description is missing.
    MissingMachine,
}

/// Something in the configuration that is likely a mistake.
pub enum ConfigWarning {
    /// A hook file that no operation runs.
    UnusedHook(String),
}

/// `errors`, each on a line of its own after two spaces.
pub open spec fn error_lines(errors: Seq<Seq<char>>) -> Seq<char>
    decreases errors.len(),
{
    if errors.len() == 0 {
        Seq::empty()
    } else {
        error_lines(errors.drop_last()) + "\n  "@ + errors.last()
    }
}

pub open spec fn config_error_message(e: ConfigError) -> Seq<char> {
    match e {
        ConfigError::InvalidManager(man, errors) => "Manager '"@ + man@
            + "' is not configured properly! Errors:"@ + error_lines(views(errors@)),
        ConfigError::MissingMachine => "Missing configuration for machine! (Machine specific gen.toml...)"@,
    }
}

pub open spec fn config_warning_message(w: ConfigWarning) -> Seq<char> {
    match w {
        ConfigWarning::UnusedHook(hook) => "Hook '"@ + hook@
            + "' is never used. (Doesn't match any manager 'hook_name' fields.)"@,
    }
}

impl ConfigError {
    /// The message that reports this error.
    pub fn msg(&self) -> (r: String)
        ensures
            r@ == config_error_message(*self),
    {
        match self {
            ConfigError::InvalidManager(man, errors) => {
                let mut message = String::from_str("Manager '");
                message.append(man.as_str());
                message.append("' is not configured properly! Errors:");
                proof {
                    reveal_strlit("Manager '");
                    reveal_strlit("' is not configured properly! Errors:");
                    reveal_strlit("\n  ");
                }
                let ghost head = message@;
                let mut i: usize = 0;
                while i < errors.len()
                    invariant
                        i <= errors.len(),
                        message@ == head + error_lines(views(errors@.subrange(0, i as int))),
                    decreases errors.len() - i,
                {
                    message.append("\n  ");
                    message.append(errors[i].as_str());
                    proof {
                        lemma_views_prefix(errors@, i as int);
                        assert(views(errors@.subrange(0, i + 1)).drop_last() == views(errors@.subrange(0, i as int)));
                    }
                    assert(message@ =~= head + error_lines(views(errors@.subrange(0, i + 1))));
                    i = i + 1;
                }
                assert(errors@.subrange(0, errors@.len() as int) =~= errors@);
                message
            },
            ConfigError::MissingMachine => {
                proof {
                    reveal_strlit("Missing configuration for machine! (Machine specific gen.toml...)");
                }
                String::from_str("Missing configuration for machine! (Machine specific gen.toml...)")
            },
        }
    }
}

impl ConfigWarning {
    /// The message that reports this warning.
    pub fn msg(&self) -> (r: String)
        ensures
            r@ == config_warning_message(*self),
    {
        match self {
            ConfigWarning::UnusedHook(hook) => {
                let mut message = String::from_str("Hook '");
                message.append(hook.as_str());
                message.append("' is never used. (Doesn't match any manager 'hook_name' fields.)");
                proof {
                    reveal_strlit("Hook '");
                    reveal_strlit("' is never used. (Doesn't match any manager 'hook_name' fields.)");
                }
                message
            },
        }
    }
}

/// The hooks that some operation runs, for backends with the given hook
/// names: `pre_build`, `post_build`, and `pre`/`post` around each backend
/// action.
pub open spec fn is_known_hook(hook_names: Seq<Seq<char>>, h: Seq<char>) -> bool {
    h == "pre_build"@ || h == "post_build"@ || exists|i: int, st: Seq<char>, a: Action|
        0 <= i < hook_names.len() && (st == "pre"@ || st == "post"@) && h
            == #[trigger] hook_of(st, hook_names[i], a)
}

/// The hook files among `present` that no operation would ever run.
pub fn unused_hooks(hook_names: &Vec<String>, present: &Vec<String>) -> (r: Vec<String>)
    ensures
        views(r@) == views(present@).filter(|h: Seq<char>| !is_known_hook(views(hook_names@), h)),
{
    let ghost pred = |h: Seq<char>| !is_known_hook(views(hook_names@), h);
    let mut out: Vec<String> = Vec::new();
    let mut i: usize = 0;
    while i < present.len()
        invariant
            i <= present.len(),
            pred == (|h: Seq<char>| !is_known_hook(views(hook_names@), h)),
            views(out@) == views(present@.subrange(0, i as int)).filter(pred),
        decreases present.len() - i,
    {
        let ghost prefix = views(present@.subrange(0, i as int));
        let ghost next = views(present@.subrange(0, i + 1));
        proof {
            lemma_views_prefix(present@, i as int);
        }
        let known = known_hook(hook_names, &present[i]);
        if !known {
            let ghost prev = out@;
            out.push(present[i].clone());
            proof {
                reveal(Seq::filter);
                assert(next.drop_last() =~= prefix);
                assert(next.filter(pred) == prefix.filter(pred).push(next.last()));
                assert(views(out@) =~= views(prev).push(next.last()));
            }
        } else {
            proof {
                reveal(Seq::filter);
                assert(next.drop_last() =~= prefix);
                assert(next.filter(pred) == prefix.filter(pred));
            }
        }
        i = i + 1;
    }
    assert(present@.subrange(0, present@.len() as int) =~= present@);
    out
}

/// Whether some operation runs a hook named `h`.
fn known_hook(hook_names: &Vec<String>, h: &String) -> (r: bool)
    ensures
        r == is_known_hook(views(hook_names@), h@),
{
    proof {
        reveal_strlit("pre_build");
        reveal_strlit("post_build");
        reveal_strlit("pre");
        reveal_strlit("post");
    }
    if String::from_str("pre_build") == *h {
        return true;
    }
    if String::from_str("post_build") == *h {
        return true;
    }
    let actions = [Action::Add, Action::Remove, Action::Sync, Action::Upgrade];
    assert(actions@ =~= seq![Action::Add, Action::Remove, Action::Sync, Action::Upgrade]);
    let mut i: usize = 0;
    while i < hook_names.len()
        invariant
            i <= hook_names.len(),
            actions@ == seq![Action::Add, Action::Remove, Action::Sync, Action::Upgrade],
            h@ != "pre_build"@ && h@ != "post_build"@,
            forall|x: int, st: Seq<char>, a: Action|
                0 <= x < i && (st == "pre"@ || st == "post"@) ==> h@ != #[trigger] hook_of(st, views(hook_names@)[x], a),
        decreases hook_names.len() - i,
    {
        let mut j: usize = 0;
        while j < 4
            invariant
                i < hook_names.len(),
                j <= 4,
                forall|x: int, st: Seq<char>, a: Action|
                    0 <= x < i && (st == "pre"@ || st == "post"@) ==> h@ != #[trigger] hook_of(st, views(hook_names@)[x], a),
                forall|y: int, st: Seq<char>|
                    0 <= y < j && (st == "pre"@ || st == "post"@) ==> h@ != #[trigger] hook_of(st, views(hook_names@)[i as int], actions@[y]),
                actions@ == seq![Action::Add, Action::Remove, Action::Sync, Action::Upgrade],
            decreases 4 - j,
        {
            let a = actions[j];
            let pre = hook_file_name("pre", &hook_names[i], a);
            let post = hook_file_name("post", &hook_names[i], a);
            if pre == *h || post == *h {
                proof {
                    if pre@ == h@ {
                        assert(h@ == hook_of("pre"@, views(hook_names@)[i as int], a));
                    } else {
                        assert(h@ == hook_of("post"@, views(hook_names@)[i as int], a));
                    }
                }
                return true;
            }
            j = j + 1;
        }
        proof {
            assert forall|x: int, st: Seq<char>, a: Action|
                0 <= x < i + 1 && (st == "pre"@ || st == "post"@) implies h@ != #[trigger] hook_of(st, views(hook_names@)[x], a) by {
                if x == i {
                    let y: int = match a {
                        Action::Add => 0,
                        Action::Remove => 1,
                        Action::Sync => 2,
                        Action::Upgrade => 3,
                    };
                    assert(actions@[y] == a);
                }
            }
        }
        i = i + 1;
    }
    false
}

} // verus!
