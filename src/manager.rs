//! Package-manager backends: command templates and the steps that carry out
//! an install, a removal, a sync or an upgrade, bracketed by hooks.

use vstd::prelude::*;
use crate::text::{blank, is_blank, joined, replaced, sed, string_vec_to_string, views};

verus! {

/// How a backend takes its items.
pub struct ManagerConfig {
    /// Whether one invocation may take many items, joined with spaces.
    pub many_args: bool,
}

/// A backend definition.
pub struct Manager {
    /// Install command; `#:?` stands for the items.
    pub add: String,
    /// Removal command; `#:?` stands for the items.
    pub remove: String,
    /// Optional command that refreshes the backend's sources.
    pub sync: Option<String>,
    /// Optional command that upgrades everything the backend installed.
    pub upgrade: Option<String>,
    pub config: ManagerConfig,
    /// Names this backend's hooks; must be safe as a file name.
    pub hook_name: String,
    /// How the backend's items are called in messages.
    pub plural_name: String,
}

/// One thing to do on the host.
#[derive(Debug)]
pub enum Step {
    /// Run the hook of this name, if such a hook exists; a failure fails the
    /// operation.
    Hook(String),
    /// Run this shell command; a failure fails the operation.
    Run(String),
}

/// The mathematical value of a step.
pub enum StepView {
    Hook(Seq<char>),
    Run(Seq<char>),
}

/// The operations a backend offers.
#[derive(Clone, Copy, Debug, PartialEq, Eq, Structural)]
pub enum Action {
    Add,
    Remove,
    Sync,
    Upgrade,
}

pub open spec fn step_view(s: Step) -> StepView {
    match s {
        Step::Hook(h) => StepView::Hook(h@),
        Step::Run(c) => StepView::Run(c@),
    }
}

pub open spec fn step_views(s: Seq<Step>) -> Seq<StepView> {
    s.map_values(|x: Step| step_view(x))
}

/// The marker in a command template that stands for the items.
pub open spec fn marker() -> Seq<char> {
    "#:?"@
}

pub open spec fn action_word(a: Action) -> Seq<char> {
    match a {
        Action::Add => "add"@,
        Action::Remove => "remove"@,
        Action::Sync => "sync"@,
        Action::Upgrade => "upgrade"@,
    }
}

/// The name of the hook run at `stage` (`pre` or `post`) around `action`.
pub open spec fn hook_of(stage: Seq<char>, hook_name: Seq<char>, action: Action) -> Seq<char> {
    stage + "_"@ + hook_name + "_"@ + action_word(action)
}

/// The commands that install or remove `items` with `template`.
pub open spec fn item_runs(template: Seq<char>, items: Seq<Seq<char>>, many: bool) -> Seq<StepView> {
    if many {
        seq![StepView::Run(replaced(template, marker(), joined(items, " "@)))]
    } else {
        items.filter(|i: Seq<char>| !is_blank(i)).map_values(
            |i: Seq<char>| StepView::Run(replaced(template, marker(), i)),
        )
    }
}

/// The steps of `action` with `runs` as its commands.
pub open spec fn bracketed(hook_name: Seq<char>, action: Action, runs: Seq<StepView>) -> Seq<StepView> {
    seq![StepView::Hook(hook_of("pre"@, hook_name, action))] + runs + seq![
        StepView::Hook(hook_of("post"@, hook_name, action)),
    ]
}

/// Whether every item is blank (true of no items at all).
pub open spec fn all_blank(items: Seq<Seq<char>>) -> bool {
    forall|i: int| 0 <= i < items.len() ==> is_blank(#[trigger] items[i])
}

/// The message that reports a hook name that is not safe as a file name.
pub open spec fn unsafe_hook_message(fixed: Seq<char>) -> Seq<char> {
    "Field 'hook_name' must be filename safe! (Fixed version: "@ + fixed + ")"@
}

/// What `fspp::filename_safe_string` makes of a name.
pub uninterp spec fn filename_safe_of(s: Seq<char>) -> Seq<char>;

/// Relies on `fspp::filename_safe_string` (which calls `filenamify`): the
/// name rewritten so that it is safe as a file name, a function of the name
/// alone.
#[verifier::external_body]
fn filename_safe(s: &String) -> (r: String)
    ensures
        r@ == filename_safe_of(s@),
{
    fspp::filename_safe_string(s)
}

/// The name of the hook run at `stage` around `action` of the backend whose
/// hooks are named `hook_name`.
pub fn hook_file_name(stage: &str, hook_name: &String, action: Action) -> (r: String)
    ensures
        r@ == hook_of(stage@, hook_name@, action),
{
    let mut h = String::from_str(stage);
    h.append("_");
    h.append(hook_name.as_str());
    h.append("_");
    let word = match action {
        Action::Add => "add",
        Action::Remove => "remove",
        Action::Sync => "sync",
        Action::Upgrade => "upgrade",
    };
    h.append(word);
    proof {
        reveal_strlit("add");
        reveal_strlit("remove");
        reveal_strlit("sync");
        reveal_strlit("upgrade");
        reveal_strlit("_");
    }
    assert(h@ =~= hook_of(stage@, hook_name@, action));
    h
}

fn hook_step(stage: &str, hook_name: &String, action: Action) -> (r: Step)
    ensures
        step_view(r) == StepView::Hook(hook_of(stage@, hook_name@, action)),
{
    Step::Hook(hook_file_name(stage, hook_name, action))
}

fn push_step(steps: &mut Vec<Step>, s: Step)
    ensures
        step_views(final(steps)@) == step_views(old(steps)@).push(step_view(s)),
{
    steps.push(s);
    assert(step_views(steps@) =~= step_views(old(steps)@).push(step_view(s)));
}

impl Manager {
    /// The commands for `items`, without hooks.
    fn runs(&self, template: &String, items: &Vec<String>) -> (r: Vec<Step>)
        ensures
            step_views(r@) == item_runs(template@, views(items@), self.config.many_args),
    {
        let marker_str = "#:?";
        proof {
            reveal_strlit("#:?");
            reveal_strlit(" ");
        }
        let mut steps: Vec<Step> = Vec::new();
        if self.config.many_args {
            let all = string_vec_to_string(items, " ");
            let cmd = sed(template.as_str(), marker_str, all.as_str());
            push_step(&mut steps, Step::Run(cmd));
            assert(step_views(steps@) =~= item_runs(template@, views(items@), true));
            return steps;
        }
        let ghost pred = |i: Seq<char>| !is_blank(i);
        let ghost f = |i: Seq<char>| StepView::Run(replaced(template@, marker(), i));
        let mut k: usize = 0;
        while k < items.len()
            invariant
                k <= items.len(),
                marker_str@ == marker(),
                pred == (|i: Seq<char>| !is_blank(i)),
                f == (|i: Seq<char>| StepView::Run(replaced(template@, marker(), i))),
                step_views(steps@) == views(items@.subrange(0, k as int)).filter(pred).map_values(f),
            decreases items.len() - k,
        {
            let ghost prefix = views(items@.subrange(0, k as int));
            let ghost next = views(items@.subrange(0, k + 1));
            proof {
                assert(next.drop_last() =~= prefix);
                assert(next.last() == items@[k as int]@);
            }
            if !blank(items[k].as_str()) {
                let cmd = sed(template.as_str(), marker_str, items[k].as_str());
                push_step(&mut steps, Step::Run(cmd));
                proof {
                    reveal(Seq::filter);
                    assert(next.filter(pred) == prefix.filter(pred).push(next.last()));
                    assert(next.filter(pred).map_values(f) =~= prefix.filter(pred).map_values(f).push(
                        f(next.last()),
                    ));
                }
            } else {
                proof {
                    reveal(Seq::filter);
                    assert(next.filter(pred) == prefix.filter(pred));
                }
            }
            k = k + 1;
        }
        assert(items@.subrange(0, items@.len() as int) =~= items@);
        steps
    }

    fn item_steps(&self, template: &String, items: &Vec<String>, action: Action) -> (r: Vec<Step>)
        ensures
            all_blank(views(items@)) ==> r@.len() == 0,
            !all_blank(views(items@)) ==> step_views(r@) == bracketed(
                self.hook_name@,
                action,
                item_runs(template@, views(items@), self.config.many_args),
            ),
    {
        let mut any = false;
        let mut k: usize = 0;
        while k < items.len()
            invariant
                k <= items.len(),
                !any ==> forall|j: int| 0 <= j < k ==> is_blank(#[trigger] views(items@)[j]),
                any ==> !all_blank(views(items@)),
            decreases items.len() - k,
        {
            if !blank(items[k].as_str()) {
                any = true;
                assert(!is_blank(views(items@)[k as int]));
            }
            k = k + 1;
        }
        let mut steps: Vec<Step> = Vec::new();
        if !any {
            return steps;
        }
        push_step(&mut steps, hook_step("pre", &self.hook_name, action));
        let runs = self.runs(template, items);
        let mut k: usize = 0;
        let ghost head = step_views(steps@);
        let mut runs = runs;
        let ghost all_runs = step_views(runs@);
        while k < runs.len()
            invariant
                k <= runs.len(),
                step_views(runs@) == all_runs,
                step_views(steps@) == head + all_runs.subrange(0, k as int),
            decreases runs.len() - k,
        {
            let ghost prev = steps@;
            let s = match &runs[k] {
                Step::Hook(h) => Step::Hook(h.clone()),
                Step::Run(c) => Step::Run(c.clone()),
            };
            assert(step_view(s) == all_runs[k as int]);
            push_step(&mut steps, s);
            assert(step_views(steps@) =~= head + all_runs.subrange(0, k + 1));
            k = k + 1;
        }
        push_step(&mut steps, hook_step("post", &self.hook_name, action));
        proof {
            reveal_strlit("pre");
            reveal_strlit("post");
            assert(all_runs.subrange(0, all_runs.len() as int) =~= all_runs);
            assert(step_views(steps@) =~= bracketed(
                self.hook_name@,
                action,
                item_runs(template@, views(items@), self.config.many_args),
            ));
        }
        steps
    }

    /// The steps that install `items`: nothing if every item is blank, else
    /// the `pre` hook, the install commands and the `post` hook.
    pub fn install(&self, items: &Vec<String>) -> (r: Vec<Step>)
        ensures
            all_blank(views(items@)) ==> r@.len() == 0,
            !all_blank(views(items@)) ==> step_views(r@) == bracketed(
                self.hook_name@,
                Action::Add,
                item_runs(self.add@, views(items@), self.config.many_args),
            ),
    {
        self.item_steps(&self.add, items, Action::Add)
    }

    /// The steps that remove `items`: nothing if every item is blank, else
    /// the `pre` hook, the removal commands and the `post` hook.
    pub fn uninstall(&self, items: &Vec<String>) -> (r: Vec<Step>)
        ensures
            all_blank(views(items@)) ==> r@.len() == 0,
            !all_blank(views(items@)) ==> step_views(r@) == bracketed(
                self.hook_name@,
                Action::Remove,
                item_runs(self.remove@, views(items@), self.config.many_args),
            ),
    {
        self.item_steps(&self.remove, items, Action::Remove)
    }

    fn command_steps(&self, command: &Option<String>, action: Action) -> (r: Vec<Step>)
        ensures
            step_views(r@) == bracketed(
                self.hook_name@,
                action,
                match command {
                    Some(c) => seq![StepView::Run(c@)],
                    None => Seq::empty(),
                },
            ),
    {
        let mut steps: Vec<Step> = Vec::new();
        push_step(&mut steps, hook_step("pre", &self.hook_name, action));
        match command {
            Some(c) => push_step(&mut steps, Step::Run(c.clone())),
            None => {},
        }
        push_step(&mut steps, hook_step("post", &self.hook_name, action));
        proof {
            reveal_strlit("pre");
            reveal_strlit("post");
        }
        assert(step_views(steps@) =~= bracketed(
            self.hook_name@,
            action,
            match command {
                Some(c) => seq![StepView::Run(c@)],
                None => Seq::empty(),
            },
        ));
        steps
    }

    /// The steps of a sync: the hooks, and the sync command if there is one.
    pub fn sync(&self) -> (r: Vec<Step>)
        ensures
            step_views(r@) == bracketed(
                self.hook_name@,
                Action::Sync,
                match self.sync {
                    Some(c) => seq![StepView::Run(c@)],
                    None => Seq::empty(),
                },
            ),
    {
        self.command_steps(&self.sync, Action::Sync)
    }

    /// The steps of an upgrade: the hooks, and the upgrade command if there
    /// is one.
    pub fn upgrade(&self) -> (r: Vec<Step>)
        ensures
            step_views(r@) == bracketed(
                self.hook_name@,
                Action::Upgrade,
                match self.upgrade {
                    Some(c) => seq![StepView::Run(c@)],
                    None => Seq::empty(),
                },
            ),
    {
        self.command_steps(&self.upgrade, Action::Upgrade)
    }

    /// Sets the name under which the backend's items are reported.
    pub fn set_plural_name(&mut self, pn: &str)
        ensures
            final(self).plural_name@ == pn@,
            final(self).add == old(self).add,
            final(self).remove == old(self).remove,
            final(self).sync == old(self).sync,
            final(self).upgrade == old(self).upgrade,
            final(self).config == old(self).config,
            final(self).hook_name == old(self).hook_name,
    {
        self.plural_name = String::from_str(pn);
    }

    /// Validates the definition; every problem found is reported.
    pub fn check_config(&self) -> (r: Result<(), Vec<String>>)
        ensures
            r is Ok <==> self.hook_name@ == filename_safe_of(self.hook_name@),
            r is Err ==> views(r->Err_0@) == seq![unsafe_hook_message(filename_safe_of(self.hook_name@))],
    {
        let fixed = filename_safe(&self.hook_name);
        check_hook_name(&self.hook_name, &fixed)
    }
}

/// Checks `hook_name` against `fixed`, the file-name-safe form of it.
pub fn check_hook_name(hook_name: &String, fixed: &String) -> (r: Result<(), Vec<String>>)
    ensures
        r is Ok <==> hook_name@ == fixed@,
        r is Err ==> views(r->Err_0@) == seq![unsafe_hook_message(fixed@)],
{
    if *hook_name == *fixed {
        return Ok(());
    }
    let mut message = String::from_str("Field 'hook_name' must be filename safe! (Fixed version: ");
    message.append(fixed.as_str());
    message.append(")");
    proof {
        reveal_strlit("Field 'hook_name' must be filename safe! (Fixed version: ");
        reveal_strlit(")");
    }
    let mut errors: Vec<String> = Vec::new();
    errors.push(message);
    assert(views(errors@) =~= seq![unsafe_hook_message(fixed@)]);
    Err(errors)
}

} // verus!
