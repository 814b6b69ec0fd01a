//! Decisions of the update helper that replaces the application files.
use vstd::prelude::*;

use crate::text::{chars_of, eq_ignore_ascii_case, eq_ignore_case, owned, push_str};

verus! {

/// Value following `key` on the command line: the argument after the first occurrence of
/// `key`. Errors `Missing <key>` and `Missing value for <key>`.
pub fn arg_value(args: &Vec<String>, key: &str) -> (r: Result<String, String>)
    ensures
        (forall|i: int| 0 <= i < args@.len() ==> (#[trigger] args@[i])@ != key@) ==> (r matches Err(
            m,
        ) && m@ == "Missing "@ + key@),
        forall|i: int|
            0 <= i < args@.len() && (#[trigger] args@[i])@ == key@ && (forall|j: int|
                0 <= j < i ==> args@[j]@ != key@) ==> if i + 1 < args@.len() {
                r matches Ok(v) && v@ == args@[i + 1]@
            } else {
                r matches Err(m) && m@ == "Missing value for "@ + key@
            },
{
    let k = owned(key);
    let mut i: usize = 0;
    while i < args.len()
        invariant
            i <= args@.len(),
            k@ == key@,
            forall|j: int| 0 <= j < i ==> (#[trigger] args@[j])@ != key@,
        decreases args.len() - i,
    {
        if args[i] == k {
            if i + 1 < args.len() {
                return Ok(owned(args[i + 1].as_str()));
            }
            let mut m = owned("Missing value for ");
            push_str(&mut m, key);
            return Err(m);
        }
        i += 1;
    }
    let mut m = owned("Missing ");
    push_str(&mut m, key);
    Err(m)
}

/// Staged files under the top-level `data` folder (any ASCII case) are never installed.
pub fn is_preserved_component(first_component: &str) -> (b: bool)
    ensures
        b == eq_ignore_case(first_component@, "data"@),
{
    let c = chars_of(first_component);
    eq_ignore_ascii_case(c.as_slice(), "data")
}

/// One step of undoing a partial update.
#[derive(Debug, Clone, Copy, PartialEq, Eq, Structural)]
pub enum RollbackStep {
    /// Copy the backed-up file over the installed one (installed position).
    Restore(usize),
    /// Remove the file that did not exist before (installed position).
    Remove(usize),
}

/// How the installed file at position `i` is undone.
pub open spec fn undo_step(backed_up: Seq<bool>, i: int) -> RollbackStep {
    if backed_up[i] {
        RollbackStep::Restore(i as usize)
    } else {
        RollbackStep::Remove(i as usize)
    }
}

/// `plan` undoes the installed files newest first, one step per file.
pub open spec fn is_rollback_plan(plan: Seq<RollbackStep>, backed_up: Seq<bool>) -> bool {
    &&& plan.len() == backed_up.len()
    &&& forall|k: int|
        0 <= k < plan.len() ==> #[trigger] plan[k] == undo_step(backed_up, backed_up.len() - 1 - k)
}

/// Undo plan for the installed files, newest first: files that existed before are restored
/// from the backup, new files are removed.
pub fn rollback_plan(backed_up: &Vec<bool>) -> (plan: Vec<RollbackStep>)
    ensures
        is_rollback_plan(plan@, backed_up@),
{
    let mut plan: Vec<RollbackStep> = Vec::new();
    let mut i: usize = backed_up.len();
    while i > 0
        invariant
            i <= backed_up@.len(),
            plan@.len() == backed_up@.len() - i,
            forall|k: int|
                0 <= k < plan@.len() ==> #[trigger] plan@[k] == undo_step(
                    backed_up@,
                    backed_up@.len() - 1 - k,
                ),
        decreases i,
    {
        i -= 1;
        if backed_up[i] {
            plan.push(RollbackStep::Restore(i));
        } else {
            plan.push(RollbackStep::Remove(i));
        }
    }
    plan
}

/// The installed file a step touches.
pub open spec fn step_target(s: RollbackStep) -> int {
    match s {
        RollbackStep::Restore(i) => i as int,
        RollbackStep::Remove(i) => i as int,
    }
}

/// What a step leaves in its file: the backed-up contents, or no file.
pub open spec fn step_result(s: RollbackStep, backup: Seq<Option<Seq<u8>>>) -> Option<Seq<u8>> {
    match s {
        RollbackStep::Restore(i) => backup[i as int],
        RollbackStep::Remove(_) => None,
    }
}

/// The installed files (their contents by position, `None` for an absent file) after the steps
/// of `plan`, in order, with `backup` holding the saved contents.
pub open spec fn apply_rollback(
    files: Seq<Option<Seq<u8>>>,
    plan: Seq<RollbackStep>,
    backup: Seq<Option<Seq<u8>>>,
) -> Seq<Option<Seq<u8>>>
    decreases plan.len(),
{
    if plan.len() == 0 {
        files
    } else {
        apply_rollback(
            files.update(step_target(plan[0]), step_result(plan[0], backup)),
            plan.drop_first(),
            backup,
        )
    }
}

proof fn lemma_apply_rollback_at(
    files: Seq<Option<Seq<u8>>>,
    plan: Seq<RollbackStep>,
    backup: Seq<Option<Seq<u8>>>,
    j: int,
)
    requires
        0 <= j < files.len(),
        forall|k: int| 0 <= k < plan.len() ==> 0 <= #[trigger] step_target(plan[k]) < files.len(),
    ensures
        apply_rollback(files, plan, backup).len() == files.len(),
        (forall|k: int| 0 <= k < plan.len() ==> #[trigger] step_target(plan[k]) != j)
            ==> apply_rollback(files, plan, backup)[j] == files[j],
        forall|k: int|
            0 <= k < plan.len() && #[trigger] step_target(plan[k]) == j && (forall|l: int|
                0 <= l < plan.len() && l != k ==> step_target(plan[l]) != j)
                ==> apply_rollback(files, plan, backup)[j] == step_result(plan[k], backup),
    decreases plan.len(),
{
    if plan.len() > 0 {
        let s = plan[0];
        let rest = plan.drop_first();
        let next = files.update(step_target(s), step_result(s, backup));
        assert forall|k: int| 0 <= k < rest.len() implies 0 <= #[trigger] step_target(rest[k])
            < next.len() by {
            assert(rest[k] == plan[k + 1]);
        }
        lemma_apply_rollback_at(next, rest, backup, j);
        if forall|k: int| 0 <= k < plan.len() ==> #[trigger] step_target(plan[k]) != j {
            assert(step_target(plan[0]) != j);
            assert forall|k: int| 0 <= k < rest.len() implies #[trigger] step_target(rest[k]) != j by {
                assert(rest[k] == plan[k + 1]);
            }
        }
        assert forall|k: int|
            0 <= k < plan.len() && #[trigger] step_target(plan[k]) == j && (forall|l: int|
                0 <= l < plan.len() && l != k ==> step_target(plan[l]) != j) implies apply_rollback(
            files,
            plan,
            backup,
        )[j] == step_result(plan[k], backup) by {
            if k == 0 {
                assert forall|l: int| 0 <= l < rest.len() implies #[trigger] step_target(rest[l]) != j by {
                    assert(rest[l] == plan[l + 1]);
                }
            } else {
                assert(step_target(plan[0]) != j);
                assert(rest[k - 1] == plan[k]);
                assert forall|l: int| 0 <= l < rest.len() && l != k - 1 implies step_target(rest[l]) != j by {
                    assert(rest[l] == plan[l + 1]);
                }
            }
        }
    }
}

/// Undoing a partial update gives every installed file back its state from before the update:
/// with the backup holding the former contents of the files that existed (and only those), the
/// rollback plan turns any installed contents back into `before`. (A plan is made from a `Vec`,
/// so it has at most `usize::MAX` steps.)
pub proof fn lemma_rollback_restores(
    backed_up: Seq<bool>,
    plan: Seq<RollbackStep>,
    before: Seq<Option<Seq<u8>>>,
    installed: Seq<Option<Seq<u8>>>,
)
    requires
        backed_up.len() <= usize::MAX,
        is_rollback_plan(plan, backed_up),
        before.len() == backed_up.len(),
        installed.len() == backed_up.len(),
        forall|i: int| 0 <= i < backed_up.len() ==> (backed_up[i] <==> (#[trigger] before[i]) is Some),
    ensures
        apply_rollback(installed, plan, before) == before,
{
    let n: int = backed_up.len() as int;
    assert forall|k: int| 0 <= k < plan.len() implies step_target(#[trigger] plan[k]) == n - 1 - k by {
        assert(plan[k] == undo_step(backed_up, n - 1 - k));
    }
    assert forall|k: int| 0 <= k < plan.len() implies 0 <= #[trigger] step_target(plan[k]) < installed.len() by {
        assert(step_target(plan[k]) == n - 1 - k);
    }
    let r = apply_rollback(installed, plan, before);
    assert forall|j: int| 0 <= j < n implies r[j] == before[j] by {
        lemma_apply_rollback_at(installed, plan, before, j);
        let k: int = n - 1 - j;
        assert(step_target(plan[k]) == j);
        assert forall|l: int| 0 <= l < plan.len() && l != k implies step_target(plan[l]) != j by {
            assert(step_target(plan[l]) == n - 1 - l);
        }
        assert(plan[k] == undo_step(backed_up, j));
    }
    if n > 0 {
        lemma_apply_rollback_at(installed, plan, before, 0);
    } else {
        assert(plan.len() == 0);
    }
    assert(r =~= before);
}

/// Where applying the staged file at the next position failed.
#[derive(Debug, Clone, Copy, PartialEq, Eq, Structural)]
pub enum ApplyFault {
    /// Before its installed copy was touched: finding its relative path, creating the backup
    /// folder or copying the backup.
    Untouched,
    /// After its backup (if any) was made, while replacing it; says whether the file existed
    /// before the update.
    Touched(bool),
}

/// Undo plan after a failure while applying the file at position `backed_up.len()`: the files
/// installed before it are undone newest first, and a file that may have been changed is undone
/// first of all (restored from its backup, or removed when it is new).
pub fn failure_rollback(backed_up: &Vec<bool>, fault: ApplyFault) -> (plan: Vec<RollbackStep>)
    ensures
        fault is Untouched ==> is_rollback_plan(plan@, backed_up@),
        fault matches ApplyFault::Touched(existed) ==> is_rollback_plan(
            plan@,
            backed_up@.push(existed),
        ),
{
    let mut all: Vec<bool> = Vec::new();
    let mut i: usize = 0;
    while i < backed_up.len()
        invariant
            i <= backed_up@.len(),
            all@ == backed_up@.take(i as int),
        decreases backed_up.len() - i,
    {
        all.push(backed_up[i]);
        assert(backed_up@.take(i + 1) =~= backed_up@.take(i as int).push(backed_up@[i as int]));
        i += 1;
    }
    assert(all@ =~= backed_up@);
    if let ApplyFault::Touched(existed) = fault {
        all.push(existed);
    }
    rollback_plan(&all)
}

/// A failed update leaves every file it reached as it was before: the files installed earlier
/// and the file being applied when the step failed. `before` holds their former contents (the
/// failing file last), which the backup holds for the files that existed; a file not yet
/// touched still has its former contents.
pub proof fn lemma_failure_rollback_restores(
    backed_up: Seq<bool>,
    fault: ApplyFault,
    plan: Seq<RollbackStep>,
    before: Seq<Option<Seq<u8>>>,
    current: Seq<Option<Seq<u8>>>,
)
    requires
        backed_up.len() < usize::MAX,
        before.len() == backed_up.len() + 1,
        current.len() == before.len(),
        forall|i: int| 0 <= i < backed_up.len() ==> (backed_up[i] <==> (#[trigger] before[i]) is Some),
        fault is Untouched ==> current[backed_up.len() as int] == before[backed_up.len() as int]
            && is_rollback_plan(plan, backed_up),
        fault matches ApplyFault::Touched(existed) ==> (existed <==> before[backed_up.len() as int]
            is Some) && is_rollback_plan(plan, backed_up.push(existed)),
    ensures
        apply_rollback(current, plan, before) == before,
{
    let n: int = backed_up.len() as int;
    match fault {
        ApplyFault::Touched(existed) => {
            let all = backed_up.push(existed);
            assert forall|i: int| 0 <= i < all.len() implies (all[i] <==> (#[trigger] before[i]) is Some) by {
                if i < n {
                    assert(all[i] == backed_up[i]);
                }
            }
            lemma_rollback_restores(all, plan, before, current);
        },
        ApplyFault::Untouched => {
            assert forall|k: int| 0 <= k < plan.len() implies step_target(#[trigger] plan[k]) == n - 1 - k by {
                assert(plan[k] == undo_step(backed_up, n - 1 - k));
            }
            assert forall|k: int| 0 <= k < plan.len() implies 0 <= #[trigger] step_target(plan[k]) < current.len() by {
                assert(step_target(plan[k]) == n - 1 - k);
            }
            let r = apply_rollback(current, plan, before);
            lemma_apply_rollback_at(current, plan, before, n);
            assert forall|j: int| 0 <= j < before.len() implies r[j] == before[j] by {
                lemma_apply_rollback_at(current, plan, before, j);
                if j < n {
                    let k: int = n - 1 - j;
                    assert(step_target(plan[k]) == j);
                    assert forall|l: int| 0 <= l < plan.len() && l != k implies step_target(plan[l]) != j by {
                        assert(step_target(plan[l]) == n - 1 - l);
                    }
                    assert(plan[k] == undo_step(backed_up, j));
                } else {
                    assert forall|l: int| 0 <= l < plan.len() implies #[trigger] step_target(plan[l]) != j by {
                        assert(step_target(plan[l]) == n - 1 - l);
                    }
                }
            }
            assert(r =~= before);
        },
    }
}

} // verus!
