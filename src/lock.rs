//! The advisory lock between processes: two files, a sentinel and the
//! owner's token. These functions decide; the caller reads and writes the
//! files.

use vstd::prelude::*;
use crate::text::{trim, trimmed};

verus! {

/// The lock as one process sees it.
#[derive(Clone, Copy, Debug, PartialEq, Eq, Structural)]
pub enum LockState {
    /// No sentinel file.
    Unlocked,
    /// The sentinel is there and the owner file holds this process's token.
    OnOwned,
    /// The sentinel is there and the owner is another process, or unknown.
    OnForeign,
}

/// Why the lock could not be taken.
#[derive(Clone, Copy, Debug, PartialEq, Eq, Structural)]
pub enum LockError {
    /// Another process holds the lock.
    Foreign,
}

/// The state for a sentinel that is present or not, the owner file's
/// content if it could be read, and this process's token.
pub open spec fn state_of(sentinel: bool, owner: Option<Seq<char>>, token: Seq<char>) -> LockState {
    if !sentinel {
        LockState::Unlocked
    } else if owner is Some && trimmed(owner->0) == trimmed(token) {
        LockState::OnOwned
    } else {
        LockState::OnForeign
    }
}

pub open spec fn option_view(o: Option<String>) -> Option<Seq<char>> {
    match o {
        Some(s) => Some(s@),
        None => None,
    }
}

/// Decides the lock state from what is on disk.
pub fn lock_state(sentinel: bool, owner: &Option<String>, token: &String) -> (r: LockState)
    ensures
        r == state_of(sentinel, option_view(*owner), token@),
{
    if !sentinel {
        return LockState::Unlocked;
    }
    match owner {
        Some(o) => {
            if trim(o.as_str()) == trim(token.as_str()) {
                LockState::OnOwned
            } else {
                LockState::OnForeign
            }
        },
        None => LockState::OnForeign,
    }
}

/// Taking the lock: `Ok(true)` if the files must be created (sentinel, and
/// owner file holding this process's token), `Ok(false)` if this process
/// already holds it, and an error if another process does.
pub fn lock_on(state: LockState) -> (r: Result<bool, LockError>)
    ensures
        state == LockState::Unlocked <==> r == Ok::<bool, LockError>(true),
        state == LockState::OnOwned <==> r == Ok::<bool, LockError>(false),
        state == LockState::OnForeign <==> r == Err::<bool, LockError>(LockError::Foreign),
{
    match state {
        LockState::Unlocked => Ok(true),
        LockState::OnOwned => Ok(false),
        LockState::OnForeign => Err(LockError::Foreign),
    }
}

/// Releasing the lock: whether the two files must be deleted. They are when
/// the sentinel is there and the lock is this process's own, or no owner is
/// recorded.
pub fn lock_off(sentinel: bool, owner: &Option<String>, token: &String) -> (r: bool)
    ensures
        r == (sentinel && (owner is None || state_of(sentinel, option_view(*owner), token@)
            == LockState::OnOwned)),
{
    if !sentinel {
        return false;
    }
    match owner {
        None => true,
        Some(_) => lock_state(sentinel, owner, token) == LockState::OnOwned,
    }
}

/// Whether another process holds the lock, or its owner is unknown: the
/// lock that stops this process.
pub fn is_lock_on(state: LockState) -> (r: bool)
    ensures
        r == (state == LockState::OnForeign),
{
    state == LockState::OnForeign
}

/// Whether the lock is held, by anyone: the sentinel file is there.
pub fn is_locked(state: LockState) -> (r: bool)
    ensures
        r == (state != LockState::Unlocked),
{
    state != LockState::Unlocked
}

/// The characters of nanoid's `SAFE` alphabet.
pub open spec fn is_token_char(c: char) -> bool {
    ('a' <= c && c <= 'z') || ('A' <= c && c <= 'Z') || ('0' <= c && c <= '9') || c == '_' || c == '-'
}

/// Relies on `nanoid::format` with `nanoid::rngs::default` and the `SAFE`
/// alphabet, as `nanoid!()` calls it: 21 random characters of that alphabet.
#[verifier::external_body]
fn random_id() -> (r: String)
    ensures
        r@.len() == 21,
        forall|i: int| 0 <= i < r@.len() ==> is_token_char(#[trigger] r@[i]),
{
    nanoid::format(nanoid::rngs::default, &nanoid::alphabet::SAFE, 21)
}

/// The identity of one process, drawn once at its start.
pub struct ProcessToken {
    pub id: String,
}

impl ProcessToken {
    /// A fresh token: two random ids joined by `_`.
    pub fn generate() -> (r: ProcessToken)
        ensures
            r.id@.len() == 43,
            r.id@[21] == '_',
            forall|i: int| 0 <= i < 43 ==> is_token_char(#[trigger] r.id@[i]),
    {
        let a = random_id();
        let b = random_id();
        let mut id = a;
        id.append("_");
        id.append(b.as_str());
        proof {
            reveal_strlit("_");
            assert forall|i: int| 0 <= i < 43 implies is_token_char(#[trigger] id@[i]) by {
                if i < 21 {
                    assert(id@[i] == a@[i]);
                } else if i > 21 {
                    assert(id@[i] == b@[i - 22]);
                }
            }
        }
        ProcessToken { id }
    }
}

} // verus!
