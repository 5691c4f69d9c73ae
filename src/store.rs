//! The generation store: the numbered generations and the `current` and
//! `built` pointers.
//!
//! A `Store` is a model of what is on disk. Every operation that changes it
//! appends to its journal the disk operations that make the same change, so
//! that the caller can carry them out in order.

use vstd::prelude::*;
use crate::generation::{Generation, GenerationView};
use crate::text::{decimal, decimal_of};

verus! {

/// Why a store operation was refused.
#[derive(Clone, Copy, Debug, PartialEq, Eq, Structural)]
pub enum StoreError {
    /// A generation number outside `1..=latest`.
    OutOfRange,
    /// The store holds no generation.
    NoGenerations,
    /// No generation is marked current.
    NoCurrent,
    /// No generation has been built.
    NotBuilt,
    /// The generation does not exist.
    NotFound,
    /// The target number is already taken.
    Occupied,
    /// No number is left for a new generation.
    Exhausted,
}

/// One change to the store on disk.
#[derive(Clone, Copy, Debug, PartialEq, Eq, Structural)]
pub enum StoreOp {
    /// Create the record of a new generation with this number.
    Create(usize),
    /// Remove the record of this generation.
    Delete(usize),
    /// Renumber a generation record: from, to.
    Move(usize, usize),
    /// Write the `current` pointer.
    WriteCurrent(usize),
    /// Write the `built` pointer.
    WriteBuilt(usize),
}

/// What `delete` did.
#[derive(Clone, Copy, Debug, PartialEq, Eq, Structural)]
pub enum Deletion {
    /// The generation was removed.
    Deleted,
    /// The generation is current, so it stays.
    ProtectedCurrent,
    /// The generation is the built one, so it stays.
    ProtectedBuilt,
}

/// The store as the disk holds it.
pub struct DiskState {
    pub gens: Set<usize>,
    pub current: Option<usize>,
    pub built: Option<usize>,
}

/// The effect of one disk operation.
pub open spec fn apply(d: DiskState, op: StoreOp) -> DiskState {
    match op {
        StoreOp::Create(n) => DiskState { gens: d.gens.insert(n), ..d },
        StoreOp::Delete(n) => DiskState { gens: d.gens.remove(n), ..d },
        StoreOp::Move(a, b) => DiskState { gens: d.gens.remove(a).insert(b), ..d },
        StoreOp::WriteCurrent(n) => DiskState { current: Some(n), ..d },
        StoreOp::WriteBuilt(n) => DiskState { built: Some(n), ..d },
    }
}

/// The effect of a sequence of disk operations, carried out in order.
pub open spec fn replay(d: DiskState, ops: Seq<StoreOp>) -> DiskState
    decreases ops.len(),
{
    if ops.len() == 0 {
        d
    } else {
        apply(replay(d, ops.drop_last()), ops.last())
    }
}

/// Strictly ascending positive numbers.
pub open spec fn ascending(s: Seq<usize>) -> bool {
    &&& forall|i: int, j: int| 0 <= i < j < s.len() ==> s[i] < s[j]
    &&& forall|i: int| 0 <= i < s.len() ==> s[i] >= 1
}

/// The largest number of `s`, or 0 if it is empty.
pub open spec fn latest_of(s: Seq<usize>) -> usize {
    if s.len() == 0 {
        0
    } else {
        s.last()
    }
}

/// The generation numbers and the two pointers, with the disk operations
/// that have been decided but not yet carried out.
pub struct Store {
    /// The existing generation numbers, ascending.
    pub numbers: Vec<usize>,
    pub current: Option<usize>,
    pub built: Option<usize>,
    /// Disk operations, oldest first.
    pub journal: Vec<StoreOp>,
}

impl Store {
    pub open spec fn wf(&self) -> bool {
        ascending(self.numbers@)
    }

    /// The disk state that this model describes.
    pub open spec fn disk(&self) -> DiskState {
        DiskState { gens: self.numbers@.to_set(), current: self.current, built: self.built }
    }

    /// `self` grew from `old` by appending to the journal operations that
    /// turn the disk state of `old` into its own.
    pub open spec fn follows(&self, old: Store) -> bool {
        &&& old.journal@.len() <= self.journal@.len()
        &&& self.journal@.subrange(0, old.journal@.len() as int) == old.journal@
        &&& replay(old.disk(), self.journal@.skip(old.journal@.len() as int)) == self.disk()
    }

    /// `self` and `old` describe the same store and the same journal.
    pub open spec fn unchanged(&self, old: Store) -> bool {
        &&& self.numbers@ == old.numbers@
        &&& self.current == old.current
        &&& self.built == old.built
        &&& self.journal@ == old.journal@
    }
}

proof fn lemma_push_contains<A>(s: Seq<A>, e: A)
    ensures
        forall|x: A| #[trigger] s.push(e).contains(x) <==> (s.contains(x) || x == e),
{
    assert forall|x: A| #[trigger] s.push(e).contains(x) <==> (s.contains(x) || x == e) by {
        let t = s.push(e);
        if t.contains(x) {
            let i = choose|i: int| 0 <= i < t.len() && t[i] == x;
            if i < s.len() {
                assert(s[i] == x);
            }
        }
        if s.contains(x) {
            let i = choose|i: int| 0 <= i < s.len() && s[i] == x;
            assert(t[i] == x);
        }
        if x == e {
            assert(t[s.len() as int] == x);
        }
    }
}

proof fn lemma_follows_refl(s: Store)
    ensures
        s.follows(s),
{
    assert(s.journal@.subrange(0, s.journal@.len() as int) =~= s.journal@);
    assert(s.journal@.skip(s.journal@.len() as int) =~= Seq::<StoreOp>::empty());
    assert(s.disk().gens =~= s.numbers@.to_set());
}

proof fn lemma_follows_push(a: Store, b: Store, c: Store, op: StoreOp)
    requires
        b.follows(a),
        c.journal@ == b.journal@.push(op),
        c.disk() == apply(b.disk(), op),
    ensures
        c.follows(a),
{
    let k = a.journal@.len() as int;
    assert(c.journal@.subrange(0, k) =~= b.journal@.subrange(0, k));
    assert(c.journal@.skip(k).drop_last() =~= b.journal@.skip(k));
    assert(c.journal@.skip(k).last() == op);
}

/// Inserts `x` into the ascending `v`.
fn insert_sorted(v: &mut Vec<usize>, x: usize)
    requires
        ascending(old(v)@),
        x >= 1,
        !old(v)@.contains(x),
    ensures
        ascending(final(v)@),
        forall|y: usize| final(v)@.contains(y) <==> (old(v)@.contains(y) || y == x),
        final(v)@.to_set() == old(v)@.to_set().insert(x),
{
    let mut p: usize = 0;
    while p < v.len() && v[p] < x
        invariant
            p <= v.len(),
            forall|i: int| 0 <= i < p ==> v@[i] < x,
        decreases v.len() - p,
    {
        p = p + 1;
    }
    let ghost before = v@;
    v.insert(p, x);
    proof {
        assert(v@ =~= before.subrange(0, p as int).push(x) + before.subrange(p as int, before.len() as int));
        if p < before.len() {
            assert(before[p as int] != x) by {
                assert(before.contains(before[p as int]));
            }
        }
        assert forall|i: int, j: int| 0 <= i < j < v@.len() implies v@[i] < v@[j] by {
            if i < p && j == p {
            } else if i == p && j > p {
                assert(before[p as int] <= before[j - 1]);
            } else if i < p && j > p {
                assert(before[i] < before[j - 1]);
            } else if j < p {
            } else {
                assert(before[i - 1] < before[j - 1]);
            }
        }
        assert forall|y: usize| v@.contains(y) <==> (before.contains(y) || y == x) by {
            if v@.contains(y) {
                let i = choose|i: int| 0 <= i < v@.len() && v@[i] == y;
                if i < p {
                    assert(before[i] == y);
                } else if i > p {
                    assert(before[i - 1] == y);
                }
            }
            if before.contains(y) {
                let i = choose|i: int| 0 <= i < before.len() && before[i] == y;
                if i < p {
                    assert(v@[i] == y);
                } else {
                    assert(v@[i + 1] == y);
                }
            }
            if y == x {
                assert(v@[p as int] == y);
            }
        }
        assert(v@.to_set() =~= before.to_set().insert(x));
    }
}

/// Removes `x` from the ascending `v`.
fn remove_sorted(v: &mut Vec<usize>, x: usize)
    requires
        ascending(old(v)@),
        old(v)@.contains(x),
    ensures
        ascending(final(v)@),
        forall|y: usize| final(v)@.contains(y) <==> (old(v)@.contains(y) && y != x),
        final(v)@.to_set() == old(v)@.to_set().remove(x),
        final(v)@.len() + 1 == old(v)@.len(),
{
    let mut p: usize = 0;
    while p < v.len() && v[p] != x
        invariant
            p <= v.len(),
            forall|i: int| 0 <= i < p ==> v@[i] != x,
        decreases v.len() - p,
    {
        p = p + 1;
    }
    let ghost before = v@;
    if p == v.len() {
        proof {
            let i = choose|i: int| 0 <= i < before.len() && before[i] == x;
        }
        return;
    }
    v.remove(p);
    proof {
        assert(v@ =~= before.subrange(0, p as int) + before.subrange(p + 1, before.len() as int));
        assert forall|i: int, j: int| 0 <= i < j < v@.len() implies v@[i] < v@[j] by {
            if j < p {
            } else if i < p {
                assert(before[i] < before[j + 1]);
            } else {
                assert(before[i + 1] < before[j + 1]);
            }
        }
        assert forall|y: usize| v@.contains(y) <==> (before.contains(y) && y != x) by {
            if v@.contains(y) {
                let i = choose|i: int| 0 <= i < v@.len() && v@[i] == y;
                if i < p {
                    assert(before[i] == y);
                    assert(before[i] < before[p as int]);
                } else {
                    assert(before[i + 1] == y);
                    assert(before[p as int] < before[i + 1]);
                }
            }
            if before.contains(y) && y != x {
                let i = choose|i: int| 0 <= i < before.len() && before[i] == y;
                if i < p {
                    assert(v@[i] == y);
                } else {
                    assert(v@[i - 1] == y);
                }
            }
        }
        assert(v@.to_set() =~= before.to_set().remove(x));
    }
}


impl Store {
    /// A model of a store whose generation directories carry `numbers` (in
    /// any order, repetitions allowed) and whose pointer files hold `current`
    /// and `built`. The number 0 names no generation and is left out.
    pub fn new(numbers: Vec<usize>, current: Option<usize>, built: Option<usize>) -> (r: Store)
        ensures
            r.wf(),
            forall|n: usize| r.numbers@.contains(n) <==> (numbers@.contains(n) && n >= 1),
            r.current == current,
            r.built == built,
            r.journal@.len() == 0,
    {
        let mut sorted: Vec<usize> = Vec::new();
        let mut i: usize = 0;
        while i < numbers.len()
            invariant
                i <= numbers.len(),
                ascending(sorted@),
                forall|n: usize| sorted@.contains(n) <==> (numbers@.subrange(0, i as int).contains(n) && n >= 1),
            decreases numbers.len() - i,
        {
            let x = numbers[i];
            proof {
                assert forall|n: usize| numbers@.subrange(0, i + 1).contains(n) <==> (numbers@.subrange(0, i as int).contains(n) || n == x) by {
                    let a = numbers@.subrange(0, i as int);
                    let b = numbers@.subrange(0, i + 1);
                    if b.contains(n) {
                        let k = choose|k: int| 0 <= k < b.len() && b[k] == n;
                        if k < i {
                            assert(a[k] == n);
                        }
                    }
                    if a.contains(n) {
                        let k = choose|k: int| 0 <= k < a.len() && a[k] == n;
                        assert(b[k] == n);
                    }
                    if n == x {
                        assert(b[i as int] == n);
                    }
                }
            }
            if x >= 1 && !contains_number(&sorted, x) {
                insert_sorted(&mut sorted, x);
            }
            i = i + 1;
        }
        assert(numbers@.subrange(0, numbers@.len() as int) =~= numbers@);
        Store { numbers: sorted, current, built, journal: Vec::new() }
    }

    /// The existing generation numbers, ascending.
    pub fn list_gen_nums(&self) -> (r: Vec<usize>)
        ensures
            r@ == self.numbers@,
    {
        self.numbers.clone()
    }

    /// The largest generation number, or 0 if there is none.
    pub fn latest_number(&self) -> (r: usize)
        requires
            self.wf(),
        ensures
            r == latest_of(self.numbers@),
            forall|i: int| 0 <= i < self.numbers@.len() ==> self.numbers@[i] <= r,
            self.numbers@.len() > 0 ==> self.numbers@.contains(r),
    {
        if self.numbers.len() == 0 {
            0
        } else {
            let r = self.numbers[self.numbers.len() - 1];
            assert(self.numbers@.contains(r)) by {
                assert(self.numbers@[self.numbers@.len() - 1] == r);
            }
            r
        }
    }

    /// The smallest generation number.
    pub fn get_oldest(&self) -> (r: Result<usize, StoreError>)
        requires
            self.wf(),
        ensures
            self.numbers@.len() == 0 <==> r is Err,
            r is Err ==> r == Err::<usize, StoreError>(StoreError::NoGenerations),
            r is Ok ==> r->Ok_0 == self.numbers@[0] && forall|i: int|
                0 <= i < self.numbers@.len() ==> r->Ok_0 <= self.numbers@[i],
    {
        if self.numbers.len() == 0 {
            Err(StoreError::NoGenerations)
        } else {
            let r = self.numbers[0];
            assert forall|i: int| 0 <= i < self.numbers@.len() implies r <= self.numbers@[i] by {
                if i > 0 {
                    assert(self.numbers@[0] < self.numbers@[i]);
                }
            }
            Ok(r)
        }
    }

    /// Whether generation `generation` exists.
    pub fn gen_exists(&self, generation: usize) -> (r: bool)
        ensures
            r == self.numbers@.contains(generation),
    {
        contains_number(&self.numbers, generation)
    }

    /// The current generation number.
    pub fn get_current(&self) -> (r: Result<usize, StoreError>)
        ensures
            match self.current {
                Some(c) => r == Ok::<usize, StoreError>(c),
                None => r == Err::<usize, StoreError>(StoreError::NoCurrent),
            },
    {
        match self.current {
            Some(c) => Ok(c),
            None => Err(StoreError::NoCurrent),
        }
    }

    /// The built generation number.
    pub fn get_built(&self) -> (r: Result<usize, StoreError>)
        ensures
            match self.built {
                Some(b) => r == Ok::<usize, StoreError>(b),
                None => r == Err::<usize, StoreError>(StoreError::NotBuilt),
            },
    {
        match self.built {
            Some(b) => Ok(b),
            None => Err(StoreError::NotBuilt),
        }
    }

    /// Whether a generation has been built.
    pub fn been_built(&self) -> (r: bool)
        ensures
            r == self.built is Some,
    {
        self.built.is_some()
    }

    /// Whether `generation` is the current one.
    pub fn is_current(&self, generation: usize) -> (r: bool)
        ensures
            r == (self.current == Some(generation)),
    {
        match self.current {
            Some(c) => c == generation,
            None => false,
        }
    }

    /// Whether `generation` is the built one.
    pub fn is_built(&self, generation: usize) -> (r: bool)
        ensures
            r == (self.built == Some(generation)),
    {
        match self.built {
            Some(b) => b == generation,
            None => false,
        }
    }

    /// Points `current` at generation `to`, which must lie in `1..=latest`.
    pub fn set_current(&mut self, to: usize) -> (r: Result<(), StoreError>)
        requires
            old(self).wf(),
        ensures
            final(self).wf(),
            final(self).follows(*old(self)),
            (to < 1 || to > latest_of(old(self).numbers@)) <==> r is Err,
            r is Err ==> r == Err::<(), StoreError>(StoreError::OutOfRange) && final(self).unchanged(*old(self)),
            r is Ok ==> final(self).current == Some(to) && final(self).numbers@ == old(self).numbers@
                && final(self).built == old(self).built
                && final(self).journal@ == old(self).journal@.push(StoreOp::WriteCurrent(to)),
    {
        let latest = self.latest_number();
        if to < 1 || to > latest {
            proof {
                lemma_follows_refl(*self);
            }
            return Err(StoreError::OutOfRange);
        }
        let ghost before = *self;
        proof {
            lemma_follows_refl(before);
        }
        self.current = Some(to);
        self.journal.push(StoreOp::WriteCurrent(to));
        proof {
            lemma_follows_push(before, before, *self, StoreOp::WriteCurrent(to));
        }
        Ok(())
    }

    /// Points `built` at generation `to`, which must lie in `1..=latest`.
    pub fn set_built(&mut self, to: usize) -> (r: Result<(), StoreError>)
        requires
            old(self).wf(),
        ensures
            final(self).wf(),
            final(self).follows(*old(self)),
            (to < 1 || to > latest_of(old(self).numbers@)) <==> r is Err,
            r is Err ==> r == Err::<(), StoreError>(StoreError::OutOfRange) && final(self).unchanged(*old(self)),
            r is Ok ==> final(self).built == Some(to) && final(self).numbers@ == old(self).numbers@
                && final(self).current == old(self).current
                && final(self).journal@ == old(self).journal@.push(StoreOp::WriteBuilt(to)),
    {
        let latest = self.latest_number();
        if to < 1 || to > latest {
            proof {
                lemma_follows_refl(*self);
            }
            return Err(StoreError::OutOfRange);
        }
        let ghost before = *self;
        proof {
            lemma_follows_refl(before);
        }
        self.built = Some(to);
        self.journal.push(StoreOp::WriteBuilt(to));
        proof {
            lemma_follows_push(before, before, *self, StoreOp::WriteBuilt(to));
        }
        Ok(())
    }

    /// Points `current` at the latest generation.
    pub fn latest(&mut self) -> (r: Result<(), StoreError>)
        requires
            old(self).wf(),
        ensures
            final(self).wf(),
            final(self).follows(*old(self)),
            old(self).numbers@.len() == 0 <==> r is Err,
            r is Err ==> r == Err::<(), StoreError>(StoreError::OutOfRange) && final(self).unchanged(*old(self)),
            r is Ok ==> final(self).current == Some(latest_of(old(self).numbers@))
                && final(self).numbers@ == old(self).numbers@ && final(self).built == old(self).built
                && final(self).journal@ == old(self).journal@.push(
                StoreOp::WriteCurrent(latest_of(old(self).numbers@)),
            ),
    {
        let latest = self.latest_number();
        self.set_current(latest)
    }

    /// Moves `current` back by `by` generations (forward if `by` is
    /// negative); the target must lie in `1..=latest`.
    pub fn rollback(&mut self, by: isize) -> (r: Result<(), StoreError>)
        requires
            old(self).wf(),
        ensures
            final(self).wf(),
            final(self).follows(*old(self)),
            old(self).current is None ==> r == Err::<(), StoreError>(StoreError::NoCurrent),
            old(self).current is Some ==> ({
                let target = old(self).current->0 - by;
                &&& (target < 1 || target > latest_of(old(self).numbers@)) <==> r is Err
                &&& r is Ok ==> final(self).current == Some(target as usize)
                    && final(self).journal@ == old(self).journal@.push(StoreOp::WriteCurrent(target as usize))
            }),
            r is Err ==> final(self).unchanged(*old(self)),
            r is Ok ==> final(self).numbers@ == old(self).numbers@ && final(self).built == old(self).built,
    {
        let current = match self.current {
            Some(c) => c,
            None => {
                proof {
                    lemma_follows_refl(*self);
                }
                return Err(StoreError::NoCurrent);
            },
        };
        let target: i128 = current as i128 - by as i128;
        let latest = self.latest_number();
        if target < 1 || target > latest as i128 {
            proof {
                lemma_follows_refl(*self);
            }
            return Err(StoreError::OutOfRange);
        }
        self.set_current(target as usize)
    }

    /// Adds a generation numbered one past the latest and makes it current.
    /// Returns its number.
    pub fn commit(&mut self) -> (r: Result<usize, StoreError>)
        requires
            old(self).wf(),
        ensures
            final(self).wf(),
            final(self).follows(*old(self)),
            latest_of(old(self).numbers@) == usize::MAX <==> r is Err,
            r is Err ==> r == Err::<usize, StoreError>(StoreError::Exhausted) && final(self).unchanged(*old(self)),
            r is Ok ==> r->Ok_0 == latest_of(old(self).numbers@) + 1
                && final(self).numbers@ == old(self).numbers@.push(r->Ok_0)
                && final(self).current == Some(r->Ok_0) && final(self).built == old(self).built
                && final(self).journal@ == old(self).journal@ + seq![StoreOp::Create(r->Ok_0), StoreOp::WriteCurrent(r->Ok_0)],
    {
        let latest = self.latest_number();
        if latest == usize::MAX {
            proof {
                lemma_follows_refl(*self);
            }
            return Err(StoreError::Exhausted);
        }
        let n = latest + 1;
        let ghost s0 = *self;
        proof {
            lemma_follows_refl(s0);
        }
        self.numbers.push(n);
        self.journal.push(StoreOp::Create(n));
        proof {
            lemma_push_contains(s0.numbers@, n);
            assert(self.numbers@.to_set() =~= s0.numbers@.to_set().insert(n));
            assert forall|i: int, j: int| 0 <= i < j < self.numbers@.len() implies self.numbers@[i] < self.numbers@[j] by {
                if j == self.numbers@.len() - 1 {
                    assert(s0.numbers@[i] <= latest);
                }
            }
            lemma_follows_push(s0, s0, *self, StoreOp::Create(n));
        }
        let ghost s1 = *self;
        self.current = Some(n);
        self.journal.push(StoreOp::WriteCurrent(n));
        proof {
            lemma_follows_push(s0, s1, *self, StoreOp::WriteCurrent(n));
            assert(self.journal@ =~= s0.journal@ + seq![StoreOp::Create(n), StoreOp::WriteCurrent(n)]);
        }
        Ok(n)
    }
}

/// Whether `v` holds `x`.
fn contains_number(v: &Vec<usize>, x: usize) -> (r: bool)
    ensures
        r == v@.contains(x),
{
    let mut i: usize = 0;
    while i < v.len()
        invariant
            i <= v.len(),
            forall|j: int| 0 <= j < i ==> v@[j] != x,
        decreases v.len() - i,
    {
        if v[i] == x {
            assert(v@[i as int] == x);
            return true;
        }
        i = i + 1;
    }
    false
}


/// Whether `n` is one of the numbers that `delete_old(how_many)` goes
/// through, starting at `oldest` and stopping after `latest`.
pub open spec fn in_old_range(oldest: usize, how_many: usize, latest: usize, n: usize) -> bool {
    oldest <= n && n < oldest + how_many && n <= latest
}

/// The disk operations of `delete_old` over the numbers `lo..hi`: the
/// deletion of each that exists and is not protected.
pub open spec fn delete_old_ops(st: Store, lo: int, hi: int) -> Seq<StoreOp>
    decreases hi - lo,
{
    if hi <= lo {
        Seq::empty()
    } else {
        delete_old_ops(st, lo, hi - 1) + if !protected(st, (hi - 1) as usize) && st.numbers@.contains(
            (hi - 1) as usize,
        ) {
            seq![StoreOp::Delete((hi - 1) as usize)]
        } else {
            Seq::empty()
        }
    }
}

/// Whether `n` is protected from deletion: current or built.
pub open spec fn protected(s: Store, n: usize) -> bool {
    s.current == Some(n) || s.built == Some(n)
}

/// The disk operations of renumbering generation `from` of `s` to `to`: the
/// move, then a write of each pointer that was at `from`.
pub open spec fn move_ops(s: Store, from: usize, to: usize) -> Seq<StoreOp> {
    if from == to {
        Seq::empty()
    } else {
        seq![StoreOp::Move(from, to)] + (if s.current == Some(from) {
            seq![StoreOp::WriteCurrent(to)]
        } else {
            Seq::empty()
        }) + (if s.built == Some(from) {
            seq![StoreOp::WriteBuilt(to)]
        } else {
            Seq::empty()
        })
    }
}

/// What a pointer becomes when generation `from` is renumbered to `to`.
pub open spec fn moved_pointer(p: Option<usize>, from: usize, to: usize) -> Option<usize> {
    if p == Some(from) {
        Some(to)
    } else {
        p
    }
}

impl Store {
    /// Deletes generation `generation`. A current or built generation is
    /// protected: it stays, and that is no failure.
    pub fn delete(&mut self, generation: usize) -> (r: Result<Deletion, StoreError>)
        requires
            old(self).wf(),
        ensures
            final(self).wf(),
            final(self).follows(*old(self)),
            old(self).current == Some(generation) ==> r == Ok::<Deletion, StoreError>(Deletion::ProtectedCurrent),
            old(self).current != Some(generation) && old(self).built == Some(generation) ==> r == Ok::<
                Deletion,
                StoreError,
            >(Deletion::ProtectedBuilt),
            !protected(*old(self), generation) && !old(self).numbers@.contains(generation) ==> r == Err::<
                Deletion,
                StoreError,
            >(StoreError::NotFound),
            !protected(*old(self), generation) && old(self).numbers@.contains(generation) ==> r == Ok::<
                Deletion,
                StoreError,
            >(Deletion::Deleted),
            r != Ok::<Deletion, StoreError>(Deletion::Deleted) ==> final(self).unchanged(*old(self)),
            r == Ok::<Deletion, StoreError>(Deletion::Deleted) ==> final(self).current == old(self).current
                && final(self).built == old(self).built
                && final(self).journal@ == old(self).journal@.push(StoreOp::Delete(generation))
                && forall|y: usize|
                final(self).numbers@.contains(y) <==> (old(self).numbers@.contains(y) && y != generation),
    {
        proof {
            lemma_follows_refl(*self);
        }
        if self.is_current(generation) {
            return Ok(Deletion::ProtectedCurrent);
        }
        if self.is_built(generation) {
            return Ok(Deletion::ProtectedBuilt);
        }
        if !self.gen_exists(generation) {
            return Err(StoreError::NotFound);
        }
        let ghost s0 = *self;
        remove_sorted(&mut self.numbers, generation);
        self.journal.push(StoreOp::Delete(generation));
        proof {
            lemma_follows_push(s0, s0, *self, StoreOp::Delete(generation));
        }
        Ok(Deletion::Deleted)
    }

    /// Deletes up to `how_many` generations by number, starting at the oldest
    /// and stopping after the latest. Protected generations stay; a missing
    /// number among them stops the work with `NotFound`.
    pub fn delete_old(&mut self, how_many: usize) -> (r: Result<(), StoreError>)
        requires
            old(self).wf(),
        ensures
            final(self).wf(),
            final(self).follows(*old(self)),
            final(self).current == old(self).current,
            final(self).built == old(self).built,
            old(self).numbers@.len() == 0 ==> r == Err::<(), StoreError>(StoreError::NoGenerations)
                && final(self).unchanged(*old(self)),
            old(self).numbers@.len() > 0 ==> ({
                let o = old(self).numbers@[0];
                let l = latest_of(old(self).numbers@);
                &&& r is Ok <==> forall|n: usize|
                    in_old_range(o, how_many, l, n) ==> protected(*old(self), n)
                        || old(self).numbers@.contains(n)
                &&& r is Err ==> r == Err::<(), StoreError>(StoreError::NotFound)
                &&& r is Err ==> exists|m: int|
                    o <= m && #[trigger] delete_old_ops(*old(self), o as int, m) == final(self).journal@.skip(
                        old(self).journal@.len() as int,
                    ) && final(self).journal@.subrange(0, old(self).journal@.len() as int)
                        == old(self).journal@
                &&& r is Ok ==> final(self).journal@ == old(self).journal@ + delete_old_ops(
                    *old(self),
                    o as int,
                    if o + how_many <= l + 1 { o + how_many } else { l + 1 },
                )
                &&& r is Ok ==> forall|y: usize|
                    final(self).numbers@.contains(y) <==> (old(self).numbers@.contains(y) && !(
                    in_old_range(o, how_many, l, y) && !protected(*old(self), y)))
            }),
    {
        proof {
            lemma_follows_refl(*self);
        }
        let oldest = match self.get_oldest() {
            Ok(o) => o,
            Err(e) => {
                return Err(e);
            },
        };
        let latest = self.latest_number();
        let ghost s0 = *self;
        let mut i: u128 = oldest as u128;
        assert(s0.journal@ + delete_old_ops(s0, oldest as int, oldest as int) =~= s0.journal@);
        while i < oldest as u128 + how_many as u128 && i <= latest as u128
            invariant
                self.wf(),
                self.follows(s0),
                s0 == *old(self),
                s0.wf(),
                s0.numbers@.len() > 0,
                oldest == s0.numbers@[0],
                latest == latest_of(s0.numbers@),
                oldest <= i <= latest as u128 + 1,
                i <= oldest as u128 + how_many as u128,
                self.current == s0.current,
                self.built == s0.built,
                self.journal@ == s0.journal@ + delete_old_ops(s0, oldest as int, i as int),
                forall|n: usize| #![trigger in_old_range(oldest, how_many, latest, n)]
                    in_old_range(oldest, how_many, latest, n) && n < i ==> protected(s0, n)
                        || s0.numbers@.contains(n),
                forall|y: usize| #![trigger self.numbers@.contains(y)] #![trigger s0.numbers@.contains(y)]
                    self.numbers@.contains(y) <==> (s0.numbers@.contains(y) && !(in_old_range(
                        oldest,
                        how_many,
                        latest,
                        y,
                    ) && y < i && !protected(s0, y))),
            decreases latest as u128 + 1 - i,
        {
            let n = i as usize;
            let ghost before = *self;
            proof {
                assert(before.numbers@.contains(n) <==> s0.numbers@.contains(n));
            }
            let res = self.delete(n);
            match res {
                Ok(_) => {},
                Err(e) => {
                    proof {
                        assert(in_old_range(oldest, how_many, latest, n));
                        assert(!s0.numbers@.contains(n));
                        assert(!protected(s0, n));
                        assert(e == StoreError::NotFound);
                        assert(self.journal@.skip(s0.journal@.len() as int) =~= delete_old_ops(s0, oldest as int, i as int));
                        assert(self.journal@.subrange(0, s0.journal@.len() as int) =~= s0.journal@);
                        assert(self.disk() == before.disk());
                        assert(self.journal@ == before.journal@);
                    }
                    return Err(e);
                },
            }
            proof {
                assert(i + 1 - 1 == n);
                if !protected(s0, n) && s0.numbers@.contains(n) {
                    assert(self.journal@ =~= s0.journal@ + delete_old_ops(s0, oldest as int, i + 1));
                } else {
                    assert(self.journal@ =~= s0.journal@ + delete_old_ops(s0, oldest as int, i + 1));
                }
                assert(self.follows(s0)) by {
                    let k0 = s0.journal@.len() as int;
                    let k1 = before.journal@.len() as int;
                    assert(self.journal@.subrange(0, k0) =~= before.journal@.subrange(0, k0));
                    lemma_replay_split(s0.disk(), before.journal@.skip(k0), self.journal@.skip(k1));
                    assert(self.journal@.skip(k0) =~= before.journal@.skip(k0) + self.journal@.skip(k1));
                }
                assert forall|y: usize|
                    self.numbers@.contains(y) <==> (s0.numbers@.contains(y) && !(in_old_range(
                        oldest,
                        how_many,
                        latest,
                        y,
                    ) && y < i + 1 && !protected(s0, y))) by {
                    assert(before.numbers@.contains(y) <==> (s0.numbers@.contains(y) && !(in_old_range(
                        oldest,
                        how_many,
                        latest,
                        y,
                    ) && y < i && !protected(s0, y))));
                }
                assert forall|m: usize|
                    in_old_range(oldest, how_many, latest, m) && m < i + 1 implies protected(s0, m)
                        || s0.numbers@.contains(m) by {
                    if m == n {
                        if !protected(s0, n) {
                            assert(before.numbers@.contains(n));
                        }
                    }
                }
            }
            i = i + 1;
        }
        proof {
            assert forall|y: usize| in_old_range(oldest, how_many, latest, y) implies y < i by {}
            assert(i == if oldest + how_many <= latest + 1 { oldest + how_many } else { latest + 1 });
            assert forall|y: usize|
                self.numbers@.contains(y) <==> (s0.numbers@.contains(y) && !(in_old_range(
                    oldest,
                    how_many,
                    latest,
                    y,
                ) && !protected(s0, y))) by {
                if in_old_range(oldest, how_many, latest, y) {
                    assert(y < i);
                }
            }
            assert forall|m: usize| in_old_range(oldest, how_many, latest, m) implies protected(s0, m)
                || s0.numbers@.contains(m) by {
                assert(m < i);
            }
        }
        Ok(())
    }

    /// Renumbers generation `from` to `to`; a pointer at `from` follows it.
    pub fn move_gen(&mut self, from: usize, to: usize) -> (r: Result<(), StoreError>)
        requires
            old(self).wf(),
        ensures
            final(self).wf(),
            final(self).follows(*old(self)),
            !old(self).numbers@.contains(from) ==> r == Err::<(), StoreError>(StoreError::NotFound),
            old(self).numbers@.contains(from) && to < 1 ==> r == Err::<(), StoreError>(StoreError::OutOfRange),
            old(self).numbers@.contains(from) && to >= 1 && to != from && old(self).numbers@.contains(to)
                ==> r == Err::<(), StoreError>(StoreError::Occupied),
            old(self).numbers@.contains(from) && to >= 1 && (to == from || !old(self).numbers@.contains(to))
                ==> r is Ok,
            r is Err ==> final(self).unchanged(*old(self)),
            r is Ok ==> final(self).journal@ == old(self).journal@ + move_ops(*old(self), from, to),
            r is Ok ==> final(self).current == moved_pointer(old(self).current, from, to)
                && final(self).built == moved_pointer(old(self).built, from, to) && forall|y: usize|
                final(self).numbers@.contains(y) <==> ((old(self).numbers@.contains(y) && y != from) || y == to),
    {
        proof {
            lemma_follows_refl(*self);
        }
        if !self.gen_exists(from) {
            return Err(StoreError::NotFound);
        }
        if to < 1 {
            return Err(StoreError::OutOfRange);
        }
        if to == from {
            return Ok(());
        }
        if self.gen_exists(to) {
            return Err(StoreError::Occupied);
        }
        let ghost s0 = *self;
        remove_sorted(&mut self.numbers, from);
        insert_sorted(&mut self.numbers, to);
        self.journal.push(StoreOp::Move(from, to));
        proof {
            assert(self.numbers@.to_set() =~= s0.numbers@.to_set().remove(from).insert(to));
            lemma_follows_push(s0, s0, *self, StoreOp::Move(from, to));
        }
        if self.is_current(from) {
            let ghost s1 = *self;
            self.current = Some(to);
            self.journal.push(StoreOp::WriteCurrent(to));
            proof {
                lemma_follows_push(s0, s1, *self, StoreOp::WriteCurrent(to));
            }
        }
        if self.is_built(from) {
            let ghost s2 = *self;
            self.built = Some(to);
            self.journal.push(StoreOp::WriteBuilt(to));
            proof {
                lemma_follows_push(s0, s2, *self, StoreOp::WriteBuilt(to));
            }
        }
        assert(self.journal@ =~= s0.journal@ + move_ops(s0, from, to));
        Ok(())
    }
}

proof fn lemma_replay_split(d: DiskState, a: Seq<StoreOp>, b: Seq<StoreOp>)
    ensures
        replay(d, a + b) == replay(replay(d, a), b),
    decreases b.len(),
{
    if b.len() == 0 {
        assert(a + b =~= a);
    } else {
        lemma_replay_split(d, a, b.drop_last());
        assert((a + b).drop_last() =~= a + b.drop_last());
        assert((a + b).last() == b.last());
    }
}


/// Where `align` puts pointer `p`: a pointer at the `k`-th generation
/// (counting from 0, among the first `n`) moves to number `k + 1`.
pub open spec fn renumbered(s: Seq<usize>, p: Option<usize>, n: int) -> Option<usize> {
    match p {
        Some(x) => if exists|k: int| 0 <= k < n && s[k] == x {
            Some(((choose|k: int| 0 <= k < n && s[k] == x) + 1) as usize)
        } else {
            p
        },
        None => None,
    }
}

/// The disk operations of `align` over the first `n` generations of `s`:
/// each one out of place is moved to its position, and a pointer at it
/// follows.
pub open spec fn align_ops(s: Seq<usize>, cur: Option<usize>, built: Option<usize>, n: int) -> Seq<StoreOp>
    decreases n,
{
    if n <= 0 {
        Seq::empty()
    } else {
        let x = s[n - 1];
        align_ops(s, cur, built, n - 1) + if x != n {
            seq![StoreOp::Move(x, n as usize)] + (if cur == Some(x) {
                seq![StoreOp::WriteCurrent(n as usize)]
            } else {
                Seq::empty()
            }) + (if built == Some(x) {
                seq![StoreOp::WriteBuilt(n as usize)]
            } else {
                Seq::empty()
            })
        } else {
            Seq::empty()
        }
    }
}

/// How many of the first `n` generations `align` moves.
pub open spec fn displaced(s: Seq<usize>, n: int) -> nat
    decreases n,
{
    if n <= 0 {
        0
    } else {
        displaced(s, n - 1) + if s[n - 1] != n {
            1nat
        } else {
            0nat
        }
    }
}

/// Whether the `i`-th generation is kept by `clean_dups`: it is the first,
/// or it differs from the one before it.
pub open spec fn kept(c: Seq<GenerationView>, i: int) -> bool {
    i == 0 || c[i] != c[i - 1]
}

/// The numbers among the first `n` that `clean_dups` keeps.
pub open spec fn survivors(s: Seq<usize>, c: Seq<GenerationView>, n: int) -> Seq<usize>
    decreases n,
{
    if n <= 0 {
        Seq::empty()
    } else if kept(c, n - 1) {
        survivors(s, c, n - 1).push(s[n - 1])
    } else {
        survivors(s, c, n - 1)
    }
}

/// The disk operations of `clean_dups` over the first `n` generations: for
/// each dropped one, a write of each pointer at it (to the generation it
/// duplicates), then its deletion.
pub open spec fn dedup_ops(
    s: Seq<usize>,
    c: Seq<GenerationView>,
    cur: Option<usize>,
    built: Option<usize>,
    n: int,
) -> Seq<StoreOp>
    decreases n,
{
    if n <= 0 {
        Seq::empty()
    } else {
        let i = n - 1;
        let x = s[i];
        let keep = s[keeper(c, i)];
        dedup_ops(s, c, cur, built, n - 1) + if kept(c, i) {
            Seq::empty()
        } else {
            (if cur == Some(x) {
                seq![StoreOp::WriteCurrent(keep)]
            } else {
                Seq::empty()
            }) + (if built == Some(x) {
                seq![StoreOp::WriteBuilt(keep)]
            } else {
                Seq::empty()
            }) + seq![StoreOp::Delete(x)]
        }
    }
}

/// The contents of the generations among the first `n` that `clean_dups`
/// keeps, in order: the contents of `survivors`.
pub open spec fn survivor_views(c: Seq<GenerationView>, n: int) -> Seq<GenerationView>
    decreases n,
{
    if n <= 0 {
        Seq::empty()
    } else if kept(c, n - 1) {
        survivor_views(c, n - 1).push(c[n - 1])
    } else {
        survivor_views(c, n - 1)
    }
}

/// The survivors of deduplication line up with their contents, and no two
/// neighbouring survivors have equal contents.
pub proof fn lemma_survivor_views(s: Seq<usize>, c: Seq<GenerationView>, n: int)
    requires
        0 <= n <= c.len(),
        c.len() == s.len(),
    ensures
        survivor_views(c, n).len() == survivors(s, c, n).len(),
        n > 0 ==> survivor_views(c, n).len() > 0 && survivor_views(c, n).last() == c[n - 1],
        forall|k: int|
            0 <= k < survivor_views(c, n).len() - 1 ==> #[trigger] survivor_views(c, n)[k]
                != survivor_views(c, n)[k + 1],
    decreases n,
{
    if n > 0 {
        lemma_survivor_views(s, c, n - 1);
        let v = survivor_views(c, n - 1);
        if kept(c, n - 1) {
            let w = v.push(c[n - 1]);
            assert forall|k: int| 0 <= k < w.len() - 1 implies #[trigger] w[k] != w[k + 1] by {
                if k < v.len() - 1 {
                    assert(w[k] == v[k] && w[k + 1] == v[k + 1]);
                } else {
                    assert(w[k] == v.last());
                }
            }
        }
    }
}

/// The kept generation that stands for the `j`-th one: itself if kept, else
/// the nearest kept one before it.
pub open spec fn keeper(c: Seq<GenerationView>, j: int) -> int
    decreases j,
{
    if j <= 0 || kept(c, j) {
        j
    } else {
        keeper(c, j - 1)
    }
}

/// Where `clean_dups` puts pointer `p`, once it has gone through the first
/// `n` generations.
pub open spec fn kept_pointer(s: Seq<usize>, c: Seq<GenerationView>, p: Option<usize>, n: int) -> Option<usize> {
    match p {
        Some(x) => if exists|j: int| 0 <= j < n && s[j] == x {
            Some(s[keeper(c, choose|j: int| 0 <= j < n && s[j] == x)])
        } else {
            p
        },
        None => None,
    }
}

/// The views of a sequence of generations.
pub open spec fn generation_views(g: Seq<Generation>) -> Seq<GenerationView> {
    g.map_values(|x: Generation| x@)
}

proof fn lemma_ascending_lower(s: Seq<usize>, j: int)
    requires
        ascending(s),
        0 <= j < s.len(),
    ensures
        s[j] >= j + 1,
    decreases j,
{
    if j > 0 {
        lemma_ascending_lower(s, j - 1);
    }
}

proof fn lemma_keeper(c: Seq<GenerationView>, j: int)
    requires
        0 <= j < c.len(),
    ensures
        0 <= keeper(c, j) <= j,
        kept(c, keeper(c, j)),
        c[keeper(c, j)] == c[j],
    decreases j,
{
    if j > 0 && !kept(c, j) {
        lemma_keeper(c, j - 1);
    }
}

impl Store {
    /// Renumbers the generations to `1, 2, ..., n`, keeping their order;
    /// pointers follow their generations. Returns how many were moved.
    #[verifier::rlimit(40)]
    pub fn align(&mut self) -> (r: usize)
        requires
            old(self).wf(),
        ensures
            final(self).wf(),
            final(self).follows(*old(self)),
            final(self).numbers@.len() == old(self).numbers@.len(),
            forall|k: int| 0 <= k < final(self).numbers@.len() ==> #[trigger] final(self).numbers@[k] == k + 1,
            final(self).current == renumbered(old(self).numbers@, old(self).current, old(self).numbers@.len() as int),
            final(self).built == renumbered(old(self).numbers@, old(self).built, old(self).numbers@.len() as int),
            final(self).journal@ == old(self).journal@ + align_ops(
                old(self).numbers@,
                old(self).current,
                old(self).built,
                old(self).numbers@.len() as int,
            ),
            r == displaced(old(self).numbers@, old(self).numbers@.len() as int),
    {
        let ghost s0 = *self;
        let ghost s = self.numbers@;
        proof {
            lemma_follows_refl(s0);
        }
        let n = self.numbers.len();
        let mut moved: usize = 0;
        let mut k: usize = 0;
        while k < n
            invariant
                s0 == *old(self),
                s == s0.numbers@,
                ascending(s),
                n == s.len(),
                k <= n,
                self.numbers@.len() == n,
                forall|j: int| 0 <= j < k ==> #[trigger] self.numbers@[j] == j + 1,
                forall|j: int| k <= j < n ==> #[trigger] self.numbers@[j] == s[j],
                self.wf(),
                self.follows(s0),
                self.current == renumbered(s, s0.current, k as int),
                self.built == renumbered(s, s0.built, k as int),
                moved == displaced(s, k as int),
                moved <= k,
                self.journal@ == s0.journal@ + align_ops(s, s0.current, s0.built, k as int),
            decreases n - k,
        {
            let x = self.numbers[k];
            proof {
                lemma_ascending_lower(s, k as int);
                assert forall|j: int| 0 <= j < n && s[j] == x implies j == k by {
                    if j < k {
                        assert(s[j] < s[k as int]);
                    } else if j > k {
                        assert(s[k as int] < s[j]);
                    }
                }
                assert forall|j: int| 0 <= j < k implies s[j] != x by {}
            }
            let ghost s1 = *self;
            proof {
                assert forall|p: Option<usize>| #[trigger] renumbered(s, p, k + 1) == (if p == Some(x) {
                    Some((k + 1) as usize)
                } else {
                    renumbered(s, p, k as int)
                }) by {
                    if p == Some(x) {
                        assert(s[k as int] == x);
                        let w = choose|w: int| 0 <= w < k + 1 && s[w] == x;
                        assert(w == k);
                    } else if p is Some {
                        let y = p->0;
                        if exists|w: int| 0 <= w < k + 1 && s[w] == y {
                            let w = choose|w: int| 0 <= w < k + 1 && s[w] == y;
                            assert(w < k);
                            assert(exists|w: int| 0 <= w < k && s[w] == y);
                            assert((choose|w: int| 0 <= w < k + 1 && s[w] == y) == (choose|w: int|
                                0 <= w < k && s[w] == y)) by {
                                let a = choose|w: int| 0 <= w < k + 1 && s[w] == y;
                                let b = choose|w: int| 0 <= w < k && s[w] == y;
                                if a < b {
                                    assert(s[a] < s[b]);
                                } else if b < a {
                                    assert(s[b] < s[a]);
                                }
                            }
                        }
                    }
                }
            }
            proof {
                assert forall|j: int| 0 <= j < k implies s[j] != x by {}
                if s0.current == Some(x) {
                    assert(renumbered(s, s0.current, k as int) == s0.current);
                }
                if s0.current != Some(x) && renumbered(s, s0.current, k as int) == Some(x) {
                    let y = s0.current->0;
                    let w = choose|w: int| 0 <= w < k && s[w] == y;
                    assert(w + 1 < x);
                }
                if s0.built == Some(x) {
                    assert(renumbered(s, s0.built, k as int) == s0.built);
                }
                if s0.built != Some(x) && renumbered(s, s0.built, k as int) == Some(x) {
                    let y = s0.built->0;
                    let w = choose|w: int| 0 <= w < k && s[w] == y;
                    assert(w + 1 < x);
                }
            }
            let ghost j_start = self.journal@;
            if x > k + 1 {
                let to = k + 1;
                let ghost before = self.numbers@;
                self.numbers.set(k, to);
                self.journal.push(StoreOp::Move(x, to));
                proof {
                    assert forall|y: usize| self.numbers@.contains(y) <==> ((before.contains(y) && y != x) || y == to) by {
                        if self.numbers@.contains(y) {
                            let i = choose|i: int| 0 <= i < n && self.numbers@[i] == y;
                            if i != k {
                                assert(before[i] == y);
                                if i < k {
                                    assert(y == i + 1);
                                } else {
                                    assert(s[k as int] < s[i]);
                                }
                            }
                        }
                        if before.contains(y) && y != x {
                            let i = choose|i: int| 0 <= i < n && before[i] == y;
                            assert(i != k);
                            assert(self.numbers@[i] == y);
                        }
                        if y == to {
                            assert(self.numbers@[k as int] == y);
                        }
                    }
                    assert(!before.contains(to)) by {
                        if before.contains(to) {
                            let i = choose|i: int| 0 <= i < n && before[i] == to;
                            if i < k {
                                assert(before[i] == i + 1);
                            } else {
                                lemma_ascending_lower(s, i);
                            }
                        }
                    }
                    assert(before.contains(x)) by {
                        assert(before[k as int] == x);
                    }
                    assert(self.numbers@.to_set() =~= before.to_set().remove(x).insert(to));
                    assert forall|i: int, j: int| 0 <= i < j < self.numbers@.len() implies self.numbers@[i] < self.numbers@[j] by {
                        if j > k {
                            lemma_ascending_lower(s, j);
                        }
                    }
                    lemma_follows_push(s0, s1, *self, StoreOp::Move(x, to));
                }
                if self.is_current(x) {
                    let ghost s2 = *self;
                    self.current = Some(to);
                    self.journal.push(StoreOp::WriteCurrent(to));
                    proof {
                        lemma_follows_push(s0, s2, *self, StoreOp::WriteCurrent(to));
                    }
                } else {
                    proof {
                        if s0.current == Some(x) {
                            assert(renumbered(s, s0.current, k as int) == s0.current);
                        }
                    }
                }
                if self.is_built(x) {
                    let ghost s3 = *self;
                    self.built = Some(to);
                    self.journal.push(StoreOp::WriteBuilt(to));
                    proof {
                        lemma_follows_push(s0, s3, *self, StoreOp::WriteBuilt(to));
                    }
                } else {
                    proof {
                        if s0.built == Some(x) {
                            assert(renumbered(s, s0.built, k as int) == s0.built);
                        }
                    }
                }
                proof {
                    if s0.current != Some(x) {
                        if renumbered(s, s0.current, k as int) == Some(x) {
                            let y = s0.current->0;
                            let w = choose|w: int| 0 <= w < k && s[w] == y;
                            assert(w + 1 < x);
                        }
                    }
                    if s0.built != Some(x) {
                        if renumbered(s, s0.built, k as int) == Some(x) {
                            let y = s0.built->0;
                            let w = choose|w: int| 0 <= w < k && s[w] == y;
                            assert(w + 1 < x);
                        }
                    }
                }
                proof {
                    assert(self.journal@ =~= j_start + (seq![StoreOp::Move(x, to)] + (if s0.current == Some(x) {
                        seq![StoreOp::WriteCurrent(to)]
                    } else {
                        Seq::empty()
                    }) + (if s0.built == Some(x) {
                        seq![StoreOp::WriteBuilt(to)]
                    } else {
                        Seq::empty()
                    })));
                    assert(s[k as int] == x);
                    assert(self.journal@ =~= s0.journal@ + align_ops(s, s0.current, s0.built, k + 1));
                }
                moved = moved + 1;
            } else {
                proof {
                    assert(x == k + 1);
                    if s0.current == Some(x) {
                        assert(renumbered(s, s0.current, k as int) == s0.current);
                    }
                    if s0.built == Some(x) {
                        assert(renumbered(s, s0.built, k as int) == s0.built);
                    }
                }
            }
            k = k + 1;
        }
        moved
    }
}


proof fn lemma_kept_pointer_step(s: Seq<usize>, c: Seq<GenerationView>, p: Option<usize>, i: int)
    requires
        ascending(s),
        0 <= i < s.len(),
        c.len() == s.len(),
    ensures
        kept_pointer(s, c, p, i + 1) == (if p == Some(s[i]) {
            Some(s[keeper(c, i)])
        } else {
            kept_pointer(s, c, p, i)
        }),
{
    if p == Some(s[i]) {
        let w = choose|w: int| 0 <= w < i + 1 && s[w] == s[i];
        if w < i {
            assert(s[w] < s[i]);
        }
    } else if p is Some {
        let y = p->0;
        if exists|w: int| 0 <= w < i + 1 && s[w] == y {
            let a = choose|w: int| 0 <= w < i + 1 && s[w] == y;
            assert(a < i);
            assert(exists|w: int| 0 <= w < i && s[w] == y);
            let b = choose|w: int| 0 <= w < i && s[w] == y;
            if a < b {
                assert(s[a] < s[b]);
            } else if b < a {
                assert(s[b] < s[a]);
            }
        }
    }
}

proof fn lemma_survivors(s: Seq<usize>, c: Seq<GenerationView>, n: int)
    requires
        ascending(s),
        0 <= n <= s.len(),
        c.len() == s.len(),
    ensures
        survivors(s, c, n).len() <= n,
        forall|y: usize| survivors(s, c, n).contains(y) <==> exists|j: int| 0 <= j < n && kept(c, j) && s[j] == y,
    decreases n,
{
    if n > 0 {
        lemma_survivors(s, c, n - 1);
        let a = survivors(s, c, n - 1);
        if kept(c, n - 1) {
            lemma_push_contains(a, s[n - 1]);
        }
        if !kept(c, n - 1) {
            assert(survivors(s, c, n) == a);
        }
        assert forall|y: usize| survivors(s, c, n).contains(y) <==> exists|j: int| 0 <= j < n && kept(c, j) && s[j] == y by {
            if exists|j: int| 0 <= j < n && kept(c, j) && s[j] == y {
                let j = choose|j: int| 0 <= j < n && kept(c, j) && s[j] == y;
                if j < n - 1 {
                    assert(a.contains(y));
                }
            }
            if survivors(s, c, n).contains(y) {
                if kept(c, n - 1) && y == s[n - 1] {
                    assert(0 <= n - 1 < n && kept(c, n - 1) && s[n - 1] == y);
                } else {
                    assert(a.contains(y));
                    let j = choose|j: int| 0 <= j < n - 1 && kept(c, j) && s[j] == y;
                    assert(0 <= j < n && kept(c, j) && s[j] == y);
                }
            }
        }
    }
}

proof fn lemma_kept_pointer_fresh(s: Seq<usize>, c: Seq<GenerationView>, p: Option<usize>, i: int)
    requires
        ascending(s),
        0 <= i < s.len(),
        c.len() == s.len(),
    ensures
        kept_pointer(s, c, p, i) == Some(s[i]) <==> p == Some(s[i]),
{
    if p == Some(s[i]) {
        if exists|j: int| 0 <= j < i && s[j] == s[i] {
            let j = choose|j: int| 0 <= j < i && s[j] == s[i];
            assert(s[j] < s[i]);
        }
    } else if p is Some {
        let y = p->0;
        if exists|j: int| 0 <= j < i && s[j] == y {
            let j = choose|j: int| 0 <= j < i && s[j] == y;
            lemma_keeper(c, j);
            assert(s[keeper(c, j)] < s[i]);
        }
    }
}

proof fn lemma_remove_middle(kept: Seq<usize>, x: usize, rest1: Seq<usize>)
    requires
        !kept.contains(x),
        !rest1.contains(x),
    ensures
        (kept + (seq![x] + rest1)).to_set().remove(x) == (kept + rest1).to_set(),
{
    assert forall|y: usize| #[trigger] (kept + (seq![x] + rest1)).to_set().remove(x).contains(y) <==> (kept + rest1).to_set().contains(y) by {
        lemma_concat_contains(kept, seq![x] + rest1, y);
        lemma_concat_contains(kept, rest1, y);
        lemma_concat_contains(seq![x], rest1, y);
        if seq![x].contains(y) {
            let j = choose|j: int| 0 <= j < 1 && seq![x][j] == y;
        }
        if y == x {
            assert(seq![x][0] == y);
        }
    }
    assert((kept + (seq![x] + rest1)).to_set().remove(x) =~= (kept + rest1).to_set());
}

impl Store {
    /// Deletes every generation whose content equals that of the generation
    /// just before it; `contents[i]` is the content of the `i`-th generation
    /// in ascending order. A pointer at a deleted generation moves to the
    /// kept generation that it duplicates. Returns how many were deleted.
    #[verifier::rlimit(40)]
    pub fn clean_dups(&mut self, contents: &Vec<Generation>) -> (r: usize)
        requires
            old(self).wf(),
            contents@.len() == old(self).numbers@.len(),
        ensures
            final(self).wf(),
            final(self).follows(*old(self)),
            final(self).numbers@ == survivors(
                old(self).numbers@,
                generation_views(contents@),
                contents@.len() as int,
            ),
            final(self).current == kept_pointer(
                old(self).numbers@,
                generation_views(contents@),
                old(self).current,
                contents@.len() as int,
            ),
            final(self).built == kept_pointer(
                old(self).numbers@,
                generation_views(contents@),
                old(self).built,
                contents@.len() as int,
            ),
            r + final(self).numbers@.len() == old(self).numbers@.len(),
            final(self).journal@ == old(self).journal@ + dedup_ops(
                old(self).numbers@,
                generation_views(contents@),
                old(self).current,
                old(self).built,
                contents@.len() as int,
            ),
            survivor_views(generation_views(contents@), contents@.len() as int).len()
                == final(self).numbers@.len(),
            forall|k: int|
                0 <= k < final(self).numbers@.len() - 1 ==> #[trigger] survivor_views(
                    generation_views(contents@),
                    contents@.len() as int,
                )[k] != survivor_views(generation_views(contents@), contents@.len() as int)[k + 1],
    {
        let ghost s0 = *self;
        let ghost s = self.numbers@;
        let ghost c = generation_views(contents@);
        proof {
            lemma_survivor_views(s, c, c.len() as int);
        }
        let n = self.numbers.len();
        proof {
            lemma_follows_refl(s0);
        }
        if n == 0 {
            assert(survivors(s, c, 0) =~= s);
            return 0;
        }
        let mut kept_nums: Vec<usize> = Vec::new();
        kept_nums.push(self.numbers[0]);
        proof {
            assert(survivors(s, c, 0) =~= Seq::<usize>::empty());
            assert(dedup_ops(s, c, s0.current, s0.built, 0) =~= Seq::<StoreOp>::empty());
            assert(dedup_ops(s, c, s0.current, s0.built, 1) =~= Seq::<StoreOp>::empty());
            assert(s0.journal@ + Seq::<StoreOp>::empty() =~= s0.journal@);
            assert(survivors(s, c, 1) =~= seq![s[0]]);
            assert(kept_nums@ + s.subrange(1, n as int) =~= s);
            lemma_kept_pointer_step(s, c, s0.current, 0);
            lemma_kept_pointer_step(s, c, s0.built, 0);
            assert(kept_pointer(s, c, s0.current, 0) == s0.current);
            assert(kept_pointer(s, c, s0.built, 0) == s0.built);
        }
        let mut comp: usize = 0;
        let mut deleted: usize = 0;
        let mut i: usize = 1;
        while i < n
            invariant
                s0 == *old(self),
                s == s0.numbers@,
                c == generation_views(contents@),
                ascending(s),
                n == s.len(),
                contents@.len() == n,
                1 <= i <= n,
                comp < i,
                keeper(c, i - 1) == comp,
                c[comp as int] == c[i - 1],
                kept_nums@ == survivors(s, c, i as int),
                kept_nums@.len() > 0,
                kept_nums@.last() == s[comp as int],
                deleted + kept_nums@.len() == i,
                self.numbers@ == s,
                self.journal@ == s0.journal@ + dedup_ops(s, c, s0.current, s0.built, i as int),
                old(self).journal@.len() <= self.journal@.len(),
                self.journal@.subrange(0, s0.journal@.len() as int) == s0.journal@,
                replay(s0.disk(), self.journal@.skip(s0.journal@.len() as int)) == (DiskState {
                    gens: (kept_nums@ + s.subrange(i as int, n as int)).to_set(),
                    current: self.current,
                    built: self.built,
                }),
                self.current == kept_pointer(s, c, s0.current, i as int),
                self.built == kept_pointer(s, c, s0.built, i as int),
            decreases n - i,
        {
            proof {
                lemma_kept_pointer_step(s, c, s0.current, i as int);
                lemma_kept_pointer_step(s, c, s0.built, i as int);
                lemma_kept_pointer_fresh(s, c, s0.current, i as int);
                lemma_kept_pointer_fresh(s, c, s0.built, i as int);
                assert(c[i as int] == contents@[i as int]@);
                assert(c[comp as int] == contents@[comp as int]@);
            }
            let ghost k0 = s0.journal@.len() as int;
            let ghost rest = s.subrange(i as int, n as int);
            let ghost rest1 = s.subrange(i + 1, n as int);
            proof {
                assert(rest =~= seq![s[i as int]] + rest1);
            }
            let ghost j_start = self.journal@;
            if contents[i].same_as(&contents[comp]) {
                let x = self.numbers[i];
                let keep = self.numbers[comp];
                proof {
                    assert(!kept(c, i as int));
                    assert(keeper(c, i as int) == comp);
                }
                if self.is_current(x) {
                    let ghost j0 = self.journal@;
                    self.current = Some(keep);
                    self.journal.push(StoreOp::WriteCurrent(keep));
                    proof {
                        assert(self.journal@.skip(k0).drop_last() =~= j0.skip(k0));
                        assert(self.journal@.skip(k0).last() == StoreOp::WriteCurrent(keep));
                        assert(replay(s0.disk(), self.journal@.skip(k0)) == apply(replay(s0.disk(), j0.skip(k0)), StoreOp::WriteCurrent(keep)));
                        assert(self.journal@.subrange(0, k0) =~= j0.subrange(0, k0));
                    }
                }
                if self.is_built(x) {
                    let ghost j1 = self.journal@;
                    self.built = Some(keep);
                    self.journal.push(StoreOp::WriteBuilt(keep));
                    proof {
                        assert(self.journal@.skip(k0).drop_last() =~= j1.skip(k0));
                        assert(self.journal@.skip(k0).last() == StoreOp::WriteBuilt(keep));
                        assert(replay(s0.disk(), self.journal@.skip(k0)) == apply(replay(s0.disk(), j1.skip(k0)), StoreOp::WriteBuilt(keep)));
                        assert(self.journal@.subrange(0, k0) =~= j1.subrange(0, k0));
                    }
                }
                let ghost j2 = self.journal@;
                self.journal.push(StoreOp::Delete(x));
                proof {
                    assert(self.journal@.skip(k0).drop_last() =~= j2.skip(k0));
                    assert(self.journal@.skip(k0).last() == StoreOp::Delete(x));
                    assert(rest == seq![x] + rest1);
                    assert(self.journal@.subrange(0, k0) =~= j2.subrange(0, k0));
                    assert(survivors(s, c, i + 1) == survivors(s, c, i as int));
                    lemma_survivors(s, c, i as int);
                    assert(!kept_nums@.contains(x)) by {
                        if kept_nums@.contains(x) {
                            let j = choose|j: int| 0 <= j < i && kept(c, j) && s[j] == x;
                            assert(s[j] < s[i as int]);
                        }
                    }
                    assert(!rest1.contains(x)) by {
                        if rest1.contains(x) {
                            let j = choose|j: int| 0 <= j < rest1.len() && rest1[j] == x;
                            assert(s[i + 1 + j] == x);
                            assert(s[i as int] < s[i + 1 + j]);
                        }
                    }
                    lemma_remove_middle(kept_nums@, x, rest1);
                    assert(replay(s0.disk(), self.journal@.skip(k0)) == apply(replay(s0.disk(), j2.skip(k0)), StoreOp::Delete(x)));
                    assert(s[i as int] == x && s[keeper(c, i as int)] == keep);
                    assert(self.journal@ =~= j_start + ((if s0.current == Some(x) {
                        seq![StoreOp::WriteCurrent(keep)]
                    } else {
                        Seq::empty()
                    }) + (if s0.built == Some(x) {
                        seq![StoreOp::WriteBuilt(keep)]
                    } else {
                        Seq::empty()
                    }) + seq![StoreOp::Delete(x)]));
                    assert(self.journal@ =~= s0.journal@ + dedup_ops(s, c, s0.current, s0.built, i + 1));
                }
                deleted = deleted + 1;
            } else {
                let x = self.numbers[i];
                proof {
                    assert(kept(c, i as int));
                    assert(keeper(c, i as int) == i);
                    assert(survivors(s, c, i + 1) == survivors(s, c, i as int).push(x));
                    assert(s[comp as int] < x);
                    assert((kept_nums@.push(x) + rest1) =~= kept_nums@ + rest);
                    assert(self.journal@ =~= s0.journal@ + dedup_ops(s, c, s0.current, s0.built, i + 1));
                }
                kept_nums.push(x);
                comp = i;
            }
            i = i + 1;
        }
        proof {
            assert(s.subrange(n as int, n as int) =~= Seq::<usize>::empty());
            assert(kept_nums@ + s.subrange(n as int, n as int) =~= kept_nums@);
            lemma_survivors_ascending(s, c, n as int);
        }
        self.numbers = kept_nums;
        deleted
    }
}

proof fn lemma_concat_contains<A>(a: Seq<A>, b: Seq<A>, y: A)
    ensures
        (a + b).contains(y) <==> (a.contains(y) || b.contains(y)),
{
    if (a + b).contains(y) {
        let i = choose|i: int| 0 <= i < (a + b).len() && (a + b)[i] == y;
        if i < a.len() {
            assert(a[i] == y);
        } else {
            assert(b[i - a.len()] == y);
        }
    }
    if a.contains(y) {
        let i = choose|i: int| 0 <= i < a.len() && a[i] == y;
        assert((a + b)[i] == y);
    }
    if b.contains(y) {
        let i = choose|i: int| 0 <= i < b.len() && b[i] == y;
        assert((a + b)[i + a.len()] == y);
    }
}

proof fn lemma_survivors_ascending(s: Seq<usize>, c: Seq<GenerationView>, n: int)
    requires
        ascending(s),
        0 <= n <= s.len(),
        c.len() == s.len(),
    ensures
        ascending(survivors(s, c, n)),
        survivors(s, c, n).len() > 0 ==> exists|j: int| 0 <= j < n && survivors(s, c, n).last() == s[j],
    decreases n,
{
    if n > 0 {
        lemma_survivors_ascending(s, c, n - 1);
        let a = survivors(s, c, n - 1);
        if kept(c, n - 1) {
            if a.len() > 0 {
                let j = choose|j: int| 0 <= j < n - 1 && a.last() == s[j];
                assert(s[j] < s[n - 1]);
            }
            let b = a.push(s[n - 1]);
            assert forall|i: int, k: int| 0 <= i < k < b.len() implies #[trigger] b[i] < #[trigger] b[k] by {
                if k == a.len() && i < a.len() {
                    if i < a.len() - 1 {
                        assert(a[i] < a[a.len() - 1]);
                    }
                }
            }
            assert(a.push(s[n - 1]).last() == s[n - 1]);
        } else if a.len() > 0 {
            let j = choose|j: int| 0 <= j < n - 1 && a.last() == s[j];
            assert(survivors(s, c, n).last() == s[j]);
        }
    }
}


/// One line of the generation list.
pub struct GenerationEntry {
    pub number: usize,
    pub message: String,
    pub is_current: bool,
    pub is_built: bool,
}

/// The text shown for a generation whose commit message is missing.
pub open spec fn missing_message() -> Seq<char> {
    "<< COMMIT MESSAGE MISSING >>"@
}

/// `n` spaces.
pub open spec fn spaces(n: nat) -> Seq<char> {
    Seq::new(n, |i: int| ' ')
}

/// The printed line of `e`, its number right-aligned to `width` digits.
pub open spec fn entry_line(e: GenerationEntry, width: nat) -> Seq<char> {
    let digits = decimal_of(e.number as nat);
    spaces(if width > digits.len() { (width - digits.len()) as nat } else { 0 }) + digits + " ... ("@
        + e.message@ + ")"@ + (if e.is_current { " [CURRENT]"@ } else { Seq::empty() }) + (
    if e.is_built {
        " [BUILT]"@
    } else {
        Seq::empty()
    })
}

impl Store {
    /// The generations in ascending order, each with its commit message
    /// (`messages[i]` belongs to the `i`-th; a missing one shows a
    /// placeholder) and whether it is current or built.
    pub fn list(&self, messages: &Vec<Option<String>>) -> (r: Vec<GenerationEntry>)
        requires
            messages@.len() == self.numbers@.len(),
        ensures
            r@.len() == self.numbers@.len(),
            forall|i: int| #![trigger r@[i]]
                0 <= i < r@.len() ==> {
                    &&& r@[i].number == self.numbers@[i]
                    &&& r@[i].is_current == (self.current == Some(self.numbers@[i]))
                    &&& r@[i].is_built == (self.built == Some(self.numbers@[i]))
                    &&& r@[i].message@ == match messages@[i] {
                        Some(m) => m@,
                        None => missing_message(),
                    }
                },
    {
        let mut out: Vec<GenerationEntry> = Vec::new();
        let mut i: usize = 0;
        while i < self.numbers.len()
            invariant
                i <= self.numbers.len(),
                messages@.len() == self.numbers@.len(),
                out@.len() == i,
                forall|j: int| #![trigger out@[j]]
                    0 <= j < i ==> {
                        &&& out@[j].number == self.numbers@[j]
                        &&& out@[j].is_current == (self.current == Some(self.numbers@[j]))
                        &&& out@[j].is_built == (self.built == Some(self.numbers@[j]))
                        &&& out@[j].message@ == match messages@[j] {
                            Some(m) => m@,
                            None => missing_message(),
                        }
                    },
            decreases self.numbers.len() - i,
        {
            let n = self.numbers[i];
            let message = match &messages[i] {
                Some(m) => m.clone(),
                None => {
                    proof {
                        reveal_strlit("<< COMMIT MESSAGE MISSING >>");
                    }
                    String::from_str("<< COMMIT MESSAGE MISSING >>")
                },
            };
            out.push(
                GenerationEntry {
                    number: n,
                    message,
                    is_current: self.is_current(n),
                    is_built: self.is_built(n),
                },
            );
            i = i + 1;
        }
        out
    }
}

/// The printed lines of `entries`, numbers right-aligned to the width of the
/// last one.
pub fn list_print(entries: &Vec<GenerationEntry>) -> (r: Vec<String>)
    ensures
        r@.len() == entries@.len(),
        forall|i: int| #![trigger r@[i]]
            0 <= i < r@.len() ==> r@[i]@ == entry_line(
                entries@[i],
                decimal_of(entries@[entries@.len() - 1].number as nat).len(),
            ),
{
    let mut out: Vec<String> = Vec::new();
    if entries.len() == 0 {
        return out;
    }
    let width = decimal(entries[entries.len() - 1].number).as_str().unicode_len();
    let mut i: usize = 0;
    while i < entries.len()
        invariant
            i <= entries.len(),
            entries@.len() > 0,
            width == decimal_of(entries@[entries@.len() - 1].number as nat).len(),
            out@.len() == i,
            forall|j: int| #![trigger out@[j]] 0 <= j < i ==> out@[j]@ == entry_line(entries@[j], width as nat),
        decreases entries.len() - i,
    {
        let e = &entries[i];
        let digits = decimal(e.number);
        let len = digits.as_str().unicode_len();
        let mut line = String::new();
        let mut k: usize = len;
        while k < width
            invariant
                len <= k <= width || (width < len && k == len),
                line@ == spaces((k - len) as nat),
            decreases width - k,
        {
            line.append(" ");
            proof {
                reveal_strlit(" ");
            }
            assert(line@ =~= spaces((k + 1 - len) as nat));
            k = k + 1;
        }
        line.append(digits.as_str());
        line.append(" ... (");
        line.append(e.message.as_str());
        line.append(")");
        if e.is_current {
            line.append(" [CURRENT]");
        }
        if e.is_built {
            line.append(" [BUILT]");
        }
        proof {
            reveal_strlit(" ... (");
            reveal_strlit(")");
            reveal_strlit(" [CURRENT]");
            reveal_strlit(" [BUILT]");
            assert(spaces((k - len) as nat) =~= spaces(if width > len { (width - len) as nat } else { 0 }));
            assert(line@ =~= entry_line(*e, width as nat));
        }
        out.push(line);
        i = i + 1;
    }
    out
}


impl Store {
    /// Deletes consecutive duplicates, then renumbers what is left to
    /// `1, 2, ..., n`. Returns how many were deleted and how many moved.
    pub fn tidy_up(&mut self, contents: &Vec<Generation>) -> (r: (usize, usize))
        requires
            old(self).wf(),
            contents@.len() == old(self).numbers@.len(),
        ensures
            final(self).wf(),
            final(self).follows(*old(self)),
            ({
                let s = old(self).numbers@;
                let c = generation_views(contents@);
                let kept_nums = survivors(s, c, c.len() as int);
                &&& final(self).numbers@.len() == kept_nums.len()
                &&& forall|k: int| 0 <= k < final(self).numbers@.len() ==> #[trigger] final(self).numbers@[k] == k + 1
                &&& final(self).current == renumbered(kept_nums, kept_pointer(s, c, old(self).current, c.len() as int), kept_nums.len() as int)
                &&& final(self).built == renumbered(kept_nums, kept_pointer(s, c, old(self).built, c.len() as int), kept_nums.len() as int)
                &&& r.0 + kept_nums.len() == s.len()
                &&& r.1 == displaced(kept_nums, kept_nums.len() as int)
                &&& final(self).journal@ == old(self).journal@ + dedup_ops(s, c, old(self).current, old(self).built, c.len() as int)
                    + align_ops(
                    kept_nums,
                    kept_pointer(s, c, old(self).current, c.len() as int),
                    kept_pointer(s, c, old(self).built, c.len() as int),
                    kept_nums.len() as int,
                )
                &&& survivor_views(c, c.len() as int).len() == kept_nums.len()
                &&& forall|k: int|
                    0 <= k < kept_nums.len() - 1 ==> #[trigger] survivor_views(c, c.len() as int)[k]
                        != survivor_views(c, c.len() as int)[k + 1]
            }),
    {
        let ghost s0 = *self;
        let deleted = self.clean_dups(contents);
        let ghost s1 = *self;
        let moved = self.align();
        proof {
            let k0 = s0.journal@.len() as int;
            let k1 = s1.journal@.len() as int;
            assert(self.journal@.subrange(0, k0) =~= s1.journal@.subrange(0, k0));
            lemma_replay_split(s0.disk(), s1.journal@.skip(k0), self.journal@.skip(k1));
            assert(self.journal@.skip(k0) =~= s1.journal@.skip(k0) + self.journal@.skip(k1));
            let c = generation_views(contents@);
            assert(self.journal@ =~= s0.journal@ + dedup_ops(s0.numbers@, c, s0.current, s0.built, c.len() as int)
                + align_ops(s1.numbers@, s1.current, s1.built, s1.numbers@.len() as int));
        }
        (deleted, moved)
    }
}

} // verus!
