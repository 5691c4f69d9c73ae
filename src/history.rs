//! The reconciliation engine: the classified difference between two item
//! lists.

use vstd::prelude::*;
use crate::text::{blank, is_blank, views};

verus! {

/// Whether an item is to be removed or added.
#[derive(Clone, Copy, Debug, PartialEq, Eq, Structural)]
pub enum HistoryMode {
    Remove,
    Add,
}

/// One line of a difference: an item and what happens to it.
#[derive(Debug)]
pub struct History {
    pub mode: HistoryMode,
    pub line: String,
}

impl History {
    pub open spec fn view(&self) -> (HistoryMode, Seq<char>) {
        (self.mode, self.line@)
    }
}

/// The views of a sequence of history entries.
pub open spec fn entries(h: Seq<History>) -> Seq<(HistoryMode, Seq<char>)> {
    h.map_values(|e: History| e.view())
}

/// `s` without repeated items, each kept at its first occurrence.
pub open spec fn dedup(s: Seq<Seq<char>>) -> Seq<Seq<char>>
    decreases s.len(),
{
    if s.len() == 0 {
        s
    } else if s.drop_last().contains(s.last()) {
        dedup(s.drop_last())
    } else {
        dedup(s.drop_last()).push(s.last())
    }
}

/// The items of `from` (deduplicated, blank ones dropped) that `other` lacks.
pub open spec fn missing_from(from: Seq<Seq<char>>, other: Seq<Seq<char>>) -> Seq<Seq<char>> {
    dedup(from).filter(|x: Seq<char>| !is_blank(x) && !other.contains(x))
}

/// Tags each item with `mode`.
pub open spec fn tagged(s: Seq<Seq<char>>, mode: HistoryMode) -> Seq<(HistoryMode, Seq<char>)> {
    s.map_values(|x: Seq<char>| (mode, x))
}

/// The difference from `before` to `after`: removals first, then additions,
/// each in the order of first occurrence in its source list.
pub open spec fn history_of(before: Seq<Seq<char>>, after: Seq<Seq<char>>) -> Seq<
    (HistoryMode, Seq<char>),
> {
    tagged(missing_from(before, after), HistoryMode::Remove) + tagged(
        missing_from(after, before),
        HistoryMode::Add,
    )
}

/// The other mode.
pub open spec fn flipped(m: HistoryMode) -> HistoryMode {
    match m {
        HistoryMode::Remove => HistoryMode::Add,
        HistoryMode::Add => HistoryMode::Remove,
    }
}

pub proof fn lemma_dedup(s: Seq<Seq<char>>)
    ensures
        dedup(s).no_duplicates(),
        forall|x: Seq<char>| dedup(s).contains(x) <==> s.contains(x),
    decreases s.len(),
{
    if s.len() > 0 {
        lemma_dedup(s.drop_last());
        assert forall|x: Seq<char>| s.contains(x) <==> (s.drop_last().contains(x) || x == s.last()) by {
            if s.contains(x) {
                let i = choose|i: int| 0 <= i < s.len() && s[i] == x;
                if i < s.len() - 1 {
                    assert(s.drop_last()[i] == x);
                }
            }
            if s.drop_last().contains(x) {
                let i = choose|i: int| 0 <= i < s.drop_last().len() && s.drop_last()[i] == x;
                assert(s[i] == x);
            }
            if x == s.last() {
                assert(s[s.len() - 1] == x);
            }
        }
        if !s.drop_last().contains(s.last()) {
            let d = dedup(s.drop_last());
            assert forall|x: Seq<char>| d.push(s.last()).contains(x) <==> (d.contains(x) || x == s.last()) by {
                if d.push(s.last()).contains(x) {
                    let i = choose|i: int| 0 <= i < d.len() + 1 && d.push(s.last())[i] == x;
                    if i < d.len() {
                        assert(d[i] == x);
                    }
                }
                if d.contains(x) {
                    let i = choose|i: int| 0 <= i < d.len() && d[i] == x;
                    assert(d.push(s.last())[i] == x);
                }
                if x == s.last() {
                    assert(d.push(s.last())[d.len() as int] == x);
                }
            }
        }
    }
}

proof fn lemma_filter_no_duplicates(s: Seq<Seq<char>>, p: spec_fn(Seq<char>) -> bool)
    requires
        s.no_duplicates(),
    ensures
        s.filter(p).no_duplicates(),
        forall|x: Seq<char>| s.filter(p).contains(x) <==> (s.contains(x) && p(x)),
    decreases s.len(),
{
    reveal(Seq::filter);
    if s.len() > 0 {
        assert(s.drop_last().no_duplicates()) by {
            assert forall|i: int, j: int|
                0 <= i < s.drop_last().len() && 0 <= j < s.drop_last().len() && i != j implies
                s.drop_last()[i] != s.drop_last()[j] by {
                assert(s[i] != s[j]);
            }
        }
        lemma_filter_no_duplicates(s.drop_last(), p);
        let f = s.drop_last().filter(p);
        assert(!s.drop_last().contains(s.last())) by {
            if s.drop_last().contains(s.last()) {
                let i = choose|i: int| 0 <= i < s.drop_last().len() && s.drop_last()[i] == s.last();
                assert(s[i] == s[s.len() - 1]);
            }
        }
        assert forall|x: Seq<char>| s.contains(x) <==> (s.drop_last().contains(x) || x == s.last()) by {
            if s.contains(x) {
                let i = choose|i: int| 0 <= i < s.len() && s[i] == x;
                if i < s.len() - 1 {
                    assert(s.drop_last()[i] == x);
                }
            }
            if s.drop_last().contains(x) {
                let i = choose|i: int| 0 <= i < s.drop_last().len() && s.drop_last()[i] == x;
                assert(s[i] == x);
            }
            if x == s.last() {
                assert(s[s.len() - 1] == x);
            }
        }
        if p(s.last()) {
            assert(s.filter(p) == f.push(s.last()));
            assert forall|x: Seq<char>| f.push(s.last()).contains(x) <==> (f.contains(x) || x == s.last()) by {
                if f.push(s.last()).contains(x) {
                    let i = choose|i: int| 0 <= i < f.len() + 1 && f.push(s.last())[i] == x;
                    if i < f.len() {
                        assert(f[i] == x);
                    }
                }
                if f.contains(x) {
                    let i = choose|i: int| 0 <= i < f.len() && f[i] == x;
                    assert(f.push(s.last())[i] == x);
                }
                if x == s.last() {
                    assert(f.push(s.last())[f.len() as int] == x);
                }
            }
        } else {
            assert(s.filter(p) == f);
        }
    }
}


/// Whether `v` holds a string equal to `x`.
pub fn contains_str(v: &[String], x: &String) -> (r: bool)
    ensures
        r == views(v@).contains(x@),
{
    let mut i: usize = 0;
    while i < v.len()
        invariant
            i <= v.len(),
            forall|j: int| 0 <= j < i ==> v@[j]@ != x@,
        decreases v.len() - i,
    {
        if v[i] == *x {
            assert(views(v@)[i as int] == x@);
            return true;
        }
        i = i + 1;
    }
    proof {
        if views(v@).contains(x@) {
            let j = choose|j: int| 0 <= j < views(v@).len() && views(v@)[j] == x@;
            assert(v@[j]@ == x@);
        }
    }
    false
}

/// The items of `dup_vec` without repetitions, each at its first occurrence.
pub fn remove_array_duplicates(dup_vec: &[String]) -> (r: Vec<String>)
    ensures
        views(r@) == dedup(views(dup_vec@)),
{
    let mut new_vec: Vec<String> = Vec::new();
    let mut i: usize = 0;
    while i < dup_vec.len()
        invariant
            i <= dup_vec.len(),
            views(new_vec@) == dedup(views(dup_vec@.subrange(0, i as int))),
        decreases dup_vec.len() - i,
    {
        let ghost prefix = views(dup_vec@.subrange(0, i as int));
        let ghost next = views(dup_vec@.subrange(0, i + 1));
        proof {
            assert(next.drop_last() =~= prefix);
            assert(next.last() == dup_vec@[i as int]@);
            lemma_dedup(prefix);
        }
        if !contains_str(new_vec.as_slice(), &dup_vec[i]) {
            new_vec.push(dup_vec[i].clone());
            assert(views(new_vec@) =~= dedup(prefix).push(next.last()));
        }
        i = i + 1;
    }
    assert(dup_vec@.subrange(0, dup_vec@.len() as int) =~= dup_vec@);
    new_vec
}

/// Appends, tagged with `mode`, the items of `from` that are not blank and
/// that `other` lacks.
fn push_missing(out: &mut Vec<History>, from: &Vec<String>, other: &Vec<String>, mode: HistoryMode)
    ensures
        entries(final(out)@) == entries(old(out)@) + tagged(
            views(from@).filter(|x: Seq<char>| !is_blank(x) && !views(other@).contains(x)),
            mode,
        ),
{
    let ghost pred = |x: Seq<char>| !is_blank(x) && !views(other@).contains(x);
    let ghost start = entries(out@);
    let mut i: usize = 0;
    while i < from.len()
        invariant
            i <= from.len(),
            pred == (|x: Seq<char>| !is_blank(x) && !views(other@).contains(x)),
            entries(out@) == start + tagged(views(from@.subrange(0, i as int)).filter(pred), mode),
        decreases from.len() - i,
    {
        let ghost prefix = views(from@.subrange(0, i as int));
        let ghost next = views(from@.subrange(0, i + 1));
        proof {
            assert(next.drop_last() =~= prefix);
            assert(next.last() == from@[i as int]@);
        }
        if !blank(from[i].as_str()) && !contains_str(other.as_slice(), &from[i]) {
            let ghost old_out = out@;
            out.push(History { mode, line: from[i].clone() });
            proof {
                reveal(Seq::filter);
                assert(next.filter(pred) == prefix.filter(pred).push(next.last()));
                assert(entries(out@) =~= entries(old_out).push((mode, next.last())));
                assert(tagged(next.filter(pred), mode) =~= tagged(prefix.filter(pred), mode).push(
                    (mode, next.last()),
                ));
            }
        } else {
            proof {
                reveal(Seq::filter);
                assert(next.filter(pred) == prefix.filter(pred));
            }
        }
        i = i + 1;
    }
    assert(from@.subrange(0, from@.len() as int) =~= from@);
}

/// The difference from `array_1` to `array_2`: an item only in the first is
/// removed, one only in the second is added. Both lists are deduplicated and
/// their blank items ignored.
pub fn history(array_1: &[String], array_2: &[String]) -> (r: Vec<History>)
    ensures
        entries(r@) == history_of(views(array_1@), views(array_2@)),
{
    let lines_1 = remove_array_duplicates(array_1);
    let lines_2 = remove_array_duplicates(array_2);
    proof {
        lemma_dedup(views(array_1@));
        lemma_dedup(views(array_2@));
        assert(views(lines_1@).to_set() =~= views(array_1@).to_set());
    }
    let mut history_vec: Vec<History> = Vec::new();
    push_missing(&mut history_vec, &lines_1, &lines_2, HistoryMode::Remove);
    push_missing(&mut history_vec, &lines_2, &lines_1, HistoryMode::Add);
    proof {
        let a = views(array_1@);
        let b = views(array_2@);
        let drop_pred = |x: Seq<char>| !is_blank(x) && !views(lines_2@).contains(x);
        let drop_spec = |x: Seq<char>| !is_blank(x) && !b.contains(x);
        let add_pred = |x: Seq<char>| !is_blank(x) && !views(lines_1@).contains(x);
        let add_spec = |x: Seq<char>| !is_blank(x) && !a.contains(x);
        assert(drop_pred =~= drop_spec);
        assert(add_pred =~= add_spec);
        assert(entries(history_vec@) =~= history_of(a, b));
    }
    history_vec
}


proof fn lemma_missing_from(from: Seq<Seq<char>>, other: Seq<Seq<char>>)
    ensures
        missing_from(from, other).no_duplicates(),
        forall|x: Seq<char>|
            missing_from(from, other).contains(x) <==> (from.contains(x) && !is_blank(x)
                && !other.contains(x)),
{
    lemma_dedup(from);
    lemma_filter_no_duplicates(dedup(from), |x: Seq<char>| !is_blank(x) && !other.contains(x));
}

proof fn lemma_tagged(s: Seq<Seq<char>>, m: HistoryMode)
    ensures
        tagged(s, m).len() == s.len(),
        forall|i: int| 0 <= i < s.len() ==> #[trigger] tagged(s, m)[i] == (m, s[i]),
        forall|m2: HistoryMode, x: Seq<char>|
            tagged(s, m).contains((m2, x)) <==> (m2 == m && s.contains(x)),
{
    assert forall|m2: HistoryMode, x: Seq<char>|
        tagged(s, m).contains((m2, x)) <==> (m2 == m && s.contains(x)) by {
        if tagged(s, m).contains((m2, x)) {
            let i = choose|i: int| 0 <= i < tagged(s, m).len() && tagged(s, m)[i] == (m2, x);
            assert(s[i] == x);
        }
        if m2 == m && s.contains(x) {
            let i = choose|i: int| 0 <= i < s.len() && s[i] == x;
            assert(tagged(s, m)[i] == (m2, x));
        }
    }
}

proof fn lemma_history_contains(a: Seq<Seq<char>>, b: Seq<Seq<char>>)
    ensures
        forall|m: HistoryMode, x: Seq<char>|
            history_of(a, b).contains((m, x)) <==> ((m == HistoryMode::Remove && a.contains(x)
                && !b.contains(x) && !is_blank(x)) || (m == HistoryMode::Add && b.contains(x)
                && !a.contains(x) && !is_blank(x))),
{
    lemma_missing_from(a, b);
    lemma_missing_from(b, a);
    let r = tagged(missing_from(a, b), HistoryMode::Remove);
    let d = tagged(missing_from(b, a), HistoryMode::Add);
    lemma_tagged(missing_from(a, b), HistoryMode::Remove);
    lemma_tagged(missing_from(b, a), HistoryMode::Add);
    assert forall|e: (HistoryMode, Seq<char>)| (r + d).contains(e) <==> (r.contains(e) || d.contains(e)) by {
        if (r + d).contains(e) {
            let i = choose|i: int| 0 <= i < (r + d).len() && (r + d)[i] == e;
            if i < r.len() {
                assert(r[i] == e);
            } else {
                assert(d[i - r.len()] == e);
            }
        }
        if r.contains(e) {
            let i = choose|i: int| 0 <= i < r.len() && r[i] == e;
            assert((r + d)[i] == e);
        }
        if d.contains(e) {
            let i = choose|i: int| 0 <= i < d.len() && d[i] == e;
            assert((r + d)[i + r.len()] == e);
        }
    }
    assert forall|m: HistoryMode, x: Seq<char>|
        history_of(a, b).contains((m, x)) <==> ((m == HistoryMode::Remove && a.contains(x)
            && !b.contains(x) && !is_blank(x)) || (m == HistoryMode::Add && b.contains(x)
            && !a.contains(x) && !is_blank(x))) by {
        assert(history_of(a, b) == r + d);
        assert((r + d).contains((m, x)) <==> (r.contains((m, x)) || d.contains((m, x))));
    }
}

/// The difference of a list from itself is empty.
pub proof fn lemma_history_of_same(a: Seq<Seq<char>>)
    ensures
        history_of(a, a) == Seq::<(HistoryMode, Seq<char>)>::empty(),
{
    lemma_history_contains(a, a);
    if history_of(a, a).len() > 0 {
        let e = history_of(a, a)[0];
        assert(history_of(a, a).contains(e));
    }
    assert(history_of(a, a) =~= Seq::<(HistoryMode, Seq<char>)>::empty());
}

/// The items of the entries of `h` that have mode `m`, in order.
pub open spec fn items_with(h: Seq<(HistoryMode, Seq<char>)>, m: HistoryMode) -> Seq<Seq<char>> {
    h.filter(|e: (HistoryMode, Seq<char>)| e.0 == m).map_values(|e: (HistoryMode, Seq<char>)| e.1)
}

proof fn lemma_items_with_tagged(s: Seq<Seq<char>>, t: HistoryMode, m: HistoryMode)
    ensures
        items_with(tagged(s, t), m) == (if t == m { s } else { Seq::empty() }),
    decreases s.len(),
{
    let p = |e: (HistoryMode, Seq<char>)| e.0 == m;
    reveal(Seq::filter);
    if s.len() > 0 {
        lemma_items_with_tagged(s.drop_last(), t, m);
        assert(tagged(s, t).drop_last() =~= tagged(s.drop_last(), t));
        assert(tagged(s, t).last() == (t, s.last()));
        if t == m {
            assert(tagged(s, t).filter(p) == tagged(s.drop_last(), t).filter(p).push((t, s.last())));
            assert(items_with(tagged(s, t), m) =~= items_with(tagged(s.drop_last(), t), m).push(s.last()));
            assert(s.drop_last().push(s.last()) =~= s);
        } else {
            assert(tagged(s, t).filter(p) == tagged(s.drop_last(), t).filter(p));
        }
    } else {
        assert(tagged(s, t).filter(p) =~= Seq::<(HistoryMode, Seq<char>)>::empty());
        assert(items_with(tagged(s, t), m) =~= Seq::<Seq<char>>::empty());
    }
}

proof fn lemma_items_with_history(a: Seq<Seq<char>>, b: Seq<Seq<char>>)
    ensures
        items_with(history_of(a, b), HistoryMode::Remove) == missing_from(a, b),
        items_with(history_of(a, b), HistoryMode::Add) == missing_from(b, a),
{
    let r = tagged(missing_from(a, b), HistoryMode::Remove);
    let d = tagged(missing_from(b, a), HistoryMode::Add);
    let pr = |e: (HistoryMode, Seq<char>)| e.0 == HistoryMode::Remove;
    let pa = |e: (HistoryMode, Seq<char>)| e.0 == HistoryMode::Add;
    Seq::filter_distributes_over_add(r, d, pr);
    Seq::filter_distributes_over_add(r, d, pa);
    lemma_items_with_tagged(missing_from(a, b), HistoryMode::Remove, HistoryMode::Remove);
    lemma_items_with_tagged(missing_from(a, b), HistoryMode::Remove, HistoryMode::Add);
    lemma_items_with_tagged(missing_from(b, a), HistoryMode::Add, HistoryMode::Remove);
    lemma_items_with_tagged(missing_from(b, a), HistoryMode::Add, HistoryMode::Add);
    let f = |e: (HistoryMode, Seq<char>)| e.1;
    assert((r.filter(pr) + d.filter(pr)).map_values(f) =~= r.filter(pr).map_values(f) + d.filter(pr).map_values(f));
    assert((r.filter(pa) + d.filter(pa)).map_values(f) =~= r.filter(pa).map_values(f) + d.filter(pa).map_values(f));
    assert(missing_from(a, b) + Seq::<Seq<char>>::empty() =~= missing_from(a, b));
    assert(Seq::<Seq<char>>::empty() + missing_from(b, a) =~= missing_from(b, a));
}

/// Swapping the two lists swaps additions and removals: the reverse
/// difference holds exactly the same items, each with the other mode, and
/// the items of each mode come in the same order.
pub proof fn lemma_history_of_swapped(a: Seq<Seq<char>>, b: Seq<Seq<char>>)
    ensures
        forall|m: HistoryMode, x: Seq<char>|
            history_of(b, a).contains((m, x)) <==> history_of(a, b).contains((flipped(m), x)),
        history_of(b, a).len() == history_of(a, b).len(),
        items_with(history_of(b, a), HistoryMode::Add) == items_with(history_of(a, b), HistoryMode::Remove),
        items_with(history_of(b, a), HistoryMode::Remove) == items_with(history_of(a, b), HistoryMode::Add),
{
    lemma_history_contains(a, b);
    lemma_history_contains(b, a);
    lemma_items_with_history(a, b);
    lemma_items_with_history(b, a);
}

/// A difference never holds a blank item, and never names an item twice,
/// whatever repetitions and blank entries the two lists hold.
pub proof fn lemma_history_of_clean(a: Seq<Seq<char>>, b: Seq<Seq<char>>)
    ensures
        forall|i: int| 0 <= i < history_of(a, b).len() ==> !is_blank(#[trigger] history_of(a, b)[i].1),
        forall|i: int, j: int|
            0 <= i < j < history_of(a, b).len() ==> #[trigger] history_of(a, b)[i].1
                != #[trigger] history_of(a, b)[j].1,
{
    lemma_missing_from(a, b);
    lemma_missing_from(b, a);
    let rm = missing_from(a, b);
    let ad = missing_from(b, a);
    lemma_tagged(rm, HistoryMode::Remove);
    lemma_tagged(ad, HistoryMode::Add);
    let h = history_of(a, b);
    assert forall|i: int| 0 <= i < h.len() implies !is_blank(#[trigger] h[i].1) by {
        if i < rm.len() {
            assert(rm.contains(rm[i]));
        } else {
            assert(ad.contains(ad[i - rm.len()]));
        }
    }
    assert forall|i: int, j: int| 0 <= i < j < h.len() implies #[trigger] h[i].1 != #[trigger] h[j].1 by {
        if j < rm.len() {
        } else if i >= rm.len() {
            assert(ad[i - rm.len()] != ad[j - rm.len()]);
        } else {
            assert(rm.contains(rm[i]));
            assert(ad.contains(ad[j - rm.len()]));
        }
    }
}


/// The items of `from` that are not blank and that `other` lacks, each once,
/// in the order of first occurrence in `from`.
pub fn missing_items(from: &[String], other: &[String]) -> (r: Vec<String>)
    ensures
        views(r@) == missing_from(views(from@), views(other@)),
{
    let lines = remove_array_duplicates(from);
    let ghost pred = |x: Seq<char>| !is_blank(x) && !views(other@).contains(x);
    let mut out: Vec<String> = Vec::new();
    let mut i: usize = 0;
    while i < lines.len()
        invariant
            i <= lines.len(),
            pred == (|x: Seq<char>| !is_blank(x) && !views(other@).contains(x)),
            views(out@) == views(lines@.subrange(0, i as int)).filter(pred),
        decreases lines.len() - i,
    {
        let ghost prefix = views(lines@.subrange(0, i as int));
        let ghost next = views(lines@.subrange(0, i + 1));
        proof {
            assert(next.drop_last() =~= prefix);
            assert(next.last() == lines@[i as int]@);
        }
        if !blank(lines[i].as_str()) && !contains_str(other, &lines[i]) {
            let ghost prev = out@;
            out.push(lines[i].clone());
            proof {
                reveal(Seq::filter);
                assert(next.filter(pred) == prefix.filter(pred).push(next.last()));
                assert(views(out@) =~= views(prev).push(next.last()));
            }
        } else {
            proof {
                reveal(Seq::filter);
                assert(next.filter(pred) == prefix.filter(pred));
            }
        }
        i = i + 1;
    }
    assert(lines@.subrange(0, lines@.len() as int) =~= lines@);
    out
}

} // verus!
