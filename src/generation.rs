//! The declared desired state: imports and item lists per backend.

use vstd::prelude::*;
use crate::text::{lemma_views_prefix, lemma_views_push, views};
use crate::history::{History, HistoryMode, entries, history, history_of};

verus! {

/// The item lists of a generation, keyed by backend name.
///
/// `hashbrown::HashMap` carries an allocator parameter bounded by a trait of
/// a crate this library does not depend on, so the map is held here and
/// reached through the wrappers below.
#[verifier::external_body]
pub struct ManagerMap {
    map: hashbrown::HashMap<String, Vec<String>>,
}

/// What a `ManagerMap` holds: for each backend name, its item list.
pub uninterp spec fn manager_lists(m: ManagerMap) -> Map<Seq<char>, Seq<Seq<char>>>;

/// Relies on `hashbrown::HashMap::new`: the new map is empty.
#[verifier::external_body]
fn map_new() -> (r: ManagerMap)
    ensures
        manager_lists(r).dom().len() == 0,
        manager_lists(r).dom().finite(),
{
    ManagerMap { map: hashbrown::HashMap::new() }
}

/// Relies on `hashbrown::HashMap::get`: the value stored under `k`, if any
/// (handed out as a copy).
#[verifier::external_body]
fn map_get(m: &ManagerMap, k: &String) -> (r: Option<Vec<String>>)
    ensures
        r is Some <==> manager_lists(*m).dom().contains(k@),
        r is Some ==> views(r->0@) == manager_lists(*m)[k@],
{
    m.map.get(k).cloned()
}

/// Relies on `hashbrown::HashMap::insert`: afterwards `k` maps to `v`, and
/// every other key keeps its value.
#[verifier::external_body]
fn map_insert(m: &mut ManagerMap, k: String, v: Vec<String>)
    ensures
        manager_lists(*final(m)) == manager_lists(*old(m)).insert(k@, views(v@)),
{
    m.map.insert(k, v);
}

/// Relies on `hashbrown::HashMap::keys`: every key exactly once, in an order
/// that the map chooses.
#[verifier::external_body]
fn map_keys(m: &ManagerMap) -> (r: Vec<String>)
    ensures
        views(r@).no_duplicates(),
        forall|k: Seq<char>| views(r@).contains(k) <==> manager_lists(*m).dom().contains(k),
{
    m.map.keys().cloned().collect()
}

/// The mathematical value of a generation.
pub struct GenerationView {
    pub imports: Seq<Seq<char>>,
    pub managers: Map<Seq<char>, Seq<Seq<char>>>,
}

/// The list of `name` in `m`, or the empty list where `m` has no entry for it.
pub open spec fn list_or_empty(m: Map<Seq<char>, Seq<Seq<char>>>, name: Seq<char>) -> Seq<Seq<char>> {
    if m.dom().contains(name) {
        m[name]
    } else {
        Seq::empty()
    }
}

/// `a` extended by `b`: imports concatenated, and for each backend the two
/// item lists concatenated.
pub open spec fn merged(a: GenerationView, b: GenerationView) -> GenerationView {
    GenerationView {
        imports: a.imports + b.imports,
        managers: Map::new(
            |k: Seq<char>| a.managers.dom().contains(k) || b.managers.dom().contains(k),
            |k: Seq<char>| list_or_empty(a.managers, k) + list_or_empty(b.managers, k),
        ),
    }
}

/// A generation: the imports still to resolve and the items per backend.
pub struct Generation {
    pub imports: Vec<String>,
    pub managers: ManagerMap,
}

impl View for Generation {
    type V = GenerationView;

    open spec fn view(&self) -> GenerationView {
        GenerationView { imports: views(self.imports@), managers: manager_lists(self.managers) }
    }
}

/// The legacy form of a generation: flat lists for three fixed backends.
pub struct GenerationLegacy {
    pub imports: Vec<String>,
    pub pkgs: Vec<String>,
    pub flatpaks: Vec<String>,
    pub crates: Vec<String>,
}

impl Generation {
    /// A generation with no imports and no backends.
    pub fn new() -> (r: Generation)
        ensures
            r@.imports.len() == 0,
            r@.managers == Map::<Seq<char>, Seq<Seq<char>>>::empty(),
    {
        Generation { imports: Vec::new(), managers: map_new() }
    }

    /// Appends `items` to the list of backend `name`, creating the entry if
    /// needed.
    pub fn add_items(&mut self, name: &String, items: &Vec<String>)
        ensures
            final(self)@.imports == old(self)@.imports,
            final(self)@.managers == old(self)@.managers.insert(
                name@,
                list_or_empty(old(self)@.managers, name@) + views(items@),
            ),
    {
        let mut list = match map_get(&self.managers, name) {
            Some(v) => v,
            None => Vec::new(),
        };
        let ghost start = views(list@);
        let mut i: usize = 0;
        while i < items.len()
            invariant
                i <= items.len(),
                views(list@) == start + views(items@.subrange(0, i as int)),
            decreases items.len() - i,
        {
            let ghost prev = list@;
            list.push(items[i].clone());
            proof {
                lemma_views_push(prev, items@[i as int]);
                lemma_views_prefix(items@, i as int);
            }
            assert(views(list@) =~= start + views(items@.subrange(0, i + 1)));
            i = i + 1;
        }
        assert(items@.subrange(0, items@.len() as int) =~= items@);
        assert(start == list_or_empty(old(self)@.managers, name@));
        map_insert(&mut self.managers, name.clone(), list);
    }

    /// The backend names, each once, in the order the map gives them.
    pub fn manager_names(&self) -> (r: Vec<String>)
        ensures
            views(r@).no_duplicates(),
            forall|k: Seq<char>| views(r@).contains(k) <==> self@.managers.dom().contains(k),
    {
        map_keys(&self.managers)
    }

    /// The item list of backend `name`, if the generation has one.
    pub fn items(&self, name: &String) -> (r: Option<Vec<String>>)
        ensures
            r is Some <==> self@.managers.dom().contains(name@),
            r is Some ==> views(r->0@) == self@.managers[name@],
    {
        map_get(&self.managers, name)
    }

    /// The item list of backend `name`, or an empty list.
    pub fn items_or_empty(&self, name: &String) -> (r: Vec<String>)
        ensures
            views(r@) == list_or_empty(self@.managers, name@),
    {
        match map_get(&self.managers, name) {
            Some(v) => v,
            None => Vec::new(),
        }
    }

    /// Extends this generation by `other_gen`: imports and, per backend, item
    /// lists are concatenated.
    pub fn extend(&mut self, other_gen: Generation)
        ensures
            final(self)@ == merged(old(self)@, other_gen@),
    {
        let mut i: usize = 0;
        while i < other_gen.imports.len()
            invariant
                i <= other_gen.imports.len(),
                self@.imports == old(self)@.imports + views(other_gen.imports@.subrange(0, i as int)),
                self@.managers == old(self)@.managers,
            decreases other_gen.imports.len() - i,
        {
            let ghost prev = self.imports@;
            self.imports.push(other_gen.imports[i].clone());
            proof {
                lemma_views_push(prev, other_gen.imports@[i as int]);
                lemma_views_prefix(other_gen.imports@, i as int);
            }
            assert(self@.imports =~= old(self)@.imports + views(
                other_gen.imports@.subrange(0, i + 1),
            ));
            i = i + 1;
        }
        assert(other_gen.imports@.subrange(0, other_gen.imports@.len() as int) =~= other_gen.imports@);
        let keys = map_keys(&other_gen.managers);
        let ghost a = old(self)@.managers;
        let ghost b = other_gen@.managers;
        let mut j: usize = 0;
        while j < keys.len()
            invariant
                j <= keys.len(),
                views(keys@).no_duplicates(),
                forall|k: Seq<char>| views(keys@).contains(k) <==> b.dom().contains(k),
                self@.imports == merged(old(self)@, other_gen@).imports,
                a == old(self)@.managers,
                b == other_gen@.managers,
                forall|k: Seq<char>| #[trigger]
                    self@.managers.dom().contains(k) <==> (a.dom().contains(k) || views(
                        keys@.subrange(0, j as int),
                    ).contains(k)),
                forall|k: Seq<char>| #[trigger]
                    self@.managers.dom().contains(k) ==> self@.managers[k] == (if views(
                        keys@.subrange(0, j as int),
                    ).contains(k) {
                        list_or_empty(a, k) + list_or_empty(b, k)
                    } else {
                        a[k]
                    }),
            decreases keys.len() - j,
        {
            let k = &keys[j];
            let add = match map_get(&other_gen.managers, k) {
                Some(v) => v,
                None => Vec::new(),
            };
            let ghost before = self@.managers;
            assert(!views(keys@.subrange(0, j as int)).contains(k@)) by {
                if views(keys@.subrange(0, j as int)).contains(k@) {
                    let x = choose|x: int|
                        0 <= x < j && views(keys@.subrange(0, j as int))[x] == k@;
                    assert(views(keys@)[x] == views(keys@)[j as int]);
                }
            }
            self.add_items(k, &add);
            proof {
                let seen = views(keys@.subrange(0, j as int));
                let seen_next = views(keys@.subrange(0, j + 1));
                assert(seen_next =~= seen.push(k@));
                assert forall|x: Seq<char>| seen_next.contains(x) <==> (seen.contains(x) || x == k@) by {
                    if seen_next.contains(x) {
                        let y = choose|y: int| 0 <= y < seen_next.len() && seen_next[y] == x;
                        if y < seen.len() {
                            assert(seen[y] == x);
                        }
                    }
                    if seen.contains(x) {
                        let y = choose|y: int| 0 <= y < seen.len() && seen[y] == x;
                        assert(seen_next[y] == x);
                    }
                    if x == k@ {
                        assert(seen_next[j as int] == x);
                    }
                }
                assert(views(keys@).contains(k@)) by {
                    assert(views(keys@)[j as int] == k@);
                }
                assert(list_or_empty(before, k@) == list_or_empty(a, k@));
            }
            j = j + 1;
        }
        proof {
            assert(keys@.subrange(0, keys@.len() as int) =~= keys@);
            let m = merged(old(self)@, other_gen@).managers;
            assert forall|k: Seq<char>| #[trigger] self@.managers.dom().contains(k) <==> m.dom().contains(k) by {}
            assert forall|k: Seq<char>| #[trigger] self@.managers.dom().contains(k) implies self@.managers[k] == m[k] by {
                if !views(keys@).contains(k) {
                    assert(list_or_empty(b, k) =~= Seq::<Seq<char>>::empty());
                    assert(a[k] + list_or_empty(b, k) =~= a[k]);
                }
            }
            assert(self@.managers =~= m);
        }
    }

    /// Whether the two generations have the same imports and the same item
    /// lists per backend.
    pub fn same_as(&self, other: &Generation) -> (r: bool)
        ensures
            r == (self@ == other@),
    {
        if self.imports.len() != other.imports.len() {
            assert(self@.imports.len() != other@.imports.len());
            return false;
        }
        let mut i: usize = 0;
        while i < self.imports.len()
            invariant
                i <= self.imports.len(),
                self.imports.len() == other.imports.len(),
                forall|x: int| 0 <= x < i ==> self.imports@[x]@ == other.imports@[x]@,
            decreases self.imports.len() - i,
        {
            if self.imports[i] != other.imports[i] {
                assert(self@.imports[i as int] != other@.imports[i as int]);
                return false;
            }
            i = i + 1;
        }
        assert(self@.imports =~= other@.imports);
        let ka = map_keys(&self.managers);
        let mut j: usize = 0;
        while j < ka.len()
            invariant
                j <= ka.len(),
                forall|k: Seq<char>| views(ka@).contains(k) <==> self@.managers.dom().contains(k),
                forall|x: int| #![trigger ka@[x]]
                    0 <= x < j ==> other@.managers.dom().contains(ka@[x]@)
                        && other@.managers[ka@[x]@] == self@.managers[ka@[x]@],
            decreases ka.len() - j,
        {
            assert(views(ka@).contains(ka@[j as int]@)) by {
                assert(views(ka@)[j as int] == ka@[j as int]@);
            }
            let va = map_get(&self.managers, &ka[j]);
            let vb = map_get(&other.managers, &ka[j]);
            match (va, vb) {
                (Some(x), Some(y)) => {
                    if !same_lists(&x, &y) {
                        return false;
                    }
                },
                _ => {
                    return false;
                },
            }
            j = j + 1;
        }
        let kb = map_keys(&other.managers);
        let mut l: usize = 0;
        while l < kb.len()
            invariant
                l <= kb.len(),
                forall|k: Seq<char>| views(kb@).contains(k) <==> other@.managers.dom().contains(k),
                forall|x: int| #![trigger kb@[x]]
                    0 <= x < l ==> self@.managers.dom().contains(kb@[x]@),
            decreases kb.len() - l,
        {
            assert(views(kb@).contains(kb@[l as int]@)) by {
                assert(views(kb@)[l as int] == kb@[l as int]@);
            }
            match map_get(&self.managers, &kb[l]) {
                Some(_) => {},
                None => {
                    return false;
                },
            }
            l = l + 1;
        }
        proof {
            assert forall|k: Seq<char>| #[trigger] self@.managers.dom().contains(k) implies other@.managers.dom().contains(k)
                && other@.managers[k] == self@.managers[k] by {
                let x = choose|x: int| 0 <= x < views(ka@).len() && views(ka@)[x] == k;
                assert(ka@[x]@ == k);
            }
            assert forall|k: Seq<char>| #[trigger] other@.managers.dom().contains(k) implies self@.managers.dom().contains(k) by {
                let x = choose|x: int| 0 <= x < views(kb@).len() && views(kb@)[x] == k;
                assert(kb@[x]@ == k);
            }
            assert(self@.managers =~= other@.managers);
        }
        true
    }
}

/// Whether two string lists are equal element by element.
fn same_lists(a: &Vec<String>, b: &Vec<String>) -> (r: bool)
    ensures
        r == (views(a@) == views(b@)),
{
    if a.len() != b.len() {
        assert(views(a@).len() != views(b@).len());
        return false;
    }
    let mut i: usize = 0;
    while i < a.len()
        invariant
            i <= a.len(),
            a.len() == b.len(),
            forall|x: int| 0 <= x < i ==> a@[x]@ == b@[x]@,
        decreases a.len() - i,
    {
        if a[i] != b[i] {
            assert(views(a@)[i as int] != views(b@)[i as int]);
            return false;
        }
        i = i + 1;
    }
    assert(views(a@) =~= views(b@));
    true
}


/// The three backends that the legacy form names.
pub open spec fn legacy_managers(pkgs: Seq<Seq<char>>, flatpaks: Seq<Seq<char>>, crates: Seq<Seq<char>>) -> Map<
    Seq<char>,
    Seq<Seq<char>>,
> {
    Map::empty().insert("system"@, pkgs).insert("flatpak"@, flatpaks).insert("cargo"@, crates)
}

impl GenerationLegacy {
    /// The same content in the current form: `pkgs`, `flatpaks` and `crates`
    /// become the backends `system`, `flatpak` and `cargo`.
    pub fn migrate(self) -> (r: Generation)
        ensures
            r@.imports == views(self.imports@),
            r@.managers == legacy_managers(
                views(self.pkgs@),
                views(self.flatpaks@),
                views(self.crates@),
            ),
    {
        let mut generation = Generation::new();
        generation.imports = self.imports;
        proof {
            reveal_strlit("system");
            reveal_strlit("flatpak");
            reveal_strlit("cargo");
        }
        map_insert(&mut generation.managers, String::from_str("system"), self.pkgs);
        map_insert(&mut generation.managers, String::from_str("flatpak"), self.flatpaks);
        map_insert(&mut generation.managers, String::from_str("cargo"), self.crates);
        assert(generation@.managers =~= legacy_managers(
            views(self.pkgs@),
            views(self.flatpaks@),
            views(self.crates@),
        ));
        generation
    }
}

/// A generation file as read: in the current form, or in the legacy form.
pub enum GenerationFile {
    Current(Generation),
    Legacy(GenerationLegacy),
}

impl GenerationFile {
    /// The generation that the file describes, legacy content migrated.
    pub fn into_generation(self) -> (r: Generation)
        ensures
            match self {
                GenerationFile::Current(g) => r@ == g@,
                GenerationFile::Legacy(l) => r@.imports == views(l.imports@) && r@.managers
                    == legacy_managers(views(l.pkgs@), views(l.flatpaks@), views(l.crates@)),
            },
    {
        match self {
            GenerationFile::Current(g) => g,
            GenerationFile::Legacy(l) => l.migrate(),
        }
    }
}

/// The difference of one backend between two generations.
pub struct BackendHistory {
    pub name: String,
    pub entries: Vec<History>,
}

/// The difference of backend `name` from `a` to `b`; a backend that one side
/// lacks counts there as an empty list.
pub open spec fn backend_history(a: GenerationView, b: GenerationView, name: Seq<char>) -> Seq<
    (HistoryMode, Seq<char>),
> {
    history_of(list_or_empty(a.managers, name), list_or_empty(b.managers, name))
}

/// Whether `r` lists each backend of `a` or `b` exactly once, with its
/// difference.
pub open spec fn is_generation_history(r: Seq<BackendHistory>, a: GenerationView, b: GenerationView) -> bool {
    &&& forall|i: int, j: int| 0 <= i < j < r.len() ==> r[i].name@ != r[j].name@
    &&& forall|i: int| #![trigger r[i]]
        0 <= i < r.len() ==> (a.managers.dom().contains(r[i].name@) || b.managers.dom().contains(
            r[i].name@,
        )) && entries(r[i].entries@) == backend_history(a, b, r[i].name@)
    &&& forall|k: Seq<char>|
        a.managers.dom().contains(k) || b.managers.dom().contains(k) ==> exists|i: int|
            0 <= i < r.len() && #[trigger] r[i].name@ == k
}

proof fn lemma_push_contains(s: Seq<Seq<char>>, e: Seq<char>)
    ensures
        forall|x: Seq<char>| #[trigger] s.push(e).contains(x) <==> (s.contains(x) || x == e),
{
    assert forall|x: Seq<char>| #[trigger] s.push(e).contains(x) <==> (s.contains(x) || x == e) by {
        let t = s.push(e);
        if t.contains(x) {
            let i = choose|i: int| 0 <= i < t.len() && t[i] == x;
            if i < s.len() {
                assert(s[i] == x);
                assert(s.contains(x));
            }
        }
        if s.contains(x) {
            let i = choose|i: int| 0 <= i < s.len() && s[i] == x;
            assert(t[i] == x);
        }
        if x == e {
            assert(t[s.len() as int] == x);
        }
    }
}

proof fn lemma_push_no_duplicates(s: Seq<Seq<char>>, e: Seq<char>)
    requires
        s.no_duplicates(),
        !s.contains(e),
    ensures
        s.push(e).no_duplicates(),
{
    assert forall|i: int, j: int| 0 <= i < s.push(e).len() && 0 <= j < s.push(e).len() && i != j
        implies s.push(e)[i] != s.push(e)[j] by {
        if i < s.len() && j < s.len() {
        } else if i < s.len() {
            assert(s.contains(s[i]));
        } else if j < s.len() {
            assert(s.contains(s[j]));
        }
    }
}

/// The backends of `gen_1` or `gen_2`, each once.
pub fn backend_names(gen_1: &Generation, gen_2: &Generation) -> (r: Vec<String>)
    ensures
        views(r@).no_duplicates(),
        forall|k: Seq<char>|
            views(r@).contains(k) <==> (gen_1@.managers.dom().contains(k)
                || gen_2@.managers.dom().contains(k)),
{
    let mut names = gen_2.manager_names();
    let k1 = gen_1.manager_names();
    let mut j: usize = 0;
    while j < k1.len()
        invariant
            j <= k1.len(),
            views(k1@).no_duplicates(),
            forall|k: Seq<char>| views(k1@).contains(k) <==> gen_1@.managers.dom().contains(k),
            views(names@).no_duplicates(),
            forall|k: Seq<char>|
                views(names@).contains(k) <==> (gen_2@.managers.dom().contains(k)
                    || views(k1@.subrange(0, j as int)).contains(k)),
        decreases k1.len() - j,
    {
        proof {
            lemma_views_prefix(k1@, j as int);
            lemma_push_contains(views(k1@.subrange(0, j as int)), k1@[j as int]@);
        }
        match gen_2.items(&k1[j]) {
            Some(_) => {},
            None => {
                assert(!views(names@).contains(k1@[j as int]@)) by {
                    if views(k1@.subrange(0, j as int)).contains(k1@[j as int]@) {
                        let x = choose|x: int|
                            0 <= x < j && views(k1@.subrange(0, j as int))[x] == k1@[j as int]@;
                        assert(views(k1@)[x] == views(k1@)[j as int]);
                    }
                }
                let ghost prev = names@;
                names.push(k1[j].clone());
                proof {
                    lemma_views_push(prev, k1@[j as int]);
                    lemma_push_contains(views(prev), k1@[j as int]@);
                    lemma_push_no_duplicates(views(prev), k1@[j as int]@);
                }
            },
        }
        j = j + 1;
    }
    proof {
        assert(k1@.subrange(0, k1@.len() as int) =~= k1@);
    }
    names
}

/// The difference from `gen_1` to `gen_2`, backend by backend.
pub fn history_gen(gen_1: &Generation, gen_2: &Generation) -> (r: Vec<BackendHistory>)
    ensures
        is_generation_history(r@, gen_1@, gen_2@),
{
    let names = backend_names(gen_1, gen_2);
    let mut out: Vec<BackendHistory> = Vec::new();
    let mut i: usize = 0;
    while i < names.len()
        invariant
            i <= names.len(),
            views(names@).no_duplicates(),
            forall|k: Seq<char>|
                views(names@).contains(k) <==> (gen_1@.managers.dom().contains(k)
                    || gen_2@.managers.dom().contains(k)),
            out@.len() == i,
            forall|x: int| #![trigger out@[x]]
                0 <= x < i ==> out@[x].name@ == names@[x]@ && entries(out@[x].entries@)
                    == backend_history(gen_1@, gen_2@, out@[x].name@),
        decreases names.len() - i,
    {
        let before = gen_1.items_or_empty(&names[i]);
        let after = gen_2.items_or_empty(&names[i]);
        let entries_of = history(before.as_slice(), after.as_slice());
        out.push(BackendHistory { name: names[i].clone(), entries: entries_of });
        i = i + 1;
    }
    proof {
        assert forall|x: int, y: int| 0 <= x < y < out@.len() implies out@[x].name@ != out@[y].name@ by {
            assert(views(names@)[x] != views(names@)[y]);
        }
        assert forall|x: int| #![trigger out@[x]] 0 <= x < out@.len() implies (gen_1@.managers.dom().contains(
            out@[x].name@,
        ) || gen_2@.managers.dom().contains(out@[x].name@)) by {
            assert(views(names@)[x] == out@[x].name@);
            assert(views(names@).contains(out@[x].name@));
        }
        assert forall|k: Seq<char>|
            gen_1@.managers.dom().contains(k) || gen_2@.managers.dom().contains(k) implies exists|i: int|
                0 <= i < out@.len() && #[trigger] out@[i].name@ == k by {
            assert(views(names@).contains(k));
            let x = choose|x: int| 0 <= x < views(names@).len() && views(names@)[x] == k;
            assert(out@[x].name@ == k);
        }
    }
    out
}

} // verus!
