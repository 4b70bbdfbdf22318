//! The scopes in which names are looked up: a scope and the chain of the
//! scopes around it.

use vstd::prelude::*;
use crate::text::str_equal;

verus! {

/// A scope as a mathematical value: its names, each with its slot, in the
/// order in which they came.
pub type Level = Seq<(Seq<char>, nat)>;

/// The place of `name` among the entries of `level` from `from` on.
pub open spec fn place(level: Level, name: Seq<char>, from: int) -> Option<int>
    decreases level.len() - from,
{
    if from < 0 || from >= level.len() {
        None
    } else if level[from].0 == name {
        Some(from)
    } else {
        place(level, name, from + 1)
    }
}

/// What `place` finds is an entry of the level that holds the name, and the
/// first such.
pub proof fn lemma_place(level: Level, name: Seq<char>, from: int)
    requires
        0 <= from,
    ensures
        match place(level, name, from) {
            Some(i) => from <= i < level.len() && level[i].0 == name && forall|k: int|
                from <= k < i ==> (#[trigger] level[k]).0 != name,
            None => forall|k: int| from <= k < level.len() ==> (#[trigger] level[k]).0 != name,
        },
    decreases level.len() - from,
{
    if from < level.len() && level[from].0 != name {
        lemma_place(level, name, from + 1);
    }
}

/// The slot of `name` in `level`, if the level holds the name.
pub open spec fn lookup(level: Level, name: Seq<char>) -> Option<nat> {
    match place(level, name, 0) {
        Some(i) => Some(level[i].1),
        None => None,
    }
}

/// A name that is put behind the entries of a level that does not hold it
/// is found there.
pub proof fn lemma_place_pushed(level: Level, name: Seq<char>, slot: nat)
    requires
        place(level, name, 0) is None,
    ensures
        place(level.push((name, slot)), name, 0) == Some(level.len() as int),
{
    let after = level.push((name, slot));
    lemma_place(level, name, 0);
    lemma_place(after, name, 0);
    assert(after[level.len() as int].0 == name);
    match place(after, name, 0) {
        Some(i) => {
            if i < level.len() {
                assert(after[i] == level[i]);
            }
        },
        None => {},
    }
}

/// `level` with `name` in it: as it is where it holds the name, else with
/// the name behind the others, in the next free slot.
pub open spec fn declare(level: Level, name: Seq<char>) -> Level {
    if place(level, name, 0) is Some {
        level
    } else {
        level.push((name, level.len()))
    }
}

/// `level` with `name` in `slot`: in place of the slot it had, or behind
/// the other names.
pub open spec fn assign(level: Level, name: Seq<char>, slot: nat) -> Level {
    match place(level, name, 0) {
        Some(i) => level.update(i, (name, slot)),
        None => level.push((name, slot)),
    }
}

/// The scope of an arm whose first `n` parameter names are those of
/// `names`: each name in the slot of its place; a name that comes again
/// takes the later place.
pub open spec fn prepopulated(names: Seq<Seq<char>>, n: nat) -> Level
    decreases n,
{
    if n == 0 || n > names.len() {
        Seq::empty()
    } else {
        assign(prepopulated(names, (n - 1) as nat), names[n - 1], (n - 1) as nat)
    }
}

/// Whether no name stands twice in `level`.
pub open spec fn unique_names(level: Level) -> bool {
    forall|i: int, j: int|
        0 <= i < j < level.len() ==> (#[trigger] level[i]).0 != (#[trigger] level[j]).0
}

/// A name that is declared does not come to stand twice.
pub proof fn lemma_declare_keeps_unique(level: Level, name: Seq<char>)
    requires
        unique_names(level),
    ensures
        unique_names(declare(level, name)),
        lookup(declare(level, name), name) is Some,
{
    lemma_place(level, name, 0);
    if place(level, name, 0) is None {
        lemma_place_pushed(level, name, level.len());
        let after = declare(level, name);
        assert forall|i: int, j: int| 0 <= i < j < after.len() implies (#[trigger] after[i]).0 != (
        #[trigger] after[j]).0 by {
            if j < level.len() {
                assert(after[i] == level[i] && after[j] == level[j]);
            } else {
                assert(after[i] == level[i]);
            }
        }
    }
}

/// A name that is given a slot does not come to stand twice.
pub proof fn lemma_assign_keeps_unique(level: Level, name: Seq<char>, slot: nat)
    requires
        unique_names(level),
    ensures
        unique_names(assign(level, name, slot)),
{
    lemma_place(level, name, 0);
}

/// No name stands twice in the scope of an arm.
pub proof fn lemma_prepopulated_unique(names: Seq<Seq<char>>, n: nat)
    ensures
        unique_names(prepopulated(names, n)),
        prepopulated(names, n).len() <= n,
    decreases n,
{
    if n == 0 || n > names.len() {
    } else {
        lemma_prepopulated_unique(names, (n - 1) as nat);
        lemma_assign_keeps_unique(
            prepopulated(names, (n - 1) as nat),
            names[n - 1],
            (n - 1) as nat,
        );
        lemma_place(prepopulated(names, (n - 1) as nat), names[n - 1], 0);
    }
}

/// The slot of `name` and the number of steps outward to the first scope of
/// `chain`, from the one at `depth` on, that holds it.
pub open spec fn resolve(chain: Seq<Level>, name: Seq<char>, depth: int) -> Option<(nat, nat)>
    decreases chain.len() - depth,
{
    if depth < 0 || depth >= chain.len() {
        None
    } else {
        match lookup(chain[depth], name) {
            Some(slot) => Some((slot, depth as nat)),
            None => resolve(chain, name, depth + 1),
        }
    }
}

/// Whether some scope of `chain` holds `name`.
pub open spec fn visible(chain: Seq<Level>, name: Seq<char>) -> bool {
    resolve(chain, name, 0) is Some
}

/// A name with its slot.
#[derive(Debug)]
pub struct Binding {
    pub name: String,
    pub slot: usize,
}

/// The entries of a scope as mathematical values.
pub open spec fn level_view(names: Seq<Binding>) -> Level {
    Seq::new(names.len(), |i: int| (names[i].name@, names[i].slot as nat))
}

/// A scope with the scopes around it. `names` holds the names of the scope
/// itself; `parents` holds the scopes around it, the outermost first.
#[derive(Debug)]
pub struct SymTab {
    pub names: Vec<Binding>,
    pub parents: Vec<Vec<Binding>>,
}

/// A copy of the entries of a scope.
fn copy_level(names: &Vec<Binding>) -> (r: Vec<Binding>)
    ensures
        level_view(r@) == level_view(names@),
{
    let mut r: Vec<Binding> = Vec::new();
    let mut i: usize = 0;
    while i < names.len()
        invariant
            i <= names.len(),
            r@.len() == i,
            forall|k: int|
                0 <= k < i ==> (#[trigger] r@[k]).name@ == names@[k].name@ && r@[k].slot
                    == names@[k].slot,
        decreases names.len() - i,
    {
        r.push(Binding { name: names[i].name.clone(), slot: names[i].slot });
        i += 1;
    }
    assert(level_view(r@) =~= level_view(names@));
    r
}

/// The place in `names` of the entry for `name`.
fn find(names: &Vec<Binding>, name: &str) -> (r: Option<usize>)
    ensures
        match r {
            Some(i) => place(level_view(names@), name@, 0) == Some(i as int) && i < names@.len(),
            None => place(level_view(names@), name@, 0) is None,
        },
{
    let mut i: usize = 0;
    while i < names.len()
        invariant
            i <= names.len(),
            place(level_view(names@), name@, 0) == place(level_view(names@), name@, i as int),
        decreases names.len() - i,
    {
        if str_equal(names[i].name.as_str(), name) {
            return Some(i);
        }
        i += 1;
    }
    None
}

impl SymTab {
    /// The chain of scopes as mathematical values: the scope itself first,
    /// then the scopes around it, the nearest first.
    pub open spec fn chain(&self) -> Seq<Level> {
        Seq::new(
            (self.parents@.len() + 1) as nat,
            |d: int|
                if d == 0 {
                    level_view(self.names@)
                } else {
                    level_view(self.parents@[self.parents@.len() - d]@)
                },
        )
    }

    /// No name stands twice in one scope of the chain.
    pub open spec fn wf(&self) -> bool {
        forall|d: int| 0 <= d < self.chain().len() ==> unique_names(#[trigger] self.chain()[d])
    }

    /// The scope of an arm within `parent`: it holds each of `names` in the
    /// slot of its place.
    pub fn new(parent: SymTab, names: &Vec<String>) -> (t: SymTab)
        ensures
            t.chain() == seq![
                prepopulated(Seq::new(names@.len(), |i: int| names@[i]@), names@.len()),
            ] + parent.chain(),
            parent.wf() ==> t.wf(),
    {
        let ghost texts = Seq::new(names@.len(), |i: int| names@[i]@);
        let mut own: Vec<Binding> = Vec::new();
        assert(level_view(own@) =~= prepopulated(texts, 0));
        let mut i: usize = 0;
        while i < names.len()
            invariant
                i <= names.len(),
                texts == Seq::new(names@.len(), |i: int| names@[i]@),
                level_view(own@) == prepopulated(texts, i as nat),
            decreases names.len() - i,
        {
            let ghost before = level_view(own@);
            match find(&own, names[i].as_str()) {
                Some(k) => {
                    own.set(k, Binding { name: names[i].clone(), slot: i });
                    assert(level_view(own@) =~= before.update(
                        k as int,
                        (texts[i as int], i as nat),
                    ));
                },
                None => {
                    own.push(Binding { name: names[i].clone(), slot: i });
                    assert(level_view(own@) =~= before.push((texts[i as int], i as nat)));
                },
            }
            i += 1;
        }
        let SymTab { names: outer, parents } = parent;
        let mut parents = parents;
        let ghost old_parents = parents@;
        parents.push(outer);
        let t = SymTab { names: own, parents };
        proof {
            assert(t.chain() =~= seq![prepopulated(texts, names@.len() as nat)] + parent.chain());
            lemma_prepopulated_unique(texts, names@.len() as nat);
            if parent.wf() {
                assert forall|d: int| 0 <= d < t.chain().len() implies unique_names(
                    #[trigger] t.chain()[d],
                ) by {
                    if d > 0 {
                        assert(t.chain()[d] == parent.chain()[d - 1]);
                    }
                }
            }
        }
        t
    }

    /// The outermost scope, which holds no name yet.
    pub fn new_global() -> (t: SymTab)
        ensures
            t.chain() == seq![Seq::<(Seq<char>, nat)>::empty()],
            t.wf(),
    {
        let t = SymTab { names: Vec::new(), parents: Vec::new() };
        assert(level_view(t.names@) =~= Seq::<(Seq<char>, nat)>::empty());
        assert(t.chain() =~= seq![Seq::<(Seq<char>, nat)>::empty()]);
        t
    }

    /// Declares `name` in the scope itself and gives its slot: the slot it
    /// has, or the next free one. The scopes around stay as they are.
    pub fn add_name(&mut self, name: &str) -> (slot: usize)
        ensures
            final(self).chain() == old(self).chain().update(
                0,
                declare(old(self).chain()[0], name@),
            ),
            lookup(final(self).chain()[0], name@) == Some(slot as nat),
            old(self).wf() ==> final(self).wf(),
    {
        let ghost before = level_view(self.names@);
        proof {
            lemma_place(before, name@, 0);
        }
        match find(&self.names, name) {
            Some(i) => {
                assert(self.chain() =~= old(self).chain().update(0, before));
                assert(self.chain()[0] == before);
                self.names[i].slot
            },
            None => {
                let new_index = self.names.len();
                self.names.push(Binding { name: String::from_str(name), slot: new_index });
                proof {
                    let after = level_view(self.names@);
                    assert(after =~= before.push((name@, new_index as nat)));
                    lemma_place_pushed(before, name@, new_index as nat);
                    assert(self.chain() =~= old(self).chain().update(0, after));
                    assert(self.chain()[0] == after);
                    if old(self).wf() {
                        assert(unique_names(old(self).chain()[0]));
                        lemma_declare_keeps_unique(before, name@);
                        assert forall|d: int| 0 <= d < self.chain().len() implies unique_names(
                            #[trigger] self.chain()[d],
                        ) by {
                            if d > 0 {
                                assert(self.chain()[d] == old(self).chain()[d]);
                            }
                        }
                    }
                }
                new_index
            },
        }
    }

    /// Looks `name` up in the scope itself and then in the scopes around
    /// it, the nearest first. Gives the slot of the name in the first scope
    /// that holds it and the number of steps outward to that scope.
    pub fn get_name(&self, name: &str) -> (r: Option<(usize, usize)>)
        ensures
            match r {
                Some((slot, depth)) => resolve(self.chain(), name@, 0) == Some(
                    (slot as nat, depth as nat),
                ),
                None => resolve(self.chain(), name@, 0) is None,
            },
    {
        self.get_name_internal(name, 0)
    }

    /// Looks `name` up in the scopes from the one `env_index` steps outward
    /// on.
    fn get_name_internal(&self, name: &str, env_index: usize) -> (r: Option<(usize, usize)>)
        requires
            env_index <= self.parents@.len(),
        ensures
            match r {
                Some((slot, depth)) => resolve(self.chain(), name@, env_index as int) == Some(
                    (slot as nat, depth as nat),
                ),
                None => resolve(self.chain(), name@, env_index as int) is None,
            },
        decreases self.parents@.len() - env_index,
    {
        let level = if env_index == 0 {
            &self.names
        } else {
            &self.parents[self.parents.len() - env_index]
        };
        assert(self.chain()[env_index as int] == level_view(level@));
        match find(level, name) {
            Some(i) => Some((level[i].slot, env_index)),
            None => {
                if env_index < self.parents.len() {
                    self.get_name_internal(name, env_index + 1)
                } else {
                    None
                }
            },
        }
    }

    /// A copy of the scope and the scopes around it.
    pub fn duplicate(&self) -> (t: SymTab)
        ensures
            t.chain() == self.chain(),
    {
        let mut parents: Vec<Vec<Binding>> = Vec::new();
        let mut i: usize = 0;
        while i < self.parents.len()
            invariant
                i <= self.parents.len(),
                parents@.len() == i,
                forall|k: int|
                    0 <= k < i ==> level_view((#[trigger] parents@[k])@) == level_view(
                        self.parents@[k]@,
                    ),
            decreases self.parents.len() - i,
        {
            parents.push(copy_level(&self.parents[i]));
            i += 1;
        }
        let t = SymTab { names: copy_level(&self.names), parents };
        assert(t.chain() =~= self.chain());
        t
    }
}

impl Clone for SymTab {
    fn clone(&self) -> (t: SymTab)
        ensures
            t.chain() == self.chain(),
    {
        self.duplicate()
    }
}

} // verus!
