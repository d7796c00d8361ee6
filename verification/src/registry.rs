//! The plugin registry: name-keyed lookup of live plugin instances,
//! descriptor bookkeeping, and ownership of the module handles the instances
//! were manufactured from.
//!
//! The registry is generic over the instance type `I` and the module-handle
//! type `H`, so the association logic is proved once for every embedding:
//! the host instantiates `I` with its shared plugin-instance type and `H`
//! with its resident-module type.

use vstd::prelude::*;

use crate::plugin::{PlguninResult, Plugin, PluginTrait};

verus! {

/// The value registered under `name` in an association list, searching from
/// the most recently inserted entry backwards: a later entry shadows an
/// earlier one with the same name (last write wins).
pub open spec fn lookup<V>(s: Seq<(String, V)>, name: Seq<char>) -> Option<V>
    decreases s.len(),
{
    if s.len() == 0 {
        None
    } else if s.last().0@ == name {
        Some(s.last().1)
    } else {
        lookup(s.drop_last(), name)
    }
}

/// The names under which the association list holds an entry.
pub open spec fn names_of<V>(s: Seq<(String, V)>) -> Set<Seq<char>> {
    Set::new(|n: Seq<char>| lookup(s, n) is Some)
}

/// What a bulk load leaves registered under `name`: the outcomes of the
/// per-file load attempts are folded over the registry in scan order, a
/// successful outcome registering its descriptor's name and a failed one
/// leaving the registry as it was, so the latest successful registration of
/// a name wins.
pub open spec fn fold_lookup<I, H>(
    base: Seq<(String, I)>,
    outcomes: Seq<PlguninResult<(Plugin, I, H)>>,
    name: Seq<char>,
) -> Option<I>
    decreases outcomes.len(),
{
    if outcomes.len() == 0 {
        lookup(base, name)
    } else {
        match outcomes.last() {
            PlguninResult::Success(t) => if t.0.name@ == name {
                Some(t.1)
            } else {
                fold_lookup(base, outcomes.drop_last(), name)
            },
            PlguninResult::Failure => fold_lookup(base, outcomes.drop_last(), name),
        }
    }
}

/// The descriptor counterpart of `fold_lookup`.
pub open spec fn fold_desc_lookup<I, H>(
    base: Seq<(String, Plugin)>,
    outcomes: Seq<PlguninResult<(Plugin, I, H)>>,
    name: Seq<char>,
) -> Option<Plugin>
    decreases outcomes.len(),
{
    if outcomes.len() == 0 {
        lookup(base, name)
    } else {
        match outcomes.last() {
            PlguninResult::Success(t) => if t.0.name@ == name {
                Some(t.0)
            } else {
                fold_desc_lookup(base, outcomes.drop_last(), name)
            },
            PlguninResult::Failure => fold_desc_lookup(base, outcomes.drop_last(), name),
        }
    }
}

/// The module handles that a bulk load retains: one per successful outcome,
/// in scan order, kept even when the outcome's name was later replaced.
pub open spec fn handles_of<I, H>(outcomes: Seq<PlguninResult<(Plugin, I, H)>>) -> Seq<H>
    decreases outcomes.len(),
{
    if outcomes.len() == 0 {
        Seq::empty()
    } else {
        match outcomes.last() {
            PlguninResult::Success(t) => handles_of(outcomes.drop_last()).push(t.2),
            PlguninResult::Failure => handles_of(outcomes.drop_last()),
        }
    }
}

/// The distinct names registered by the successful outcomes of a bulk load.
pub open spec fn loaded_names<I, H>(outcomes: Seq<PlguninResult<(Plugin, I, H)>>) -> Set<
    Seq<char>,
>
    decreases outcomes.len(),
{
    if outcomes.len() == 0 {
        Set::empty()
    } else {
        match outcomes.last() {
            PlguninResult::Success(t) => loaded_names(outcomes.drop_last()).insert(t.0.name@),
            PlguninResult::Failure => loaded_names(outcomes.drop_last()),
        }
    }
}

/// Overwriting the one entry that carries a name changes what `lookup`
/// answers for that name and for no other.
proof fn lemma_lookup_update<V>(s: Seq<(String, V)>, j: int, e: (String, V))
    requires
        0 <= j < s.len(),
        e.0@ == s[j].0@,
        forall|i: int| 0 <= i < s.len() && i != j ==> s[i].0@ != s[j].0@,
    ensures
        lookup(s.update(j, e), e.0@) == Some(e.1),
        forall|n: Seq<char>|
            n != e.0@ ==> #[trigger] lookup(s.update(j, e), n) == lookup(s, n),
    decreases s.len(),
{
    let t = s.update(j, e);
    if j == s.len() - 1 {
        assert(t.last() == e);
        assert(t.drop_last() =~= s.drop_last());
    } else {
        assert(t.last() == s.last());
        assert(s.last().0@ != s[j].0@);
        assert(t.drop_last() =~= s.drop_last().update(j, e));
        lemma_lookup_update(s.drop_last(), j, e);
        assert forall|n: Seq<char>| n != e.0@ implies #[trigger] lookup(t, n) == lookup(s, n) by {
            if n != s.last().0@ {
                assert(lookup(t, n) == lookup(t.drop_last(), n));
                assert(lookup(s, n) == lookup(s.drop_last(), n));
            }
        }
    }
}

/// The registry: plugin name to live instance, plugin name to descriptor,
/// and the ordered arena of module handles, which the registry owns for as
/// long as any instance manufactured from them is registered.
pub struct PluginManager<I, H> {
    pub path: String,
    pub plugins: Vec<(String, I)>,
    pub loaded_libraries: Vec<H>,
    pub plugin_structs: Vec<(String, Plugin)>,
}

impl<I, H> PluginManager<I, H> {
    /// The configured plugin directory.
    pub open spec fn spec_path(self) -> Seq<char> {
        self.path@
    }

    /// Well-formedness: registered names are unique, and the instance and
    /// descriptor tables agree entry by entry — same length, same name at
    /// each position, and each descriptor entry is keyed by the name the
    /// descriptor itself carries.
    pub open spec fn wf(self) -> bool {
        &&& self.plugin_structs@.len() == self.plugins@.len()
        &&& forall|i: int, j: int|
            0 <= i < j < self.plugins@.len() ==> self.plugins@[i].0@ != self.plugins@[j].0@
        &&& forall|i: int|
            0 <= i < self.plugins@.len() ==> (#[trigger] self.plugin_structs@[i]).0@
                == self.plugins@[i].0@
        &&& forall|i: int|
            0 <= i < self.plugins@.len() ==> (#[trigger] self.plugin_structs@[i]).1.name@
                == self.plugins@[i].0@
    }

    /// An empty registry over the given plugin directory.
    pub fn new(path: String) -> (r: Self)
        ensures
            r.wf(),
            r.spec_path() == path@,
            r.plugins@.len() == 0,
            r.plugin_structs@.len() == 0,
            r.loaded_libraries@.len() == 0,
    {
        PluginManager {
            path,
            plugins: Vec::new(),
            loaded_libraries: Vec::new(),
            plugin_structs: Vec::new(),
        }
    }

    /// Read access to the configured plugin directory, for the embedding
    /// code that scans it.
    pub fn path(&self) -> (r: &str)
        ensures
            r@ == self.spec_path(),
    {
        self.path.as_str()
    }

    /// Index of the entry registered under `key`, scanning from the most
    /// recent entry backwards so that the answer agrees with `lookup`.
    fn position_of(&self, key: &String) -> (r: Option<usize>)
        ensures
            match r {
                Some(j) => {
                    &&& j < self.plugins@.len()
                    &&& self.plugins@[j as int].0@ == key@
                    &&& lookup(self.plugins@, key@) == Some(self.plugins@[j as int].1)
                },
                None => lookup(self.plugins@, key@) is None,
            },
            r is None ==> forall|i: int|
                0 <= i < self.plugins@.len() ==> self.plugins@[i].0@ != key@,
    {
        let n: usize = self.plugins.len();
        let mut j: usize = n;
        proof {
            assert(self.plugins@.take(n as int) =~= self.plugins@);
        }
        while j > 0
            invariant
                j <= n,
                n == self.plugins@.len(),
                lookup(self.plugins@, key@) == lookup(self.plugins@.take(j as int), key@),
                forall|i: int| j <= i < n ==> self.plugins@[i].0@ != key@,
            decreases j,
        {
            proof {
                assert(self.plugins@.take(j as int).last() == self.plugins@[j - 1]);
                assert(self.plugins@.take(j as int).drop_last() =~= self.plugins@.take(j - 1));
            }
            if self.plugins[j - 1].0 == *key {
                return Some(j - 1);
            }
            j = j - 1;
        }
        proof {
            assert(self.plugins@.take(0) =~= Seq::<(String, I)>::empty());
        }
        None
    }

    /// Take in a plugin that a module loader has just manufactured: key the
    /// instance and the descriptor under the descriptor's name, a later
    /// registration under an already-present name replacing the earlier one
    /// (last write wins), and retain the module handle in load order. No
    /// handle is ever evicted individually, so the handle arena only grows
    /// here, even when a name is replaced.
    pub fn register_loaded(&mut self, descriptor: Plugin, instance: I, handle: H)
        requires
            old(self).wf(),
        ensures
            final(self).wf(),
            lookup(final(self).plugins@, descriptor.name@) == Some(instance),
            lookup(final(self).plugin_structs@, descriptor.name@) == Some(descriptor),
            forall|n: Seq<char>|
                n != descriptor.name@ ==> #[trigger] lookup(final(self).plugins@, n) == lookup(
                    old(self).plugins@,
                    n,
                ),
            forall|n: Seq<char>|
                n != descriptor.name@ ==> #[trigger] lookup(final(self).plugin_structs@, n)
                    == lookup(old(self).plugin_structs@, n),
            final(self).loaded_libraries@ == old(self).loaded_libraries@.push(handle),
            final(self).plugins@.len() == if lookup(old(self).plugins@, descriptor.name@) is Some {
                old(self).plugins@.len()
            } else {
                old(self).plugins@.len() + 1
            },
            final(self).spec_path() == old(self).spec_path(),
    {
        let name1: String = descriptor.name.clone();
        let name2: String = descriptor.name.clone();
        match self.position_of(&name1) {
            Some(j) => {
                proof {
                    lemma_lookup_update(
                        self.plugins@,
                        j as int,
                        (name1, instance),
                    );
                    lemma_lookup_update(
                        self.plugin_structs@,
                        j as int,
                        (name2, descriptor),
                    );
                }
                self.plugins[j] = (name1, instance);
                self.plugin_structs[j] = (name2, descriptor);
            },
            None => {
                proof {
                    assert(self.plugins@.push((name1, instance)).drop_last() =~= self.plugins@);
                    assert(self.plugin_structs@.push((name2, descriptor)).drop_last()
                        =~= self.plugin_structs@);
                }
                self.plugins.push((name1, instance));
                self.plugin_structs.push((name2, descriptor));
            },
        }
        self.loaded_libraries.push(handle);
    }

    /// Look up the plugin registered under `target`: a read-only query that
    /// returns a borrowed view of the entry, present exactly when some
    /// successfully loaded plugin registered that name and no later unload
    /// has cleared it. A name never registered is answered with `None`, not
    /// with an error.
    pub fn select<'a>(&'a self, target: &str) -> (r: Option<(&'a String, &'a I)>)
        ensures
            match r {
                Some(p) => {
                    &&& p.0@ == target@
                    &&& lookup(self.plugins@, target@) == Some(*p.1)
                },
                None => lookup(self.plugins@, target@) is None,
            },
    {
        let key: String = target.to_owned();
        match self.position_of(&key) {
            Some(j) => Some((&self.plugins[j].0, &self.plugins[j].1)),
            None => None,
        }
    }

    /// Take in the outcomes of one directory scan, in scan order: each
    /// successful load is registered under its descriptor's name, later
    /// registrations replacing earlier ones with the same name, and each
    /// successful load's module handle is retained; a failed file changes
    /// nothing and does not stop the remaining outcomes from being taken in.
    pub fn load_all(&mut self, outcomes: Vec<PlguninResult<(Plugin, I, H)>>)
        requires
            old(self).wf(),
        ensures
            final(self).wf(),
            forall|n: Seq<char>| #[trigger]
                lookup(final(self).plugins@, n) == fold_lookup(
                    old(self).plugins@,
                    outcomes@,
                    n,
                ),
            forall|n: Seq<char>| #[trigger]
                lookup(final(self).plugin_structs@, n) == fold_desc_lookup(
                    old(self).plugin_structs@,
                    outcomes@,
                    n,
                ),
            final(self).loaded_libraries@ == old(self).loaded_libraries@ + handles_of(
                outcomes@,
            ),
            final(self).spec_path() == old(self).spec_path(),
    {
        let ghost orig = outcomes@;
        let ghost base_plugins = self.plugins@;
        let ghost base_structs = self.plugin_structs@;
        let ghost base_handles = self.loaded_libraries@;
        let mut rest = outcomes;
        proof {
            assert(orig.take(0) =~= Seq::<PlguninResult<(Plugin, I, H)>>::empty());
            assert(rest@ =~= orig.skip(0));
            assert(self.loaded_libraries@ =~= base_handles + handles_of(orig.take(0)));
        }
        while rest.len() > 0
            invariant
                self.wf(),
                rest@.len() <= orig.len(),
                rest@ == orig.skip(orig.len() - rest@.len()),
                forall|n: Seq<char>| #[trigger]
                    lookup(self.plugins@, n) == fold_lookup(
                        base_plugins,
                        orig.take(orig.len() - rest@.len()),
                        n,
                    ),
                forall|n: Seq<char>| #[trigger]
                    lookup(self.plugin_structs@, n) == fold_desc_lookup(
                        base_structs,
                        orig.take(orig.len() - rest@.len()),
                        n,
                    ),
                self.loaded_libraries@ == base_handles + handles_of(
                    orig.take(orig.len() - rest@.len()),
                ),
                self.spec_path() == old(self).spec_path(),
            decreases rest@.len(),
        {
            let ghost k = orig.len() - rest@.len();
            let oc = rest.remove(0);
            proof {
                assert(oc == orig[k]);
                assert(rest@ =~= orig.skip(k + 1));
                assert(orig.take(k + 1).drop_last() =~= orig.take(k));
                assert(orig.take(k + 1).last() == orig[k]);
            }
            match oc {
                PlguninResult::Success(t) => {
                    let (d, inst, h) = t;
                    let ghost dname = d.name@;
                    self.register_loaded(d, inst, h);
                    proof {
                        assert forall|n: Seq<char>| #[trigger]
                            lookup(self.plugins@, n) == fold_lookup(
                                base_plugins,
                                orig.take(k + 1),
                                n,
                            ) by {
                            if n != dname {
                                assert(lookup(self.plugins@, n) == fold_lookup(
                                    base_plugins,
                                    orig.take(k),
                                    n,
                                ));
                            }
                        }
                        assert forall|n: Seq<char>| #[trigger]
                            lookup(self.plugin_structs@, n) == fold_desc_lookup(
                                base_structs,
                                orig.take(k + 1),
                                n,
                            ) by {
                            if n != dname {
                                assert(lookup(self.plugin_structs@, n) == fold_desc_lookup(
                                    base_structs,
                                    orig.take(k),
                                    n,
                                ));
                            }
                        }
                        assert(self.loaded_libraries@ =~= base_handles + handles_of(
                            orig.take(k + 1),
                        ));
                    }
                },
                PlguninResult::Failure => {
                    proof {
                        assert(orig.take(k + 1).drop_last() =~= orig.take(k));
                    }
                },
            }
        }
        proof {
            assert(orig.take(orig.len() - rest@.len()) =~= orig);
        }
    }
}

impl<I: PluginTrait, H> PluginManager<I, H> {
    /// Invoke every registered instance's unload hook, then drop all
    /// instances and descriptors, and release the module handles only after
    /// that, so that no instance outlives the module it was manufactured
    /// from. Afterwards every lookup answers absent.
    pub fn unload_all(&mut self)
        ensures
            final(self).wf(),
            final(self).plugins@.len() == 0,
            final(self).plugin_structs@.len() == 0,
            final(self).loaded_libraries@.len() == 0,
            forall|n: Seq<char>| lookup(final(self).plugins@, n) is None,
            forall|n: Seq<char>| lookup(final(self).plugin_structs@, n) is None,
            final(self).spec_path() == old(self).spec_path(),
    {
        let n: usize = self.plugins.len();
        let mut k: usize = 0;
        while k < n
            invariant
                k <= n,
                *self == *old(self),
                n == self.plugins@.len(),
            decreases n - k,
        {
            let entry = &self.plugins[k];
            entry.1.unload();
            k = k + 1;
        }
        self.plugins.clear();
        self.plugin_structs.clear();
        self.loaded_libraries.clear();
    }

    /// Unload everything and then take in the outcomes of a fresh directory
    /// scan: the final state is exactly the state that `unload_all` followed
    /// by `load_all` leaves, with no plugin of the previous generation
    /// surviving.
    pub fn reload_all(&mut self, outcomes: Vec<PlguninResult<(Plugin, I, H)>>)
        ensures
            final(self).wf(),
            forall|n: Seq<char>| #[trigger]
                lookup(final(self).plugins@, n) == fold_lookup(
                    Seq::<(String, I)>::empty(),
                    outcomes@,
                    n,
                ),
            forall|n: Seq<char>| #[trigger]
                lookup(final(self).plugin_structs@, n) == fold_desc_lookup(
                    Seq::<(String, Plugin)>::empty(),
                    outcomes@,
                    n,
                ),
            final(self).loaded_libraries@ == handles_of(outcomes@),
            final(self).spec_path() == old(self).spec_path(),
    {
        self.unload_all();
        proof {
            assert(self.plugins@ =~= Seq::<(String, I)>::empty());
            assert(self.plugin_structs@ =~= Seq::<(String, Plugin)>::empty());
            assert(self.loaded_libraries@ =~= Seq::<H>::empty());
        }
        self.load_all(outcomes);
        proof {
            assert(final(self).loaded_libraries@ =~= Seq::<H>::empty() + handles_of(outcomes@));
        }
    }
}

/// `lookup` answers present exactly when some entry carries the name.
proof fn lemma_lookup_present<V>(s: Seq<(String, V)>, name: Seq<char>)
    ensures
        (lookup(s, name) is Some) <==> exists|i: int|
            0 <= i < s.len() && (#[trigger] s[i]).0@ == name,
    decreases s.len(),
{
    if s.len() > 0 {
        lemma_lookup_present(s.drop_last(), name);
        if s.last().0@ == name {
            assert(s[s.len() - 1].0@ == name);
        } else {
            if lookup(s.drop_last(), name) is Some {
                let i = choose|i: int|
                    0 <= i < s.drop_last().len() && (#[trigger] s.drop_last()[i]).0@ == name;
                assert(s[i].0@ == name);
            }
            if exists|i: int| 0 <= i < s.len() && (#[trigger] s[i]).0@ == name {
                let i = choose|i: int| 0 <= i < s.len() && (#[trigger] s[i]).0@ == name;
                assert(i < s.len() - 1);
                assert(s.drop_last()[i].0@ == name);
            }
        }
    }
}

/// A registry whose names are pairwise distinct holds exactly as many
/// entries as it holds names: the count of entries is the count of distinct
/// registered names.
pub proof fn lemma_unique_names_count<V>(s: Seq<(String, V)>)
    requires
        forall|i: int, j: int| 0 <= i < j < s.len() ==> (#[trigger] s[i]).0@ != (#[trigger] s[j]).0@,
    ensures
        names_of(s).finite(),
        names_of(s).len() == s.len(),
    decreases s.len(),
{
    if s.len() == 0 {
        assert(names_of(s) =~= Set::<Seq<char>>::empty());
    } else {
        let rest = s.drop_last();
        lemma_unique_names_count(rest);
        assert(names_of(s) =~= names_of(rest).insert(s.last().0@)) by {
            assert forall|n: Seq<char>|
                names_of(s).contains(n) <==> names_of(rest).insert(s.last().0@).contains(n) by {
                if s.last().0@ != n {
                    assert(lookup(s, n) == lookup(rest, n));
                }
            }
        }
        assert(!names_of(rest).contains(s.last().0@)) by {
            lemma_lookup_present(rest, s.last().0@);
            if exists|i: int| 0 <= i < rest.len() && (#[trigger] rest[i]).0@ == s.last().0@ {
                let i = choose|i: int|
                    0 <= i < rest.len() && (#[trigger] rest[i]).0@ == s.last().0@;
                assert(s[i].0@ == s[s.len() - 1].0@);
            }
        }
    }
}

/// In a well-formed registry the instance table and the descriptor table
/// are keyed by exactly the same names.
pub proof fn lemma_same_keys<I, H>(m: PluginManager<I, H>, name: Seq<char>)
    requires
        m.wf(),
    ensures
        (lookup(m.plugins@, name) is Some) <==> (lookup(m.plugin_structs@, name) is Some),
{
    lemma_lookup_present(m.plugins@, name);
    lemma_lookup_present(m.plugin_structs@, name);
    if lookup(m.plugins@, name) is Some {
        let i = choose|i: int| 0 <= i < m.plugins@.len() && (#[trigger] m.plugins@[i]).0@ == name;
        assert(m.plugin_structs@[i].0@ == name);
    }
    if lookup(m.plugin_structs@, name) is Some {
        let i = choose|i: int|
            0 <= i < m.plugin_structs@.len() && (#[trigger] m.plugin_structs@[i]).0@ == name;
        assert(m.plugins@[i].0@ == name);
    }
}

/// A bulk load registers a name exactly when the registry already answered
/// present for it or some successful outcome registers it.
proof fn lemma_fold_present<I, H>(
    base: Seq<(String, I)>,
    outcomes: Seq<PlguninResult<(Plugin, I, H)>>,
    name: Seq<char>,
)
    ensures
        (fold_lookup(base, outcomes, name) is Some) <==> ((lookup(base, name) is Some)
            || loaded_names(outcomes).contains(name)),
    decreases outcomes.len(),
{
    if outcomes.len() > 0 {
        lemma_fold_present(base, outcomes.drop_last(), name);
    }
}

/// After a bulk load into an empty registry, every name that a successful
/// outcome registered answers present, and the number of registry entries
/// equals the number of distinct names the successful outcomes registered.
pub proof fn lemma_load_all_complete<I, H>(
    m: PluginManager<I, H>,
    outcomes: Seq<PlguninResult<(Plugin, I, H)>>,
)
    requires
        m.wf(),
        forall|n: Seq<char>| #[trigger]
            lookup(m.plugins@, n) == fold_lookup(Seq::<(String, I)>::empty(), outcomes, n),
    ensures
        forall|n: Seq<char>| #[trigger]
            loaded_names(outcomes).contains(n) ==> lookup(m.plugins@, n) is Some,
        m.plugins@.len() == loaded_names(outcomes).len(),
{
    assert forall|n: Seq<char>| #[trigger]
        loaded_names(outcomes).contains(n) implies lookup(m.plugins@, n) is Some by {
        lemma_fold_present(Seq::<(String, I)>::empty(), outcomes, n);
    }
    assert(names_of(m.plugins@) =~= loaded_names(outcomes)) by {
        assert forall|n: Seq<char>|
            names_of(m.plugins@).contains(n) <==> loaded_names(outcomes).contains(n) by {
            lemma_fold_present(Seq::<(String, I)>::empty(), outcomes, n);
        }
    }
    lemma_unique_names_count(m.plugins@);
}

/// A bulk load into a registry that answers absent for every name leaves
/// the same lookups as the same bulk load into the empty registry: this is
/// why reloading is equivalent to unloading everything and loading afresh.
pub proof fn lemma_reload_equiv<I, H>(
    base: Seq<(String, I)>,
    outcomes: Seq<PlguninResult<(Plugin, I, H)>>,
    name: Seq<char>,
)
    requires
        forall|n: Seq<char>| lookup(base, n) is None,
    ensures
        fold_lookup(base, outcomes, name) == fold_lookup(
            Seq::<(String, I)>::empty(),
            outcomes,
            name,
        ),
    decreases outcomes.len(),
{
    if outcomes.len() > 0 {
        lemma_reload_equiv(base, outcomes.drop_last(), name);
    }
}

/// Loading two files that both register the same descriptor name leaves the
/// later instance registered under that name, whatever the two loads were
/// folded onto: last write wins.
pub proof fn lemma_last_write_wins<I, H>(
    base: Seq<(String, I)>,
    d1: Plugin,
    i1: I,
    h1: H,
    d2: Plugin,
    i2: I,
    h2: H,
)
    requires
        d1.name@ == d2.name@,
    ensures
        fold_lookup(
            base,
            seq![
                PlguninResult::Success((d1, i1, h1)),
                PlguninResult::Success((d2, i2, h2)),
            ],
            d1.name@,
        ) == Some(i2),
{
    let s = seq![
        PlguninResult::<(Plugin, I, H)>::Success((d1, i1, h1)),
        PlguninResult::<(Plugin, I, H)>::Success((d2, i2, h2)),
    ];
    assert(s.last() == PlguninResult::<(Plugin, I, H)>::Success((d2, i2, h2)));
}

impl<I, H> Default for PluginManager<I, H> {
    /// An empty registry over the default plugin directory, `"./plugins"`.
    /// Creating that directory on disk is the embedding code's concern.
    fn default() -> (r: Self)
        ensures
            r.wf(),
            r.spec_path() == "./plugins"@,
            r.plugins@.len() == 0,
            r.plugin_structs@.len() == 0,
            r.loaded_libraries@.len() == 0,
    {
        PluginManager::new("./plugins".to_owned())
    }
}

} // verus!
