use vstd::prelude::*;

use crate::memory::{entries_map, find_entry, keys_unique, lemma_entries_map_at, lemma_entries_map_push,
    lemma_entries_map_update};

verus! {

/// An environment, named by its place among all environments.
pub type EnvId = usize;

/// An environment seen mathematically: the environment it is nested in, and its variables.
pub struct FrameView<V> {
    pub parent: Option<EnvId>,
    pub values: Map<Seq<char>, V>,
}

/// The value of `name` seen from environment `env`: its own, else the one its enclosing
/// environments give.
pub open spec fn lookup<V>(fs: Seq<FrameView<V>>, env: nat, name: Seq<char>) -> Option<V>
    decreases env,
{
    if env >= fs.len() {
        None
    } else if fs[env as int].values.contains_key(name) {
        Some(fs[env as int].values[name])
    } else {
        match fs[env as int].parent {
            Some(p) => if p < env { lookup(fs, p as nat, name) } else { None },
            None => None,
        }
    }
}

/// `fs` after assigning `value` to `name` from `env`: in the nearest environment that has
/// the name; and whether the assignment counts as done, which it does once an enclosing
/// environment was asked.
pub open spec fn assigned<V>(fs: Seq<FrameView<V>>, env: nat, name: Seq<char>, value: V) -> (Seq<FrameView<V>>, bool)
    decreases env,
{
    if env >= fs.len() {
        (fs, false)
    } else if fs[env as int].values.contains_key(name) {
        (fs.update(env as int, FrameView { values: fs[env as int].values.insert(name, value), ..fs[env as int] }), true)
    } else {
        match fs[env as int].parent {
            Some(p) => if p < env { (assigned(fs, p as nat, name, value).0, true) } else { (fs, false) },
            None => (fs, false),
        }
    }
}

/// The environment `n` steps out from `env`, if there are that many.
pub open spec fn hops<V>(fs: Seq<FrameView<V>>, env: nat, n: nat) -> Option<nat>
    decreases n,
{
    if n == 0 {
        if env < fs.len() { Some(env) } else { None }
    } else if env >= fs.len() {
        None
    } else {
        match fs[env as int].parent {
            Some(p) => hops(fs, p as nat, (n - 1) as nat),
            None => None,
        }
    }
}

pub proof fn lemma_hops_bound<V>(fs: Seq<FrameView<V>>, env: nat, n: nat)
    ensures
        hops(fs, env, n) matches Some(h) ==> h < fs.len(),
    decreases n,
{
    if n > 0 && env < fs.len() {
        if let Some(p) = fs[env as int].parent {
            lemma_hops_bound(fs, p as nat, (n - 1) as nat);
        }
    }
}

/// The environment `distance` steps out from `env` (one step for a distance of 0).
pub open spec fn ancestor_of<V>(fs: Seq<FrameView<V>>, env: nat, distance: nat) -> Option<nat> {
    hops(fs, env, if distance == 0 { 1 } else { distance })
}

/// What `get_at` reads: the value of `name` from the environment `distance` steps out.
pub open spec fn lookup_at<V>(fs: Seq<FrameView<V>>, env: nat, distance: nat, name: Seq<char>) -> Option<V> {
    if distance == 0 {
        lookup(fs, env, name)
    } else {
        match ancestor_of(fs, env, distance) {
            Some(a) => lookup(fs, a, name),
            None => None,
        }
    }
}

/// What `assign_at` does: assigns from the environment `distance` steps out.
pub open spec fn assigned_at<V>(fs: Seq<FrameView<V>>, env: nat, distance: nat, name: Seq<char>, value: V) -> (Seq<FrameView<V>>, bool) {
    if distance == 0 {
        assigned(fs, env, name, value)
    } else {
        match ancestor_of(fs, env, distance) {
            Some(a) => assigned(fs, a, name, value),
            None => (fs, false),
        }
    }
}

/// Every environment is nested in one made before it.
pub open spec fn nested_before<V>(fs: Seq<FrameView<V>>) -> bool {
    forall|i: int| 0 <= i < fs.len() ==> ((#[trigger] fs[i]).parent matches Some(p) ==> p < i)
}

/// A variable reads back, from its environment, the value just defined for it there.
pub proof fn lemma_get_after_define<V>(fs: Seq<FrameView<V>>, env: nat, name: Seq<char>, value: V)
    requires
        env < fs.len(),
    ensures
        lookup(fs.update(env as int, FrameView { values: fs[env as int].values.insert(name, value), ..fs[env as int] }), env, name)
            == Some(value),
{
}

/// An assignment leaves the nesting as it was and changes no environment made after the
/// one it starts from.
pub proof fn lemma_assigned_shape<V>(fs: Seq<FrameView<V>>, env: nat, name: Seq<char>, value: V)
    ensures
        assigned(fs, env, name, value).0.len() == fs.len(),
        forall|i: int| 0 <= i < fs.len() ==> (#[trigger] assigned(fs, env, name, value).0[i]).parent == fs[i].parent,
        forall|i: int| env < i < fs.len() ==> #[trigger] assigned(fs, env, name, value).0[i] == fs[i],
    decreases env,
{
    if env < fs.len() && !fs[env as int].values.contains_key(name) {
        if let Some(p) = fs[env as int].parent {
            if p < env {
                lemma_assigned_shape(fs, p as nat, name, value);
            }
        }
    }
}

/// `assigned_at` keeps the environments and what they are nested in.
pub proof fn lemma_assigned_at_shape<V>(fs: Seq<FrameView<V>>, env: nat, distance: nat, name: Seq<char>, value: V)
    ensures
        assigned_at(fs, env, distance, name, value).0.len() == fs.len(),
        forall|i: int| 0 <= i < fs.len() ==> (#[trigger] assigned_at(fs, env, distance, name, value).0[i]).parent == fs[i].parent,
{
    if distance == 0 {
        lemma_assigned_shape(fs, env, name, value);
    } else if let Some(a) = ancestor_of(fs, env, distance) {
        lemma_assigned_shape(fs, a, name, value);
    }
}

/// What a write gives back: after assigning `value` to a variable that `env` can see,
/// reading it from `env` gives `value`.
pub proof fn lemma_get_after_assign<V>(fs: Seq<FrameView<V>>, env: nat, name: Seq<char>, value: V)
    requires
        nested_before(fs),
        lookup(fs, env, name) is Some,
    ensures
        lookup(assigned(fs, env, name, value).0, env, name) == Some(value),
    decreases env,
{
    if !fs[env as int].values.contains_key(name) {
        let p = fs[env as int].parent->0;
        lemma_get_after_assign(fs, p as nat, name, value);
        lemma_assigned_shape(fs, p as nat, name, value);
        let after = assigned(fs, env, name, value).0;
        assert(after == assigned(fs, p as nat, name, value).0);
        assert(after[env as int] == fs[env as int]);
    }
}

struct Frame<V> {
    parent: Option<EnvId>,
    values: Vec<(String, V)>,
}

/// All the environments of a run, each with its variables and the environment it is
/// nested in; the first is the global one. An environment is named by its `EnvId`.
pub struct Environments<V> {
    frames: Vec<Frame<V>>,
}

impl<V> View for Environments<V> {
    type V = Seq<FrameView<V>>;

    closed spec fn view(&self) -> Seq<FrameView<V>> {
        Seq::new(self.frames@.len(), |i: int| FrameView {
            parent: self.frames@[i].parent,
            values: entries_map(self.frames@[i].values@),
        })
    }
}

impl<V> Environments<V> {
    /// Each environment is nested in one made before it; each names a variable once.
    pub closed spec fn wf(&self) -> bool {
        &&& self.frames@.len() > 0
        &&& forall|i: int| 0 <= i < self.frames@.len() ==> {
            &&& (#[trigger] self.frames@[i]).parent matches Some(p) ==> p < i
            &&& keys_unique(self.frames@[i].values@)
        }
    }

    /// Every environment is nested in one made before it.
    pub proof fn lemma_nested_before(&self)
        requires
            self.wf(),
        ensures
            nested_before(self@),
    {
        assert forall|i: int| 0 <= i < self@.len() implies ((#[trigger] self@[i]).parent matches Some(p) ==> p < i) by {
            assert(self@[i].parent == self.frames@[i].parent);
        }
    }

    /// Only the global environment, empty.
    pub fn new() -> (res: Environments<V>)
        ensures
            res.wf(),
            res@.len() == 1,
            res@[0].parent is None,
            res@[0].values == Map::<Seq<char>, V>::empty(),
    {
        let mut frames: Vec<Frame<V>> = Vec::new();
        frames.push(Frame { parent: None, values: Vec::new() });
        let res = Environments { frames };
        assert(entries_map(Seq::<(String, V)>::empty()) =~= Map::<Seq<char>, V>::empty());
        res
    }

    /// The global environment.
    pub fn global(&self) -> (res: EnvId)
        ensures
            res == 0,
    {
        0
    }

    /// The number of environments.
    pub fn len(&self) -> (res: usize)
        ensures
            res == self@.len(),
    {
        self.frames.len()
    }

    /// A new empty environment nested in none.
    pub fn new_root(&mut self) -> (res: EnvId)
        requires
            old(self).wf(),
        ensures
            final(self).wf(),
            res == old(self)@.len(),
            final(self)@ == old(self)@.push(FrameView { parent: None, values: Map::empty() }),
    {
        let id = self.frames.len();
        self.frames.push(Frame { parent: None, values: Vec::new() });
        assert(entries_map(Seq::<(String, V)>::empty()) =~= Map::<Seq<char>, V>::empty());
        assert(self@ =~= old(self)@.push(FrameView { parent: None, values: Map::empty() }));
        id
    }

    /// A new empty environment nested in `parent`.
    pub fn new_with_parent(&mut self, parent: EnvId) -> (res: EnvId)
        requires
            old(self).wf(),
            parent < old(self)@.len(),
        ensures
            final(self).wf(),
            res == old(self)@.len(),
            final(self)@ == old(self)@.push(FrameView { parent: Some(parent), values: Map::empty() }),
    {
        let id = self.frames.len();
        self.frames.push(Frame { parent: Some(parent), values: Vec::new() });
        assert(entries_map(Seq::<(String, V)>::empty()) =~= Map::<Seq<char>, V>::empty());
        assert(self@ =~= old(self)@.push(FrameView { parent: Some(parent), values: Map::empty() }));
        id
    }

    /// Defines (or redefines) `name` as `value` in `env`.
    pub fn define(&mut self, env: EnvId, name: &String, value: V)
        requires
            old(self).wf(),
            env < old(self)@.len(),
        ensures
            final(self).wf(),
            final(self)@ == old(self)@.update(env as int, FrameView {
                values: old(self)@[env as int].values.insert(name@, value),
                ..old(self)@[env as int]
            }),
    {
        self.put(env, name, value);
    }

    /// Writes `name` as `value` into `env` itself.
    fn put(&mut self, env: EnvId, name: &String, value: V)
        requires
            old(self).wf(),
            env < old(self)@.len(),
        ensures
            final(self).wf(),
            final(self)@ == old(self)@.update(env as int, FrameView {
                values: old(self)@[env as int].values.insert(name@, value),
                ..old(self)@[env as int]
            }),
    {
        let mut frame = self.frames.remove(env);
        assert(keys_unique(frame.values@)) by {
            assert(old(self).frames@[env as int] == frame);
        }
        match find_entry(&frame.values, name) {
            Some(i) => {
                proof {
                    lemma_entries_map_update(frame.values@, i as int, value);
                }
                let key = frame.values[i].0.clone();
                frame.values.set(i, (key, value));
            },
            None => {
                let key = name.clone();
                proof {
                    lemma_entries_map_push(frame.values@, key, value);
                }
                frame.values.push((key, value));
            },
        }
        self.frames.insert(env, frame);
        proof {
            assert forall|i: int| 0 <= i < self.frames@.len() implies {
                &&& (#[trigger] self.frames@[i]).parent matches Some(p) ==> p < i
                &&& keys_unique(self.frames@[i].values@)
            } by {
                if i != env {
                    assert(self.frames@[i] == old(self).frames@[i]);
                }
            }
            assert(self@ =~= old(self)@.update(env as int, FrameView {
                values: old(self)@[env as int].values.insert(name@, value),
                ..old(self)@[env as int]
            }));
        }
    }

    /// Assigns `value` to `name` in the nearest environment from `env` out that has it;
    /// whether it counts as done is what `assigned` says.
    pub fn assign(&mut self, env: EnvId, name: &String, value: V) -> (res: bool)
        requires
            old(self).wf(),
            env < old(self)@.len(),
        ensures
            final(self).wf(),
            (final(self)@, res) == assigned(old(self)@, env as nat, name@, value),
        decreases env,
    {
        proof {
            assert(keys_unique(self.frames@[env as int].values@));
        }
        match find_entry(&self.frames[env].values, name) {
            Some(i) => {
                proof {
                    lemma_entries_map_at(self.frames@[env as int].values@, i as int);
                }
                self.put(env, name, value);
                true
            },
            None => {
                match self.frames[env].parent {
                    Some(p) => {
                        assert(self.frames@[env as int].parent == Some(p));
                        self.assign(p, name, value);
                        true
                    },
                    None => false,
                }
            },
        }
    }

    /// The value of `name` seen from `env`, if any environment from `env` out has it.
    pub fn get(&self, env: EnvId, name: &String) -> (res: Option<&V>)
        requires
            self.wf(),
            env < self@.len(),
        ensures
            match lookup(self@, env as nat, name@) {
                Some(v) => res == Some(&v),
                None => res is None,
            },
        decreases env,
    {
        proof {
            assert(keys_unique(self.frames@[env as int].values@));
        }
        match find_entry(&self.frames[env].values, name) {
            Some(i) => {
                proof {
                    lemma_entries_map_at(self.frames@[env as int].values@, i as int);
                }
                Some(&self.frames[env].values[i].1)
            },
            None => {
                match self.frames[env].parent {
                    Some(p) => {
                        assert(self.frames@[env as int].parent == Some(p));
                        self.get(p, name)
                    },
                    None => None,
                }
            },
        }
    }

    /// The environment `distance` steps out from `env` (one step for a distance of 0).
    fn ancestor(&self, env: EnvId, distance: usize) -> (res: Option<EnvId>)
        requires
            self.wf(),
            env < self@.len(),
        ensures
            match res {
                Some(a) => ancestor_of(self@, env as nat, distance as nat) == Some(a as nat) && a < self@.len(),
                None => ancestor_of(self@, env as nat, distance as nat) is None,
            },
    {
        let mut cur: EnvId = match self.frames[env].parent {
            Some(p) => p,
            None => {
                return None;
            },
        };
        let mut step: usize = 1;
        while step < distance
            invariant
                self.wf(),
                1 <= step,
                cur < self@.len(),
                step <= distance || distance == 0,
                hops(self@, env as nat, if distance == 0 { 1 } else { distance as nat })
                    == hops(self@, cur as nat, if distance == 0 { 0 } else { (distance - step) as nat }),
            decreases distance - step,
        {
            match self.frames[cur].parent {
                Some(p) => {
                    assert(self.frames@[cur as int].parent == Some(p));
                    cur = p;
                },
                None => {
                    return None;
                },
            }
            step += 1;
        }
        Some(cur)
    }

    /// The value of `name` read from the environment `distance` steps out from `env`.
    pub fn get_at(&self, env: EnvId, distance: usize, name: &String) -> (res: Option<&V>)
        requires
            self.wf(),
            env < self@.len(),
        ensures
            match lookup_at(self@, env as nat, distance as nat, name@) {
                Some(v) => res == Some(&v),
                None => res is None,
            },
    {
        if distance == 0 {
            return self.get(env, name);
        }
        proof {
            lemma_hops_bound(self@, env as nat, distance as nat);
        }
        match self.ancestor(env, distance) {
            Some(a) => {
                assert(ancestor_of(self@, env as nat, distance as nat) == Some(a as nat));
                self.get(a, name)
            },
            None => None,
        }
    }

    /// Assigns `value` to `name` from the environment `distance` steps out from `env`.
    pub fn assign_at(&mut self, env: EnvId, distance: usize, name: &String, value: V) -> (res: bool)
        requires
            old(self).wf(),
            env < old(self)@.len(),
        ensures
            final(self).wf(),
            (final(self)@, res) == assigned_at(old(self)@, env as nat, distance as nat, name@, value),
    {
        if distance == 0 {
            return self.assign(env, name, value);
        }
        proof {
            lemma_hops_bound(self@, env as nat, distance as nat);
        }
        match self.ancestor(env, distance) {
            Some(a) => {
                assert(ancestor_of(self@, env as nat, distance as nat) == Some(a as nat));
                self.assign(a, name, value)
            },
            None => false,
        }
    }
}

} // verus!
