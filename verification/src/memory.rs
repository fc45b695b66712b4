use vstd::prelude::*;

use crate::value::{ObjAddr, Value};

verus! {

/// An object on the heap: its collector mark and what it is.
#[derive(Clone, Debug)]
pub struct Object {
    pub is_marked: bool,
    pub kind: ObjectKind,
}

/// The kinds of objects.
#[derive(Clone, Debug)]
pub enum ObjectKind {
    String(String),
}

impl ObjectKind {
    /// The characters of a string object.
    pub open spec fn text(&self) -> Seq<char> {
        match self {
            ObjectKind::String(s) => s@,
        }
    }
}

/// The deepest the value stack can grow.
pub const STACK_MAX: usize = 256;

/// Why a memory operation failed.
#[derive(Clone, Copy, Debug, PartialEq, Eq, Structural)]
pub enum MemoryError {
    /// The value is no object, or no live object is at its address.
    NotAnObject,
    /// There is no global of that name.
    UndefinedGlobal,
}

/// The keys of `entries` are pairwise different.
pub open spec fn keys_unique<T>(entries: Seq<(String, T)>) -> bool {
    forall|i: int, j: int|
        0 <= i < entries.len() && 0 <= j < entries.len() && #[trigger] entries[i].0@ == #[trigger] entries[j].0@ ==> i == j
}

/// Whether `entries` has an entry with key `key`.
pub open spec fn has_key<T>(entries: Seq<(String, T)>, key: Seq<char>) -> bool {
    exists|i: int| 0 <= i < entries.len() && #[trigger] entries[i].0@ == key
}

/// The map from keys to values that `entries` holds.
pub open spec fn entries_map<T>(entries: Seq<(String, T)>) -> Map<Seq<char>, T> {
    Map::new(
        |key: Seq<char>| has_key(entries, key),
        |key: Seq<char>| entries[choose|i: int| 0 <= i < entries.len() && #[trigger] entries[i].0@ == key].1,
    )
}

/// The index of the entry with key `key`, found by scanning from the front.
pub(crate) fn find_entry<T>(entries: &Vec<(String, T)>, key: &String) -> (res: Option<usize>)
    ensures
        match res {
            Some(i) => i < entries@.len() && entries@[i as int].0@ == key@,
            None => !has_key(entries@, key@),
        },
{
    let mut i: usize = 0;
    while i < entries.len()
        invariant
            i <= entries@.len(),
            forall|j: int| 0 <= j < i ==> entries@[j].0@ != key@,
        decreases entries@.len() - i,
    {
        if entries[i].0 == *key {
            return Some(i);
        }
        i += 1;
    }
    None
}

pub proof fn lemma_entries_map_at<T>(entries: Seq<(String, T)>, i: int)
    requires
        keys_unique(entries),
        0 <= i < entries.len(),
    ensures
        entries_map(entries).contains_key(entries[i].0@),
        entries_map(entries)[entries[i].0@] == entries[i].1,
{
    let key = entries[i].0@;
    assert(has_key(entries, key));
    let j = choose|j: int| 0 <= j < entries.len() && #[trigger] entries[j].0@ == key;
    assert(entries[j].0@ == entries[i].0@);
}

pub proof fn lemma_entries_map_update<T>(entries: Seq<(String, T)>, i: int, value: T)
    requires
        keys_unique(entries),
        0 <= i < entries.len(),
    ensures
        keys_unique(entries.update(i, (entries[i].0, value))),
        entries_map(entries.update(i, (entries[i].0, value))) == entries_map(entries).insert(entries[i].0@, value),
{
    let new = entries.update(i, (entries[i].0, value));
    assert forall|a: int, b: int|
        0 <= a < new.len() && 0 <= b < new.len() && #[trigger] new[a].0@ == #[trigger] new[b].0@ implies a == b by {
        assert(new[a].0@ == entries[a].0@);
        assert(new[b].0@ == entries[b].0@);
    }
    lemma_entries_map_at(new, i);
    assert forall|key: Seq<char>| #[trigger] has_key(new, key) == has_key(entries, key) by {
        if has_key(new, key) {
            let j = choose|j: int| 0 <= j < new.len() && #[trigger] new[j].0@ == key;
            assert(entries[j].0@ == key);
        }
        if has_key(entries, key) {
            let j = choose|j: int| 0 <= j < entries.len() && #[trigger] entries[j].0@ == key;
            assert(new[j].0@ == key);
        }
    }
    assert forall|key: Seq<char>| key != entries[i].0@ && #[trigger] has_key(entries, key)
        implies entries_map(new)[key] == entries_map(entries)[key] by {
        let j = choose|j: int| 0 <= j < entries.len() && #[trigger] entries[j].0@ == key;
        lemma_entries_map_at(entries, j);
        assert(new[j].0@ == key);
        lemma_entries_map_at(new, j);
    }
    assert(entries_map(new) =~= entries_map(entries).insert(entries[i].0@, value));
}

pub proof fn lemma_entries_map_push<T>(entries: Seq<(String, T)>, key: String, value: T)
    requires
        keys_unique(entries),
        !has_key(entries, key@),
    ensures
        keys_unique(entries.push((key, value))),
        entries_map(entries.push((key, value))) == entries_map(entries).insert(key@, value),
{
    let new = entries.push((key, value));
    assert forall|a: int, b: int|
        0 <= a < new.len() && 0 <= b < new.len() && #[trigger] new[a].0@ == #[trigger] new[b].0@ implies a == b by {
        if a < entries.len() && b < entries.len() {
            assert(entries[a].0@ == entries[b].0@);
        } else if a < entries.len() {
            assert(entries[a].0@ == key@);
        } else if b < entries.len() {
            assert(entries[b].0@ == key@);
        }
    }
    lemma_entries_map_at(new, entries.len() as int);
    assert forall|k: Seq<char>| #[trigger] has_key(new, k) == (has_key(entries, k) || k == key@) by {
        if has_key(new, k) {
            let j = choose|j: int| 0 <= j < new.len() && #[trigger] new[j].0@ == k;
            if j < entries.len() {
                assert(entries[j].0@ == k);
            }
        }
        if has_key(entries, k) {
            let j = choose|j: int| 0 <= j < entries.len() && #[trigger] entries[j].0@ == k;
            assert(new[j].0@ == k);
        }
    }
    assert forall|k: Seq<char>| k != key@ && #[trigger] has_key(entries, k)
        implies entries_map(new)[k] == entries_map(entries)[k] by {
        let j = choose|j: int| 0 <= j < entries.len() && #[trigger] entries[j].0@ == k;
        lemma_entries_map_at(entries, j);
        assert(new[j].0@ == k);
        lemma_entries_map_at(new, j);
    }
    assert(entries_map(new) =~= entries_map(entries).insert(key@, value));
}

/// The machine's memory: the heap of objects, the value stack, the global variables
/// and the pool of interned strings (a string's text to its object's address).
pub struct Memory {
    heap: Vec<Option<Object>>,
    stack: Vec<Value>,
    globals: Vec<(String, Value)>,
    string_pool: Vec<(String, ObjAddr)>,
}

impl Memory {
    /// The heap: for each address, the text of the string object there, if any.
    pub closed spec fn heap(&self) -> Seq<Option<Seq<char>>> {
        Seq::new(self.heap@.len(), |i: int| match self.heap@[i] {
            Some(o) => Some(o.kind.text()),
            None => None,
        })
    }

    /// The value stack, bottom first.
    pub closed spec fn stack(&self) -> Seq<Value> {
        self.stack@
    }

    /// The global variables by name.
    pub closed spec fn globals(&self) -> Map<Seq<char>, Value> {
        entries_map(self.globals@)
    }

    /// The interned strings: each text to the address of its object.
    pub closed spec fn pool(&self) -> Map<Seq<char>, ObjAddr> {
        entries_map(self.string_pool@)
    }

    /// Names are unique, the stack within its bound, and every interned string's
    /// address holds a string object of that text.
    pub closed spec fn wf(&self) -> bool {
        &&& keys_unique(self.globals@)
        &&& keys_unique(self.string_pool@)
        &&& self.stack@.len() <= STACK_MAX
        &&& forall|i: int| 0 <= i < self.string_pool@.len() ==> {
            let (s, a) = #[trigger] self.string_pool@[i];
            &&& a < self.heap@.len()
            &&& self.heap@[a as int] matches Some(o) && o.kind.text() == s@
        }
    }

    /// Every interned text's address holds a string object of that text.
    pub proof fn lemma_pool_points_to_heap(&self, s: Seq<char>)
        requires
            self.wf(),
            self.pool().contains_key(s),
        ensures
            self.pool()[s] < self.heap().len(),
            self.heap()[self.pool()[s] as int] == Some(s),
    {
        let i = choose|i: int| 0 <= i < self.string_pool@.len() && #[trigger] self.string_pool@[i].0@ == s;
        lemma_entries_map_at(self.string_pool@, i);
    }

    /// The heap has at most as many slots as `usize` counts.
    pub proof fn lemma_heap_bound(&self)
        ensures
            self.heap().len() <= usize::MAX,
    {
        assert(self.heap.len() == self.heap@.len());
    }

    /// Empty memory.
    pub fn new() -> (res: Memory)
        ensures
            res.wf(),
            res.heap().len() == 0,
            res.stack().len() == 0,
            res.globals() == Map::<Seq<char>, Value>::empty(),
            res.pool() == Map::<Seq<char>, ObjAddr>::empty(),
    {
        let res = Memory { heap: Vec::new(), stack: Vec::new(), globals: Vec::new(), string_pool: Vec::new() };
        assert(res.globals() =~= Map::<Seq<char>, Value>::empty());
        assert(res.pool() =~= Map::<Seq<char>, ObjAddr>::empty());
        res
    }

    /// The number of heap slots.
    pub fn heap_len(&self) -> (res: usize)
        ensures
            res == self.heap().len(),
    {
        self.heap.len()
    }

    /// The global variables as a list of names and values, each name once.
    pub fn globals_list(&self) -> (res: &Vec<(String, Value)>)
        requires
            self.wf(),
        ensures
            keys_unique(res@),
            entries_map(res@) == self.globals(),
    {
        &self.globals
    }

    /// The depth of the stack.
    pub fn stack_len(&self) -> (res: usize)
        ensures
            res == self.stack().len(),
    {
        self.stack.len()
    }

    /// Pushes `v`; the stack must have room (it would overflow at `STACK_MAX`).
    pub fn stack_push(&mut self, v: Value)
        requires
            old(self).wf(),
            old(self).stack().len() < STACK_MAX,
        ensures
            final(self).wf(),
            final(self).stack() == old(self).stack().push(v),
            final(self).heap() == old(self).heap(),
            final(self).globals() == old(self).globals(),
            final(self).pool() == old(self).pool(),
    {
        self.stack.push(v);
    }

    /// The top of the stack, which must not be empty.
    pub fn stack_peek(&self) -> (res: Value)
        requires
            self.stack().len() > 0,
        ensures
            res == self.stack().last(),
    {
        self.stack[self.stack.len() - 1]
    }

    /// Pops the top of the stack, which must not be empty.
    pub fn stack_pop(&mut self) -> (res: Value)
        requires
            old(self).wf(),
            old(self).stack().len() > 0,
        ensures
            final(self).wf(),
            res == old(self).stack().last(),
            final(self).stack() == old(self).stack().drop_last(),
            final(self).heap() == old(self).heap(),
            final(self).globals() == old(self).globals(),
            final(self).pool() == old(self).pool(),
    {
        self.stack.pop().unwrap()
    }

    /// The value in stack slot `slot`, if the stack is that deep.
    pub fn stack_get(&self, slot: usize) -> (res: Option<Value>)
        ensures
            res == (if slot < self.stack().len() { Some(self.stack()[slot as int]) } else { None::<Value> }),
    {
        if slot < self.stack.len() {
            Some(self.stack[slot])
        } else {
            None
        }
    }

    /// Writes `value` into stack slot `slot`, which must exist.
    pub fn stack_set(&mut self, slot: usize, value: Value)
        requires
            old(self).wf(),
            slot < old(self).stack().len(),
        ensures
            final(self).wf(),
            final(self).stack() == old(self).stack().update(slot as int, value),
            final(self).heap() == old(self).heap(),
            final(self).globals() == old(self).globals(),
            final(self).pool() == old(self).pool(),
    {
        self.stack.set(slot, value);
    }

    /// The object at `addr`, if there is one.
    pub fn get_obj(&self, addr: ObjAddr) -> (res: Option<&ObjectKind>)
        ensures
            match res {
                Some(k) => addr < self.heap().len() && self.heap()[addr as int] == Some(k.text()),
                None => addr >= self.heap().len() || self.heap()[addr as int] is None,
            },
    {
        if addr < self.heap.len() {
            match &self.heap[addr] {
                Some(obj) => Some(&obj.kind),
                None => None,
            }
        } else {
            None
        }
    }

    /// Puts a new, unmarked object at the end of the heap and returns its address.
    pub fn allocate(&mut self, kind: ObjectKind) -> (res: ObjAddr)
        requires
            old(self).wf(),
        ensures
            final(self).wf(),
            res == old(self).heap().len(),
            final(self).heap() == old(self).heap().push(Some(kind.text())),
            final(self).stack() == old(self).stack(),
            final(self).globals() == old(self).globals(),
            final(self).pool() == old(self).pool(),
    {
        let addr = self.heap.len();
        self.heap.push(Some(Object { is_marked: false, kind }));
        assert(self.heap() =~= old(self).heap().push(Some(kind.text())));
        addr
    }

    /// The address of the string object of text `s`: the interned one if there is one,
    /// else a new object, which is interned.
    pub fn alloc_string(&mut self, s: String) -> (res: ObjAddr)
        requires
            old(self).wf(),
        ensures
            final(self).wf(),
            final(self).stack() == old(self).stack(),
            final(self).globals() == old(self).globals(),
            old(self).pool().contains_key(s@) ==> res == old(self).pool()[s@]
                && final(self).heap() == old(self).heap()
                && final(self).pool() == old(self).pool(),
            !old(self).pool().contains_key(s@) ==> res == old(self).heap().len()
                && final(self).heap() == old(self).heap().push(Some(s@))
                && final(self).pool() == old(self).pool().insert(s@, res),
    {
        match find_entry(&self.string_pool, &s) {
            Some(i) => {
                proof {
                    lemma_entries_map_at(self.string_pool@, i as int);
                }
                self.string_pool[i].1
            },
            None => {
                let key = s.clone();
                let addr = self.heap.len();
                proof {
                    lemma_entries_map_push(self.string_pool@, key, addr);
                }
                self.heap.push(Some(Object { is_marked: false, kind: ObjectKind::String(s) }));
                assert(self.heap() =~= old(self).heap().push(Some(key@)));
                self.string_pool.push((key, addr));
                proof {
                    assert forall|i: int| 0 <= i < self.string_pool@.len() implies {
                        let (t, a) = #[trigger] self.string_pool@[i];
                        &&& a < self.heap@.len()
                        &&& self.heap@[a as int] matches Some(o) && o.kind.text() == t@
                    } by {
                        if i < old(self).string_pool@.len() {
                            assert(self.string_pool@[i] == old(self).string_pool@[i]);
                            assert(self.heap@[self.string_pool@[i].1 as int] == old(self).heap@[self.string_pool@[i].1 as int]);
                        }
                    }
                }
                addr
            },
        }
    }

    /// The text of the string object `obj` refers to; an error when `obj` is no object
    /// or no object is at its address.
    pub fn get_string(&self, obj: Value) -> (res: Result<String, MemoryError>)
        ensures
            match obj {
                Value::Object(addr) => if addr < self.heap().len() && self.heap()[addr as int] is Some {
                    res matches Ok(s) && Some(s@) == self.heap()[addr as int]
                } else {
                    res == Err::<String, MemoryError>(MemoryError::NotAnObject)
                },
                _ => res == Err::<String, MemoryError>(MemoryError::NotAnObject),
            },
    {
        let addr = match obj {
            Value::Object(addr) => addr,
            _ => {
                return Err(MemoryError::NotAnObject);
            },
        };
        match self.get_obj(addr) {
            Some(ObjectKind::String(s)) => Ok(s.clone()),
            None => Err(MemoryError::NotAnObject),
        }
    }

    /// Defines (or redefines) the global `name` as `val`.
    pub fn insert_global(&mut self, name: &String, val: Value)
        requires
            old(self).wf(),
        ensures
            final(self).wf(),
            final(self).globals() == old(self).globals().insert(name@, val),
            final(self).stack() == old(self).stack(),
            final(self).heap() == old(self).heap(),
            final(self).pool() == old(self).pool(),
    {
        match find_entry(&self.globals, name) {
            Some(i) => {
                proof {
                    lemma_entries_map_update(self.globals@, i as int, val);
                }
                let key = self.globals[i].0.clone();
                self.globals.set(i, (key, val));
            },
            None => {
                let key = name.clone();
                proof {
                    lemma_entries_map_push(self.globals@, key, val);
                }
                self.globals.push((key, val));
            },
        }
    }

    /// The value of the global `name`, if it is defined.
    pub fn get_global(&self, name: &String) -> (res: Option<Value>)
        requires
            self.wf(),
        ensures
            res == (if self.globals().contains_key(name@) { Some(self.globals()[name@]) } else { None::<Value> }),
    {
        match find_entry(&self.globals, name) {
            Some(i) => {
                proof {
                    lemma_entries_map_at(self.globals@, i as int);
                }
                Some(self.globals[i].1)
            },
            None => None,
        }
    }

    /// Assigns `new_val` to the global `name`; an error, and no change, when it is not
    /// defined.
    pub fn set_global(&mut self, name: &String, new_val: Value) -> (res: Result<(), MemoryError>)
        requires
            old(self).wf(),
        ensures
            final(self).wf(),
            final(self).stack() == old(self).stack(),
            final(self).heap() == old(self).heap(),
            final(self).pool() == old(self).pool(),
            res is Ok <==> old(self).globals().contains_key(name@),
            res is Ok ==> final(self).globals() == old(self).globals().insert(name@, new_val),
            res is Err ==> final(self).globals() == old(self).globals() && res == Err::<(), MemoryError>(MemoryError::UndefinedGlobal),
    {
        match find_entry(&self.globals, name) {
            Some(i) => {
                proof {
                    lemma_entries_map_update(self.globals@, i as int, new_val);
                    lemma_entries_map_at(self.globals@, i as int);
                }
                let key = self.globals[i].0.clone();
                self.globals.set(i, (key, new_val));
                Ok(())
            },
            None => Err(MemoryError::UndefinedGlobal),
        }
    }
}

} // verus!
