//! Per-descriptor tables: what the accelerator keeps for each partition and each
//! virtual processor, looked up by the file descriptor handed to QEMU.
use std::collections::HashMap;
use vstd::prelude::*;

verus! {

broadcast use vstd::std_specs::hash::group_hash_axioms;

/// A table from file descriptors to values; it must be initialized before use.
pub struct FdTable<T> {
    table: Option<HashMap<i32, T>>,
}

impl<T> View for FdTable<T> {
    type V = Option<Map<i32, T>>;

    /// `None` before initialization, else the entries by descriptor.
    closed spec fn view(&self) -> Option<Map<i32, T>> {
        match self.table {
            Some(m) => Some(m@),
            None => None,
        }
    }
}

impl<T> FdTable<T> {
    /// A table that is not initialized yet.
    pub fn new() -> (t: Self)
        ensures
            t@ is None,
    {
        FdTable { table: None }
    }

    /// Initializes the table, empty.
    pub fn init(&mut self)
        ensures
            final(self)@ == Some(Map::<i32, T>::empty()),
    {
        self.table = Some(HashMap::new());
    }

    /// The table is initialized.
    pub fn is_initialized(&self) -> (ret: bool)
        ensures
            ret == self@ is Some,
    {
        self.table.is_some()
    }

    /// The table is initialized and has an entry for `fd`.
    pub fn contains(&self, fd: i32) -> (ret: bool)
        ensures
            ret == (self@ is Some && self@->0.contains_key(fd)),
    {
        match &self.table {
            Some(m) => m.contains_key(&fd),
            None => false,
        }
    }

    /// The entry of `fd`.
    pub fn get(&self, fd: i32) -> (ret: &T)
        requires
            self@ is Some,
            self@->0.contains_key(fd),
        ensures
            *ret == self@->0[fd],
    {
        let m = self.table.as_ref().unwrap();
        m.get(&fd).unwrap()
    }

    /// Sets the entry of `fd` to `value`.
    pub fn insert(&mut self, fd: i32, value: T)
        requires
            old(self)@ is Some,
        ensures
            final(self)@ == Some(old(self)@->0.insert(fd, value)),
    {
        let t = self.table.take();
        if let Some(mut m) = t {
            m.insert(fd, value);
            self.table = Some(m);
        }
    }

    /// Takes out the entry of `fd` and returns it.
    pub fn remove(&mut self, fd: i32) -> (ret: T)
        requires
            old(self)@ is Some,
            old(self)@->0.contains_key(fd),
        ensures
            ret == old(self)@->0[fd],
            final(self)@ == Some(old(self)@->0.remove(fd)),
    {
        let t = self.table.take();
        let mut m = t.unwrap();
        let ret = m.remove(&fd).unwrap();
        self.table = Some(m);
        ret
    }
}

/// What was stored under a descriptor is what a lookup gives back, and storing under
/// one descriptor leaves the others alone.
pub proof fn lemma_get_after_insert<T>(m: Map<i32, T>, fd: i32, value: T, other: i32)
    requires
        other != fd,
    ensures
        m.insert(fd, value).contains_key(fd),
        m.insert(fd, value)[fd] == value,
        m.insert(fd, value).contains_key(other) == m.contains_key(other),
        m.contains_key(other) ==> m.insert(fd, value)[other] == m[other],
{
}

/// Removing a descriptor that was just added while absent gives back the table as it
/// was.
pub proof fn lemma_remove_after_insert<T>(m: Map<i32, T>, fd: i32, value: T)
    requires
        !m.contains_key(fd),
    ensures
        m.insert(fd, value).remove(fd) == m,
{
    assert(m.insert(fd, value).remove(fd) =~= m);
}

} // verus!
