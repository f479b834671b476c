//! The map from tensor names to published tensors. Each name is published
//! once; what was published is what is read back. Sharing between threads
//! (a mutex and a condition variable) is the caller's part.
use vstd::prelude::*;

verus! {

/// Publishing a name that is already present.
#[derive(Debug, Clone, Copy, PartialEq, Eq, Structural)]
pub enum StoreError {
    Duplicate,
}

/// Published tensors by name, in order of publication.
pub struct TensorStore<T> {
    pub entries: Vec<(String, T)>,
}

/// Some entry of `e` is named `n`.
pub open spec fn has_name<T>(e: Seq<(String, T)>, n: Seq<char>) -> bool {
    exists|k: int| 0 <= k < e.len() && #[trigger] e[k].0@ == n
}

/// The value published under `n` (the first entry of that name).
pub open spec fn value_of<T>(e: Seq<(String, T)>, n: Seq<char>) -> Option<T>
    decreases e.len(),
{
    if e.len() == 0 {
        None
    } else {
        match value_of(e.drop_last(), n) {
            Some(v) => Some(v),
            None => if e.last().0@ == n {
                Some(e.last().1)
            } else {
                None
            },
        }
    }
}

proof fn lemma_value_of_has_name<T>(e: Seq<(String, T)>, n: Seq<char>)
    ensures
        value_of(e, n) is Some <==> has_name(e, n),
    decreases e.len(),
{
    if e.len() > 0 {
        lemma_value_of_has_name(e.drop_last(), n);
        if has_name(e, n) {
            let k = choose|k: int| 0 <= k < e.len() && #[trigger] e[k].0@ == n;
            if k < e.len() - 1 {
                assert(e.drop_last()[k].0@ == n);
            }
        }
        if has_name(e.drop_last(), n) {
            let k = choose|k: int| 0 <= k < e.drop_last().len() && #[trigger] e.drop_last()[k].0@ == n;
            assert(e[k].0@ == n);
        }
    }
}

impl<T> TensorStore<T> {
    /// The store's contents as a map from names to tensors.
    pub open spec fn lookup(&self, n: Seq<char>) -> Option<T> {
        value_of(self.entries@, n)
    }

    /// An empty store.
    pub fn new() -> (r: Self)
        ensures
            forall|n: Seq<char>| #[trigger] r.lookup(n) is None,
    {
        TensorStore { entries: Vec::new() }
    }

    /// Whether `name` is published.
    pub fn contains(&self, name: &String) -> (r: bool)
        ensures
            r == self.lookup(name@) is Some,
    {
        let mut k: usize = 0;
        while k < self.entries.len()
            invariant
                k <= self.entries@.len(),
                forall|j: int| 0 <= j < k ==> #[trigger] self.entries@[j].0@ != name@,
            decreases self.entries@.len() - k,
        {
            if self.entries[k].0 == *name {
                proof {
                    assert(self.entries@[k as int].0@ == name@);
                    lemma_value_of_has_name(self.entries@, name@);
                }
                return true;
            }
            k += 1;
        }
        proof {
            lemma_value_of_has_name(self.entries@, name@);
        }
        false
    }

    /// The tensor published under `name`, if any.
    pub fn get(&self, name: &String) -> (r: Option<&T>)
        ensures
            r matches Some(v) ==> self.lookup(name@) == Some(*v),
            r is None ==> self.lookup(name@) is None,
    {
        let mut k: usize = 0;
        while k < self.entries.len()
            invariant
                k <= self.entries@.len(),
                forall|j: int| 0 <= j < k ==> #[trigger] self.entries@[j].0@ != name@,
            decreases self.entries@.len() - k,
        {
            if self.entries[k].0 == *name {
                proof {
                    lemma_first_entry(self.entries@, name@, k as int);
                }
                return Some(&self.entries[k].1);
            }
            k += 1;
        }
        proof {
            lemma_value_of_has_name(self.entries@, name@);
        }
        None
    }

    /// Publishes `tensor` under `name`. Fails, changing nothing, when the
    /// name is already published.
    pub fn put(&mut self, name: String, tensor: T) -> (r: Result<(), StoreError>)
        ensures
            r is Err <==> old(self).lookup(name@) is Some,
            r is Err ==> r == Err::<(), StoreError>(StoreError::Duplicate) && final(self).entries@ == old(self).entries@,
            r is Ok ==> final(self).lookup(name@) == Some(tensor),
            forall|n: Seq<char>| n != name@ ==> #[trigger] final(self).lookup(n) == old(self).lookup(n),
    {
        if self.contains(&name) {
            return Err(StoreError::Duplicate);
        }
        let ghost before = self.entries@;
        let ghost key = name@;
        self.entries.push((name, tensor));
        proof {
            assert(self.entries@.drop_last() =~= before);
            lemma_value_of_has_name(before, key);
        }
        Ok(())
    }
}

proof fn lemma_first_entry<T>(e: Seq<(String, T)>, n: Seq<char>, k: int)
    requires
        0 <= k < e.len(),
        e[k].0@ == n,
        forall|j: int| 0 <= j < k ==> #[trigger] e[j].0@ != n,
    ensures
        value_of(e, n) == Some(e[k].1),
    decreases e.len(),
{
    if k < e.len() - 1 {
        lemma_first_entry(e.drop_last(), n, k);
    } else {
        lemma_value_of_has_name(e.drop_last(), n);
        if has_name(e.drop_last(), n) {
            let j = choose|j: int| 0 <= j < e.drop_last().len() && #[trigger] e.drop_last()[j].0@ == n;
            assert(e[j].0@ == n);
        }
    }
}

} // verus!
