//! An ordered in-memory collection of records, paired with a durable
//! file by the surrounding program: the file's contents are the codec's
//! encoding of the collection, rewritten in full after mutations.

use vstd::prelude::*;
use vstd::pervasive::VecAdditionalExecFns;

use crate::task::Task;

verus! {

/// An ordered sequence of records.
pub struct SimpleStore<T> {
    pub mem: Vec<T>,
}

impl<T> View for SimpleStore<T> {
    type V = Seq<T>;

    open spec fn view(&self) -> Seq<T> {
        self.mem@
    }
}

impl<T> SimpleStore<T> {
    pub fn new(mem: Vec<T>) -> (s: Self)
        ensures
            s@ == mem@,
    {
        SimpleStore { mem }
    }

    pub fn len(&self) -> (n: usize)
        ensures
            n == self@.len(),
    {
        self.mem.len()
    }

    pub fn get(&self, i: usize) -> (r: &T)
        requires
            i < self@.len(),
        ensures
            *r == self@[i as int],
    {
        &self.mem[i]
    }

    pub fn push(&mut self, item: T)
        ensures
            final(self)@ == old(self)@.push(item),
    {
        self.mem.push(item);
    }

    /// Remove the record at `i`, moving the last record into its place.
    pub fn swap_remove(&mut self, i: usize) -> (r: T)
        requires
            i < old(self)@.len(),
        ensures
            r == old(self)@[i as int],
            final(self)@ == old(self)@.update(i as int, old(self)@.last()).drop_last(),
    {
        self.mem.swap_remove(i)
    }

    /// Remove the record at `i`, keeping the order of the rest.
    pub fn remove(&mut self, i: usize) -> (r: T)
        requires
            i < old(self)@.len(),
        ensures
            r == old(self)@[i as int],
            final(self)@ == old(self)@.remove(i as int),
    {
        self.mem.remove(i)
    }
}

impl SimpleStore<Task> {
    /// A copy of the stored tasks, in order.
    pub fn inner(&self) -> (r: Vec<Task>)
        ensures
            r@ == self@,
    {
        let r = self.mem.clone();
        proof {
            assert forall|i: int| 0 <= i < r@.len() implies r@[i] == self@[i] by {
                assert(vstd::pervasive::cloned::<Task>(self.mem[i], r[i]));
            }
            assert(r@ =~= self@);
        }
        r
    }
}

impl SimpleStore<String> {
    /// A copy of the stored names, in order.
    pub fn inner(&self) -> (r: Vec<String>)
        ensures
            r@ == self@,
    {
        let r = self.mem.clone();
        proof {
            assert forall|i: int| 0 <= i < r@.len() implies r@[i] == self@[i] by {
                assert(vstd::pervasive::cloned::<String>(self.mem[i], r[i]));
            }
            assert(r@ =~= self@);
        }
        r
    }

    /// Exchange the records at `a` and `b`.
    pub fn swap(&mut self, a: usize, b: usize)
        requires
            a < old(self)@.len(),
            b < old(self)@.len(),
        ensures
            final(self)@ == old(self)@.update(a as int, old(self)@[b as int]).update(
                b as int,
                old(self)@[a as int],
            ),
    {
        let x = self.mem[a].clone();
        let y = self.mem[b].clone();
        self.mem.set(a, y);
        self.mem.set(b, x);
    }
}

} // verus!
