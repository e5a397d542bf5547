//! Buffers of display primitives, one per subscribed source.
//!
//! A source's buffer is replaced whole by `update`: a reader that takes a
//! `snapshot` sees the primitives of exactly one update. Shared between a
//! producer and the render loop behind a read-write lock, the exclusive borrow
//! that `update` needs makes each replacement atomic.
use vstd::prelude::*;

verus! {

/// One subscribed source of display primitives.
pub struct ListenerSource<T: Copy> {
    name: String,
    primitives: Vec<T>,
    last_update: u64,
}

impl<T: Copy> ListenerSource<T> {
    pub closed spec fn spec_name(&self) -> Seq<char> {
        self.name@
    }

    /// The primitives of the last update that carried any.
    pub closed spec fn spec_primitives(&self) -> Seq<T> {
        self.primitives@
    }

    /// The time stamp of the last update that carried primitives.
    pub closed spec fn spec_last_update(&self) -> u64 {
        self.last_update
    }

    /// A source with an empty buffer.
    pub fn new(name: &str) -> (r: Self)
        ensures
            r.spec_name() == name@,
            r.spec_primitives() == Seq::<T>::empty(),
            r.spec_last_update() == 0,
    {
        ListenerSource { name: name.to_owned(), primitives: Vec::new(), last_update: 0 }
    }

    pub fn name(&self) -> (r: &str)
        ensures
            r@ == self.spec_name(),
    {
        self.name.as_str()
    }

    pub fn last_update(&self) -> (r: u64)
        ensures
            r == self.spec_last_update(),
    {
        self.last_update
    }

    /// Hands the source what a producer decoded at time `stamp`. Where nothing
    /// valid was decoded (`None`), the source keeps its previous buffer and
    /// stamp and `false` is returned; otherwise the buffer is replaced whole.
    pub fn update(&mut self, decoded: Option<Vec<T>>, stamp: u64) -> (r: bool)
        ensures
            r == decoded.is_some(),
            final(self).spec_name() == old(self).spec_name(),
            match decoded {
                Some(v) => final(self).spec_primitives() == v@
                    && final(self).spec_last_update() == stamp,
                None => final(self).spec_primitives() == old(self).spec_primitives()
                    && final(self).spec_last_update() == old(self).spec_last_update(),
            },
    {
        match decoded {
            Some(v) => {
                self.primitives = v;
                self.last_update = stamp;
                true
            },
            None => false,
        }
    }

    /// A copy of the current buffer: the primitives of the last update that
    /// carried any, all of them and nothing else.
    pub fn snapshot(&self) -> (r: Vec<T>)
        ensures
            r@ == self.spec_primitives(),
    {
        copy_all(&self.primitives)
    }
}

/// An element-by-element copy of `v`.
pub fn copy_all<T: Copy>(v: &Vec<T>) -> (r: Vec<T>)
    ensures
        r@ == v@,
{
    let mut r: Vec<T> = Vec::new();
    let mut i: usize = 0;
    while i < v.len()
        invariant
            i <= v@.len(),
            r@ == v@.take(i as int),
        decreases v@.len() - i,
    {
        r.push(v[i]);
        i = i + 1;
        assert(r@ =~= v@.take(i as int));
    }
    assert(r@ =~= v@);
    r
}

} // verus!
