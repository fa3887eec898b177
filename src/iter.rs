//! A two-way cursor over a container: the container says how to start at
//! either end and how to step, the cursor remembers where it stands.
use vstd::prelude::*;

verus! {

/// A container that a cursor can walk in both directions.
pub trait Iterator<T: Clone>: Sized {
    /// Where a cursor stands before the first element.
    spec fn start(&self) -> T;

    /// Where a cursor stands after the last element.
    spec fn end(&self) -> T;

    /// The element after position `cur`, `None` at the end.
    spec fn after(&self, cur: T) -> Option<T>;

    /// The element before position `cur`, `None` at the start.
    spec fn before(&self, cur: T) -> Option<T>;

    /// A cursor before the first element.
    fn iter(&self) -> (r: Iter<'_, Self, T>)
        ensures
            *r.data == *self,
            r.cur == self.start(),
    ;

    /// A cursor after the last element.
    fn rev_iter(&self) -> (r: Iter<'_, Self, T>)
        ensures
            *r.data == *self,
            r.cur == self.end(),
    ;

    /// Step forward; `None` at the end, where the cursor stays.
    fn next(iter: &mut Iter<'_, Self, T>) -> (r: Option<T>)
        ensures
            r == old(iter).data.after(old(iter).cur),
            *final(iter).data == *old(iter).data,
            final(iter).cur == match r {
                Some(c) => c,
                None => old(iter).cur,
            },
    ;

    /// Step backward; `None` at the start, where the cursor stays.
    fn prev(iter: &mut Iter<'_, Self, T>) -> (r: Option<T>)
        ensures
            r == old(iter).data.before(old(iter).cur),
            *final(iter).data == *old(iter).data,
            final(iter).cur == match r {
                Some(c) => c,
                None => old(iter).cur,
            },
    ;
}

/// A cursor over `data`, standing at `cur`.
pub struct Iter<'a, T1: Iterator<T2>, T2: Clone> {
    pub data: &'a T1,
    pub cur: T2,
}

impl<'a, T1: Iterator<T2>, T2: Clone> Iter<'a, T1, T2> {
    /// Step forward; `None` at the end, where the cursor stays.
    pub fn next(&mut self) -> (r: Option<T2>)
        ensures
            r == old(self).data.after(old(self).cur),
            *final(self).data == *old(self).data,
            final(self).cur == match r {
                Some(c) => c,
                None => old(self).cur,
            },
    {
        T1::next(self)
    }

    /// Step backward; `None` at the start, where the cursor stays.
    pub fn prev(&mut self) -> (r: Option<T2>)
        ensures
            r == old(self).data.before(old(self).cur),
            *final(self).data == *old(self).data,
            final(self).cur == match r {
                Some(c) => c,
                None => old(self).cur,
            },
    {
        T1::prev(self)
    }
}

} // verus!
