//! Placeholder values for building test fixtures.
//!
//! A type implements [`Mockable`] by producing a fixed value from an integer
//! state. State `0` asks for the "present" or "success" shape (`Some`, `Ok`);
//! other states ask for the "absent" or "failure" shape (`None`, `Err`).
use std::rc::Rc;
use vstd::prelude::*;

verus! {

pub trait Mockable: Sized {
    /// Whether `mock` can produce a value for `state`.
    spec fn accepts(state: int) -> bool;

    /// Whether `r` is the value that `mock(state)` produces.
    spec fn is_mock(state: int, r: Self) -> bool;

    fn mock(state: isize) -> (r: Self)
        requires
            Self::accepts(state as int),
        ensures
            Self::is_mock(state as int, r),
    ;
}

impl Mockable for () {
    open spec fn accepts(state: int) -> bool {
        true
    }

    open spec fn is_mock(state: int, r: ()) -> bool {
        true
    }

    fn mock(_state: isize) -> (r: ()) {
    }
}

impl Mockable for char {
    open spec fn accepts(state: int) -> bool {
        true
    }

    open spec fn is_mock(state: int, r: char) -> bool {
        r == '\0'
    }

    fn mock(_state: isize) -> (r: char) {
        '\0'
    }
}

impl Mockable for isize {
    open spec fn accepts(state: int) -> bool {
        true
    }

    open spec fn is_mock(state: int, r: isize) -> bool {
        r == 0
    }

    fn mock(_state: isize) -> (r: isize) {
        0
    }
}

impl Mockable for i8 {
    open spec fn accepts(state: int) -> bool {
        true
    }

    open spec fn is_mock(state: int, r: i8) -> bool {
        r == 0
    }

    fn mock(_state: isize) -> (r: i8) {
        0
    }
}

impl Mockable for usize {
    open spec fn accepts(state: int) -> bool {
        true
    }

    open spec fn is_mock(state: int, r: usize) -> bool {
        r == 0
    }

    fn mock(_state: isize) -> (r: usize) {
        0
    }
}

impl Mockable for u8 {
    open spec fn accepts(state: int) -> bool {
        true
    }

    open spec fn is_mock(state: int, r: u8) -> bool {
        r == 0
    }

    fn mock(_state: isize) -> (r: u8) {
        0
    }
}

impl Mockable for String {
    open spec fn accepts(state: int) -> bool {
        true
    }

    open spec fn is_mock(state: int, r: String) -> bool {
        r@ == Seq::<char>::empty()
    }

    fn mock(_state: isize) -> (r: String) {
        String::new()
    }
}

impl<T: Mockable> Mockable for Box<T> {
    open spec fn accepts(state: int) -> bool {
        T::accepts(state)
    }

    open spec fn is_mock(state: int, r: Box<T>) -> bool {
        T::is_mock(state, *r)
    }

    fn mock(state: isize) -> (r: Box<T>) {
        Box::new(T::mock(state))
    }
}

impl<T: Mockable> Mockable for Rc<T> {
    open spec fn accepts(state: int) -> bool {
        T::accepts(state)
    }

    open spec fn is_mock(state: int, r: Rc<T>) -> bool {
        T::is_mock(state, *r)
    }

    fn mock(state: isize) -> (r: Rc<T>) {
        Rc::new(T::mock(state))
    }
}

impl<T: Mockable> Mockable for Vec<T> {
    open spec fn accepts(state: int) -> bool {
        T::accepts(state)
    }

    open spec fn is_mock(state: int, r: Vec<T>) -> bool {
        &&& r@.len() == 1
        &&& T::is_mock(state, r@[0])
    }

    fn mock(state: isize) -> (r: Vec<T>) {
        let mut v: Vec<T> = Vec::new();
        v.push(T::mock(state));
        v
    }
}

impl<T: Mockable> Mockable for Option<T> {
    open spec fn accepts(state: int) -> bool {
        state != 0 || T::accepts(state)
    }

    open spec fn is_mock(state: int, r: Option<T>) -> bool {
        if state == 0 {
            r matches Some(x) && T::is_mock(state, x)
        } else {
            r is None
        }
    }

    fn mock(state: isize) -> (r: Option<T>) {
        if state == 0 {
            Some(T::mock(state))
        } else {
            None
        }
    }
}

impl<T: Mockable, U: Mockable> Mockable for Result<T, U> {
    /// Only states `0` and `1` have a shape.
    open spec fn accepts(state: int) -> bool {
        ||| state == 0 && T::accepts(state)
        ||| state == 1 && U::accepts(state)
    }

    open spec fn is_mock(state: int, r: Result<T, U>) -> bool {
        if state == 0 {
            r matches Ok(x) && T::is_mock(state, x)
        } else {
            r matches Err(e) && U::is_mock(state, e)
        }
    }

    fn mock(state: isize) -> (r: Result<T, U>) {
        if state == 0 {
            Ok(T::mock(state))
        } else {
            Err(U::mock(state))
        }
    }
}

} // verus!
