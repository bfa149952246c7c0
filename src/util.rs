//! Small conversions on options and owned values.

use vstd::prelude::*;

verus! {

/// Borrows the contents of an option as `T`.
pub trait OptionBorrowExt<T: ?Sized, U> {
    /// `r` borrows what `self` holds, and is `None` exactly when `self` is.
    spec fn borrowed_from(&self, r: Option<&T>) -> bool;

    fn borrow_internals(&self) -> (r: Option<&T>)
        ensures
            self.borrowed_from(r),
    ;
}

impl<T> OptionBorrowExt<T, T> for Option<T> {
    open spec fn borrowed_from(&self, r: Option<&T>) -> bool {
        match r {
            Some(b) => self.is_some() && *b == self.unwrap(),
            None => self.is_none(),
        }
    }

    fn borrow_internals(&self) -> (r: Option<&T>) {
        match self {
            Some(v) => Some(v),
            None => None,
        }
    }
}

impl OptionBorrowExt<str, String> for Option<String> {
    open spec fn borrowed_from(&self, r: Option<&str>) -> bool {
        match r {
            Some(b) => self.is_some() && b@ == self.unwrap()@,
            None => self.is_none(),
        }
    }

    fn borrow_internals(&self) -> (r: Option<&str>) {
        match self {
            Some(v) => Some(v.as_str()),
            None => None,
        }
    }
}

/// Turns a value into its owned form, keeping its text.
pub trait IntoOwned: View<V = Seq<char>> {
    type Owned: View<V = Seq<char>>;

    fn into_owned(self) -> (r: Self::Owned)
        ensures
            r@ == self@,
    ;
}

impl IntoOwned for String {
    type Owned = String;

    fn into_owned(self) -> (r: String) {
        self
    }
}

impl<'a> IntoOwned for &'a str {
    type Owned = String;

    fn into_owned(self) -> (r: String) {
        self.to_owned()
    }
}

} // verus!
