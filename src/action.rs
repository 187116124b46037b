//! Actions that nodes emit, addressed by selectors.
use std::marker::PhantomData;
use vstd::prelude::*;
use vstd::string::StrSliceExecFns;

verus! {

/// Whether `a` and `b` hold the same characters.
pub fn same_symbol(a: &str, b: &str) -> (r: bool)
    ensures
        r == (a@ == b@),
{
    let n = a.unicode_len();
    if n != b.unicode_len() {
        return false;
    }
    let mut i: usize = 0;
    while i < n
        invariant
            n == a@.len(),
            n == b@.len(),
            i <= n,
            forall|j: int| 0 <= j < i ==> a@[j] == b@[j],
        decreases n - i,
    {
        if a.get_char(i) != b.get_char(i) {
            return false;
        }
        i = i + 1;
    }
    assert(a@ =~= b@);
    true
}

/// Names a kind of action, and the type of payload it carries.
#[derive(Debug)]
pub struct Selector<T> {
    pub symbol: &'static str,
    pub payload: PhantomData<T>,
}

/// An action: a symbol, and the payload that goes with it.
#[derive(Debug)]
pub struct Action<T> {
    pub symbol: &'static str,
    pub payload: T,
}

impl<T> Selector<T> {
    /// A selector named `s`.
    pub fn new(s: &'static str) -> (r: Selector<T>)
        ensures
            r.symbol@ == s@,
    {
        Selector { symbol: s, payload: PhantomData }
    }

    /// The name of this selector.
    pub fn symbol(&self) -> (r: &'static str)
        ensures
            r@ == self.symbol@,
    {
        self.symbol
    }

    /// An action of this selector carrying `payload`.
    pub fn with(self, payload: T) -> (r: Action<T>)
        ensures
            r.symbol@ == self.symbol@,
            r.payload == payload,
    {
        Action::new(self, payload)
    }
}

impl<T> Action<T> {
    pub fn new(selector: Selector<T>, payload: T) -> (r: Self)
        ensures
            r.symbol@ == selector.symbol@,
            r.payload == payload,
    {
        Action { symbol: selector.symbol, payload }
    }

    /// Whether this action is of `selector`.
    pub fn is(&self, selector: &Selector<T>) -> (r: bool)
        ensures
            r == (self.symbol@ == selector.symbol@),
    {
        same_symbol(self.symbol, selector.symbol)
    }

    /// The payload, if this action is of `selector`.
    pub fn get(&self, selector: &Selector<T>) -> (r: Option<&T>)
        ensures
            self.symbol@ == selector.symbol@ ==> r == Some(&self.payload),
            self.symbol@ != selector.symbol@ ==> r is None,
    {
        if same_symbol(self.symbol, selector.symbol) {
            Some(&self.payload)
        } else {
            None
        }
    }

    /// The payload of an action known to be of `selector`.
    pub fn get_unchecked(&self, selector: &Selector<T>) -> (r: &T)
        requires
            self.symbol@ == selector.symbol@,
        ensures
            *r == self.payload,
    {
        &self.payload
    }
}

} // verus!
