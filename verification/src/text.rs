use vstd::prelude::*;

verus! {

/// A header name or a header value: either a view into text owned elsewhere,
/// bounded by the lifetime `'h`, or an independently owned buffer.
#[derive(Debug, Clone, Eq)]
pub enum Text<'h> {
    Borrowed(&'h str),
    Owned(String),
}

/// Relies on `<str as PartialEq>::eq`: two string slices compare equal
/// exactly when they hold the same characters.
#[verifier::external_body]
pub(crate) fn str_eq(a: &str, b: &str) -> (r: bool)
    ensures
        r == (a@ == b@),
{
    a == b
}

impl<'h> View for Text<'h> {
    type V = Seq<char>;

    open spec fn view(&self) -> Seq<char> {
        match self {
            Text::Borrowed(s) => s@,
            Text::Owned(s) => s@,
        }
    }
}

impl<'h> Text<'h> {
    /// Borrows the text, whichever way it is held.
    pub fn as_str<'a>(&'a self) -> (r: &'a str)
        ensures
            r@ == self@,
    {
        match self {
            Text::Borrowed(s) => *s,
            Text::Owned(s) => s.as_str(),
        }
    }

    /// An exact copy: borrowed text stays borrowed, owned text is reallocated.
    pub fn duplicate(&self) -> (r: Text<'h>)
        ensures
            r == *self,
    {
        match self {
            Text::Borrowed(s) => Text::Borrowed(*s),
            Text::Owned(s) => Text::Owned(s.clone()),
        }
    }

    /// Whether the text equals `other`, character for character.
    pub fn equals_str(&self, other: &str) -> (r: bool)
        ensures
            r == (self@ == other@),
    {
        str_eq(self.as_str(), other)
    }
}

impl<'h> PartialEq for Text<'h> {
    fn eq(&self, other: &Self) -> bool {
        str_eq(self.as_str(), other.as_str())
    }
}

impl<'h> vstd::std_specs::cmp::PartialEqSpecImpl for Text<'h> {
    open spec fn obeys_eq_spec() -> bool {
        true
    }

    open spec fn eq_spec(&self, other: &Self) -> bool {
        self@ == other@
    }
}

} // verus!
