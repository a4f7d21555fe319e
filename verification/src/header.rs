use vstd::prelude::*;
use vstd::string::StringExecFns;

use crate::text::Text;

verus! {

/// One HTTP-style header: a name/value pair of ownership-flexible text.
/// Names and values are opaque; nothing is validated or case-folded.
#[derive(Debug, Clone, Eq)]
pub struct Header<'h> {
    /// The name of the header.
    pub name: Text<'h>,
    /// The value of the header.
    pub value: Text<'h>,
}

/// A richer header representation that can state its canonical field name
/// and render its value in wire form. Implementors supply the two spec
/// functions as the mathematical statement of what the two executable
/// methods return.
pub trait TypedHeader {
    /// The canonical field name, as a mathematical sequence of characters.
    spec fn spec_name(&self) -> Seq<char>;

    /// The rendered value, as a mathematical sequence of characters.
    spec fn spec_value(&self) -> Seq<char>;

    /// The canonical field name of this header representation.
    fn canonical_name(&self) -> (r: String)
        ensures
            r@ == self.spec_name(),
    ;

    /// The value of this header representation, rendered as text.
    fn render_value(&self) -> (r: String)
        ensures
            r@ == self.spec_value(),
    ;
}

impl<'h> Header<'h> {
    /// Constructs a new header from two borrowed pieces of text.
    /// No validation of content; never fails.
    pub fn new(name: &'h str, value: &'h str) -> (h: Header<'h>)
        ensures
            h.name@ == name@,
            h.value@ == value@,
    {
        Header { name: Text::Borrowed(name), value: Text::Borrowed(value) }
    }

    /// Constructs a new header from two owned strings.
    pub fn new_owned(name: String, value: String) -> (h: Header<'h>)
        ensures
            h.name@ == name@,
            h.value@ == value@,
    {
        Header { name: Text::Owned(name), value: Text::Owned(value) }
    }

    /// Renders the header in wire form: `"name: value"`, with no trailing
    /// line terminator.
    pub fn render(&self) -> (r: String)
        ensures
            r@ == self.name@ + ": "@ + self.value@,
    {
        let mut out = String::new();
        out.append(self.name.as_str());
        out.append(": ");
        out.append(self.value.as_str());
        proof {
            assert(out@ =~= self.name@ + ": "@ + self.value@);
        }
        out
    }
}

impl Header<'static> {
    /// Flattens a typed header representation into an owned name/value pair.
    pub fn from_typed<T: TypedHeader>(typed: &T) -> (h: Header<'static>)
        ensures
            h.name@ == typed.spec_name(),
            h.value@ == typed.spec_value(),
    {
        Header {
            name: Text::Owned(typed.canonical_name()),
            value: Text::Owned(typed.render_value()),
        }
    }
}

impl<'h> TypedHeader for Header<'h> {
    open spec fn spec_name(&self) -> Seq<char> {
        self.name@
    }

    open spec fn spec_value(&self) -> Seq<char> {
        self.value@
    }

    fn canonical_name(&self) -> (r: String) {
        self.name.as_str().to_owned()
    }

    fn render_value(&self) -> (r: String) {
        self.value.as_str().to_owned()
    }
}

impl<'h> PartialEq for Header<'h> {
    fn eq(&self, other: &Self) -> bool {
        self.name == other.name && self.value == other.value
    }
}

impl<'h> vstd::std_specs::cmp::PartialEqSpecImpl for Header<'h> {
    open spec fn obeys_eq_spec() -> bool {
        true
    }

    open spec fn eq_spec(&self, other: &Self) -> bool {
        self.name@ == other.name@ && self.value@ == other.value@
    }
}

} // verus!
