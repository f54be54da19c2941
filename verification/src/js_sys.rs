use vstd::prelude::*;

verus! {

/// An opaque script object; carries no data.
#[derive(Copy, Clone, Debug, Default, PartialEq, Eq, Structural)]
pub struct Object;

impl Object {
    /// A fresh object.
    pub fn new() -> (o: Object)
        ensures
            o == Object,
    {
        Object
    }
}

/// A script string: the text it holds.
#[derive(Clone, Debug, Default, PartialEq, Eq)]
pub struct JsString {
    pub text: String,
}

impl JsString {
    /// The script string holding `s`.
    pub fn from_str(s: &str) -> (j: JsString)
        ensures
            j.text@ == s@,
    {
        JsString { text: s.to_owned() }
    }

    /// The text of the string.
    pub fn to_text(&self) -> (s: String)
        ensures
            s@ == self.text@,
    {
        self.text.clone()
    }
}

/// An opaque script array; carries no data.
#[derive(Copy, Clone, Debug, Default, PartialEq, Eq, Structural)]
pub struct Array;

} // verus!
