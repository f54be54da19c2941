use vstd::prelude::*;

verus! {

/// A script value: the serialized text of a value, or nothing for
/// `null` and `undefined`.
#[derive(Clone, Debug, Default, PartialEq, Eq, Hash, PartialOrd, Ord)]
pub struct JsValue(pub Option<String>);

impl JsValue {
    /// The `null` value.
    pub fn null() -> (v: JsValue)
        ensures
            v.0 is None,
    {
        JsValue(None)
    }

    /// The `undefined` value; the same value as `null`.
    pub fn undefined() -> (v: JsValue)
        ensures
            v.0 is None,
    {
        JsValue(None)
    }

    /// Whether the value is `null` (holds no text).
    pub fn is_null(&self) -> (b: bool)
        ensures
            b == self.0 is None,
    {
        self.0.is_none()
    }

    /// Whether the value is `undefined` (holds no text).
    pub fn is_undefined(&self) -> (b: bool)
        ensures
            b == self.0 is None,
    {
        self.0.is_none()
    }

    /// The text the value holds, if any.
    pub fn as_string(&self) -> (s: Option<String>)
        ensures
            s is Some <==> self.0 is Some,
            s matches Some(t) ==> t@ == self.0->0@,
    {
        match &self.0 {
            Some(t) => Some(t.clone()),
            None => None,
        }
    }

    /// Script values never read as booleans here.
    pub fn as_bool(&self) -> (b: Option<bool>)
        ensures
            b is None,
    {
        None
    }
}

/// Checked and unchecked casts between script types. Every type has them;
/// the checked forms always fail.
pub trait JsCast {
    /// A reference to the value as another script type: never available.
    fn dyn_ref<T>(&self) -> (r: Option<&T>)
        ensures
            r is None,
    {
        None
    }

    /// Whether the value is an instance of another script type: never.
    fn is_instance_of<T>(&self) -> (b: bool)
        ensures
            !b,
    {
        false
    }
}

impl<T> JsCast for T {}

} // verus!
