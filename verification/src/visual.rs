use vstd::prelude::*;

verus! {

/// Horizontal alignment of drawn text.
#[derive(Debug, Clone, Copy, PartialEq, Eq, Structural)]
pub enum TextAlign {
    Left,
    Center,
    Right,
}

/// Style of drawn text; only the alignment is kept.
#[derive(Debug, Clone, Copy)]
pub struct TextStyle {
    pub align: Option<TextAlign>,
}

impl Default for TextStyle {
    fn default() -> (s: Self)
        ensures
            s.align is None,
    {
        TextStyle { align: None }
    }
}

impl TextStyle {
    /// The style with the given alignment.
    pub fn align(self, align: TextAlign) -> (s: Self)
        ensures
            s.align == Some(align),
    {
        TextStyle { align: Some(align) }
    }

    /// The style with the given colour; colours are not kept.
    pub fn color(self, color: &str) -> (s: Self)
        ensures
            s == self,
    {
        self
    }
}

/// A drawing layer; drawing on it has no effect here.
#[derive(Debug, Clone, Copy, PartialEq, Eq, Structural)]
pub struct Visual;

impl Visual {
    /// A new drawing layer.
    pub fn new(layer: Option<u8>, persistent: bool) -> (v: Visual)
        ensures
            v == Visual,
    {
        Visual
    }
}

} // verus!
