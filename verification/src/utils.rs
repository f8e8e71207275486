//! Strings that live as long as the program.

use vstd::prelude::*;

verus! {

/// Hands the text of a `String` to a `Box<str>`; the text is unchanged.
/// Stands for `String::into_boxed_str`.
#[verifier::external_body]
fn boxed_str(text: String) -> (boxed: Box<str>)
    ensures
        boxed@ == text@,
{
    text.into_boxed_str()
}

/// Gives up ownership of a boxed string and returns a reference to its text
/// that is never freed. Stands for `Box::leak`.
#[verifier::external_body]
fn leaked_str(boxed: Box<str>) -> (text: &'static str)
    ensures
        text@ == boxed@,
{
    Box::leak(boxed)
}

/// Turning an owned string into a `&'static str`.
pub trait IntoStaticStr: Sized {
    /// The characters of the string.
    spec fn text(self) -> Seq<char>;

    /// Returns the same text with a static lifetime. The memory is never freed.
    fn into_static_str(self) -> (text: &'static str)
        ensures
            text@ == self.text(),
    ;
}

impl IntoStaticStr for String {
    open spec fn text(self) -> Seq<char> {
        self@
    }

    fn into_static_str(self) -> (text: &'static str) {
        leaked_str(boxed_str(self))
    }
}

} // verus!
