use vstd::prelude::*;

verus! {

/// Turning an accumulated buffer of characters into owned text.
pub trait ToString {
    /// The characters the buffer currently holds.
    spec fn chars(&self) -> Seq<char>;

    fn to_string(&mut self) -> (s: String)
        ensures
            s@ == old(self).chars(),
            final(self).chars() == old(self).chars(),
    ;
}

impl ToString for Vec<char> {
    open spec fn chars(&self) -> Seq<char> {
        self@
    }

    fn to_string(&mut self) -> String {
        collect_chars(self)
    }
}

/// Relies on `String`'s `FromIterator` implementation, reached through
/// `Iterator::collect`: the collected string holds exactly the characters
/// of the vector, in order.
#[verifier::external_body]
fn collect_chars(v: &Vec<char>) -> (s: String)
    ensures
        s@ == v@,
{
    v.iter().collect()
}

} // verus!
