//! What counts as consent at the prompt.
use vstd::prelude::*;
use crate::text::chars_of;

verus! {

/// The one answer that confirms.
pub open spec fn affirmative() -> Seq<char> {
    seq!['Y']
}

/// Whether `answer` confirms: it does if it is exactly `Y`. Every other
/// answer declines.
pub fn confirms(answer: &str) -> (yes: bool)
    ensures
        yes == (answer@ == affirmative()),
{
    let chars = chars_of(answer);
    let yes = chars.len() == 1 && chars[0] == 'Y';
    assert(yes ==> answer@ =~= affirmative());
    yes
}

} // verus!
