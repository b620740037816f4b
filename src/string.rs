//! Checks on comments.
use vstd::prelude::*;
use crate::error::Main;
use crate::text::chars_of;

verus! {

/// Whether `s` holds a line break.
pub open spec fn has_newline(s: Seq<char>) -> bool {
    exists|i: int| 0 <= i < s.len() && s[i] == '\n'
}

/// The comment unchanged; fails where it holds a line break.
pub fn assert_no_newlines(comment: String) -> (r: Result<String, Main>)
    ensures
        has_newline(comment@) ==> r == Err::<String, Main>(Main::CommentWithNewlines),
        !has_newline(comment@) ==> (r matches Ok(s) && s@ == comment@),
{
    let cs = chars_of(comment.as_str());
    let mut i: usize = 0;
    while i < cs.len()
        invariant
            i <= cs@.len(),
            cs@ == comment@,
            forall|j: int| 0 <= j < i ==> cs@[j] != '\n',
        decreases cs@.len() - i,
    {
        if cs[i] == '\n' {
            return Err(Main::CommentWithNewlines);
        }
        i += 1;
    }
    Ok(comment)
}

} // verus!
