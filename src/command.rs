//! The command that a history line stands for.

use vstd::prelude::*;
use crate::text::{char_views, chars_of, split_chars, split_on, string_of};

verus! {

/// The field separator of a history line (`<metadata>;<command>`).
pub const FIELD_SEP: char = ';';

/// The command of a history line: the text after the last `;`, or the whole
/// line where it has none.
pub open spec fn command_of(line: Seq<char>) -> Seq<char> {
    split_on(line, FIELD_SEP).last()
}

/// Extracts the command from a history line.
pub fn extract_command(line: &str) -> (r: String)
    ensures
        r@ == command_of(line@),
{
    let cs = chars_of(line);
    let mut parts = split_chars(&cs, FIELD_SEP);
    proof {
        crate::text::lemma_split_on_nonempty(line@, FIELD_SEP);
    }
    let last = parts.len() - 1;
    assert(char_views(parts@)[last as int] == parts@[last as int]@);
    match parts.pop() {
        Some(field) => string_of(&field),
        None => String::new(),
    }
}

} // verus!
