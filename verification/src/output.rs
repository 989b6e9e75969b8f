//! Assembling the sorted lines into the output text: each line followed
//! by a newline. Writing the text out belongs to the caller.

use crate::filter::push_char;
use vstd::prelude::*;

verus! {

/// The output text for a line sequence: each line, then a newline.
pub open spec fn joined_lines(s: Seq<Seq<char>>) -> Seq<char>
    decreases s.len(),
{
    if s.len() == 0 {
        Seq::<char>::empty()
    } else {
        joined_lines(s.drop_last()) + s.last() + seq!['\n']
    }
}

/// Renders the lines as one text, each line followed by a newline.
pub fn write_lines(lines: &Vec<String>) -> (r: String)
    ensures
        r@ == joined_lines(lines.deep_view()),
{
    let mut out = String::new();
    let mut i: usize = 0;
    proof {
        assert(lines.deep_view().take(0) =~= Seq::<Seq<char>>::empty());
        assert(out@ =~= Seq::<char>::empty());
    }
    while i < lines.len()
        invariant
            0 <= i <= lines@.len(),
            out@ == joined_lines(lines.deep_view().take(i as int)),
        decreases lines@.len() - i,
    {
        let li = &lines[i];
        out.append(li.as_str());
        push_char(&mut out, '\n');
        proof {
            assert(lines.deep_view().take(i + 1).drop_last() =~= lines.deep_view().take(i as int));
            assert(lines.deep_view().take(i + 1).last() == lines.deep_view()[i as int]);
            assert(out@ =~= joined_lines(lines.deep_view().take(i as int)) + lines.deep_view()[
                i as int
            ] + seq!['\n']);
        }
        i = i + 1;
    }
    proof {
        assert(lines.deep_view().take(lines@.len() as int) =~= lines.deep_view());
    }
    out
}

} // verus!
