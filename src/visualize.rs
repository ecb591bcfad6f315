//! The ASCII preview of a level.
use crate::dungeon::Level;
use crate::wfc::rows_view;
use vstd::prelude::*;
use vstd::string::StringExecFns;

verus! {

/// The rows joined by newlines (no newline after the last).
pub open spec fn join_lines(rows: Seq<Seq<char>>) -> Seq<char>
    decreases rows.len(),
{
    if rows.len() == 0 {
        Seq::empty()
    } else if rows.len() == 1 {
        rows[0]
    } else {
        join_lines(rows.drop_last()) + seq!['\n'] + rows.last()
    }
}

/// The level's tile rows joined by newlines.
pub fn to_ascii(level: &Level) -> (r: String)
    ensures
        r@ == join_lines(rows_view(level.tiles@)),
{
    let mut out = String::new();
    let mut i: usize = 0;
    proof {
        reveal_strlit("\n");
        assert(rows_view(level.tiles@.subrange(0, 0)) =~= Seq::<Seq<char>>::empty());
    }
    while i < level.tiles.len()
        invariant
            i <= level.tiles@.len(),
            "\n"@ == seq!['\n'],
            out@ == join_lines(rows_view(level.tiles@.subrange(0, i as int))),
        decreases level.tiles@.len() - i,
    {
        let ghost prev = rows_view(level.tiles@.subrange(0, i as int));
        let ghost next = rows_view(level.tiles@.subrange(0, i + 1));
        if i > 0 {
            out.append("\n");
        }
        out.append(level.tiles[i].as_str());
        proof {
            assert(next.drop_last() =~= prev);
            assert(next.last() == level.tiles@[i as int]@);
            if i == 0 {
                assert(out@ =~= next[0]);
            } else {
                assert(out@ =~= join_lines(prev) + seq!['\n'] + next.last());
            }
        }
        i += 1;
    }
    assert(level.tiles@.subrange(0, i as int) =~= level.tiles@);
    out
}

} // verus!
