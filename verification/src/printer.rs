//! Text renderings of solutions.
use crate::text::{append_decimal, decimal};
use vstd::prelude::*;

verus! {

broadcast use vstd::string::group_string_axioms;

/// The numbers of `s` in decimal, separated by `", "`.
pub open spec fn joined(s: Seq<usize>) -> Seq<char>
    decreases s.len(),
{
    if s.len() == 0 {
        Seq::empty()
    } else if s.len() == 1 {
        decimal(s[0] as nat)
    } else {
        joined(s.drop_last()) + ", "@ + decimal(s.last() as nat)
    }
}

/// A path as a list: whole when it has at most seven nodes, else its first
/// three and last three nodes around an ellipsis.
pub open spec fn path_text(path: Seq<usize>) -> Seq<char> {
    if path.len() <= 7 {
        "["@ + joined(path) + "]"@
    } else {
        "["@ + joined(path.take(3)) + ", ..., "@ + joined(path.skip(path.len() - 3)) + "]"@
    }
}

/// Appends the numbers of `s[from..to]`, separated by `", "`.
fn append_joined(out: &mut String, s: &[usize], from: usize, to: usize)
    requires
        from <= to <= s@.len(),
    ensures
        final(out)@ == old(out)@ + joined(s@.subrange(from as int, to as int)),
{
    let ghost start = out@;
    let mut i = from;
    assert(s@.subrange(from as int, from as int) =~= Seq::<usize>::empty());
    assert(start + Seq::<char>::empty() =~= start);
    while i < to
        invariant
            from <= i <= to <= s@.len(),
            out@ == start + joined(s@.subrange(from as int, i as int)),
        decreases to - i,
    {
        let ghost before = s@.subrange(from as int, i as int);
        let ghost after = s@.subrange(from as int, i + 1);
        assert(after.drop_last() =~= before);
        assert(after.last() == s@[i as int]);
        if i > from {
            out.append(", ");
        }
        append_decimal(out, s[i]);
        proof {
            if i == from {
                assert(after.len() == 1);
                assert(out@ =~= start + joined(after));
            } else {
                assert(out@ =~= start + joined(after));
            }
        }
        i = i + 1;
    }
}

/// Renders a path for display.
pub fn format_path(path: &[usize]) -> (s: String)
    ensures
        s@ == path_text(path@),
{
    let len = path.len();
    let mut out = String::from_str("[");
    if len <= 7 {
        append_joined(&mut out, path, 0, len);
        assert(path@.subrange(0, len as int) =~= path@);
    } else {
        append_joined(&mut out, path, 0, 3);
        out.append(", ..., ");
        append_joined(&mut out, path, len - 3, len);
        assert(path@.subrange(0, 3) =~= path@.take(3));
        assert(path@.subrange(len - 3, len as int) =~= path@.skip(len - 3));
    }
    out.append("]");
    proof {
        reveal_strlit("[");
    }
    assert(out@ =~= path_text(path@));
    out
}

} // verus!
