//! Facts about the beginnings of sequences.
use vstd::prelude::*;

verus! {

/// A sequence begins another one exactly when the other is it followed by what the other has
/// after that many items.
pub proof fn lemma_prefix_split<A>(p: Seq<A>, s: Seq<A>)
    ensures
        p.is_prefix_of(s) <==> p.len() <= s.len() && s == p + s.skip(p.len() as int),
{
    if p.is_prefix_of(s) {
        assert(s =~= p + s.skip(p.len() as int));
    }
    if p.len() <= s.len() && s == p + s.skip(p.len() as int) {
        assert(p =~= s.subrange(0, p.len() as int));
    }
}

} // verus!
