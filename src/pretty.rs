//! Helpers for the textual rendering of syntax trees and blocks.
use vstd::prelude::*;
use vstd::string::StringExecFns;

verus! {

/// Items written one after the other, separated by `", "`.
pub struct Commas<T>(pub T);

/// `parts` joined with `", "` between each two neighbours.
pub open spec fn commas(parts: Seq<Seq<char>>) -> Seq<char>
    decreases parts.len(),
{
    if parts.len() == 0 {
        Seq::empty()
    } else if parts.len() == 1 {
        parts[0]
    } else {
        commas(parts.drop_last()) + seq![',', ' '] + parts.last()
    }
}

impl Commas<Vec<String>> {
    /// The parts joined with `", "`.
    pub fn render(&self) -> (r: String)
        ensures
            r@ == commas(self.0@.map_values(|s: String| s@)),
    {
        let ghost parts = self.0@.map_values(|s: String| s@);
        let mut r = String::new();
        let mut i: usize = 0;
        assert(parts.subrange(0, 0) =~= Seq::<Seq<char>>::empty());
        while i < self.0.len()
            invariant
                parts == self.0@.map_values(|s: String| s@),
                i <= parts.len(),
                r@ == commas(parts.subrange(0, i as int)),
            decreases parts.len() - i,
        {
            let ghost pre = parts.subrange(0, i + 1);
            assert(pre.drop_last() =~= parts.subrange(0, i as int));
            if i > 0 {
                proof { reveal_strlit(", "); }
                r.append(", ");
            } else {
                assert(r@ =~= Seq::<char>::empty());
            }
            r.append(self.0[i].as_str());
            assert(r@ =~= commas(pre));
            i = i + 1;
        }
        assert(parts.subrange(0, parts.len() as int) =~= parts);
        r
    }
}

} // verus!
