use vstd::prelude::*;

verus! {

/// An indentation of some number of tabs.
pub struct Indent(pub usize);

impl Indent {
    /// The indentation: one tab for each level.
    pub fn to_string(&self) -> (r: String)
        ensures
            r@ == Seq::new(self.0 as nat, |i: int| '\t'),
    {
        let mut s = String::new();
        let mut i: usize = 0;
        while i < self.0
            invariant
                i <= self.0,
                s@ == Seq::new(i as nat, |k: int| '\t'),
            decreases self.0 - i,
        {
            proof {
                reveal_strlit("\t");
            }
            s.append("\t");
            assert(s@ =~= Seq::new((i + 1) as nat, |k: int| '\t'));
            i = i + 1;
        }
        s
    }
}

} // verus!
