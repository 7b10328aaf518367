//! A readable rendering of a key/value listing, for diagnostics.
use vstd::prelude::*;
use crate::decimal::{lit, push_lit};

verus! {

/// `k: v` pairs separated by `, `.
pub open spec fn entries_text(entries: Seq<(Seq<u8>, Seq<u8>)>) -> Seq<u8>
    decreases entries.len(),
{
    if entries.len() == 0 {
        seq![]
    } else if entries.len() == 1 {
        entries[0].0 + lit(": ") + entries[0].1
    } else {
        entries_text(entries.drop_last()) + lit(", ") + entries.last().0 + lit(": ") + entries.last().1
    }
}

/// The listing in braces: `{k1: v1, k2: v2}`.
pub open spec fn map_text(entries: Seq<(Seq<u8>, Seq<u8>)>) -> Seq<u8> {
    lit("{") + entries_text(entries) + lit("}")
}

/// A borrowed listing of keys and values, rendered as `{k: v, ...}`.
pub struct DisplayMap<'a>(pub &'a Vec<(Vec<u8>, Vec<u8>)>);

impl<'a> DisplayMap<'a> {
    pub open spec fn entries(&self) -> Seq<(Seq<u8>, Seq<u8>)> {
        self.0@.map_values(|e: (Vec<u8>, Vec<u8>)| (e.0@, e.1@))
    }

    /// The listing in braces, in the order given.
    pub fn render(&self) -> (r: Vec<u8>)
        ensures
            r@ == map_text(self.entries()),
    {
        let ghost es = self.entries();
        let mut r: Vec<u8> = Vec::new();
        push_lit(&mut r, "{");
        let ghost start = r@;
        let mut i: usize = 0;
        while i < self.0.len()
            invariant
                i <= self.0@.len(),
                es == self.entries(),
                r@ == start + entries_text(es.take(i as int)),
            decreases self.0@.len() - i,
        {
            assert(es.take(i + 1).drop_last() =~= es.take(i as int));
            assert(es.take(i + 1).last() == es[i as int]);
            if i > 0 {
                push_lit(&mut r, ", ");
            }
            r.extend_from_slice(self.0[i].0.as_slice());
            push_lit(&mut r, ": ");
            r.extend_from_slice(self.0[i].1.as_slice());
            assert(r@ =~= start + entries_text(es.take(i + 1)));
            i = i + 1;
        }
        assert(es.take(es.len() as int) =~= es);
        push_lit(&mut r, "}");
        assert(r@ =~= map_text(es));
        r
    }
}

} // verus!
