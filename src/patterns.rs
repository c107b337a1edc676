//! The pattern text handed over at construction: patterns separated by
//! single ASCII spaces.
use vstd::prelude::*;
use crate::automaton::{texts, total_len};

verus! {

/// The space byte that separates patterns.
pub const SEPARATOR: u8 = 32;

/// The pieces of `s` between separators, in order. Two adjacent separators
/// (or one at either end) give an empty piece; the empty text is one empty
/// piece.
pub open spec fn split_spaces(s: Seq<u8>) -> Seq<Seq<u8>>
    decreases s.len(),
{
    if s.len() == 0 {
        seq![Seq::empty()]
    } else {
        let init = split_spaces(s.drop_last());
        if s.last() == SEPARATOR {
            init.push(Seq::empty())
        } else {
            init.update(init.len() - 1, init.last().push(s.last()))
        }
    }
}

/// Splitting never adds bytes: the pieces together are no longer than the text.
pub proof fn lemma_split_spaces_len(s: Seq<u8>)
    ensures
        split_spaces(s).len() >= 1,
        total_len(split_spaces(s)) <= s.len(),
    decreases s.len(),
{
    if s.len() > 0 {
        let init = split_spaces(s.drop_last());
        lemma_split_spaces_len(s.drop_last());
        if s.last() == SEPARATOR {
            assert(init.push(Seq::empty()).drop_last() =~= init);
            assert(total_len(init.push(Seq::empty())) == total_len(init));
        } else {
            let r = init.update(init.len() - 1, init.last().push(s.last()));
            assert(r.drop_last() =~= init.drop_last());
            assert(r.last() == init.last().push(s.last()));
            assert(total_len(r) == total_len(init) + 1);
        }
    } else {
        assert(split_spaces(s).drop_last() =~= Seq::<Seq<u8>>::empty());
        assert(total_len(Seq::<Seq<u8>>::empty()) == 0);
    }
}

/// Splits the pattern text into its patterns.
pub fn split_patterns(text: &[u8]) -> (r: Vec<Vec<u8>>)
    ensures
        texts(r@) == split_spaces(text@),
{
    let mut parts: Vec<Vec<u8>> = Vec::new();
    let mut cur: Vec<u8> = Vec::new();
    let mut i: usize = 0;
    while i < text.len()
        invariant
            i <= text@.len(),
            texts(parts@).push(cur@) == split_spaces(text@.take(i as int)),
        decreases text@.len() - i,
    {
        let ghost before = texts(parts@).push(cur@);
        proof {
            assert(text@.take(i + 1).drop_last() =~= text@.take(i as int));
        }
        if text[i] == SEPARATOR {
            parts.push(cur);
            cur = Vec::new();
            assert(texts(parts@).push(cur@) =~= before.push(Seq::empty()));
        } else {
            cur.push(text[i]);
            assert(texts(parts@).push(cur@) =~= before.update(before.len() - 1, before.last().push(text@[i as int])));
        }
        i += 1;
    }
    assert(text@.take(text@.len() as int) =~= text@);
    parts.push(cur);
    assert(texts(parts@) =~= split_spaces(text@));
    parts
}

} // verus!
