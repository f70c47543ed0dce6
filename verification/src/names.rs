//! Name tables: a name's index is the position at which it was first seen.

use vstd::prelude::*;

verus! {

/// The names of a table as character sequences.
pub open spec fn texts(v: Seq<String>) -> Seq<Seq<char>> {
    v.map_values(|x: String| x@)
}

/// The index of `s` in `v`, appending it first when `v` does not hold it.
/// The flag says whether it was appended.
pub fn get_or_insert(v: &mut Vec<String>, s: &str) -> (r: (usize, bool))
    ensures
        r.1 == !texts(old(v)@).contains(s@),
        !r.1 ==> *final(v) == *old(v) && texts(old(v)@).index_of_first(s@) == Some(r.0 as int),
        r.1 ==> r.0 == old(v)@.len() && texts(final(v)@) == texts(old(v)@).push(s@),
        r.0 < final(v)@.len(),
        texts(final(v)@)[r.0 as int] == s@,
{
    let owned = s.to_owned();
    let mut i: usize = 0;
    while i < v.len()
        invariant
            i <= v@.len(),
            *v == *old(v),
            owned@ == s@,
            forall|j: int| 0 <= j < i ==> texts(v@)[j] != s@,
        decreases v@.len() - i,
    {
        if v[i] == owned {
            proof {
                assert(texts(v@)[i as int] == s@);
                lemma_first_index(texts(v@), s@, i as int);
            }
            return (i, false);
        }
        i += 1;
    }
    proof {
        let t = texts(v@);
        assert(!t.contains(s@)) by {
            if t.contains(s@) {
                let k = choose|k: int| 0 <= k < t.len() && t[k] == s@;
                assert(texts(v@)[k] != s@);
            }
        }
    }
    v.push(owned);
    proof {
        assert(texts(v@) =~= texts(old(v)@).push(s@));
    }
    (v.len() - 1, true)
}

/// The first index of a value is the position before which it does not occur.
pub proof fn lemma_first_index(t: Seq<Seq<char>>, x: Seq<char>, i: int)
    requires
        0 <= i < t.len(),
        t[i] == x,
        forall|j: int| 0 <= j < i ==> t[j] != x,
    ensures
        t.contains(x),
        t.index_of_first(x) == Some(i),
{
    assert(t.contains(x));
    t.index_of_first_ensures(x);
}

} // verus!
