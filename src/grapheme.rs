//! Grapheme clusters: the unit in which path components are shortened.

use unicode_segmentation::UnicodeSegmentation;
use vstd::prelude::*;

verus! {

/// The extended grapheme clusters of a text, in order.
pub uninterp spec fn graphemes_of(s: Seq<char>) -> Seq<Seq<char>>;

/// The texts of a sequence of strings.
pub open spec fn texts(v: Seq<String>) -> Seq<Seq<char>> {
    v.map_values(|g: String| g@)
}

/// Relies on `UnicodeSegmentation::graphemes` (extended clusters): it yields
/// consecutive, non-empty slices of its input that together cover it.
#[verifier::external_body]
pub(crate) fn clusters(s: &str) -> (r: Vec<String>)
    ensures
        texts(r@) == graphemes_of(s@),
        texts(r@).flatten() == s@,
        forall|i: int| 0 <= i < r@.len() ==> #[trigger] r@[i]@.len() > 0,
{
    s.graphemes(true).map(String::from).collect()
}

/// The first `k` clusters of `c`, joined.
pub(crate) fn join_clusters(c: &Vec<String>, k: usize) -> (r: String)
    requires
        k <= c@.len(),
    ensures
        r@ == texts(c@).take(k as int).flatten(),
{
    let mut r = String::new();
    let mut i: usize = 0;
    assert(texts(c@).take(0) =~= Seq::<Seq<char>>::empty());
    while i < k
        invariant
            i <= k <= c@.len(),
            r@ == texts(c@).take(i as int).flatten(),
        decreases k - i,
    {
        r.append(c[i].as_str());
        proof {
            let t = texts(c@);
            assert(t.take(i + 1) =~= t.take(i as int).push(t[i as int]));
            t.take(i as int).lemma_flatten_push(t[i as int]);
        }
        i += 1;
    }
    r
}

} // verus!
