//! Rendering a whole path: the home prefix, each interior component shortened
//! against its siblings, and the last component as it is.

use crate::component::{
    compress_component, dot_led, kept_len, lemma_last_dot_range, last_dot_before, listing_view, min_int, shortened,
    component_form, Entry, MIN_DISAMBIGUABLE_LEN,
};
use crate::gct::{shared, unique_len_from, unique_prefix_len, Clusters};
use crate::grapheme::texts;
use crate::home::{home_prefix, Resolved};
use crate::path::{final_piece, lemma_components_no_sep, lemma_final_piece, path_components};
use vstd::prelude::*;
use vstd::string::*;

verus! {

/// The listing for interior component `i`; a level without one counts as
/// unreadable.
pub open spec fn listing_at(listings: Seq<Option<Vec<Entry>>>, i: int) -> Option<Seq<Entry>> {
    if 0 <= i < listings.len() {
        listing_view(listings[i])
    } else {
        None
    }
}

/// The first `n` components of `rest`, each rendered and preceded by `/`.
pub open spec fn interior_text(
    rest: Seq<Seq<char>>,
    listings: Seq<Option<Vec<Entry>>>,
    n: int,
) -> Seq<char>
    decreases n,
{
    if n <= 0 {
        Seq::empty()
    } else {
        interior_text(rest, listings, n - 1) + seq!['/'] + component_form(
            listing_at(listings, n - 1),
            rest[n - 1],
        )
    }
}

/// The rendering of a path whose home prefix is shown as `display` and whose
/// remaining components are `rest`.
pub open spec fn compressed_text(
    display: Seq<char>,
    rest: Seq<Seq<char>>,
    listings: Seq<Option<Vec<Entry>>>,
) -> Seq<char> {
    if rest.len() == 0 {
        if display.len() == 0 {
            seq!['/']
        } else {
            display
        }
    } else {
        display + interior_text(rest, listings, rest.len() - 1) + seq!['/'] + rest.last()
    }
}

/// Renders a resolved path. `listings[i]` is the listing of the directory
/// that holds `resolved.rest[i]` (`None`: it could not be read).
pub fn compress(resolved: &Resolved, listings: &Vec<Option<Vec<Entry>>>) -> (r: String)
    ensures
        r@ == compressed_text(resolved.display@, texts(resolved.rest@), listings@),
        resolved.rest@.len() > 0 && !resolved.rest@.last()@.contains('/') ==> final_piece(r@)
            == resolved.rest@.last()@,
{
    let ghost rest = texts(resolved.rest@);
    let n = resolved.rest.len();
    let mut out = resolved.display.clone();
    if n == 0 {
        if out.as_str().unicode_len() == 0 {
            out = String::from_str("/");
            proof {
                reveal_strlit("/");
            }
        }
        return out;
    }
    let unreadable: Option<Vec<Entry>> = None;
    let mut i: usize = 0;
    while i + 1 < n
        invariant
            n == resolved.rest@.len(),
            n > 0,
            i + 1 <= n,
            rest == texts(resolved.rest@),
            unreadable is None,
            out@ == resolved.display@ + interior_text(rest, listings@, i as int),
        decreases n - i,
    {
        let comp = resolved.rest[i].as_str();
        assert(comp@ == rest[i as int]);
        let part = if i < listings.len() {
            let p = compress_component(comp, &listings[i]);
            assert(listing_at(listings@, i as int) == listing_view(listings@[i as int]));
            p
        } else {
            let p = compress_component(comp, &unreadable);
            assert(listing_at(listings@, i as int) == listing_view(unreadable));
            p
        };
        let ghost before = out@;
        out.append("/");
        out.append(part.as_str());
        proof {
            reveal_strlit("/");
            assert(rest[i as int] == resolved.rest@[i as int]@);
            assert(part@ == component_form(listing_at(listings@, i as int), rest[i as int]));
            assert(out@ =~= resolved.display@ + interior_text(rest, listings@, i + 1));
        }
        i += 1;
    }
    out.append("/");
    out.append(resolved.rest[n - 1].as_str());
    proof {
        reveal_strlit("/");
        assert(rest.last() == resolved.rest@.last()@);
        assert(out@ =~= resolved.display@ + interior_text(rest, listings@, i as int) + seq!['/']
            + rest.last());
        if !resolved.rest@.last()@.contains('/') {
            lemma_final_piece(resolved.display@ + interior_text(rest, listings@, i as int), rest.last());
        }
    }
    out
}

/// The last component of a path survives compression unchanged, whenever
/// the path does not end at its home prefix.
pub proof fn lemma_leaf_kept(
    path: Seq<char>,
    own_home: Option<Seq<char>>,
    records: Seq<crate::home::HomeRecord>,
    listings: Seq<Option<Vec<Entry>>>,
    display: Seq<char>,
    k: nat,
)
    requires
        home_prefix(path, own_home, records) == Some((display, k)),
        k < path_components(path).len(),
    ensures
        final_piece(compressed_text(display, path_components(path).skip(k as int), listings))
            == path_components(path).last(),
{
    let pc = path_components(path);
    let rest = pc.skip(k as int);
    assert(rest.last() == pc.last());
    lemma_components_no_sep(path);
    assert(!pc[pc.len() - 1].contains('/'));
    lemma_final_piece(display + interior_text(rest, listings, rest.len() - 1), rest.last());
}

proof fn lemma_unique_len_facts(names: Set<Clusters>, c: Clusters, from: nat)
    requires
        from >= 1,
    ensures
        unique_len_from(names, c, from) matches Some(k) ==> from <= k <= c.len() && !shared(
            names,
            c.take(k as int),
        ) && forall|j: int| from <= j < k ==> shared(names, #[trigger] c.take(j)),
    decreases c.len() + 1 - from,
{
    if from <= c.len() && shared(names, c.take(from as int)) {
        lemma_unique_len_facts(names, c, from + 1);
    }
}

proof fn lemma_unique_len_of(names: Set<Clusters>, p: Clusters, from: nat, k: nat)
    requires
        1 <= from <= k <= p.len(),
        !shared(names, p.take(k as int)),
        forall|j: int| from <= j < k ==> shared(names, #[trigger] p.take(j)),
    ensures
        unique_len_from(names, p, from) == Some(k),
    decreases k - from,
{
    if from < k {
        assert(shared(names, p.take(from as int)));
        lemma_unique_len_of(names, p, from + 1, k);
    }
}

proof fn lemma_last_dot_agree(c: Clusters, p: Clusters, w: int)
    requires
        0 <= w <= c.len(),
        w <= p.len(),
        forall|j: int| 0 <= j < w ==> #[trigger] c[j] == p[j],
    ensures
        last_dot_before(c, w) == last_dot_before(p, w),
    decreases w,
{
    if w > 0 {
        lemma_last_dot_agree(c, p, w - 1);
    }
}

/// Shortening is stable: a shortened component, shortened again against the
/// same siblings, stays as it is.
pub proof fn lemma_shorten_idempotent(names: Set<Clusters>, c: Clusters)
    ensures
        shortened(names, shortened(names, c)) == shortened(names, c),
{
    lemma_unique_len_facts(names, c, 1);
    if let Some(k) = unique_prefix_len(names, c) {
        let m = kept_len(c, k);
        let p = c.take(m as int);
        let w = min_int(c.len() as int, MIN_DISAMBIGUABLE_LEN as int);
        lemma_last_dot_range(c, w);
        assert(k <= m <= c.len());
        assert(p.len() == m);
        assert forall|j: int| 1 <= j <= k implies #[trigger] p.take(j) == c.take(j) by {
            assert(p.take(j) =~= c.take(j));
        }
        assert(p.take(k as int) == c.take(k as int));
        assert forall|j: int| 1 <= j < k implies shared(names, #[trigger] p.take(j)) by {
            assert(p.take(j) == c.take(j));
            assert(shared(names, c.take(j)));
        }
        lemma_unique_len_of(names, p, 1, k);
        assert(unique_prefix_len(names, p) == Some(k));
        assert(p[0] == c[0]);
        let wp = min_int(p.len() as int, MIN_DISAMBIGUABLE_LEN as int);
        if k < MIN_DISAMBIGUABLE_LEN && dot_led(c[0]) {
            if m == c.len() {
                assert(p =~= c);
            } else if m >= 3 {
                lemma_last_dot_agree(c, p, 3);
            } else {
                lemma_last_dot_range(p, wp);
                assert(m == 2);
                assert(last_dot_before(c, w) == 0);
                lemma_last_dot_agree(c, p, 2);
                assert(last_dot_before(c, 2) == 0) by {
                    assert(!dot_led(c[1]));
                }
            }
        }
        assert(kept_len(p, k) == m);
        assert(p.take(m as int) =~= p);
    }
}

} // verus!
