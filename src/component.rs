//! Shortening one interior path component against its sibling directories.

use crate::gct::{clusters_of_all, unique_prefix_len, Clusters, GraphemeClusterTrie};
use crate::grapheme::{clusters, graphemes_of, join_clusters, texts};
use vstd::prelude::*;
use vstd::string::*;

verus! {

/// One entry of a directory listing.
pub struct Entry {
    pub name: String,
    /// The entry is a directory, or its type could not be determined.
    pub is_dir: bool,
}

/// A shortened component that begins with `.` keeps at least this many
/// clusters, where the component has them.
pub const MIN_DISAMBIGUABLE_LEN: usize = 3;

/// The cluster begins with a dot.
pub open spec fn dot_led(g: Seq<char>) -> bool {
    g.len() > 0 && g[0] == '.'
}

pub open spec fn min_int(a: int, b: int) -> int {
    if a <= b {
        a
    } else {
        b
    }
}

/// The index of the last dot-led cluster among the first `w` of `c`, or -1.
pub open spec fn last_dot_before(c: Clusters, w: int) -> int
    decreases w,
{
    if w <= 0 {
        -1
    } else if dot_led(c[w - 1]) {
        w - 1
    } else {
        last_dot_before(c, w - 1)
    }
}

/// How many clusters of `c` are kept when its shortest unique prefix has `k`
/// clusters: a dot-led prefix shorter than the floor reaches one cluster
/// past the last dot in the window of the first (up to) three clusters,
/// capped at that window.
pub open spec fn kept_len(c: Clusters, k: nat) -> nat {
    if k < MIN_DISAMBIGUABLE_LEN && c.len() > 0 && dot_led(c[0]) {
        let w = min_int(c.len() as int, MIN_DISAMBIGUABLE_LEN as int);
        let d = last_dot_before(c, w);
        let end = if d >= 0 {
            min_int(min_int(d + 2, c.len() as int), MIN_DISAMBIGUABLE_LEN as int)
        } else {
            w
        };
        if end > k {
            end as nat
        } else {
            k
        }
    } else {
        k
    }
}

/// The clusters that `c` is shortened to among siblings `names`.
pub open spec fn shortened(names: Set<Clusters>, c: Clusters) -> Clusters {
    match unique_prefix_len(names, c) {
        Some(k) => c.take(kept_len(c, k) as int),
        None => c,
    }
}

/// The siblings of `comp` in a listing of its parent: the other entries that
/// are (or may be) directories, as clusters.
pub open spec fn sibling_names(entries: Seq<Entry>, comp: Seq<char>) -> Set<Clusters> {
    Set::new(
        |g: Clusters|
            exists|i: int|
                0 <= i < entries.len() && entries[i].is_dir && entries[i].name@ != comp && g
                    == graphemes_of(#[trigger] entries[i].name@),
    )
}

pub open spec fn listing_view(listing: Option<Vec<Entry>>) -> Option<Seq<Entry>> {
    match listing {
        Some(v) => Some(v@),
        None => None,
    }
}

/// What an interior component `comp` is rendered as, given the listing of its
/// parent directory (`None`: the directory could not be read).
pub open spec fn component_form(listing: Option<Seq<Entry>>, comp: Seq<char>) -> Seq<char> {
    match listing {
        None => comp,
        Some(entries) => {
            let c = graphemes_of(comp);
            match unique_prefix_len(sibling_names(entries, comp), c) {
                Some(k) => c.take(kept_len(c, k) as int).flatten(),
                None => comp,
            }
        },
    }
}

proof fn lemma_flatten_add<A>(a: Seq<Seq<A>>, b: Seq<Seq<A>>)
    ensures
        (a + b).flatten() == a.flatten() + b.flatten(),
    decreases a.len(),
{
    if a.len() == 0 {
        assert(a + b =~= b);
        assert(a.flatten() =~= Seq::<A>::empty());
        assert(b.flatten() =~= a.flatten() + b.flatten());
    } else {
        lemma_flatten_add(a.drop_first(), b);
        assert((a + b).drop_first() =~= a.drop_first() + b);
        assert((a + b).first() == a.first());
        assert((a + b).flatten() =~= a.first() + (a.drop_first() + b).flatten());
    }
}

/// Whole clusters taken from the front spell a prefix of the text.
proof fn lemma_take_flatten_prefix<A>(c: Seq<Seq<A>>, m: int)
    requires
        0 <= m <= c.len(),
    ensures
        c.take(m).flatten().is_prefix_of(c.flatten()),
{
    assert(c =~= c.take(m) + c.skip(m));
    lemma_flatten_add(c.take(m), c.skip(m));
    let t = c.take(m).flatten();
    assert(c.flatten().subrange(0, t.len() as int) =~= t);
}

/// Non-empty clusters spell at least one character each.
proof fn lemma_flatten_len<A>(c: Seq<Seq<A>>)
    requires
        forall|i: int| 0 <= i < c.len() ==> #[trigger] c[i].len() > 0,
    ensures
        c.flatten().len() >= c.len(),
    decreases c.len(),
{
    if c.len() > 0 {
        lemma_flatten_len(c.drop_first());
    }
}

pub proof fn lemma_last_dot_range(c: Clusters, w: int)
    requires
        0 <= w <= c.len(),
    ensures
        -1 <= last_dot_before(c, w) < w,
        w > 0 && dot_led(c[0]) ==> last_dot_before(c, w) >= 0,
        last_dot_before(c, w) >= 0 ==> dot_led(c[last_dot_before(c, w)]),
        forall|j: int| last_dot_before(c, w) < j < w ==> !dot_led(#[trigger] c[j]),
    decreases w,
{
    if w > 0 {
        lemma_last_dot_range(c, w - 1);
    }
}

/// A dot-led component other than `.` and `..` is never shortened to either.
proof fn lemma_dot_floor(c: Clusters, k: nat)
    requires
        forall|i: int| 0 <= i < c.len() ==> #[trigger] c[i].len() > 0,
        1 <= k <= c.len(),
        dot_led(c[0]),
        c.flatten() != seq!['.'],
        c.flatten() != seq!['.', '.'],
    ensures
        c.take(kept_len(c, k) as int).flatten() != seq!['.'],
        c.take(kept_len(c, k) as int).flatten() != seq!['.', '.'],
{
    let m = kept_len(c, k) as int;
    let t = c.take(m);
    assert(k <= m <= c.len()) by {
        lemma_last_dot_range(c, min_int(c.len() as int, 3));
    }
    lemma_flatten_len(t);
    if m >= 3 {
    } else if m == c.len() {
        assert(t =~= c);
    } else {
        lemma_last_dot_range(c, 3);
        assert(last_dot_before(c, 3) == 0);
        assert(m == 2);
        assert(!dot_led(c[1]));
        assert(t =~= seq![c[0], c[1]]);
        assert(t.drop_first() =~= seq![c[1]]);
        assert(seq![c[1]].drop_first() =~= Seq::<Seq<char>>::empty());
        let e = Seq::<Seq<char>>::empty();
        assert(e.flatten() =~= Seq::<char>::empty());
        assert(seq![c[1]].flatten() =~= c[1] + e.flatten());
        assert(t.flatten() =~= c[0] + t.drop_first().flatten());
        assert(t.flatten() =~= c[0] + c[1]);
        if t.flatten() == seq!['.', '.'] {
            assert(c[0].len() == 1);
            assert(c[1][0] == (c[0] + c[1])[1]);
        }
    }
}

fn is_dot_led(g: &String) -> (r: bool)
    ensures
        r == dot_led(g@),
{
    g.as_str().unicode_len() > 0 && g.as_str().get_char(0) == '.'
}

/// The number of clusters of `c` to keep when its shortest unique prefix
/// has `k` of them.
fn disambiguated_len(c: &Vec<String>, k: usize) -> (r: usize)
    requires
        k <= c@.len(),
    ensures
        r == kept_len(texts(c@), k as nat),
        r <= c@.len(),
{
    let ghost cv = texts(c@);
    if k < MIN_DISAMBIGUABLE_LEN && c.len() > 0 && is_dot_led(&c[0]) {
        let w: usize = if c.len() < MIN_DISAMBIGUABLE_LEN {
            c.len()
        } else {
            MIN_DISAMBIGUABLE_LEN
        };
        let mut last: Option<usize> = None;
        let mut j: usize = 0;
        while j < w
            invariant
                j <= w <= c@.len(),
                cv == texts(c@),
                match last {
                    Some(d) => last_dot_before(cv, j as int) == d as int && d < j,
                    None => last_dot_before(cv, j as int) == -1,
                },
            decreases w - j,
        {
            if is_dot_led(&c[j]) {
                last = Some(j);
            }
            j += 1;
        }
        let end: usize = match last {
            Some(d) => {
                let e: usize = if d + 2 < c.len() {
                    d + 2
                } else {
                    c.len()
                };
                if e < MIN_DISAMBIGUABLE_LEN {
                    e
                } else {
                    MIN_DISAMBIGUABLE_LEN
                }
            },
            None => w,
        };
        if end > k {
            end
        } else {
            k
        }
    } else {
        k
    }
}

/// Renders an interior component `comp` given the listing of its parent
/// directory (`None` when the directory could not be read).
pub fn compress_component(comp: &str, listing: &Option<Vec<Entry>>) -> (r: String)
    ensures
        r@ == component_form(listing_view(*listing), comp@),
        r@.is_prefix_of(comp@),
        r@.len() <= comp@.len(),
        comp@.len() > 0 && comp@[0] == '.' && comp@ != seq!['.'] && comp@ != seq!['.', '.'] ==> r@
            != seq!['.'] && r@ != seq!['.', '.'],
{
    match listing {
        None => String::from_str(comp),
        Some(entries) => {
            let own = String::from_str(comp);
            let mut names: Vec<&str> = Vec::new();
            let mut i: usize = 0;
            while i < entries.len()
                invariant
                    i <= entries@.len(),
                    own@ == comp@,
                    clusters_of_all(names@) == sibling_names(entries@.take(i as int), comp@),
                decreases entries@.len() - i,
            {
                let ghost before = names@;
                let keep = entries[i].is_dir && !(entries[i].name == own);
                let nm = entries[i].name.as_str();
                if keep {
                    names.push(nm);
                }
                proof {
                    let es = entries@.take(i + 1);
                    let ep = entries@.take(i as int);
                    assert(es =~= ep.push(entries@[i as int]));
                    assert(nm@ == es[i as int].name@);
                    assert forall|g: Clusters|
                        #[trigger] sibling_names(es, comp@).contains(g) == clusters_of_all(
                            names@,
                        ).contains(g) by {
                        if sibling_names(es, comp@).contains(g) {
                            let j = choose|j: int|
                                0 <= j < es.len() && es[j].is_dir && es[j].name@ != comp@ && g
                                    == graphemes_of(#[trigger] es[j].name@);
                            if j < i {
                                assert(ep[j] == es[j]);
                                assert(sibling_names(ep, comp@).contains(g));
                                let q = choose|q: int|
                                    0 <= q < before.len() && g == graphemes_of(#[trigger] before[q]@);
                                assert(names@[q] == before[q]);
                            } else {
                                assert(names@[before.len() as int] == nm);
                            }
                        }
                        if clusters_of_all(names@).contains(g) {
                            let q = choose|q: int|
                                0 <= q < names@.len() && g == graphemes_of(#[trigger] names@[q]@);
                            if q < before.len() {
                                assert(names@[q] == before[q]);
                                assert(clusters_of_all(before).contains(g));
                                let j = choose|j: int|
                                    0 <= j < ep.len() && ep[j].is_dir && ep[j].name@ != comp@ && g
                                        == graphemes_of(#[trigger] ep[j].name@);
                                assert(es[j] == ep[j]);
                            } else {
                                assert(g == graphemes_of(es[i as int].name@));
                            }
                        }
                    }
                    assert(sibling_names(es, comp@) =~= clusters_of_all(names@));
                }
                i += 1;
            }
            assert(entries@.take(entries@.len() as int) =~= entries@);
            let trie = GraphemeClusterTrie::from_iter(names.as_slice());
            let c = clusters(comp);
            let ghost cv = texts(c@);
            proof {
                lemma_take_flatten_prefix(cv, cv.len() as int);
                assert(cv.take(cv.len() as int) =~= cv);
            }
            match trie.unique_len(&c) {
                Some(k) => {
                    let m = disambiguated_len(&c, k);
                    let r = join_clusters(&c, m);
                    proof {
                        lemma_take_flatten_prefix(cv, m as int);
                        if comp@.len() > 0 && comp@[0] == '.' && comp@ != seq!['.'] && comp@
                            != seq!['.', '.'] {
                            assert(forall|i: int| 0 <= i < cv.len() ==> #[trigger] cv[i] == c@[i]@);
                            assert(cv.flatten() == cv[0] + cv.drop_first().flatten());
                            assert(dot_led(cv[0]));
                            lemma_dot_floor(cv, k as nat);
                        }
                    }
                    r
                },
                None => own,
            }
        },
    }
}

} // verus!
