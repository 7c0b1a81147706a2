//! Which home directory, if any, a path lies in, and the `~` form that
//! replaces it.

use crate::grapheme::texts;
use crate::path::{components, is_absolute, path_components};
use vstd::prelude::*;
use vstd::string::*;

verus! {

/// An account from the user database: its name and its home directory,
/// already resolved to a canonical absolute path.
pub struct HomeRecord {
    pub username: String,
    pub home: String,
}

/// Code-point order on texts, which is the byte order of their UTF-8 forms.
pub open spec fn lex_lt(a: Seq<char>, b: Seq<char>) -> bool
    decreases a.len(),
{
    if b.len() == 0 {
        false
    } else if a.len() == 0 {
        true
    } else if a[0] != b[0] {
        (a[0] as int) < (b[0] as int)
    } else {
        lex_lt(a.drop_first(), b.drop_first())
    }
}

/// `home` is an absolute path whose components begin those of `path`.
pub open spec fn home_matches(path: Seq<char>, home: Seq<char>) -> bool {
    is_absolute(home) && path_components(home).is_prefix_of(path_components(path))
}

/// How many components of the path a matching home directory takes away.
pub open spec fn consumed(home: Seq<char>) -> nat {
    path_components(home).len()
}

/// Record `a` is preferred to `b` for `path`: it leaves fewer components
/// (a shorter remaining suffix), or as many and its username comes first.
pub open spec fn beats(a: HomeRecord, b: HomeRecord) -> bool {
    consumed(a.home@) > consumed(b.home@) || (consumed(a.home@) == consumed(b.home@) && lex_lt(
        a.username@,
        b.username@,
    ))
}

/// The index of the preferred record among those whose home `path` lies in;
/// of records that tie, the first.
pub open spec fn best_record(path: Seq<char>, recs: Seq<HomeRecord>) -> Option<int>
    decreases recs.len(),
{
    if recs.len() == 0 {
        None
    } else {
        let prev = best_record(path, recs.drop_last());
        let i = recs.len() - 1;
        if !home_matches(path, recs[i].home@) {
            prev
        } else {
            match prev {
                None => Some(i),
                Some(j) => if beats(recs[i], recs[j]) {
                    Some(i)
                } else {
                    Some(j)
                },
            }
        }
    }
}

/// The display prefix for `path` and how many of its components it stands
/// for; `None` when `path` is not absolute.
pub open spec fn home_prefix(
    path: Seq<char>,
    own_home: Option<Seq<char>>,
    recs: Seq<HomeRecord>,
) -> Option<(Seq<char>, nat)> {
    if !is_absolute(path) {
        None
    } else if own_home is Some && home_matches(path, own_home->0) {
        Some((seq!['~'], consumed(own_home->0)))
    } else {
        match best_record(path, recs) {
            Some(i) => Some((seq!['~'] + recs[i].username@, consumed(recs[i].home@))),
            None => Some((Seq::empty(), 0)),
        }
    }
}

pub open spec fn opt_text(o: Option<String>) -> Option<Seq<char>> {
    match o {
        Some(s) => Some(s@),
        None => None,
    }
}

/// A path split at its home-directory prefix.
pub struct Resolved {
    /// What replaces the consumed prefix: `~`, `~name`, or nothing.
    pub display: String,
    /// The components the prefix stands for.
    pub base: Vec<String>,
    /// The components that follow it.
    pub rest: Vec<String>,
}

proof fn lemma_lex_irreflexive(a: Seq<char>)
    ensures
        !lex_lt(a, a),
    decreases a.len(),
{
    if a.len() > 0 {
        lemma_lex_irreflexive(a.drop_first());
    }
}

proof fn lemma_lex_total(a: Seq<char>, b: Seq<char>)
    ensures
        a != b ==> lex_lt(a, b) || lex_lt(b, a),
        !(lex_lt(a, b) && lex_lt(b, a)),
    decreases a.len(),
{
    if a.len() > 0 && b.len() > 0 {
        lemma_lex_total(a.drop_first(), b.drop_first());
        if a[0] == b[0] && a.drop_first() == b.drop_first() {
            assert(a =~= seq![a[0]] + a.drop_first());
            assert(b =~= seq![b[0]] + b.drop_first());
        }
        if a[0] != b[0] {
            assert((a[0] as int) != (b[0] as int));
        }
    } else if a.len() == 0 && b.len() == 0 {
        assert(a =~= b);
    }
}

proof fn lemma_lex_transitive(a: Seq<char>, b: Seq<char>, c: Seq<char>)
    requires
        lex_lt(a, b),
        lex_lt(b, c),
    ensures
        lex_lt(a, c),
    decreases a.len(),
{
    if a.len() > 0 && b.len() > 0 && c.len() > 0 {
        if a[0] == b[0] && b[0] == c[0] {
            lemma_lex_transitive(a.drop_first(), b.drop_first(), c.drop_first());
        }
    }
}

/// The preferred record matches, and no matching record is preferred to it.
pub proof fn lemma_best_record(path: Seq<char>, recs: Seq<HomeRecord>)
    ensures
        best_record(path, recs) is None <==> forall|j: int|
            0 <= j < recs.len() ==> !home_matches(path, #[trigger] recs[j].home@),
        best_record(path, recs) matches Some(b) ==> 0 <= b < recs.len() && home_matches(
            path,
            recs[b].home@,
        ) && forall|j: int|
            0 <= j < recs.len() && home_matches(path, #[trigger] recs[j].home@) ==> !beats(
                recs[j],
                recs[b],
            ),
    decreases recs.len(),
{
    if recs.len() > 0 {
        let init = recs.drop_last();
        lemma_best_record(path, init);
        let i = recs.len() - 1;
        assert forall|j: int| 0 <= j < init.len() implies #[trigger] recs[j] == init[j] by {}
        lemma_lex_irreflexive(recs[i].username@);
        match best_record(path, init) {
            None => {},
            Some(b) => {
                if home_matches(path, recs[i].home@) && beats(recs[i], recs[b]) {
                    assert forall|j: int|
                        0 <= j < recs.len() && home_matches(
                            path,
                            #[trigger] recs[j].home@,
                        ) implies !beats(recs[j], recs[i]) by {
                        if j < i {
                            assert(!beats(init[j], init[b]));
                            lemma_lex_total(recs[j].username@, recs[b].username@);
                            lemma_lex_total(recs[j].username@, recs[i].username@);
                            lemma_lex_total(recs[i].username@, recs[b].username@);
                            if beats(recs[j], recs[i]) {
                                if consumed(recs[j].home@) == consumed(recs[i].home@)
                                    && consumed(recs[i].home@) == consumed(recs[b].home@) {
                                    lemma_lex_transitive(
                                        recs[j].username@,
                                        recs[i].username@,
                                        recs[b].username@,
                                    );
                                }
                            }
                        } else {
                            lemma_lex_irreflexive(recs[i].username@);
                        }
                    }
                } else if home_matches(path, recs[i].home@) {
                    assert(!beats(recs[i], recs[b]));
                }
            },
        }
        if best_record(path, recs) is None {
            assert(!home_matches(path, recs[i].home@));
        }
    }
}

/// Of two records whose homes both hold `path` and leave equally long
/// remainders, the one with the smaller username is never passed over for
/// the other: whatever record is preferred leaves no longer a remainder,
/// and on a tie has a username that is not greater.
pub proof fn lemma_tie_break(path: Seq<char>, recs: Seq<HomeRecord>, i: int, j: int)
    requires
        0 <= i < recs.len(),
        0 <= j < recs.len(),
        home_matches(path, recs[i].home@),
        home_matches(path, recs[j].home@),
        consumed(recs[i].home@) == consumed(recs[j].home@),
    ensures
        best_record(path, recs) matches Some(b) && consumed(recs[b].home@) >= consumed(
            recs[i].home@,
        ) && (consumed(recs[b].home@) == consumed(recs[i].home@) ==> !lex_lt(
            recs[i].username@,
            recs[b].username@,
        ) && !lex_lt(recs[j].username@, recs[b].username@)),
{
    lemma_best_record(path, recs);
}

fn lex_less(a: &String, b: &String) -> (r: bool)
    ensures
        r == lex_lt(a@, b@),
{
    let n = a.as_str().unicode_len();
    let m = b.as_str().unicode_len();
    let mut i: usize = 0;
    assert(a@.skip(0) =~= a@);
    assert(b@.skip(0) =~= b@);
    while i < n && i < m
        invariant
            n == a@.len(),
            m == b@.len(),
            i <= n,
            i <= m,
            lex_lt(a@, b@) == lex_lt(a@.skip(i as int), b@.skip(i as int)),
        decreases n - i,
    {
        let x = a.as_str().get_char(i);
        let y = b.as_str().get_char(i);
        assert(a@.skip(i as int)[0] == x && b@.skip(i as int)[0] == y);
        if x != y {
            return (x as u32) < (y as u32);
        }
        assert(a@.skip(i as int).drop_first() =~= a@.skip(i + 1));
        assert(b@.skip(i as int).drop_first() =~= b@.skip(i + 1));
        i += 1;
    }
    i < m
}

/// `Some(k)` when `home` is an absolute path whose `k` components begin
/// `parts`, the components of the path.
pub(crate) fn match_home(parts: &Vec<String>, home: &str) -> (r: Option<usize>)
    ensures
        match r {
            Some(k) => is_absolute(home@) && path_components(home@).is_prefix_of(texts(parts@))
                && k == path_components(home@).len(),
            None => !(is_absolute(home@) && path_components(home@).is_prefix_of(texts(parts@))),
        },
{
    if home.unicode_len() == 0 || home.get_char(0) != '/' {
        return None;
    }
    let hp = components(home);
    if hp.len() > parts.len() {
        return None;
    }
    let mut i: usize = 0;
    while i < hp.len()
        invariant
            hp@.len() <= parts@.len(),
            i <= hp@.len(),
            texts(hp@) == path_components(home@),
            forall|j: int| 0 <= j < i ==> hp@[j]@ == #[trigger] parts@[j]@,
        decreases hp@.len() - i,
    {
        if hp[i] != parts[i] {
            assert(texts(hp@)[i as int] != texts(parts@)[i as int]);
            return None;
        }
        i += 1;
    }
    assert(texts(hp@) =~= texts(parts@).subrange(0, hp@.len() as int));
    Some(hp.len())
}

/// Splits `path` at the home directory it lies in: the caller's own home
/// (from the environment) first, else the preferred account of `records`,
/// else the filesystem root. `None` when `path` is not absolute.
pub fn resolve_home(path: &str, own_home: &Option<String>, records: &Vec<HomeRecord>) -> (r: Option<
    Resolved,
>)
    ensures
        match (home_prefix(path@, opt_text(*own_home), records@), r) {
            (None, None) => true,
            (Some((display, k)), Some(res)) => {
                &&& res.display@ == display
                &&& texts(res.base@) == path_components(path@).take(k as int)
                &&& texts(res.rest@) == path_components(path@).skip(k as int)
            },
            _ => false,
        },
{
    if path.unicode_len() == 0 || path.get_char(0) != '/' {
        return None;
    }
    let parts = components(path);
    let ghost pc = path_components(path@);
    let mut display = String::new();
    let mut k: usize = 0;
    let mut own = false;
    if let Some(h) = own_home {
        if let Some(n) = match_home(&parts, h.as_str()) {
            display = String::from_str("~");
            proof {
                reveal_strlit("~");
            }
            k = n;
            own = true;
        }
    }
    if !own {
        let mut best: Option<usize> = None;
        let mut best_k: usize = 0;
        let mut i: usize = 0;
        while i < records.len()
            invariant
                i <= records@.len(),
                texts(parts@) == pc,
                pc == path_components(path@),
                best is Some <==> best_record(path@, records@.take(i as int)) is Some,
                best matches Some(b) ==> best_record(path@, records@.take(i as int)) == Some(
                    b as int,
                ),
                best matches Some(b) ==> b < i && best_k == consumed(records@[b as int].home@)
                    && home_matches(path@, records@[b as int].home@),
                !own,
            decreases records@.len() - i,
        {
            let ghost init = records@.take(i as int);
            assert(records@.take(i + 1).drop_last() =~= init);
            assert(records@.take(i + 1).last() == records@[i as int]);
            assert(forall|j: int| 0 <= j < i ==> #[trigger] init[j] == records@[j]);
            if let Some(n) = match_home(&parts, records[i].home.as_str()) {
                match best {
                    None => {
                        best = Some(i);
                        best_k = n;
                    },
                    Some(b) => {
                        if n > best_k || (n == best_k && lex_less(
                            &records[i].username,
                            &records[b].username,
                        )) {
                            best = Some(i);
                            best_k = n;
                        }
                    },
                }
            }
            i += 1;
        }
        assert(records@.take(records@.len() as int) =~= records@);
        if let Some(b) = best {
            display = String::from_str("~");
            display.append(records[b].username.as_str());
            proof {
                reveal_strlit("~");
            }
            k = best_k;
        }
    }
    let mut base: Vec<String> = Vec::new();
    let mut rest: Vec<String> = Vec::new();
    let mut j: usize = 0;
    while j < parts.len()
        invariant
            k <= parts@.len(),
            j <= parts@.len(),
            texts(parts@) == pc,
            j <= k ==> texts(base@) == pc.take(j as int) && rest@.len() == 0,
            j > k ==> texts(base@) == pc.take(k as int) && texts(rest@) == pc.subrange(
                k as int,
                j as int,
            ),
        decreases parts@.len() - j,
    {
        if j < k {
            base.push(parts[j].clone());
            assert(pc.take(j + 1) =~= pc.take(j as int).push(pc[j as int]));
        } else {
            rest.push(parts[j].clone());
            assert(pc.subrange(k as int, j + 1) =~= pc.subrange(k as int, j as int).push(
                pc[j as int],
            ));
        }
        j += 1;
    }
    assert(pc.take(parts@.len() as int) =~= pc);
    assert(pc.skip(k as int) =~= pc.subrange(k as int, parts@.len() as int));
    if k == parts.len() {
        assert(pc.skip(k as int) =~= Seq::<Seq<char>>::empty());
        assert(texts(rest@) =~= Seq::<Seq<char>>::empty());
    }
    Some(Resolved { display, base, rest })
}

} // verus!
