//! Absolute paths as sequences of components.

use crate::grapheme::texts;
use vstd::prelude::*;
use vstd::string::*;

verus! {

/// The pieces of `s` between occurrences of `sep`; a text without `sep` is a
/// single piece.
pub open spec fn split_on<A>(s: Seq<A>, sep: A) -> Seq<Seq<A>>
    decreases s.len(),
{
    if s.len() == 0 {
        seq![Seq::<A>::empty()]
    } else {
        let init = split_on(s.drop_last(), sep);
        if s.last() == sep {
            init.push(Seq::<A>::empty())
        } else {
            init.update(init.len() - 1, init.last().push(s.last()))
        }
    }
}

/// A piece between separators that names a directory entry: neither empty
/// nor `.`.
pub open spec fn is_component(p: Seq<char>) -> bool {
    p.len() > 0 && p != seq!['.']
}

/// The pieces that are components, in order.
pub open spec fn keep_components(pieces: Seq<Seq<char>>) -> Seq<Seq<char>>
    decreases pieces.len(),
{
    if pieces.len() == 0 {
        Seq::empty()
    } else {
        let init = keep_components(pieces.drop_last());
        if is_component(pieces.last()) {
            init.push(pieces.last())
        } else {
            init
        }
    }
}

/// The components of a path: the pieces between `/` separators, without
/// empty pieces and `.`.
pub open spec fn path_components(s: Seq<char>) -> Seq<Seq<char>> {
    keep_components(split_on(s, '/'))
}

pub open spec fn is_absolute(s: Seq<char>) -> bool {
    s.len() > 0 && s[0] == '/'
}

/// The text after the last `/` (all of it when there is none).
pub open spec fn final_piece(s: Seq<char>) -> Seq<char> {
    split_on(s, '/').last()
}

pub proof fn lemma_split_len<A>(s: Seq<A>, sep: A)
    ensures
        split_on(s, sep).len() >= 1,
    decreases s.len(),
{
    if s.len() > 0 {
        lemma_split_len(s.drop_last(), sep);
    }
}

/// No piece holds the separator.
pub proof fn lemma_split_pieces<A>(s: Seq<A>, sep: A)
    ensures
        forall|i: int| 0 <= i < split_on(s, sep).len() ==> !(#[trigger] split_on(s, sep)[i]).contains(sep),
    decreases s.len(),
{
    lemma_split_len(s, sep);
    if s.len() > 0 {
        lemma_split_pieces(s.drop_last(), sep);
        lemma_split_len(s.drop_last(), sep);
        let init = split_on(s.drop_last(), sep);
        if s.last() != sep {
            assert forall|i: int| 0 <= i < split_on(s, sep).len() implies !(#[trigger] split_on(
                s,
                sep,
            )[i]).contains(sep) by {
                if i == init.len() - 1 {
                    let p = init.last().push(s.last());
                    if p.contains(sep) {
                        let j = choose|j: int| 0 <= j < p.len() && p[j] == sep;
                        if j < init.last().len() {
                            assert(init.last()[j] == sep);
                        }
                    }
                } else {
                    assert(split_on(s, sep)[i] == init[i]);
                }
            }
        } else {
            assert forall|i: int| 0 <= i < split_on(s, sep).len() implies !(#[trigger] split_on(
                s,
                sep,
            )[i]).contains(sep) by {
                if i < init.len() {
                    assert(split_on(s, sep)[i] == init[i]);
                }
            }
        }
    }
}

/// Components are taken from the pieces, so none holds a `/`.
pub proof fn lemma_components_no_sep(s: Seq<char>)
    ensures
        forall|i: int|
            0 <= i < path_components(s).len() ==> !(#[trigger] path_components(s)[i]).contains('/'),
{
    lemma_split_pieces(s, '/');
    lemma_keep_from(split_on(s, '/'));
}

proof fn lemma_keep_from(pieces: Seq<Seq<char>>)
    ensures
        forall|i: int|
            0 <= i < keep_components(pieces).len() ==> exists|j: int|
                0 <= j < pieces.len() && #[trigger] keep_components(pieces)[i] == pieces[j],
    decreases pieces.len(),
{
    if pieces.len() > 0 {
        lemma_keep_from(pieces.drop_last());
        let init = keep_components(pieces.drop_last());
        assert forall|i: int| 0 <= i < keep_components(pieces).len() implies exists|j: int|
            0 <= j < pieces.len() && #[trigger] keep_components(pieces)[i] == pieces[j] by {
            if i < init.len() {
                let j = choose|j: int|
                    0 <= j < pieces.drop_last().len() && #[trigger] init[i]
                        == pieces.drop_last()[j];
                assert(keep_components(pieces)[i] == pieces[j]);
            } else {
                assert(keep_components(pieces)[i] == pieces[pieces.len() - 1]);
            }
        }
    }
}

/// After a separator, the final piece is what follows it.
pub proof fn lemma_final_piece(a: Seq<char>, b: Seq<char>)
    requires
        !b.contains('/'),
    ensures
        final_piece(a + seq!['/'] + b) == b,
    decreases b.len(),
{
    let s = a + seq!['/'] + b;
    if b.len() == 0 {
        assert(s.drop_last() =~= a);
        assert(s.last() == '/');
    } else {
        assert(s.drop_last() =~= a + seq!['/'] + b.drop_last());
        assert(!b.drop_last().contains('/')) by {
            if b.drop_last().contains('/') {
                let j = choose|j: int| 0 <= j < b.drop_last().len() && b.drop_last()[j] == '/';
                assert(b[j] == '/');
            }
        }
        lemma_final_piece(a, b.drop_last());
        lemma_split_len(s.drop_last(), '/');
        assert(s.last() == b.last());
        assert(b.last() != '/') by {
            assert(b[b.len() - 1] == b.last());
        }
        assert(b.drop_last().push(b.last()) =~= b);
    }
}

/// The pieces of `s` between occurrences of `sep`.
pub fn split_text(s: &str, sep: char) -> (r: Vec<String>)
    ensures
        texts(r@) == split_on(s@, sep),
{
    let n = s.unicode_len();
    let mut r: Vec<String> = Vec::new();
    let mut start: usize = 0;
    let mut i: usize = 0;
    assert(s@.take(0) =~= Seq::<char>::empty());
    assert(split_on(s@.take(0), sep).drop_last() =~= Seq::<Seq<char>>::empty());
    while i < n
        invariant
            n == s@.len(),
            start <= i <= n,
            split_on(s@.take(i as int), sep).len() >= 1,
            split_on(s@.take(i as int), sep).last() == s@.subrange(start as int, i as int),
            texts(r@) == split_on(s@.take(i as int), sep).drop_last(),
        decreases n - i,
    {
        let ghost sp = split_on(s@.take(i as int), sep);
        assert(s@.take(i + 1).drop_last() =~= s@.take(i as int));
        assert(s@.take(i + 1).last() == s@[i as int]);
        if s.get_char(i) == sep {
            r.push(String::from_str(s.substring_char(start, i)));
            proof {
                let sp2 = split_on(s@.take(i + 1), sep);
                assert(sp2.drop_last() =~= sp);
                assert(sp =~= sp.drop_last().push(sp.last()));
                assert(texts(r@) =~= sp);
            }
            start = i + 1;
        } else {
            proof {
                let sp2 = split_on(s@.take(i + 1), sep);
                assert(sp2.drop_last() =~= sp.drop_last());
                assert(s@.subrange(start as int, i + 1) =~= s@.subrange(start as int, i as int).push(
                    s@[i as int],
                ));
            }
        }
        i += 1;
    }
    r.push(String::from_str(s.substring_char(start, n)));
    proof {
        let sp = split_on(s@.take(n as int), sep);
        assert(s@.take(n as int) =~= s@);
        assert(sp =~= sp.drop_last().push(sp.last()));
        assert(texts(r@) =~= sp);
    }
    r
}

fn is_component_text(p: &str) -> (r: bool)
    ensures
        r == is_component(p@),
{
    let n = p.unicode_len();
    if n == 0 {
        false
    } else if n == 1 && p.get_char(0) == '.' {
        assert(p@ =~= seq!['.']);
        false
    } else {
        true
    }
}

/// The components of `path`, in order.
pub fn components(path: &str) -> (r: Vec<String>)
    ensures
        texts(r@) == path_components(path@),
{
    let n = path.unicode_len();
    let ghost s = path@;
    let mut r: Vec<String> = Vec::new();
    let mut start: usize = 0;
    let mut i: usize = 0;
    assert(s.take(0) =~= Seq::<char>::empty());
    assert(split_on(s.take(0), '/').drop_last() =~= Seq::<Seq<char>>::empty());
    while i < n
        invariant
            n == s.len(),
            s == path@,
            start <= i <= n,
            split_on(s.take(i as int), '/').len() >= 1,
            split_on(s.take(i as int), '/').last() == s.subrange(start as int, i as int),
            texts(r@) == keep_components(split_on(s.take(i as int), '/').drop_last()),
        decreases n - i,
    {
        let ghost sp = split_on(s.take(i as int), '/');
        assert(s.take(i + 1).drop_last() =~= s.take(i as int));
        assert(s.take(i + 1).last() == s[i as int]);
        if path.get_char(i) == '/' {
            let piece = path.substring_char(start, i);
            let keep = is_component_text(piece);
            if keep {
                r.push(String::from_str(piece));
            }
            proof {
                let sp2 = split_on(s.take(i + 1), '/');
                assert(sp2 == sp.push(Seq::<char>::empty()));
                assert(sp2.drop_last() =~= sp);
                assert(sp =~= sp.drop_last().push(sp.last()));
                assert(texts(r@) =~= keep_components(sp));
            }
            start = i + 1;
        } else {
            proof {
                let sp2 = split_on(s.take(i + 1), '/');
                assert(sp2.drop_last() =~= sp.drop_last());
                assert(s.subrange(start as int, i + 1) =~= s.subrange(start as int, i as int).push(s[i as int]));
            }
        }
        i += 1;
    }
    let last = path.substring_char(start, n);
    if is_component_text(last) {
        r.push(String::from_str(last));
    }
    proof {
        let sp = split_on(s.take(n as int), '/');
        assert(s.take(n as int) =~= s);
        assert(sp =~= sp.drop_last().push(sp.last()));
        assert(texts(r@) =~= keep_components(sp));
    }
    r
}

} // verus!
