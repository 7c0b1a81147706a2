//! A lighter rendering of the working directory for window titles: every
//! interior component cut to its first grapheme cluster (two when the first
//! is a dot), with no directory reads.

use crate::grapheme::{clusters, graphemes_of, texts};
use crate::home::{consumed, home_matches, match_home};
use crate::path::{components, is_absolute, path_components, split_on, split_text};
use vstd::prelude::*;
use vstd::string::*;

verus! {

/// The parts joined with `/` between them.
pub open spec fn join_slash(parts: Seq<Seq<char>>) -> Seq<char>
    decreases parts.len(),
{
    if parts.len() == 0 {
        Seq::empty()
    } else if parts.len() == 1 {
        parts[0]
    } else {
        join_slash(parts.drop_last()) + seq!['/'] + parts.last()
    }
}

/// The first cluster of `s`, or the first two when the first is `.`.
pub open spec fn abbreviation(s: Seq<char>) -> Seq<char> {
    let c = graphemes_of(s);
    if c.len() == 0 {
        Seq::empty()
    } else if c[0] == seq!['.'] && c.len() >= 2 {
        c[0] + c[1]
    } else {
        c[0]
    }
}

/// Every piece but the last abbreviated.
pub open spec fn abbreviated(pieces: Seq<Seq<char>>) -> Seq<Seq<char>> {
    Seq::new(
        pieces.len(),
        |i: int|
            if i < pieces.len() - 1 {
                abbreviation(pieces[i])
            } else {
                pieces[i]
            },
    )
}

/// The `/`-separated pieces of `path`, all but the last abbreviated.
pub open spec fn abbreviated_path(path: Seq<char>) -> Seq<char> {
    join_slash(abbreviated(split_on(path, '/')))
}

/// The working directory as shown: `?` when unknown, `~` or `~/...` inside
/// the home directory, otherwise as it is.
pub open spec fn shown_cwd(cwd: Option<Seq<char>>, home: Option<Seq<char>>) -> Seq<char> {
    match cwd {
        None => seq!['?'],
        Some(p) => {
            if home is Some && is_absolute(p) && home_matches(p, home->0) {
                let pc = path_components(p);
                let k = consumed(home->0);
                if k == pc.len() {
                    seq!['~']
                } else {
                    seq!['~', '/'] + join_slash(pc.skip(k as int))
                }
            } else {
                p
            }
        },
    }
}

fn abbreviate(s: &str) -> (r: String)
    ensures
        r@ == abbreviation(s@),
{
    let c = clusters(s);
    if c.len() == 0 {
        return String::new();
    }
    let dot = String::from_str(".");
    proof {
        reveal_strlit(".");
        assert(dot@ =~= seq!['.']);
        assert(texts(c@)[0] == c@[0]@);
    }
    let mut r = c[0].clone();
    if c.len() >= 2 && c[0] == dot {
        r.append(c[1].as_str());
        assert(texts(c@)[1] == c@[1]@);
    }
    r
}

/// Joins `parts[from..]` with `/`.
fn join_from(parts: &Vec<String>, from: usize) -> (r: String)
    requires
        from < parts@.len(),
    ensures
        r@ == join_slash(texts(parts@).skip(from as int)),
{
    let ghost t = texts(parts@).skip(from as int);
    let mut r = parts[from].clone();
    let n = parts.len();
    let mut i: usize = from + 1;
    assert(t.take(1) =~= seq![t[0]]);
    while i < parts.len()
        invariant
            from < i <= parts@.len(),
            t == texts(parts@).skip(from as int),
            r@ == join_slash(t.take(i - from)),
        decreases parts@.len() - i,
    {
        r.append("/");
        r.append(parts[i].as_str());
        proof {
            reveal_strlit("/");
            let n = i - from;
            assert(t.take(n + 1).drop_last() =~= t.take(n as int));
            assert(t.take(n + 1).last() == parts@[i as int]@);
        }
        i += 1;
    }
    assert(t.take(parts@.len() - from) =~= t);
    r
}

fn shown_cwd_text(cwd: &Option<String>, home: &Option<String>) -> (r: String)
    ensures
        r@ == shown_cwd(crate::home::opt_text(*cwd), crate::home::opt_text(*home)),
{
    match cwd {
        None => {
            proof {
                reveal_strlit("?");
            }
            String::from_str("?")
        },
        Some(p) => {
            let absolute = p.as_str().unicode_len() > 0 && p.as_str().get_char(0) == '/';
            if absolute {
                if let Some(h) = home {
                    let parts = components(p.as_str());
                    if let Some(k) = match_home(&parts, h.as_str()) {
                        if k == parts.len() {
                            proof {
                                reveal_strlit("~");
                            }
                            return String::from_str("~");
                        }
                        let mut r = String::from_str("~/");
                        proof {
                            reveal_strlit("~/");
                        }
                        let tail = join_from(&parts, k);
                        r.append(tail.as_str());
                        return r;
                    }
                }
            }
            p.clone()
        },
    }
}

/// `path` with every `/`-separated piece but the last abbreviated.
fn abbreviate_path(path: &str) -> (r: String)
    ensures
        r@ == abbreviated_path(path@),
{
    let pieces = split_text(path, '/');
    let ghost q = abbreviated(split_on(path@, '/'));
    proof {
        crate::path::lemma_split_len(path@, '/');
    }
    let n = pieces.len();
    let mut r = if n == 1 {
        pieces[0].clone()
    } else {
        abbreviate(pieces[0].as_str())
    };
    let mut i: usize = 1;
    assert(q.take(1) =~= seq![q[0]]);
    while i < n
        invariant
            1 <= i <= n,
            n == pieces@.len(),
            q == abbreviated(texts(pieces@)),
            r@ == join_slash(q.take(i as int)),
        decreases n - i,
    {
        r.append("/");
        if i + 1 < n {
            let a = abbreviate(pieces[i].as_str());
            r.append(a.as_str());
        } else {
            r.append(pieces[i].as_str());
        }
        proof {
            reveal_strlit("/");
            assert(q.take(i + 1).drop_last() =~= q.take(i as int));
            assert(q.take(i + 1).last() == q[i as int]);
        }
        i += 1;
    }
    assert(q.take(n as int) =~= q);
    r
}

/// The working directory `cwd` (`None` when it could not be found) shown
/// relative to `home` and abbreviated, for a window title.
pub fn compressed_cwd(cwd: &Option<String>, home: &Option<String>) -> (r: String)
    ensures
        r@ == abbreviated_path(shown_cwd(crate::home::opt_text(*cwd), crate::home::opt_text(*home))),
{
    let shown = shown_cwd_text(cwd, home);
    abbreviate_path(shown.as_str())
}

} // verus!
