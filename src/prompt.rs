//! The text of the left and right shell prompts.

use crate::color::{green_text, red_text, Color};
use vstd::prelude::*;
use vstd::string::*;

verus! {

pub open spec fn digit_char(d: nat) -> char {
    if d == 0 {
        '0'
    } else if d == 1 {
        '1'
    } else if d == 2 {
        '2'
    } else if d == 3 {
        '3'
    } else if d == 4 {
        '4'
    } else if d == 5 {
        '5'
    } else if d == 6 {
        '6'
    } else if d == 7 {
        '7'
    } else if d == 8 {
        '8'
    } else {
        '9'
    }
}

/// The decimal digits of `n`, without leading zeros.
pub open spec fn digits_of(n: nat) -> Seq<char>
    decreases n,
{
    if n < 10 {
        seq![digit_char(n)]
    } else {
        digits_of(n / 10).push(digit_char(n % 10))
    }
}

/// `n` in decimal, with a `-` when it is negative.
pub open spec fn decimal(n: int) -> Seq<char> {
    if n < 0 {
        seq!['-'] + digits_of((-n) as nat)
    } else {
        digits_of(n as nat)
    }
}

fn digit_str(d: u64) -> (r: &'static str)
    requires
        d < 10,
    ensures
        r@ == seq![digit_char(d as nat)],
{
    proof {
        reveal_strlit("0");
        reveal_strlit("1");
        reveal_strlit("2");
        reveal_strlit("3");
        reveal_strlit("4");
        reveal_strlit("5");
        reveal_strlit("6");
        reveal_strlit("7");
        reveal_strlit("8");
        reveal_strlit("9");
    }
    let r = if d == 0 {
        "0"
    } else if d == 1 {
        "1"
    } else if d == 2 {
        "2"
    } else if d == 3 {
        "3"
    } else if d == 4 {
        "4"
    } else if d == 5 {
        "5"
    } else if d == 6 {
        "6"
    } else if d == 7 {
        "7"
    } else if d == 8 {
        "8"
    } else {
        "9"
    };
    assert(r@ =~= seq![digit_char(d as nat)]);
    r
}

fn push_digits(n: u64, out: &mut String)
    ensures
        final(out)@ == old(out)@ + digits_of(n as nat),
    decreases n,
{
    if n >= 10 {
        push_digits(n / 10, out);
    }
    out.append(digit_str(n % 10));
    assert(old(out)@ + digits_of(n as nat) =~= (if n >= 10 {
        old(out)@ + digits_of((n / 10) as nat)
    } else {
        old(out)@
    }) + seq![digit_char((n % 10) as nat)]);
}

/// `n` written in decimal.
pub fn decimal_string(n: i32) -> (r: String)
    ensures
        r@ == decimal(n as int),
{
    let mut r = String::new();
    if n < 0 {
        r.append("-");
        proof {
            reveal_strlit("-");
        }
        let m: u64 = (0i64 - n as i64) as u64;
        push_digits(m, &mut r);
    } else {
        push_digits(n as u64, &mut r);
    }
    r
}

/// The argument at `i`, or `default` when there are not that many.
pub open spec fn arg_or(args: Seq<String>, i: int, default: Seq<char>) -> Seq<char> {
    if i < args.len() {
        args[i]@
    } else {
        default
    }
}

/// The cursors given on the command line after the program name and the
/// minimum home UID: the unprivileged one (default `>`), then the
/// privileged one (default `#`).
pub fn cursors(args: &Vec<String>) -> (r: (String, String))
    ensures
        r.0@ == arg_or(args@, 2, seq!['>']),
        r.1@ == arg_or(args@, 3, seq!['#']),
{
    proof {
        reveal_strlit(">");
        reveal_strlit("#");
    }
    let cursor = if args.len() > 2 {
        args[2].clone()
    } else {
        String::from_str(">")
    };
    let root_cursor = if args.len() > 3 {
        args[3].clone()
    } else {
        String::from_str("#")
    };
    (cursor, root_cursor)
}

pub open spec fn opt_pair_text(o: Option<(String, String)>) -> Seq<char> {
    match o {
        Some((user, host)) => user@ + seq!['@'] + host@ + seq![' '],
        None => Seq::empty(),
    }
}

/// The left prompt: `user@host ` when given, the directory in red for the
/// superuser and green otherwise, the matching cursor, and a space.
pub fn left_prompt(
    user_host: &Option<(String, String)>,
    cwd: &str,
    is_root: bool,
    unprivileged_cursor: &str,
    privileged_cursor: &str,
) -> (r: String)
    ensures
        r@ == opt_pair_text(*user_host) + (if is_root {
            red_text(cwd@) + privileged_cursor@
        } else {
            green_text(cwd@) + unprivileged_cursor@
        }) + seq![' '],
{
    let mut r = String::new();
    if let Some((user, host)) = user_host {
        r.append(user.as_str());
        r.append("@");
        r.append(host.as_str());
        r.append(" ");
        proof {
            reveal_strlit("@");
            reveal_strlit(" ");
        }
    }
    let ghost head = r@;
    assert(head =~= opt_pair_text(*user_host));
    if is_root {
        let colored = cwd.red().to_string();
        r.append(colored.as_str());
        r.append(privileged_cursor);
    } else {
        let colored = cwd.green().to_string();
        r.append(colored.as_str());
        r.append(unprivileged_cursor);
    }
    r.append(" ");
    proof {
        reveal_strlit(" ");
    }
    r
}

/// The right prompt: the last command's status in red when it is not zero,
/// then the repository head in parentheses when there is one.
pub fn right_prompt(return_code: i32, head: &Option<String>) -> (r: String)
    ensures
        r@ == match head {
            Some(h) => if return_code != 0 {
                red_text(decimal(return_code as int)) + seq![' ', '('] + h@ + seq![')']
            } else {
                seq!['('] + h@ + seq![')']
            },
            None => if return_code != 0 {
                red_text(decimal(return_code as int))
            } else {
                Seq::empty()
            },
        },
{
    proof {
        reveal_strlit(" (");
        reveal_strlit("(");
        reveal_strlit(")");
    }
    let mut r = String::new();
    if return_code != 0 {
        let code = decimal_string(return_code);
        let colored = code.red().to_string();
        r.append(colored.as_str());
        if head.is_some() {
            r.append(" (");
        }
    } else if head.is_some() {
        r.append("(");
    }
    if let Some(h) = head {
        r.append(h.as_str());
        r.append(")");
    }
    r
}

/// The texts joined with `\` between them.
pub open spec fn join_backslash(parts: Seq<Seq<char>>) -> Seq<char>
    decreases parts.len(),
{
    if parts.len() == 0 {
        Seq::empty()
    } else if parts.len() == 1 {
        parts[0]
    } else {
        join_backslash(parts.drop_last()) + seq!['\\'] + parts.last()
    }
}

/// How the repository head is named: its branch; else the tags that point
/// at its commit, joined with `\`; else the commit's short id. A dirty work
/// tree adds ` *`.
pub open spec fn head_label_text(
    branch: Option<Seq<char>>,
    tags: Seq<Seq<char>>,
    short_id: Option<Seq<char>>,
    dirty: bool,
) -> Option<Seq<char>> {
    let name = if branch is Some {
        branch
    } else if tags.len() > 0 {
        Some(join_backslash(tags))
    } else {
        short_id
    };
    match name {
        Some(n) => Some(
            if dirty {
                n + seq![' ', '*']
            } else {
                n
            },
        ),
        None => None,
    }
}

/// Names the repository head; see `head_label_text`.
pub fn head_label(
    branch: &Option<String>,
    tags: &Vec<String>,
    short_id: &Option<String>,
    dirty: bool,
) -> (r: Option<String>)
    ensures
        crate::home::opt_text(r) == head_label_text(
            crate::home::opt_text(*branch),
            crate::grapheme::texts(tags@),
            crate::home::opt_text(*short_id),
            dirty,
        ),
{
    let ghost t = crate::grapheme::texts(tags@);
    let mut name: String = if let Some(b) = branch {
        b.clone()
    } else if tags.len() > 0 {
        let mut joined = tags[0].clone();
        let mut i: usize = 1;
        assert(t.take(1) =~= seq![t[0]]);
        while i < tags.len()
            invariant
                1 <= i <= tags@.len(),
                t == crate::grapheme::texts(tags@),
                joined@ == join_backslash(t.take(i as int)),
            decreases tags@.len() - i,
        {
            joined.append("\\");
            joined.append(tags[i].as_str());
            proof {
                reveal_strlit("\\");
                assert(t.take(i + 1).drop_last() =~= t.take(i as int));
                assert(t.take(i + 1).last() == tags@[i as int]@);
            }
            i += 1;
        }
        assert(t.take(tags@.len() as int) =~= t);
        joined
    } else if let Some(id) = short_id {
        id.clone()
    } else {
        return None;
    };
    if dirty {
        name.append(" *");
        proof {
            reveal_strlit(" *");
        }
    }
    Some(name)
}

} // verus!
