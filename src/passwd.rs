//! Reading home-directory records out of the system user database
//! (`/etc/passwd` format: seven `:`-separated fields per line).

use crate::path::{lemma_split_len, split_on};
use vstd::prelude::*;
use vstd::slice::slice_to_vec;

verus! {

/// One account line: its name, its user id and its home directory, as the
/// bytes the file holds.
pub struct PasswdEntry {
    pub name: Vec<u8>,
    pub uid: u64,
    pub home: Vec<u8>,
}

pub open spec fn byte_texts(v: Seq<Vec<u8>>) -> Seq<Seq<u8>> {
    v.map_values(|b: Vec<u8>| b@)
}

pub open spec fn is_digit(b: u8) -> bool {
    48 <= b <= 57
}

pub open spec fn all_digits(s: Seq<u8>) -> bool {
    forall|i: int| 0 <= i < s.len() ==> is_digit(#[trigger] s[i])
}

/// The number the decimal digits `s` spell.
pub open spec fn digits_value(s: Seq<u8>) -> int
    decreases s.len(),
{
    if s.len() == 0 {
        0
    } else {
        digits_value(s.drop_last()) * 10 + (s.last() - 48)
    }
}

/// A user id as the standard library reads a `u64`: an optional `+`, then
/// one or more decimal digits, with a value that fits.
pub open spec fn parse_uid(s: Seq<u8>) -> Option<u64> {
    let d = if s.len() > 0 && s[0] == 43 {
        s.drop_first()
    } else {
        s
    };
    if d.len() > 0 && all_digits(d) && digits_value(d) <= u64::MAX {
        Some(digits_value(d) as u64)
    } else {
        None
    }
}

/// The record a line gives: `Some` for a non-empty line of exactly seven
/// fields whose user id parses and is at least `min_uid`.
pub open spec fn record_of(line: Seq<u8>, min_uid: u64) -> Option<(Seq<u8>, u64, Seq<u8>)> {
    let f = split_on(line, 58u8);
    if line.len() == 0 || f.len() != 7 {
        None
    } else {
        match parse_uid(f[2]) {
            Some(uid) => if uid >= min_uid {
                Some((f[0], uid, f[5]))
            } else {
                None
            },
            None => None,
        }
    }
}

pub open spec fn records_of(lines: Seq<Seq<u8>>, min_uid: u64) -> Seq<(Seq<u8>, u64, Seq<u8>)>
    decreases lines.len(),
{
    if lines.len() == 0 {
        Seq::empty()
    } else {
        let init = records_of(lines.drop_last(), min_uid);
        match record_of(lines.last(), min_uid) {
            Some(r) => init.push(r),
            None => init,
        }
    }
}

/// The records of a whole file, one line per `\n`-separated piece.
pub open spec fn passwd_records(contents: Seq<u8>, min_uid: u64) -> Seq<(Seq<u8>, u64, Seq<u8>)> {
    records_of(split_on(contents, 10u8), min_uid)
}

pub open spec fn entry_view(e: PasswdEntry) -> (Seq<u8>, u64, Seq<u8>) {
    (e.name@, e.uid, e.home@)
}

/// The pieces of `s` between occurrences of `sep`.
fn split_bytes(s: &[u8], sep: u8) -> (r: Vec<Vec<u8>>)
    ensures
        byte_texts(r@) == split_on(s@, sep),
{
    let mut out: Vec<Vec<u8>> = Vec::new();
    let mut cur: Vec<u8> = Vec::new();
    let mut i: usize = 0;
    assert(s@.take(0) =~= Seq::<u8>::empty());
    assert(byte_texts(out@).push(cur@) =~= split_on(s@.take(0), sep));
    while i < s.len()
        invariant
            i <= s@.len(),
            byte_texts(out@).push(cur@) == split_on(s@.take(i as int), sep),
        decreases s@.len() - i,
    {
        let ghost prev = split_on(s@.take(i as int), sep);
        assert(s@.take(i + 1).drop_last() =~= s@.take(i as int));
        assert(s@.take(i + 1).last() == s@[i as int]);
        if s[i] == sep {
            let mut done: Vec<u8> = Vec::new();
            std::mem::swap(&mut cur, &mut done);
            out.push(done);
            assert(byte_texts(out@) =~= prev);
        } else {
            let ghost before = cur@;
            cur.push(s[i]);
            proof {
                lemma_split_len(s@.take(i as int), sep);
                assert(byte_texts(out@).push(cur@) =~= prev.update(
                    prev.len() - 1,
                    prev.last().push(s@[i as int]),
                ));
            }
        }
        i += 1;
    }
    assert(s@.take(s@.len() as int) =~= s@);
    out.push(cur);
    out
}

/// Reads a user id field; see `parse_uid`.
fn parse_uid_field(s: &[u8]) -> (r: Option<u64>)
    ensures
        r == parse_uid(s@),
{
    let mut i: usize = 0;
    if s.len() > 0 && s[0] == 43u8 {
        i = 1;
    }
    let ghost d = if s@.len() > 0 && s@[0] == 43 {
        s@.drop_first()
    } else {
        s@
    };
    assert(d =~= s@.skip(i as int));
    if i >= s.len() {
        return None;
    }
    let start = i;
    let mut value: u64 = 0;
    assert(d.take(0) =~= Seq::<u8>::empty());
    while i < s.len()
        invariant
            start <= i <= s@.len(),
            start < s@.len(),
            d =~= s@.skip(start as int),
            d == (if s@.len() > 0 && s@[0] == 43 {
                s@.drop_first()
            } else {
                s@
            }),
            all_digits(d.take(i - start)),
            value as int == digits_value(d.take(i - start)),
        decreases s@.len() - i,
    {
        let b = s[i];
        let k = i - start;
        assert(d.take(k + 1).drop_last() =~= d.take(k as int));
        assert(d[k as int] == b);
        if b < 48u8 || b > 57u8 {
            assert(!is_digit(d[k as int]));
            assert(!all_digits(d));
            return None;
        }
        proof {
            assert(d.take(k + 1).last() == b);
            assert(digits_value(d.take(k + 1)) == value * 10 + (b - 48));
            assert(all_digits(d.take(k + 1))) by {
                assert forall|j: int| 0 <= j < d.take(k + 1).len() implies is_digit(
                    #[trigger] d.take(k + 1)[j],
                ) by {
                    if j < k {
                        assert(d.take(k + 1)[j] == d.take(k as int)[j]);
                    }
                }
            }
        }
        let m = value.checked_mul(10);
        if m.is_none() {
            proof {
                assert(value * 10 > u64::MAX);
                lemma_digits_bound(d, k + 1);
            }
            return None;
        }
        let a = m.unwrap().checked_add((b - 48u8) as u64);
        if a.is_none() {
            proof {
                assert(value * 10 + (b - 48) > u64::MAX);
                lemma_digits_bound(d, k + 1);
            }
            return None;
        }
        value = a.unwrap();
        i += 1;
    }
    assert(d.take(d.len() as int) =~= d);
    Some(value)
}

proof fn lemma_digits_nonneg(s: Seq<u8>)
    requires
        all_digits(s),
    ensures
        digits_value(s) >= 0,
    decreases s.len(),
{
    if s.len() > 0 {
        assert(all_digits(s.drop_last())) by {
            assert forall|j: int| 0 <= j < s.drop_last().len() implies is_digit(
                #[trigger] s.drop_last()[j],
            ) by {
                assert(s.drop_last()[j] == s[j]);
            }
        }
        lemma_digits_nonneg(s.drop_last());
    }
}

/// Digits that do not fit at some prefix do not fit for the whole text,
/// when the rest are digits too.
proof fn lemma_digits_bound(d: Seq<u8>, k: int)
    requires
        0 < k <= d.len(),
        all_digits(d.take(k)),
        digits_value(d.take(k)) > u64::MAX,
    ensures
        !(all_digits(d) && digits_value(d) <= u64::MAX),
{
    if all_digits(d) {
        lemma_digits_prefix_mono(d, k, d.len() as int);
        assert(d.take(d.len() as int) =~= d);
    }
}

proof fn lemma_digits_prefix_mono(d: Seq<u8>, k: int, n: int)
    requires
        0 <= k <= n <= d.len(),
    ensures
        all_digits(d.take(n)) ==> digits_value(d.take(k)) <= digits_value(d.take(n)),
    decreases n - k,
{
    if k < n && all_digits(d.take(n)) {
        lemma_digits_prefix_mono(d, k, n - 1);
        assert(d.take(n).drop_last() =~= d.take(n - 1));
        assert(all_digits(d.take(n - 1))) by {
            assert forall|j: int| 0 <= j < d.take(n - 1).len() implies is_digit(
                #[trigger] d.take(n - 1)[j],
            ) by {
                assert(d.take(n - 1)[j] == d.take(n)[j]);
            }
        }
        lemma_digits_nonneg(d.take(n - 1));
        assert(is_digit(d.take(n)[n - 1]));
    }
}

/// The accounts in a user database file whose user id is at least
/// `min_uid`, in file order.
pub fn parse_passwd(contents: &[u8], min_uid: u64) -> (r: Vec<PasswdEntry>)
    ensures
        r@.map_values(|e: PasswdEntry| entry_view(e)) == passwd_records(contents@, min_uid),
{
    let lines = split_bytes(contents, 10u8);
    let ghost lv = byte_texts(lines@);
    let mut r: Vec<PasswdEntry> = Vec::new();
    let mut i: usize = 0;
    assert(lv.take(0) =~= Seq::<Seq<u8>>::empty());
    assert(r@.map_values(|e: PasswdEntry| entry_view(e)) =~= records_of(lv.take(0), min_uid));
    while i < lines.len()
        invariant
            i <= lines@.len(),
            lv == byte_texts(lines@),
            lv == split_on(contents@, 10u8),
            r@.map_values(|e: PasswdEntry| entry_view(e)) == records_of(lv.take(i as int), min_uid),
        decreases lines@.len() - i,
    {
        assert(lv.take(i + 1).drop_last() =~= lv.take(i as int));
        assert(lv.take(i + 1).last() == lines@[i as int]@);
        let line = lines[i].as_slice();
        if line.len() > 0 {
            let fields = split_bytes(line, 58u8);
            if fields.len() == 7 {
                if let Some(uid) = parse_uid_field(fields[2].as_slice()) {
                    if uid >= min_uid {
                        let name = slice_to_vec(fields[0].as_slice());
                        let home = slice_to_vec(fields[5].as_slice());
                        let ghost before = r@;
                        r.push(PasswdEntry { name, uid, home });
                        assert(r@.map_values(|e: PasswdEntry| entry_view(e)) =~= before.map_values(
                            |e: PasswdEntry| entry_view(e),
                        ).push(entry_view(r@.last())));
                    }
                }
            }
        }
        i += 1;
    }
    assert(lv.take(lines@.len() as int) =~= lv);
    r
}

} // verus!
