//! Decimal numerals for segment file names.  A segment's two files are
//! named `<base_offset>.store` and `<base_offset>.index`, the base offset
//! written in decimal, and recovery reads the base offsets back out of the
//! file names found in the log's directory: everything before the first dot
//! is the stem, and the stem parses as an unsigned 64-bit number.

use vstd::prelude::*;

verus! {

/// ASCII dot, the separator between a file name's stem and its extension.
pub const DOT: u8 = 46;

/// The decimal numeral of `n` in ASCII, most significant digit first, with
/// no sign, no leading zero, and at least one digit.
pub open spec fn dec_digits(n: nat) -> Seq<u8>
    decreases n,
{
    if n < 10 {
        seq![(48 + n) as u8]
    } else {
        dec_digits(n / 10) + seq![(48 + n % 10) as u8]
    }
}

/// Whether every byte is an ASCII digit.
pub open spec fn all_digits(s: Seq<u8>) -> bool {
    forall|i: int| 0 <= i < s.len() ==> 48 <= #[trigger] s[i] <= 57
}

/// The number a digit string denotes; meaningful when `all_digits(s)`.
pub open spec fn dec_value(s: Seq<u8>) -> int
    decreases s.len(),
{
    if s.len() == 0 {
        0
    } else {
        dec_value(s.drop_last()) * 10 + (s.last() - 48)
    }
}

/// A digit string denotes nothing negative.
pub proof fn lemma_dec_value_nonneg(s: Seq<u8>)
    requires
        all_digits(s),
    ensures
        dec_value(s) >= 0,
    decreases s.len(),
{
    if s.len() > 0 {
        assert(all_digits(s.drop_last()));
        lemma_dec_value_nonneg(s.drop_last());
    }
}

/// A digit string denotes at least as much as any of its prefixes.
pub proof fn lemma_dec_value_prefix(s: Seq<u8>, j: int)
    requires
        all_digits(s),
        0 <= j <= s.len(),
    ensures
        0 <= dec_value(s.take(j)) <= dec_value(s),
    decreases s.len() - j,
{
    assert(all_digits(s.take(j)));
    lemma_dec_value_nonneg(s.take(j));
    if j == s.len() {
        assert(s.take(j) =~= s);
    } else {
        assert(s.take(j + 1).drop_last() =~= s.take(j));
        assert(s.take(j + 1).last() == s[j]);
        assert(dec_value(s.take(j + 1)) == dec_value(s.take(j)) * 10 + (s[j] - 48));
        lemma_dec_value_prefix(s, j + 1);
    }
}

/// Writing a number out in decimal and reading it back gives the number:
/// segment file names round-trip through the directory.
pub proof fn lemma_dec_roundtrip(n: nat)
    ensures
        dec_digits(n).len() > 0,
        all_digits(dec_digits(n)),
        dec_value(dec_digits(n)) == n,
    decreases n,
{
    if n < 10 {
        let s = dec_digits(n);
        assert(s.drop_last() =~= Seq::<u8>::empty());
        assert(dec_value(s.drop_last()) == 0);
    } else {
        lemma_dec_roundtrip(n / 10);
        let s = dec_digits(n);
        assert(s.drop_last() =~= dec_digits(n / 10));
        assert(s.last() == (48 + n % 10) as u8);
    }
}

/// Render `n` in decimal.
pub fn format_u64(n: u64) -> (s: Vec<u8>)
    ensures
        s@ == dec_digits(n as nat),
    decreases n,
{
    if n < 10 {
        let mut s: Vec<u8> = Vec::new();
        s.push(48 + (n as u8));
        proof {
            assert(s@ =~= dec_digits(n as nat));
        }
        s
    } else {
        let mut s = format_u64(n / 10);
        s.push(48 + ((n % 10) as u8));
        proof {
            assert(s@ =~= dec_digits(n as nat));
        }
        s
    }
}

/// Parse a digit string as a `u64`.  Returns nothing exactly when the
/// string is empty, holds a byte that is no digit, or denotes a number too
/// large for a `u64`.
pub fn parse_u64(s: &Vec<u8>) -> (r: Option<u64>)
    ensures
        r matches Some(v) ==> s@.len() > 0 && all_digits(s@) && dec_value(s@) == v,
        r is None <==> (s@.len() == 0 || !all_digits(s@) || dec_value(s@) > u64::MAX),
{
    let n = s.len();
    if n == 0 {
        return None;
    }
    let mut acc: u64 = 0;
    let mut i: usize = 0;
    while i < n
        invariant
            n == s@.len(),
            0 < n,
            i <= n,
            all_digits(s@.take(i as int)),
            acc == dec_value(s@.take(i as int)),
        decreases n - i,
    {
        let b = s[i];
        if b < 48 || b > 57 {
            assert(!all_digits(s@));
            return None;
        }
        let d = (b - 48) as u64;
        proof {
            assert(s@.take(i + 1).drop_last() =~= s@.take(i as int));
            assert(s@.take(i + 1).last() == s@[i as int]);
        }
        let step = match acc.checked_mul(10) {
            Some(x) => x.checked_add(d),
            None => None,
        };
        match step {
            Some(x) => {
                acc = x;
            },
            None => {
                proof {
                    assert(dec_value(s@.take(i + 1)) > u64::MAX);
                    if all_digits(s@) {
                        lemma_dec_value_prefix(s@, i + 1);
                    }
                }
                return None;
            },
        }
        i = i + 1;
    }
    proof {
        assert(s@.take(n as int) =~= s@);
    }
    Some(acc)
}

/// How many bytes of a file name come before its first dot: the stem the
/// base offset is read from.
pub open spec fn stem_len(name: Seq<u8>) -> int
    decreases name.len(),
{
    if name.len() == 0 {
        0
    } else if name[0] == DOT {
        0
    } else {
        1 + stem_len(name.drop_first())
    }
}

/// Everything before the first dot; the whole name when it has no dot.
pub open spec fn stem_of(name: Seq<u8>) -> Seq<u8> {
    name.take(stem_len(name))
}

/// `stem_len` is the position of the first dot.
pub proof fn lemma_stem_len_at(name: Seq<u8>, i: int)
    requires
        0 <= i <= name.len(),
        forall|j: int| 0 <= j < i ==> #[trigger] name[j] != DOT,
        i == name.len() || name[i] == DOT,
    ensures
        stem_len(name) == i,
    decreases name.len(),
{
    if name.len() == 0 {
    } else if name[0] == DOT {
    } else {
        let rest = name.drop_first();
        assert(forall|j: int| 0 <= j < i - 1 ==> #[trigger] rest[j] == name[j + 1]);
        lemma_stem_len_at(rest, i - 1);
    }
}

/// The stem of a file name: its bytes up to, and not including, the first
/// dot.
pub fn file_stem(name: &Vec<u8>) -> (stem: Vec<u8>)
    ensures
        stem@ == stem_of(name@),
{
    let n = name.len();
    let mut i: usize = 0;
    while i < n
        invariant_except_break
            n == name@.len(),
            i <= n,
            forall|j: int| 0 <= j < i ==> #[trigger] name@[j] != DOT,
        ensures
            i <= n,
            forall|j: int| 0 <= j < i ==> #[trigger] name@[j] != DOT,
            i == n || name@[i as int] == DOT,
        decreases n - i,
    {
        if name[i] == DOT {
            break ;
        }
        i = i + 1;
    }
    proof {
        lemma_stem_len_at(name@, i as int);
    }
    vstd::slice::slice_to_vec(vstd::slice::slice_subrange(name.as_slice(), 0, i))
}

/// Whether a file name's stem denotes a base offset.
pub open spec fn stem_parses(name: Seq<u8>) -> bool {
    &&& stem_of(name).len() > 0
    &&& all_digits(stem_of(name))
    &&& dec_value(stem_of(name)) <= u64::MAX
}

/// The base offset a file name's stem denotes; meaningful when
/// `stem_parses(name)`.
pub open spec fn stem_value(name: Seq<u8>) -> int {
    dec_value(stem_of(name))
}

/// The name of the store file of the segment based at `base`:
/// `<base>.store`.
pub fn store_file_name(base: u64) -> (name: Vec<u8>)
    ensures
        name@ == dec_digits(base as nat) + store_suffix(),
        stem_parses(name@),
        stem_value(name@) == base,
    {
        file_name_with_suffix(base, true)
    }

/// The name of the index file of the segment based at `base`:
/// `<base>.index`.
pub fn index_file_name(base: u64) -> (name: Vec<u8>)
    ensures
        name@ == dec_digits(base as nat) + index_suffix(),
        stem_parses(name@),
        stem_value(name@) == base,
    {
        file_name_with_suffix(base, false)
    }

/// The bytes of ".store".
pub open spec fn store_suffix() -> Seq<u8> {
    seq![46u8, 115u8, 116u8, 111u8, 114u8, 101u8]
}

/// The bytes of ".index".
pub open spec fn index_suffix() -> Seq<u8> {
    seq![46u8, 105u8, 110u8, 100u8, 101u8, 120u8]
}

/// Build `<base>.store` or `<base>.index`.
fn file_name_with_suffix(base: u64, store: bool) -> (name: Vec<u8>)
    ensures
        name@ == dec_digits(base as nat) + (if store {
            store_suffix()
        } else {
            index_suffix()
        }),
        stem_parses(name@),
        stem_value(name@) == base,
{
    let mut name = format_u64(base);
    let ghost digits = name@;
    name.push(DOT);
    if store {
        name.push(115);  // s
        name.push(116);  // t
        name.push(111);  // o
        name.push(114);  // r
        name.push(101);  // e
    } else {
        name.push(105);  // i
        name.push(110);  // n
        name.push(100);  // d
        name.push(101);  // e
        name.push(120);  // x
    }
    proof {
        lemma_dec_roundtrip(base as nat);
        if store {
            assert(name@ =~= digits + store_suffix());
        } else {
            assert(name@ =~= digits + index_suffix());
        }
        assert forall|j: int| 0 <= j < digits.len() implies #[trigger] name@[j] != DOT by {
            assert(48 <= digits[j] <= 57);
        }
        assert(name@[digits.len() as int] == DOT);
        lemma_stem_len_at(name@, digits.len() as int);
        assert(stem_of(name@) =~= digits);
    }
    name
}

/// The base offsets named by a directory's files, each once, in ascending
/// order — the plan recovery follows.  Two files of one segment share a
/// stem, so each base offset appears once however many files name it.
/// Returns nothing exactly when some name's stem does not denote a base
/// offset, as when a stray file sits in the directory.
pub fn base_offsets_from_names(names: &Vec<Vec<u8>>) -> (r: Option<Vec<u64>>)
    ensures
        r is None <==> (exists|i: int| 0 <= i < names@.len() && !stem_parses(names@[i]@)),
        r matches Some(v) ==> {
            &&& forall|i: int| 0 <= i < v@.len() - 1 ==> (#[trigger] v@[i]) < v@[i + 1]
            &&& forall|x: u64|
                v@.contains(x) <==> (exists|i: int|
                    0 <= i < names@.len() && stem_value(#[trigger] names@[i]@) == x)
        },
{
    let mut out: Vec<u64> = Vec::new();
    let n = names.len();
    let mut i: usize = 0;
    while i < n
        invariant
            n == names@.len(),
            i <= n,
            forall|j: int| 0 <= j < i ==> stem_parses(#[trigger] names@[j]@),
            forall|j: int| 0 <= j < out@.len() - 1 ==> (#[trigger] out@[j]) < out@[j + 1],
            forall|x: u64|
                out@.contains(x) <==> (exists|j: int|
                    0 <= j < i && stem_value(#[trigger] names@[j]@) == x),
        decreases n - i,
    {
        let stem = file_stem(&names[i]);
        let v = match parse_u64(&stem) {
            Some(v) => v,
            None => {
                assert(!stem_parses(names@[i as int]@));
                return None;
            },
        };
        insert_sorted_unique(&mut out, v);
        proof {
            assert forall|x: u64| out@.contains(x) implies (exists|j: int|
                0 <= j < i + 1 && stem_value(#[trigger] names@[j]@) == x) by {
                if x == v {
                    assert(stem_value(names@[i as int]@) == x);
                }
            }
            assert forall|x: u64| (exists|j: int|
                0 <= j < i + 1 && stem_value(#[trigger] names@[j]@) == x) implies out@.contains(
                x,
            ) by {
            }
        }
        i = i + 1;
    }
    Some(out)
}

/// Put `v` into its place in a strictly ascending vector, unless it is
/// already there.
fn insert_sorted_unique(out: &mut Vec<u64>, v: u64)
    requires
        forall|j: int| 0 <= j < old(out)@.len() - 1 ==> (#[trigger] old(out)@[j]) < old(out)@[j
            + 1],
    ensures
        forall|j: int|
            0 <= j < final(out)@.len() - 1 ==> (#[trigger] final(out)@[j]) < final(out)@[j + 1],
        forall|x: u64| final(out)@.contains(x) <==> (old(out)@.contains(x) || x == v),
{
    let n = out.len();
    let mut p: usize = 0;
    while p < n && out[p] < v
        invariant
            n == out@.len(),
            p <= n,
            forall|j: int| 0 <= j < p ==> (#[trigger] out@[j]) < v,
        decreases n - p,
    {
        p = p + 1;
    }
    if p < n && out[p] == v {
        proof {
            assert(out@.contains(v)) by {
                assert(out@[p as int] == v);
            }
            assert(forall|x: u64| out@.contains(x) <==> (out@.contains(x) || x == v));
        }
        return ;
    }
    let ghost pre = out@;
    out.insert(p, v);
    proof {
        let q = p as int;
        pre.insert_ensures(q, v);
        assert forall|j: int| 0 <= j < out@.len() - 1 implies (#[trigger] out@[j]) < out@[
            j + 1
        ] by {
            lemma_sorted_chain(pre, q, v, j);
        }
        assert forall|x: u64| out@.contains(x) implies (pre.contains(x) || x == v) by {
            let w = choose|w: int| 0 <= w < out@.len() && out@[w] == x;
            if w < q {
                assert(pre[w] == x);
            } else if w > q {
                assert(pre[w - 1] == x);
            }
        }
        assert forall|x: u64| (pre.contains(x) || x == v) implies out@.contains(x) by {
            if x == v {
                assert(out@[q] == x);
            } else {
                let w = choose|w: int| 0 <= w < pre.len() && pre[w] == x;
                if w < q {
                    assert(out@[w] == x);
                } else {
                    assert(out@[w + 1] == x);
                }
            }
        }
    }
}

/// One step of the sortedness argument for `insert_sorted_unique`: after
/// inserting `v` at position `q` of the strictly ascending `pre`, where
/// everything before `q` lies below `v` and the element at `q`, if any,
/// lies above it, adjacent elements still ascend at position `j`.
proof fn lemma_sorted_chain(pre: Seq<u64>, q: int, v: u64, j: int)
    requires
        forall|t: int| 0 <= t < pre.len() - 1 ==> (#[trigger] pre[t]) < pre[t + 1],
        0 <= q <= pre.len(),
        forall|t: int| 0 <= t < q ==> (#[trigger] pre[t]) < v,
        q < pre.len() ==> pre[q] > v,
        0 <= j < pre.len(),
    ensures
        pre.insert(q, v)[j] < pre.insert(q, v)[j + 1],
{
    let s = pre.insert(q, v);
    if j + 1 < q {
        assert(s[j] == pre[j] && s[j + 1] == pre[j + 1]);
    } else if j + 1 == q {
        assert(s[j] == pre[j] && s[j + 1] == v);
    } else if j == q {
        assert(s[j] == v && s[j + 1] == pre[j]);
    } else {
        assert(s[j] == pre[j - 1] && s[j + 1] == pre[j]);
    }
}

} // verus!
