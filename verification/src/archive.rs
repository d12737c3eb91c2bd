//! The patch archive's shape: member names and listing validation.
//!
//! An archive is a directory whose every entry must be a regular file named
//! `<integer>.patch`, the integer being the entry's timestamp in base ten,
//! possibly negative.  The caller reads the directory and hands in the raw
//! entries; listing validation either returns the timestamps in ascending
//! order or reports the first malformed entry or the smallest duplicated
//! timestamp.

use vstd::prelude::*;

use crate::errors::SyncError;

verus! {

/// The required member suffix, as bytes: `.patch`.
pub open spec fn patch_suffix() -> Seq<u8> {
    seq![46u8, 112u8, 97u8, 116u8, 99u8, 104u8]
}

/// `b` is an ASCII decimal digit.
pub open spec fn is_ascii_digit(b: u8) -> bool {
    48 <= b <= 57
}

/// Every byte of `s` is an ASCII decimal digit.
pub open spec fn all_digits(s: Seq<u8>) -> bool {
    forall|i: int| 0 <= i < s.len() ==> is_ascii_digit(#[trigger] s[i])
}

/// The value of a run of ASCII digits, most significant first.
pub open spec fn digits_value(s: Seq<u8>) -> int
    decreases s.len(),
{
    if s.len() == 0 {
        0
    } else {
        digits_value(s.drop_last()) * 10 + (s.last() - 48)
    }
}

/// The stem before the suffix is a base-ten integer: an optional minus
/// sign, then at least one digit.
pub open spec fn is_int_stem(s: Seq<u8>) -> bool {
    if s.len() > 0 && s[0] == 45 {
        s.len() >= 2 && all_digits(s.skip(1))
    } else {
        s.len() >= 1 && all_digits(s)
    }
}

/// The signed value of a well-formed integer stem.
pub open spec fn int_stem_value(s: Seq<u8>) -> int {
    if s.len() > 0 && s[0] == 45 {
        -digits_value(s.skip(1))
    } else {
        digits_value(s)
    }
}

/// The name ends in `.patch` with a non-empty part before the dot, which
/// is what having the extension `patch` means for a plain file name.
pub open spec fn has_patch_extension(name: Seq<u8>) -> bool {
    name.len() >= 7 && name.skip(name.len() - 6) == patch_suffix()
}

/// The name is a valid archive member name: an integer stem whose value
/// fits a 64-bit signed timestamp, then the `.patch` suffix.
pub open spec fn is_patch_file_name(name: Seq<u8>) -> bool {
    &&& has_patch_extension(name)
    &&& is_int_stem(name.take(name.len() - 6))
    &&& i64::MIN <= int_stem_value(name.take(name.len() - 6)) <= i64::MAX
}

/// The timestamp encoded in a valid archive member name.
pub open spec fn patch_name_value(name: Seq<u8>) -> int {
    int_stem_value(name.take(name.len() - 6))
}

/// Decides whether a file name carries the `patch` extension.
pub fn check_ext(name: &[u8]) -> (r: bool)
    ensures
        r <==> has_patch_extension(name@),
{
    let n = name.len();
    if n < 7 {
        return false;
    }
    let r = name[n - 6] == 46 && name[n - 5] == 112 && name[n - 4] == 97 && name[n - 3] == 116
        && name[n - 2] == 99 && name[n - 1] == 104;
    proof {
        if r {
            assert(name@.skip(n - 6) =~= patch_suffix());
        } else {
            assert(name@.skip(n - 6) != patch_suffix()) by {
                if name@.skip(n - 6) == patch_suffix() {
                    assert(name@[n - 6] == patch_suffix()[0]);
                    assert(name@[n - 5] == patch_suffix()[1]);
                    assert(name@[n - 4] == patch_suffix()[2]);
                    assert(name@[n - 3] == patch_suffix()[3]);
                    assert(name@[n - 2] == patch_suffix()[4]);
                    assert(name@[n - 1] == patch_suffix()[5]);
                }
            }
        }
    }
    r
}

/// A run of digits is worth at least zero.
proof fn lemma_digits_value_nonneg(s: Seq<u8>)
    requires
        all_digits(s),
    ensures
        digits_value(s) >= 0,
    decreases s.len(),
{
    if s.len() > 0 {
        assert(all_digits(s.drop_last()));
        lemma_digits_value_nonneg(s.drop_last());
    }
}

/// Dropping trailing digits never increases the value of a digit run.
proof fn lemma_digits_value_prefix_le(s: Seq<u8>, i: int)
    requires
        all_digits(s),
        0 <= i <= s.len(),
    ensures
        digits_value(s.take(i)) <= digits_value(s),
    decreases s.len(),
{
    if i < s.len() {
        assert(all_digits(s.drop_last()));
        assert(s.drop_last().take(i) =~= s.take(i));
        lemma_digits_value_prefix_le(s.drop_last(), i);
        lemma_digits_value_nonneg(s.drop_last());
        assert(digits_value(s) == digits_value(s.drop_last()) * 10 + (s.last() - 48));
        assert(digits_value(s.drop_last()) * 10 >= digits_value(s.drop_last())) by (nonlinear_arith)
            requires
                digits_value(s.drop_last()) >= 0,
        ;
    } else {
        assert(s.take(i) =~= s);
    }
}

/// Parses an archive member name into its timestamp.
///
/// Returns `Some` exactly on a well-formed `<integer>.patch` name whose
/// value fits an `i64`, and then returns that value.
pub fn parse_patch_name(name: &[u8]) -> (r: Option<i64>)
    ensures
        match r {
            Some(t) => is_patch_file_name(name@) && t == patch_name_value(name@),
            None => !is_patch_file_name(name@),
        },
{
    let n = name.len();
    if !check_ext(name) {
        return None;
    }
    let stem_len = n - 6;
    let ghost stem = name@.take(stem_len as int);
    let (neg, start): (bool, usize) = if name[0] == 45 {
        (true, 1)
    } else {
        (false, 0)
    };
    if start >= stem_len {
        // The stem is a lone minus sign: no digits.
        proof {
            assert(!is_int_stem(stem));
        }
        return None;
    }
    let limit: u64 = if neg {
        9223372036854775808
    } else {
        9223372036854775807
    };
    let ghost digits = name@.subrange(start as int, stem_len as int);
    let mut acc: u64 = 0;
    let mut i: usize = start;
    while i < stem_len
        invariant
            start <= i <= stem_len,
            start + 1 <= stem_len <= name@.len() - 6,
            stem_len == name@.len() - 6,
            digits == name@.subrange(start as int, stem_len as int),
            stem == name@.take(stem_len as int),
            start == 0 || start == 1,
            neg <==> start == 1,
            neg ==> name@[0] == 45,
            !neg ==> !(name@.len() > 6 && name@[0] == 45),
            limit == if neg {
                9223372036854775808u64
            } else {
                9223372036854775807u64
            },
            all_digits(digits.take(i - start)),
            acc == digits_value(digits.take(i - start)),
            acc <= limit,
        decreases stem_len - i,
    {
        let b = name[i];
        if b < 48 || b > 57 {
            // A non-digit inside the stem: the name is malformed.
            proof {
                assert(!is_ascii_digit(name@[i as int]));
                assert(stem[i as int] == name@[i as int]);
                if neg {
                    assert(stem.skip(1)[i - 1] == name@[i as int]);
                    assert(!all_digits(stem.skip(1)));
                } else {
                    assert(!all_digits(stem));
                }
                assert(!is_int_stem(stem));
            }
            return None;
        }
        let d = (b - 48) as u64;
        if acc > (limit - d) / 10 {
            // The value can no longer fit a 64-bit timestamp.
            proof {
                lemma_parse_overflow(name@, stem, digits, start as int, i as int, acc, d, limit);
            }
            return None;
        }
        proof {
            assert(acc * 10 + d <= limit) by (nonlinear_arith)
                requires
                    acc <= (limit - d) / 10,
                    0 <= d <= 9,
                    d <= limit,
            ;
            let x = digits.take(i + 1 - start);
            assert(x =~= digits.take(i - start).push(name@[i as int]));
            assert(x.drop_last() =~= digits.take(i - start));
            assert(x.last() == name@[i as int]);
            assert(digits_value(x) == digits_value(x.drop_last()) * 10 + (x.last() - 48));
        }
        acc = acc * 10 + d;
        i = i + 1;
    }
    proof {
        assert(digits.take(stem_len - start) =~= digits);
        if neg {
            assert(stem.skip(1) =~= digits);
            assert(is_int_stem(stem));
            assert(int_stem_value(stem) == -digits_value(digits));
        } else {
            assert(stem =~= digits);
            assert(stem[0] != 45 || stem.len() == 0);
            assert(is_int_stem(stem));
            assert(int_stem_value(stem) == digits_value(digits));
        }
    }
    if neg {
        if acc == 9223372036854775808 {
            return Some(i64::MIN);
        }
        let v = acc as i64;
        Some(-v)
    } else {
        Some(acc as i64)
    }
}

/// The canonical decimal rendering of `n`: no leading zero except for zero
/// itself, most significant digit first.
pub open spec fn dec_digits(n: nat) -> Seq<u8>
    decreases n,
{
    if n < 10 {
        seq![(48 + n) as u8]
    } else {
        dec_digits(n / 10).push((48 + n % 10) as u8)
    }
}

/// The canonical archive member name for a timestamp.
pub open spec fn spec_patch_name(t: int) -> Seq<u8> {
    if t >= 0 {
        dec_digits(t as nat) + patch_suffix()
    } else {
        seq![45u8] + dec_digits((-t) as nat) + patch_suffix()
    }
}

/// The canonical rendering is made of digits and is worth `n`.
proof fn lemma_dec_digits(n: nat)
    ensures
        dec_digits(n).len() >= 1,
        all_digits(dec_digits(n)),
        digits_value(dec_digits(n)) == n,
    decreases n,
{
    if n < 10 {
        let s = dec_digits(n);
        assert(s.drop_last() =~= Seq::<u8>::empty());
        assert(digits_value(s) == digits_value(s.drop_last()) * 10 + (s.last() - 48));
    } else {
        lemma_dec_digits(n / 10);
        let s = dec_digits(n);
        assert(s.drop_last() =~= dec_digits(n / 10));
        assert(digits_value(s) == digits_value(s.drop_last()) * 10 + (s.last() - 48));
        assert(digits_value(s) == (n / 10) * 10 + n % 10);
    }
}

/// The canonical name of every 64-bit timestamp is a well-formed member
/// name, and parsing it gives the timestamp back.
pub proof fn lemma_patch_name_roundtrip(t: int)
    requires
        i64::MIN <= t <= i64::MAX,
    ensures
        is_patch_file_name(spec_patch_name(t)),
        patch_name_value(spec_patch_name(t)) == t,
{
    let name = spec_patch_name(t);
    if t >= 0 {
        let digs = dec_digits(t as nat);
        lemma_dec_digits(t as nat);
        assert(name.skip(name.len() - 6) =~= patch_suffix());
        let stem = name.take(name.len() - 6);
        assert(stem =~= digs);
        assert(stem[0] != 45);
        assert(int_stem_value(stem) == t);
    } else {
        let digs = dec_digits((-t) as nat);
        lemma_dec_digits((-t) as nat);
        assert(name.skip(name.len() - 6) =~= patch_suffix());
        let stem = name.take(name.len() - 6);
        assert(stem =~= seq![45u8] + digs);
        assert(stem[0] == 45);
        assert(stem.skip(1) =~= digs);
        assert(int_stem_value(stem) == -digits_value(digs));
    }
}

/// Renders the canonical archive member name of a timestamp.
pub fn patch_file_name(timestamp: i64) -> (r: Vec<u8>)
    ensures
        r@ == spec_patch_name(timestamp as int),
        is_patch_file_name(r@),
        patch_name_value(r@) == timestamp,
{
    let mut m: u64 = if timestamp >= 0 {
        timestamp as u64
    } else {
        ((-(timestamp + 1)) as u64) + 1
    };
    let ghost m0 = m as nat;
    proof {
        assert(m0 == if timestamp >= 0 {
            timestamp as int
        } else {
            -(timestamp as int)
        });
    }
    let mut rev: Vec<u8> = Vec::new();
    if m == 0 {
        rev.push(48);
        proof {
            assert(rev@.reverse() =~= dec_digits(m0));
        }
    } else {
        while m > 0
            invariant
                m0 < 18446744073709551616,
                m <= m0,
                m > 0 ==> dec_digits(m0) == dec_digits(m as nat) + rev@.reverse(),
                m == 0 ==> dec_digits(m0) == rev@.reverse(),
            decreases m,
        {
            let d = (m % 10) as u8;
            let ghost old_rev = rev@;
            let ghost old_m = m as nat;
            rev.push(48 + d);
            m = m / 10;
            proof {
                assert(rev@.reverse() =~= seq![(48 + old_m % 10) as u8] + old_rev.reverse());
                if m > 0 {
                    assert(dec_digits(old_m) == dec_digits(old_m / 10).push(
                        (48 + old_m % 10) as u8,
                    ));
                    assert(dec_digits(old_m / 10).push((48 + old_m % 10) as u8) + old_rev.reverse()
                        =~= dec_digits(old_m / 10) + (seq![(48 + old_m % 10) as u8]
                        + old_rev.reverse()));
                } else {
                    assert(old_m < 10);
                    assert(dec_digits(old_m) == seq![(48 + old_m) as u8]);
                    assert(dec_digits(old_m) + old_rev.reverse() =~= seq![(48 + old_m % 10) as u8]
                        + old_rev.reverse());
                }
            }
        }
    }
    let mut out: Vec<u8> = Vec::new();
    if timestamp < 0 {
        out.push(45);
    }
    let ghost head = out@;
    let mut i: usize = rev.len();
    while i > 0
        invariant
            0 <= i <= rev@.len(),
            out@.len() == head.len() + rev@.len() - i,
            out@.take(head.len() as int) == head,
            forall|j: int|
                head.len() <= j < out@.len() ==> out@[j] == rev@[rev@.len() - 1 - (j
                    - head.len())],
        decreases i,
    {
        i = i - 1;
        out.push(rev[i]);
        proof {
            assert(out@.take(head.len() as int) =~= head);
        }
    }
    proof {
        assert(out@ =~= head + rev@.reverse());
    }
    out.push(46);
    out.push(112);
    out.push(97);
    out.push(116);
    out.push(99);
    out.push(104);
    proof {
        assert(out@ =~= head + rev@.reverse() + patch_suffix());
        if timestamp >= 0 {
            assert(head =~= Seq::<u8>::empty());
            assert(head + rev@.reverse() =~= dec_digits(m0));
            assert(out@ =~= spec_patch_name(timestamp as int));
        } else {
            assert(head =~= seq![45u8]);
            assert(out@ =~= spec_patch_name(timestamp as int));
        }
        lemma_patch_name_roundtrip(timestamp as int);
    }
    out
}

/// If the accumulated prefix already exceeds the bound, so does the whole
/// digit run, hence no well-formed name can carry a fitting value.
proof fn lemma_parse_overflow(
    name: Seq<u8>,
    stem: Seq<u8>,
    digits: Seq<u8>,
    start: int,
    i: int,
    acc: u64,
    d: u64,
    limit: u64,
)
    requires
        name.len() >= 7,
        stem == name.take(name.len() - 6),
        start == 0 || start == 1,
        start == 1 <==> (stem.len() > 0 && stem[0] == 45),
        digits == name.subrange(start, name.len() - 6),
        start <= i < name.len() - 6,
        all_digits(digits.take(i - start)),
        acc == digits_value(digits.take(i - start)),
        is_ascii_digit(name[i]),
        d == name[i] - 48,
        acc * 10 + d > limit,
        limit == if start == 1 {
            9223372036854775808u64
        } else {
            9223372036854775807u64
        },
    ensures
        !is_patch_file_name(name),
{
    if is_patch_file_name(name) {
        assert(is_int_stem(stem));
        let digs = if start == 1 {
            stem.skip(1)
        } else {
            stem
        };
        assert(digs =~= digits);
        assert(all_digits(digits));
        let x = digits.take(i + 1 - start);
        assert(x =~= digits.take(i - start).push(digits[i - start]));
        assert(x.drop_last() =~= digits.take(i - start));
        assert(x.last() == name[i]);
        assert(digits_value(x) == digits_value(x.drop_last()) * 10 + (x.last() - 48));
        assert(digits_value(x) == acc * 10 + d);
        lemma_digits_value_prefix_le(digits, i + 1 - start);
        assert(digits_value(digits) >= acc * 10 + d);
        assert(int_stem_value(stem) == if start == 1 {
            -digits_value(digits)
        } else {
            digits_value(digits)
        });
        assert(false);
    }
}

/// One raw directory entry of an archive, as the caller found it: the file
/// name and whether the entry is a regular file.
#[derive(Debug, PartialEq, Eq)]
pub struct ArchiveEntry {
    pub name: Vec<u8>,
    pub is_file: bool,
}

/// The entry is acceptable archive membership: a regular file named
/// `<integer>.patch`.
pub open spec fn entry_ok(e: ArchiveEntry) -> bool {
    e.is_file && is_patch_file_name(e.name@)
}

/// The timestamp of a well-formed entry.
pub open spec fn entry_value(e: ArchiveEntry) -> i64 {
    patch_name_value(e.name@) as i64
}

/// The timestamps of a listing, in the order the entries were handed in.
pub open spec fn listing_values(entries: Seq<ArchiveEntry>) -> Seq<i64> {
    entries.map_values(|e: ArchiveEntry| entry_value(e))
}

/// `s` is in ascending order.
pub open spec fn sorted_asc(s: Seq<i64>) -> bool {
    forall|p: int, q: int| 0 <= p < q < s.len() ==> s[p] <= s[q]
}

/// `s` is in strictly ascending order.
pub open spec fn strictly_sorted_asc(s: Seq<i64>) -> bool {
    forall|p: int, q: int| 0 <= p < q < s.len() ==> s[p] < s[q]
}

/// Two entries of the listing share the timestamp `t`.
pub open spec fn duplicated_timestamp(entries: Seq<ArchiveEntry>, t: i64) -> bool {
    listing_values(entries).to_multiset().count(t) >= 2
}

/// Copies `v` into ascending order.
fn sorted_copy(v: &Vec<i64>) -> (r: Vec<i64>)
    ensures
        sorted_asc(r@),
        r@.to_multiset() == v@.to_multiset(),
        r@.len() == v@.len(),
{
    let mut out: Vec<i64> = Vec::new();
    proof {
        assert(v@.take(0) =~= Seq::<i64>::empty());
    }
    let mut i: usize = 0;
    while i < v.len()
        invariant
            0 <= i <= v@.len(),
            sorted_asc(out@),
            out@.len() == i,
            out@.to_multiset() == v@.take(i as int).to_multiset(),
        decreases v@.len() - i,
    {
        let x = v[i];
        let mut j: usize = 0;
        while j < out.len() && out[j] <= x
            invariant
                0 <= j <= out@.len(),
                forall|jj: int| 0 <= jj < j ==> #[trigger] out@[jj] <= x,
            decreases out@.len() - j,
        {
            j = j + 1;
        }
        let ghost before = out@;
        out.insert(j, x);
        proof {
            broadcast use vstd::seq_lib::group_to_multiset_ensures;

            before.insert_ensures(j as int, x);
            assert forall|p: int, q: int| 0 <= p < q < out@.len() implies out@[p] <= out@[q] by {
                if q < j {
                    assert(out@[p] == before[p] && out@[q] == before[q]);
                } else if q == j {
                    assert(out@[q] == x && out@[p] == before[p]);
                } else {
                    assert(out@[q] == before[q - 1]);
                    if p < j {
                        if q - 1 == j {
                            assert(before[j as int] > x);
                        } else {
                            assert(before[j as int] > x && before[j as int] <= before[q - 1]);
                        }
                    } else if p == j {
                        assert(out@[p] == x && before[j as int] > x && before[j as int] <= before[q - 1]);
                    } else {
                        assert(out@[p] == before[p - 1]);
                    }
                }
            }
            vstd::seq_lib::to_multiset_insert(before, j as int, x);
            assert(v@.take(i as int + 1) =~= v@.take(i as int).push(x));
        }
        i = i + 1;
    }
    proof {
        broadcast use vstd::seq_lib::group_to_multiset_ensures;

        assert(v@.take(v@.len() as int) =~= v@);
    }
    out
}

/// Validates a raw archive listing and returns its timestamps in strictly
/// ascending order.
///
/// The listing is taken in the order the directory handed it out, which
/// carries no meaning; the result is ordered by numeric timestamp.  Any
/// entry that is not a regular file named `<integer>.patch` is fatal, named
/// by its position; the listing is never silently filtered.  A timestamp
/// carried by two entries is fatal too, and the smallest such timestamp is
/// reported.
#[verifier::loop_isolation(false)]
pub fn validate_listing(entries: &Vec<ArchiveEntry>) -> (r: Result<Vec<i64>, SyncError>)
    ensures
        match r {
            Ok(ts) => {
                &&& forall|p: int| 0 <= p < entries@.len() ==> entry_ok(#[trigger] entries@[p])
                &&& strictly_sorted_asc(ts@)
                &&& ts@.to_multiset() == listing_values(entries@).to_multiset()
                &&& ts@.len() == entries@.len()
            },
            Err(e) => match e {
                SyncError::MalformedArchiveEntry { position } => {
                    &&& 0 <= position < entries@.len()
                    &&& !entry_ok(entries@[position as int])
                    &&& forall|j: int| 0 <= j < position ==> entry_ok(#[trigger] entries@[j])
                },
                SyncError::DuplicateTimestamp { timestamp } => {
                    &&& forall|p: int| 0 <= p < entries@.len() ==> entry_ok(#[trigger] entries@[p])
                    &&& duplicated_timestamp(entries@, timestamp)
                    &&& forall|t2: i64| duplicated_timestamp(entries@, t2) ==> timestamp <= t2
                },
                _ => false,
            },
        },
{
    let n = entries.len();
    let mut values: Vec<i64> = Vec::new();
    let mut p: usize = 0;
    while p < n
        invariant
            0 <= p <= n,
            values@ == listing_values(entries@.take(p as int)),
            values@.len() == p,
            forall|j: int| 0 <= j < p ==> entry_ok(#[trigger] entries@[j]),
        decreases n - p,
    {
        let e = &entries[p];
        if !e.is_file {
            return Err(SyncError::MalformedArchiveEntry { position: p });
        }
        let t = match parse_patch_name(e.name.as_slice()) {
            Some(t) => t,
            None => {
                return Err(SyncError::MalformedArchiveEntry { position: p });
            },
        };
        values.push(t);
        proof {
            assert(listing_values(entries@.take(p as int + 1)) =~= listing_values(
                entries@.take(p as int),
            ).push(entry_value(entries@[p as int])));
        }
        p = p + 1;
    }
    proof {
        assert(entries@.take(n as int) =~= entries@);
    }
    let ts = sorted_copy(&values);
    match first_duplicate(&ts) {
        Some(m) => {
            proof {
                assert(duplicated_timestamp(entries@, m));
                assert forall|t2: i64| duplicated_timestamp(entries@, t2) implies m <= t2 by {
                    assert(ts@.to_multiset().count(t2) == listing_values(
                        entries@,
                    ).to_multiset().count(t2));
                }
            }
            Err(SyncError::DuplicateTimestamp { timestamp: m })
        },
        None => Ok(ts),
    }
}

/// Scans a sorted sequence for duplicates; returns the smallest value that
/// occurs twice, or nothing when the sequence is strictly ascending.
#[verifier::loop_isolation(false)]
fn first_duplicate(ts: &Vec<i64>) -> (r: Option<i64>)
    requires
        sorted_asc(ts@),
    ensures
        match r {
            Some(m) => {
                &&& ts@.to_multiset().count(m) >= 2
                &&& forall|t2: i64| #[trigger] ts@.to_multiset().count(t2) >= 2 ==> m <= t2
            },
            None => strictly_sorted_asc(ts@),
        },
{
    let mut q: usize = 1;
    while q < ts.len()
        invariant
            1 <= q,
            forall|jj: int| 1 <= jj < q ==> ts@[jj - 1] < #[trigger] ts@[jj],
        decreases ts@.len() - q,
    {
        if ts[q - 1] == ts[q] {
            let m = ts[q - 1];
            proof {
                lemma_adjacent_dup_is_least(ts@, q as int, m);
            }
            return Some(m);
        }
        q = q + 1;
    }
    proof {
        assert forall|a: int, b: int| 0 <= a < b < ts@.len() implies ts@[a] < ts@[b] by {
            assert(ts@[b - 1] < ts@[b]);
            assert(ts@[a] <= ts@[b - 1]);
        }
    }
    None
}

/// In a sorted sequence whose first adjacent pair of equal values sits at
/// positions `q - 1` and `q`, that value occurs twice and no smaller value
/// does.
proof fn lemma_adjacent_dup_is_least(ts: Seq<i64>, q: int, m: i64)
    requires
        sorted_asc(ts),
        1 <= q < ts.len(),
        ts[q - 1] == m,
        ts[q] == m,
        forall|jj: int| 1 <= jj < q ==> ts[jj - 1] < #[trigger] ts[jj],
    ensures
        ts.to_multiset().count(m) >= 2,
        forall|t2: i64| #[trigger] ts.to_multiset().count(t2) >= 2 ==> m <= t2,
{
    broadcast use vstd::seq_lib::group_to_multiset_ensures;
    broadcast use vstd::multiset::group_multiset_axioms;

    // Two positions carry `m`, so its count is at least two.
    let removed = ts.remove(q - 1);
    assert(ts.remove(q - 1).to_multiset() == ts.to_multiset().remove(m));
    assert(removed[q - 1] == m);
    assert(removed.contains(m));
    assert(removed.to_multiset().count(m) > 0);
    assert(ts.to_multiset().count(m) >= 2);
    // Everything before the pair is pairwise distinct, and everything from
    // the pair on is at least `m`, so no smaller value occurs twice.
    let head = ts.take(q);
    assert forall|i1: int, j1: int|
        0 <= i1 < head.len() && 0 <= j1 < head.len() && i1 != j1 implies head[i1] != head[j1] by {
        let a = if i1 < j1 {
            i1
        } else {
            j1
        };
        let b = if i1 < j1 {
            j1
        } else {
            i1
        };
        assert(ts[b - 1] < ts[b]);
        assert(ts[a] <= ts[b - 1]);
    }
    head.lemma_multiset_has_no_duplicates();
    let tail = ts.skip(q);
    assert(ts =~= head + tail);
    vstd::seq_lib::lemma_multiset_commutative(head, tail);
    assert forall|t2: i64| #[trigger] ts.to_multiset().count(t2) >= 2 implies m <= t2 by {
        if t2 < m {
            assert(head.to_multiset().count(t2) <= 1) by {
                if head.to_multiset().count(t2) > 1 {
                    assert(head.contains(t2));
                }
            }
            assert(!tail.contains(t2)) by {
                if tail.contains(t2) {
                    let w = choose|w: int| 0 <= w < tail.len() && tail[w] == t2;
                    assert(ts[q + w] == t2);
                    if w > 0 {
                        assert(ts[q] <= ts[q + w]);
                    }
                }
            }
            assert(tail.to_multiset().count(t2) == 0);
            assert(ts.to_multiset().count(t2) <= 1);
        }
    }
}

} // verus!
