//! The command-line values that the search takes, read from their text: a
//! decimal number, a console-revision code, a Y-bit specification and a
//! workgroup geometry. Each is defined over the text's bytes.
use vstd::prelude::*;
use vstd::string::StringSliceAdditionalSpecFns;

use crate::payload::valid_y_bits;

verus! {

/// Why a command-line value was refused.
#[derive(PartialEq, Eq, Structural, Clone, Copy, Debug)]
pub enum CliError {
    /// Not a decimal number that fits in 32 bits.
    InvalidNumber,
    /// A console-revision code that the table lacks.
    UnknownCic,
    /// A Y-bit specification that does not follow the grammar, or names a
    /// word or a bit range outside the usable payload.
    InvalidYBits,
    /// A Y-bit specification naming more than 32 distinct bits; holds how
    /// many it names.
    TooManyYBits(usize),
    /// More than three workgroup counts.
    InvalidWorkgroups,
}

/// The pieces of `b` between the separators `sep`, as `str::split` gives
/// them: one more piece than there are separators, empty ones included.
pub open spec fn split(b: Seq<u8>, sep: u8) -> Seq<Seq<u8>>
    decreases b.len(),
{
    if b.len() == 0 {
        seq![Seq::<u8>::empty()]
    } else {
        let rest = split(b.drop_last(), sep);
        if b.last() == sep {
            rest.push(Seq::<u8>::empty())
        } else {
            rest.update(rest.len() - 1, rest.last().push(b.last()))
        }
    }
}

pub proof fn lemma_split_nonempty(b: Seq<u8>, sep: u8)
    ensures
        split(b, sep).len() >= 1,
    decreases b.len(),
{
    if b.len() > 0 {
        lemma_split_nonempty(b.drop_last(), sep);
    }
}

/// The sub-sequences of `b` that index ranges name.
pub open spec fn pieces(b: Seq<u8>, r: Seq<(usize, usize)>) -> Seq<Seq<u8>> {
    r.map_values(|p: (usize, usize)| b.subrange(p.0 as int, p.1 as int))
}

pub open spec fn is_digit(c: u8) -> bool {
    0x30 <= c <= 0x39
}

/// The value of a string of decimal digits.
pub open spec fn digits_value(d: Seq<u8>) -> nat
    decreases d.len(),
{
    if d.len() == 0 {
        0
    } else {
        digits_value(d.drop_last()) * 10 + (d.last() - 0x30) as nat
    }
}

/// The digits of an unsigned number: the text after an optional `+`.
pub open spec fn unsigned_digits(b: Seq<u8>) -> Seq<u8> {
    if b.len() > 0 && b[0] == 0x2B {
        b.subrange(1, b.len() as int)
    } else {
        b
    }
}

/// The 32-bit number that `b` writes in decimal, with an optional `+`.
pub open spec fn decimal_u32(b: Seq<u8>) -> Option<u32> {
    let d = unsigned_digits(b);
    if d.len() > 0 && (forall|k: int| 0 <= k < d.len() ==> is_digit(#[trigger] d[k]))
        && digits_value(d) <= u32::MAX {
        Some(digits_value(d) as u32)
    } else {
        None
    }
}

proof fn lemma_digits_prefix_le(d: Seq<u8>, n: int)
    requires
        0 <= n <= d.len(),
        forall|k: int| 0 <= k < d.len() ==> is_digit(#[trigger] d[k]),
    ensures
        digits_value(d.subrange(0, n)) <= digits_value(d),
    decreases d.len(),
{
    if n < d.len() {
        lemma_digits_prefix_le(d.drop_last(), n);
        assert(d.drop_last().subrange(0, n) =~= d.subrange(0, n));
    } else {
        assert(d.subrange(0, n) =~= d);
    }
}

/// Splits `b[lo..hi]` at every `sep`, as index ranges into `b`.
fn split_ranges(b: &[u8], lo: usize, hi: usize, sep: u8) -> (r: Vec<(usize, usize)>)
    requires
        lo <= hi <= b@.len(),
    ensures
        pieces(b@, r@) == split(b@.subrange(lo as int, hi as int), sep),
        forall|k: int| 0 <= k < r@.len() ==> lo <= (#[trigger] r@[k]).0 <= r@[k].1 <= hi,
{
    let mut ranges: Vec<(usize, usize)> = Vec::new();
    let mut cur: usize = lo;
    let mut k: usize = lo;
    assert(b@.subrange(lo as int, lo as int) =~= Seq::<u8>::empty());
    assert(pieces(b@, ranges@) =~= Seq::<Seq<u8>>::empty());
    assert(split(Seq::<u8>::empty(), sep) =~= pieces(b@, ranges@).push(Seq::<u8>::empty()));
    while k < hi
        invariant
            lo <= cur <= k <= hi <= b@.len(),
            split(b@.subrange(lo as int, k as int), sep) == pieces(b@, ranges@).push(
                b@.subrange(cur as int, k as int),
            ),
            forall|j: int| 0 <= j < ranges@.len() ==> lo <= (#[trigger] ranges@[j]).0 <= ranges@[j].1 <= hi,
        decreases hi - k,
    {
        let ghost prefix = b@.subrange(lo as int, (k + 1) as int);
        assert(prefix.drop_last() =~= b@.subrange(lo as int, k as int));
        assert(prefix.last() == b@[k as int]);
        if b[k] == sep {
            ranges.push((cur, k));
            assert(pieces(b@, ranges@) =~= pieces(b@, ranges@.drop_last()).push(
                b@.subrange(cur as int, k as int),
            ));
            cur = k + 1;
            assert(b@.subrange(cur as int, (k + 1) as int) =~= Seq::<u8>::empty());
        } else {
            assert(b@.subrange(cur as int, (k + 1) as int) =~= b@.subrange(cur as int, k as int).push(
                b@[k as int],
            ));
        }
        k = k + 1;
        assert(split(b@.subrange(lo as int, k as int), sep) =~= pieces(b@, ranges@).push(
            b@.subrange(cur as int, k as int),
        ));
    }
    ranges.push((cur, hi));
    assert(pieces(b@, ranges@) =~= split(b@.subrange(lo as int, hi as int), sep));
    ranges
}

/// Reads the decimal number in `b[lo..hi]`.
fn parse_u32(b: &[u8], lo: usize, hi: usize) -> (r: Option<u32>)
    requires
        lo <= hi <= b@.len(),
    ensures
        r == decimal_u32(b@.subrange(lo as int, hi as int)),
{
    let ghost t = b@.subrange(lo as int, hi as int);
    let start = if lo < hi && b[lo] == 0x2B { lo + 1 } else { lo };
    let ghost d = b@.subrange(start as int, hi as int);
    assert(d =~= unsigned_digits(t));
    if start == hi {
        return None;
    }
    let mut acc: u64 = 0;
    let mut k: usize = start;
    while k < hi
        invariant
            start <= k <= hi <= b@.len(),
            lo <= start,
            t == b@.subrange(lo as int, hi as int),
            d == unsigned_digits(t),
            d == b@.subrange(start as int, hi as int),
            acc == digits_value(b@.subrange(start as int, k as int)),
            acc <= u32::MAX,
            forall|j: int| start <= j < k ==> is_digit(#[trigger] b@[j]),
        decreases hi - k,
    {
        let c = b[k];
        if c < 0x30 || c > 0x39 {
            proof {
                let u = unsigned_digits(t);
                assert(u[k - start] == c);
                assert(!is_digit(u[k - start]));
                assert(decimal_u32(t) is None);
            }
            return None;
        }
        let ghost p = b@.subrange(start as int, (k + 1) as int);
        assert(p.drop_last() =~= b@.subrange(start as int, k as int));
        assert(p.last() == c);
        acc = acc * 10 + (c - 0x30) as u64;
        assert(acc == digits_value(p));
        k = k + 1;
        if acc > u32::MAX as u64 {
            proof {
                let u = unsigned_digits(t);
                if forall|j: int| 0 <= j < u.len() ==> is_digit(#[trigger] u[j]) {
                    lemma_digits_prefix_le(u, (k - start) as int);
                    assert(u.subrange(0, (k - start) as int) =~= p);
                }
                assert(decimal_u32(t) is None);
            }
            return None;
        }
    }
    assert(b@.subrange(start as int, k as int) =~= d);
    Some(acc as u32)
}

/// Reads a decimal number that fits in 32 bits, with an optional `+`.
pub fn u32_from_str(str: &str) -> (r: Result<u32, CliError>)
    ensures
        r == (match decimal_u32(str.spec_bytes()) {
            Some(v) => Ok::<u32, CliError>(v),
            None => Err(CliError::InvalidNumber),
        }),
{
    let b = str.as_bytes();
    assert(b@.subrange(0, b@.len() as int) =~= b@);
    match parse_u32(b, 0, b.len()) {
        Some(v) => Ok(v),
        None => Err(CliError::InvalidNumber),
    }
}

/// The four-byte text `c0 c1 c2 c3`.
pub open spec fn code(c0: char, c1: char, c2: char, c3: char) -> Seq<u8> {
    seq![c0 as u8, c1 as u8, c2 as u8, c3 as u8]
}

/// The seed and target checksum of each console revision.
pub open spec fn cic_table(b: Seq<u8>) -> Option<(u8, u64)> {
    if b == code('6', '1', '0', '1') {
        Some((0x3F, 0x45CC73EE317A))
    } else if b == code('6', '1', '0', '2') || b == code('7', '1', '0', '1') {
        Some((0x3F, 0xA536C0F1D859))
    } else if b == code('6', '1', '0', '3') || b == code('7', '1', '0', '3') {
        Some((0x78, 0x586FD4709867))
    } else if b == code('6', '1', '0', '5') || b == code('7', '1', '0', '5') {
        Some((0x91, 0x8618A45BC2D3))
    } else if b == code('6', '1', '0', '6') || b == code('7', '1', '0', '6') {
        Some((0x85, 0x2BBAD4E6EB74))
    } else if b == code('8', '3', '0', '3') {
        Some((0xDD, 0x32B294E2AB90))
    } else if b == code('8', '4', '0', '1') {
        Some((0xDD, 0x6EE8D9E84970))
    } else if b == code('5', '1', '6', '7') {
        Some((0xDD, 0x083C6C77E0B1))
    } else if b == code('D', 'D', 'U', 'S') {
        Some((0xDE, 0x05BA2EF0A5F1))
    } else {
        None
    }
}

fn is_code(b: &[u8], c0: char, c1: char, c2: char, c3: char) -> (r: bool)
    requires
        c0 < 128 as char,
        c1 < 128 as char,
        c2 < 128 as char,
        c3 < 128 as char,
    ensures
        r == (b@ == code(c0, c1, c2, c3)),
{
    let r = b.len() == 4 && b[0] == c0 as u8 && b[1] == c1 as u8 && b[2] == c2 as u8 && b[3]
        == c3 as u8;
    if b.len() == 4 {
        assert(r ==> b@ =~= code(c0, c1, c2, c3));
    }
    r
}

/// Looks up the seed and target checksum of a console revision.
pub fn cic_parser(str: &str) -> (r: Result<(u8, u64), CliError>)
    ensures
        r == (match cic_table(str.spec_bytes()) {
            Some(p) => Ok::<(u8, u64), CliError>(p),
            None => Err(CliError::UnknownCic),
        }),
{
    let b = str.as_bytes();
    let (seed, target_checksum) = if is_code(b, '6', '1', '0', '1') {
        (0x3F, 0x45CC73EE317A)
    } else if is_code(b, '6', '1', '0', '2') || is_code(b, '7', '1', '0', '1') {
        (0x3F, 0xA536C0F1D859)
    } else if is_code(b, '6', '1', '0', '3') || is_code(b, '7', '1', '0', '3') {
        (0x78, 0x586FD4709867)
    } else if is_code(b, '6', '1', '0', '5') || is_code(b, '7', '1', '0', '5') {
        (0x91, 0x8618A45BC2D3)
    } else if is_code(b, '6', '1', '0', '6') || is_code(b, '7', '1', '0', '6') {
        (0x85, 0x2BBAD4E6EB74)
    } else if is_code(b, '8', '3', '0', '3') {
        (0xDD, 0x32B294E2AB90)
    } else if is_code(b, '8', '4', '0', '1') {
        (0xDD, 0x6EE8D9E84970)
    } else if is_code(b, '5', '1', '6', '7') {
        (0xDD, 0x083C6C77E0B1)
    } else if is_code(b, 'D', 'D', 'U', 'S') {
        (0xDE, 0x05BA2EF0A5F1)
    } else {
        return Err(CliError::UnknownCic);
    };
    Ok((seed, target_checksum))
}

/// The workgroup geometry that `b` writes: up to three comma-separated
/// counts, the missing ones 1.
pub open spec fn workgroups_spec(b: Seq<u8>) -> Result<(u32, u32, u32), CliError> {
    let p = split(b, 0x2C);
    if p.len() > 3 {
        Err(CliError::InvalidWorkgroups)
    } else if exists|k: int| 0 <= k < p.len() && decimal_u32(#[trigger] p[k]) is None {
        Err(CliError::InvalidNumber)
    } else {
        Ok(
            (
                decimal_u32(p[0])->0,
                if p.len() > 1 { decimal_u32(p[1])->0 } else { 1 },
                if p.len() > 2 { decimal_u32(p[2])->0 } else { 1 },
            ),
        )
    }
}

/// Reads a workgroup geometry.
pub fn workgroups_parser(str: &str) -> (r: Result<(u32, u32, u32), CliError>)
    ensures
        r == workgroups_spec(str.spec_bytes()),
{
    let b = str.as_bytes();
    let slices = split_ranges(b, 0, b.len(), 0x2C);
    proof {
        assert(b@.subrange(0, b@.len() as int) =~= b@);
        lemma_split_nonempty(b@, 0x2C);
    }
    let ghost p = split(b@, 0x2C);
    if slices.len() > 3 {
        return Err(CliError::InvalidWorkgroups);
    }
    let mut values: [u32; 3] = [1u32; 3];
    let mut i: usize = 0;
    while i < slices.len()
        invariant
            slices@.len() <= 3,
            pieces(b@, slices@) == p,
            p == split(b@, 0x2C),
            b@ == str.spec_bytes(),
            p.len() == slices@.len(),
            forall|k: int| 0 <= k < slices@.len() ==> (#[trigger] slices@[k]).0 <= slices@[k].1 <= b@.len(),
            i <= slices@.len(),
            forall|k: int| 0 <= k < i ==> decimal_u32(#[trigger] p[k]) == Some(values@[k]),
            forall|k: int| i <= k < 3 ==> values@[k] == 1,
        decreases slices@.len() - i,
    {
        let (lo, hi) = slices[i];
        assert(p[i as int] == b@.subrange(lo as int, hi as int));
        match parse_u32(b, lo, hi) {
            Some(v) => values[i] = v,
            None => {
                assert(decimal_u32(p[i as int]) is None);
                return Err(CliError::InvalidNumber);
            },
        }
        i = i + 1;
    }
    Ok((values[0], values[1], values[2]))
}

/// The first index at or after `from` where `b` holds `c`, or `b.len()`.
pub open spec fn find_byte(b: Seq<u8>, c: u8, from: nat) -> int
    decreases b.len() - from,
{
    if from >= b.len() {
        b.len() as int
    } else if b[from as int] == c {
        from as int
    } else {
        find_byte(b, c, from + 1)
    }
}

proof fn lemma_find_byte(b: Seq<u8>, c: u8, from: nat, k: int)
    requires
        from <= k <= b.len(),
        k == b.len() || b[k] == c,
        forall|q: int| from <= q < k ==> b[q] != c,
    ensures
        find_byte(b, c, from) == k,
    decreases k - from,
{
    if from < k {
        lemma_find_byte(b, c, from + 1, k);
    }
}

/// The bounds that a bit range `E..S]` writes, as `(E, S)`: two decimal
/// numbers around the first `.`, which starts `..`, and a closing `]`.
pub open spec fn bit_range(r: Seq<u8>) -> Option<(u32, u32)> {
    let p = find_byte(r, 0x2E, 0);
    if p + 3 <= r.len() && r[p + 1] == 0x2E && r.last() == 0x5D {
        match (decimal_u32(r.subrange(0, p)), decimal_u32(r.subrange(p + 2, r.len() - 1))) {
            (Some(end), Some(start)) => Some((end, start)),
            _ => None,
        }
    } else {
        None
    }
}

/// The map offsets of bits `end` down to `start` of image word `index`.
pub open spec fn bit_run(index: u32, start: u32, end: u32) -> Seq<u32> {
    Seq::new((end - start + 1) as nat, |k: int| ((index - 16) * 32 + 31 - (start + k)) as u32)
}

/// The offsets that one item of a Y-bit specification names: an image word
/// index from 17 to 1022, alone (all 32 bits) or with a range `[E..S]` of
/// bits, `S <= E < 32`.
pub open spec fn slice_bits(sl: Seq<u8>) -> Option<Seq<u32>> {
    let parts = split(sl, 0x5B);
    match decimal_u32(parts[0]) {
        None => None,
        Some(index) => if index <= 16 || index >= 1023 {
            None
        } else if parts.len() == 1 {
            Some(bit_run(index, 0, 31))
        } else if parts.len() == 2 {
            match bit_range(parts[1]) {
                Some((end, start)) => if start > end || end >= 32 {
                    None
                } else {
                    Some(bit_run(index, start, end))
                },
                None => None,
            }
        } else {
            None
        },
    }
}

/// The offsets that the first `n` items name, in order, or nothing if one
/// of them is malformed.
pub open spec fn slices_bits(slices: Seq<Seq<u8>>, n: nat) -> Option<Seq<u32>>
    decreases n,
{
    if n == 0 {
        Some(Seq::<u32>::empty())
    } else {
        match (slices_bits(slices, (n - 1) as nat), slice_bits(slices[n - 1])) {
            (Some(a), Some(b)) => Some(a + b),
            _ => None,
        }
    }
}

/// The offsets that a comma-separated Y-bit specification names.
pub open spec fn y_bits_spec(b: Seq<u8>) -> Option<Seq<u32>> {
    let s = split(b, 0x2C);
    slices_bits(s, s.len())
}

/// `v` lists the members of `s` in increasing order.
pub open spec fn sorted_members(v: Seq<u32>, s: Set<u32>) -> bool {
    &&& forall|j: int, k: int| 0 <= j < k < v.len() ==> v[j] < v[k]
    &&& v.to_set() == s
}

proof fn lemma_slices_bits_none(slices: Seq<Seq<u8>>, n: nat, m: nat)
    requires
        n <= m,
        slices_bits(slices, n) is None,
    ensures
        slices_bits(slices, m) is None,
    decreases m,
{
    if n < m {
        lemma_slices_bits_none(slices, n, (m - 1) as nat);
    }
}

/// Reads `E..S]` from `b[lo..hi]`.
fn range_parse(b: &[u8], lo: usize, hi: usize) -> (r: Option<(u32, u32)>)
    requires
        lo <= hi <= b@.len(),
    ensures
        r == bit_range(b@.subrange(lo as int, hi as int)),
{
    let ghost t = b@.subrange(lo as int, hi as int);
    let mut k: usize = lo;
    while k < hi && b[k] != 0x2E
        invariant
            lo <= k <= hi <= b@.len(),
            t == b@.subrange(lo as int, hi as int),
            forall|q: int| lo <= q < k ==> b@[q] != 0x2E,
        decreases hi - k,
    {
        k = k + 1;
    }
    proof {
        lemma_find_byte(t, 0x2E, 0, (k - lo) as int);
    }
    if hi - k >= 3 && b[k + 1] == 0x2E && b[hi - 1] == 0x5D {
        let end = parse_u32(b, lo, k);
        let start = parse_u32(b, k + 2, hi - 1);
        assert(t.subrange(0, (k - lo) as int) =~= b@.subrange(lo as int, k as int));
        assert(t.subrange((k - lo + 2) as int, t.len() - 1) =~= b@.subrange(
            (k + 2) as int,
            (hi - 1) as int,
        ));
        match (end, start) {
            (Some(e), Some(s)) => Some((e, s)),
            _ => None,
        }
    } else {
        None
    }
}

/// Reads one item of a Y-bit specification from `b[lo..hi]`: its image word
/// and its bit range.
fn slice_parse(b: &[u8], lo: usize, hi: usize) -> (r: Option<(u32, u32, u32)>)
    requires
        lo <= hi <= b@.len(),
    ensures
        r matches Some((index, start, end)) ==> {
            &&& 17 <= index <= 1022
            &&& start <= end < 32
            &&& slice_bits(b@.subrange(lo as int, hi as int)) == Some(bit_run(index, start, end))
        },
        r is None ==> slice_bits(b@.subrange(lo as int, hi as int)) is None,
{
    let ghost t = b@.subrange(lo as int, hi as int);
    let parts = split_ranges(b, lo, hi, 0x5B);
    proof {
        lemma_split_nonempty(t, 0x5B);
    }
    let ghost ps = split(t, 0x5B);
    assert(ps[0] == b@.subrange(parts@[0].0 as int, parts@[0].1 as int));
    let index = match parse_u32(b, parts[0].0, parts[0].1) {
        Some(v) => v,
        None => return None,
    };
    if index <= 16 || index >= 1023 {
        return None;
    }
    if parts.len() == 1 {
        return Some((index, 0, 31));
    }
    if parts.len() != 2 {
        return None;
    }
    assert(ps[1] == b@.subrange(parts@[1].0 as int, parts@[1].1 as int));
    match range_parse(b, parts[1].0, parts[1].1) {
        Some((end, start)) => {
            if start > end || end >= 32 {
                None
            } else {
                Some((index, start, end))
            }
        },
        None => None,
    }
}

/// Adds `x` to a strictly increasing vector, where it is not already.
fn insert_sorted(v: &mut Vec<u32>, x: u32)
    requires
        forall|j: int, k: int| 0 <= j < k < old(v)@.len() ==> old(v)@[j] < old(v)@[k],
    ensures
        forall|j: int, k: int| 0 <= j < k < final(v)@.len() ==> final(v)@[j] < final(v)@[k],
        final(v)@.to_set() == old(v)@.to_set().insert(x),
{
    let mut pos: usize = 0;
    while pos < v.len() && v[pos] < x
        invariant
            pos <= v@.len(),
            forall|j: int| 0 <= j < pos ==> v@[j] < x,
        decreases v@.len() - pos,
    {
        pos = pos + 1;
    }
    if pos < v.len() && v[pos] == x {
        assert(v@.to_set().contains(x));
        assert(v@.to_set() =~= v@.to_set().insert(x));
        return;
    }
    let ghost before = v@;
    v.insert(pos, x);
    assert forall|j: int, k: int| 0 <= j < k < v@.len() implies v@[j] < v@[k] by {
        if k < pos {
        } else if k == pos {
        } else if j < pos {
            assert(before[k - 1] >= x || k - 1 == pos as int || before[pos as int] > x);
        } else if j == pos {
            assert(before[pos as int] > x);
            assert(before[pos as int] <= before[k - 1] || k - 1 == pos as int);
        } else {
        }
    }
    assert forall|a: u32| v@.to_set().contains(a) <==> before.to_set().insert(x).contains(a) by {
        if v@.to_set().contains(a) {
            let i = choose|i: int| 0 <= i < v@.len() && v@[i] == a;
            if i < pos {
                assert(before[i] == a);
            } else if i > pos {
                assert(before[i - 1] == a);
            }
        }
        if before.to_set().contains(a) {
            let i = choose|i: int| 0 <= i < before.len() && before[i] == a;
            if i < pos {
                assert(v@[i] == a);
            } else {
                assert(v@[i + 1] == a);
            }
        }
        if a == x {
            assert(v@[pos as int] == x);
        }
    }
    assert(v@.to_set() =~= before.to_set().insert(x));
}

/// Reads a Y-bit specification: comma-separated items, each an image word
/// index with an optional bit range. The offsets that they name, without
/// repeats and in increasing order, are the map; more than 32 of them are
/// refused.
pub fn y_bits_parser(str: &str) -> (r: Result<Vec<u32>, CliError>)
    ensures
        match y_bits_spec(str.spec_bytes()) {
            None => r == Err::<Vec<u32>, CliError>(CliError::InvalidYBits),
            Some(all) => if all.to_set().len() > 32 {
                r == Err::<Vec<u32>, CliError>(CliError::TooManyYBits(all.to_set().len() as usize))
            } else {
                r matches Ok(v) && sorted_members(v@, all.to_set())
            },
        },
        r matches Ok(v) ==> valid_y_bits(v@),
{
    let b = str.as_bytes();
    let slices = split_ranges(b, 0, b.len(), 0x2C);
    assert(b@.subrange(0, b@.len() as int) =~= b@);
    let ghost s = split(b@, 0x2C);
    let mut values: Vec<u32> = Vec::new();
    let ghost mut acc: Seq<u32> = Seq::empty();
    assert(values@.to_set() =~= acc.to_set());
    let mut i: usize = 0;
    while i < slices.len()
        invariant
            b@ == str.spec_bytes(),
            s == split(b@, 0x2C),
            pieces(b@, slices@) == s,
            s.len() == slices@.len(),
            forall|k: int| 0 <= k < slices@.len() ==> (#[trigger] slices@[k]).0 <= slices@[k].1 <= b@.len(),
            i <= slices@.len(),
            slices_bits(s, i as nat) == Some(acc),
            forall|j: int, k: int| 0 <= j < k < values@.len() ==> values@[j] < values@[k],
            values@.to_set() == acc.to_set(),
            forall|k: int| 0 <= k < acc.len() ==> 32 <= #[trigger] acc[k] < 32 * 1007,
        decreases slices@.len() - i,
    {
        let (lo, hi) = slices[i];
        assert(s[i as int] == b@.subrange(lo as int, hi as int));
        match slice_parse(b, lo, hi) {
            None => {
                proof {
                    lemma_slices_bits_none(s, (i + 1) as nat, s.len());
                }
                return Err(CliError::InvalidYBits);
            },
            Some((index, start, end)) => {
                let ghost run = bit_run(index, start, end);
                let mut j: u32 = start;
                while j <= end
                    invariant
                        start <= j <= end + 1,
                        end < 32,
                        17 <= index <= 1022,
                        run == bit_run(index, start, end),
                        forall|a: int, c: int| 0 <= a < c < values@.len() ==> values@[a] < values@[c],
                        values@.to_set() == (acc + run.subrange(0, j - start)).to_set(),
                    decreases end + 1 - j,
                {
                    let off = (index - 16) * 32 + (31 - j);
                    let ghost before = acc + run.subrange(0, j - start);
                    insert_sorted(&mut values, off);
                    proof {
                        assert(run[j - start] == off);
                        assert(acc + run.subrange(0, j + 1 - start) =~= before.push(off));
                        before.lemma_push_to_set_commute(off);
                    }
                    j = j + 1;
                }
                proof {
                    assert(run.subrange(0, j - start) =~= run);
                    assert forall|k: int| 0 <= k < (acc + run).len() implies 32 <= #[trigger] (acc
                        + run)[k] < 32 * 1007 by {
                        if k >= acc.len() {
                            assert((acc + run)[k] == run[k - acc.len()]);
                        }
                    }
                    acc = acc + run;
                }
            },
        }
        i = i + 1;
    }
    proof {
        values@.unique_seq_to_set();
        assert forall|k: int| 0 <= k < values@.len() implies 32 <= #[trigger] values@[k] < 32
            * 1007 by {
            assert(values@.to_set().contains(values@[k]));
            assert(acc.to_set().contains(values@[k]));
        }
    }
    if values.len() > 32 {
        return Err(CliError::TooManyYBits(values.len()));
    }
    Ok(values)
}

} // verus!
