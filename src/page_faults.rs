//! Reading the outputs of the system tools that report a process's page
//! faults and the page size. Running the tools is left to the caller; what
//! is done here is finding the right line and reading the number on it.

use vstd::prelude::*;

verus! {

/// Line of the fault report that holds the column heading.
pub const FAULTS_HEADING_LINE: usize = 11;

/// Whether `b` is ASCII whitespace.
pub open spec fn is_ascii_space(b: u8) -> bool {
    b == 0x20u8 || b == 0x09u8 || b == 0x0Au8 || b == 0x0Bu8 || b == 0x0Cu8 || b == 0x0Du8
}

/// Whether `x y` is the UTF-8 encoding of a two-byte whitespace character
/// (U+0085, U+00A0).
pub open spec fn is_space_pair(x: u8, y: u8) -> bool {
    x == 0xC2u8 && (y == 0x85u8 || y == 0xA0u8)
}

/// Whether `x y z` is the UTF-8 encoding of a three-byte whitespace character
/// (U+1680, U+2000 to U+200A, U+2028, U+2029, U+202F, U+205F, U+3000).
pub open spec fn is_space_triple(x: u8, y: u8, z: u8) -> bool {
    ||| x == 0xE1u8 && y == 0x9Au8 && z == 0x80u8
    ||| x == 0xE2u8 && y == 0x80u8 && (0x80u8 <= z <= 0x8Au8 || z == 0xA8u8 || z == 0xA9u8
        || z == 0xAFu8)
    ||| x == 0xE2u8 && y == 0x81u8 && z == 0x9Fu8
    ||| x == 0xE3u8 && y == 0x80u8 && z == 0x80u8
}

/// Length of the encoded whitespace character that `s` starts with, or zero.
pub open spec fn space_at_start(s: Seq<u8>) -> nat {
    if s.len() >= 1 && is_ascii_space(s[0]) {
        1
    } else if s.len() >= 2 && is_space_pair(s[0], s[1]) {
        2
    } else if s.len() >= 3 && is_space_triple(s[0], s[1], s[2]) {
        3
    } else {
        0
    }
}

/// Length of the encoded whitespace character that `s` ends with, or zero.
pub open spec fn space_at_end(s: Seq<u8>) -> nat {
    let n = s.len() as int;
    if n >= 1 && is_ascii_space(s[n - 1]) {
        1
    } else if n >= 2 && is_space_pair(s[n - 2], s[n - 1]) {
        2
    } else if n >= 3 && is_space_triple(s[n - 3], s[n - 2], s[n - 1]) {
        3
    } else {
        0
    }
}

/// Whether `b` is an ASCII decimal digit.
pub open spec fn is_digit(b: u8) -> bool {
    0x30u8 <= b <= 0x39u8
}

/// UTF-8 text `s` without its leading and trailing whitespace characters.
pub open spec fn trimmed(s: Seq<u8>) -> Seq<u8>
    decreases s.len(),
{
    if space_at_start(s) > 0 {
        trimmed(s.subrange(space_at_start(s) as int, s.len() as int))
    } else if space_at_end(s) > 0 {
        trimmed(s.subrange(0, s.len() - space_at_end(s)))
    } else {
        s
    }
}

/// Number of bytes before the first line feed of `s`, or its length.
pub open spec fn line_length(s: Seq<u8>) -> nat
    decreases s.len(),
{
    if s.len() == 0 || s[0] == 0x0Au8 {
        0
    } else {
        1 + line_length(s.subrange(1, s.len() as int))
    }
}

/// Line `k` of `s`, counting from zero, with lines separated by line feeds;
/// `None` when `s` has fewer lines.
pub open spec fn nth_line(s: Seq<u8>, k: nat) -> Option<Seq<u8>>
    decreases k,
{
    let n = line_length(s);
    if k == 0 {
        Some(s.subrange(0, n as int))
    } else if n >= s.len() {
        None
    } else {
        nth_line(s.subrange(n as int + 1, s.len() as int), (k - 1) as nat)
    }
}

/// Value of the decimal digits `s`.
pub open spec fn digits_value(s: Seq<u8>) -> nat
    decreases s.len(),
{
    if s.len() == 0 {
        0
    } else {
        digits_value(s.drop_last()) * 10 + (s.last() - 0x30u8) as nat
    }
}

/// `s` without a leading `+`.
pub open spec fn without_plus(s: Seq<u8>) -> Seq<u8> {
    if s.len() > 0 && s[0] == 0x2Bu8 {
        s.subrange(1, s.len() as int)
    } else {
        s
    }
}

/// The value of `digits` when it is one or more decimal digits whose value
/// fits a `u64`.
pub open spec fn digits_number(digits: Seq<u8>) -> Option<u64> {
    if digits.len() > 0 && (forall|i: int| 0 <= i < digits.len() ==> is_digit(#[trigger] digits[i]))
        && digits_value(digits) <= u64::MAX {
        Some(digits_value(digits) as u64)
    } else {
        None
    }
}

/// The unsigned number written in `s`: an optional `+` and one or more
/// decimal digits whose value fits a `u64`.
pub open spec fn decimal(s: Seq<u8>) -> Option<u64> {
    digits_number(without_plus(s))
}

/// The heading that the fault report puts above the count.
pub open spec fn faults_heading() -> Seq<u8> {
    seq![0x46u8, 0x41u8, 0x55u8, 0x4Cu8, 0x54u8, 0x53u8]
}

/// The fault count in a report whose line `FAULTS_HEADING_LINE` reads
/// `FAULTS` and whose next line holds the count, both up to surrounding
/// whitespace.
pub open spec fn fault_count_of(report: Seq<u8>) -> Option<u64> {
    match (nth_line(report, FAULTS_HEADING_LINE as nat), nth_line(report, (FAULTS_HEADING_LINE + 1) as nat)) {
        (Some(key), Some(value)) => if trimmed(key) == faults_heading() {
            decimal(trimmed(value))
        } else {
            None
        },
        _ => None,
    }
}

proof fn lemma_line_length_from(s: Seq<u8>, from: int, j: int)
    requires
        0 <= from <= j <= s.len(),
        forall|i: int| from <= i < j ==> s[i] != 0x0Au8,
        j == s.len() || s[j] == 0x0Au8,
    ensures
        line_length(s.subrange(from, s.len() as int)) == j - from,
    decreases j - from,
{
    let rest = s.subrange(from, s.len() as int);
    if from < j {
        lemma_line_length_from(s, from + 1, j);
        assert(rest.subrange(1, rest.len() as int) =~= s.subrange(from + 1, s.len() as int));
    }
}

/// Position of the first line feed of `s` at or after `from`, or its length.
fn line_end(s: &[u8], from: usize) -> (r: usize)
    requires
        from <= s@.len(),
    ensures
        r == from + line_length(s@.subrange(from as int, s@.len() as int)),
        r <= s@.len(),
{
    let mut j = from;
    while j < s.len() && s[j] != 0x0Au8
        invariant
            from <= j <= s@.len(),
            forall|i: int| from <= i < j ==> s@[i] != 0x0Au8,
        decreases s@.len() - j,
    {
        j = j + 1;
    }
    proof {
        lemma_line_length_from(s@, from as int, j as int);
    }
    j
}

/// Start and end of line `k` of `s`, if it has one.
fn line_bounds(s: &[u8], k: usize) -> (r: Option<(usize, usize)>)
    ensures
        match r {
            Some((a, b)) => a <= b <= s@.len() && nth_line(s@, k as nat) == Some(
                s@.subrange(a as int, b as int),
            ),
            None => nth_line(s@, k as nat) is None,
        },
{
    let mut start: usize = 0;
    let mut j: usize = 0;
    proof {
        assert(s@.subrange(0, s@.len() as int) =~= s@);
    }
    while j < k
        invariant
            j <= k,
            start <= s@.len(),
            nth_line(s@, k as nat) == nth_line(s@.subrange(start as int, s@.len() as int), (k - j) as nat),
        decreases k - j,
    {
        let end = line_end(s, start);
        let ghost rest = s@.subrange(start as int, s@.len() as int);
        if end >= s.len() {
            return None;
        }
        proof {
            assert(rest.subrange(line_length(rest) as int + 1, rest.len() as int) =~= s@.subrange(
                end + 1,
                s@.len() as int,
            ));
        }
        start = end + 1;
        j = j + 1;
    }
    let end = line_end(s, start);
    proof {
        let rest = s@.subrange(start as int, s@.len() as int);
        assert(rest.subrange(0, line_length(rest) as int) =~= s@.subrange(start as int, end as int));
    }
    Some((start, end))
}

fn is_ascii_space_byte(b: u8) -> (r: bool)
    ensures
        r == is_ascii_space(b),
{
    b == 0x20u8 || b == 0x09u8 || b == 0x0Au8 || b == 0x0Bu8 || b == 0x0Cu8 || b == 0x0Du8
}

fn is_space_triple_bytes(x: u8, y: u8, z: u8) -> (r: bool)
    ensures
        r == is_space_triple(x, y, z),
{
    (x == 0xE1u8 && y == 0x9Au8 && z == 0x80u8) || (x == 0xE2u8 && y == 0x80u8 && ((0x80u8 <= z
        && z <= 0x8Au8) || z == 0xA8u8 || z == 0xA9u8 || z == 0xAFu8)) || (x == 0xE2u8 && y
        == 0x81u8 && z == 0x9Fu8) || (x == 0xE3u8 && y == 0x80u8 && z == 0x80u8)
}

/// Length of the encoded whitespace character that `s[a..b]` starts with.
fn space_len_at(s: &[u8], a: usize, b: usize) -> (r: usize)
    requires
        a <= b <= s@.len(),
    ensures
        r == space_at_start(s@.subrange(a as int, b as int)),
{
    let ghost t = s@.subrange(a as int, b as int);
    let n = b - a;
    proof {
        if n >= 1 {
            assert(t[0] == s@[a as int]);
        }
        if n >= 2 {
            assert(t[1] == s@[a + 1]);
        }
        if n >= 3 {
            assert(t[2] == s@[a + 2]);
        }
    }
    if n >= 1 && is_ascii_space_byte(s[a]) {
        1
    } else if n >= 2 && s[a] == 0xC2u8 && (s[a + 1] == 0x85u8 || s[a + 1] == 0xA0u8) {
        2
    } else if n >= 3 && is_space_triple_bytes(s[a], s[a + 1], s[a + 2]) {
        3
    } else {
        0
    }
}

/// Length of the encoded whitespace character that `s[a..b]` ends with.
fn space_len_before(s: &[u8], a: usize, b: usize) -> (r: usize)
    requires
        a <= b <= s@.len(),
    ensures
        r == space_at_end(s@.subrange(a as int, b as int)),
{
    let ghost t = s@.subrange(a as int, b as int);
    let n = b - a;
    proof {
        if n >= 1 {
            assert(t[n - 1] == s@[b - 1]);
        }
        if n >= 2 {
            assert(t[n - 2] == s@[b - 2]);
        }
        if n >= 3 {
            assert(t[n - 3] == s@[b - 3]);
        }
    }
    if n >= 1 && is_ascii_space_byte(s[b - 1]) {
        1
    } else if n >= 2 && s[b - 2] == 0xC2u8 && (s[b - 1] == 0x85u8 || s[b - 1] == 0xA0u8) {
        2
    } else if n >= 3 && is_space_triple_bytes(s[b - 3], s[b - 2], s[b - 1]) {
        3
    } else {
        0
    }
}

/// Start and end of `s[from..to]` without its surrounding whitespace.
fn trim_bounds(s: &[u8], from: usize, to: usize) -> (r: (usize, usize))
    requires
        from <= to <= s@.len(),
    ensures
        from <= r.0 <= r.1 <= to,
        trimmed(s@.subrange(from as int, to as int)) == s@.subrange(r.0 as int, r.1 as int),
{
    let mut a = from;
    let mut k = space_len_at(s, a, to);
    while k > 0
        invariant
            from <= a <= to <= s@.len(),
            k == space_at_start(s@.subrange(a as int, to as int)),
            trimmed(s@.subrange(from as int, to as int)) == trimmed(s@.subrange(a as int, to as int)),
        decreases to - a,
    {
        proof {
            let cur = s@.subrange(a as int, to as int);
            assert(cur.subrange(k as int, cur.len() as int) =~= s@.subrange(a + k, to as int));
        }
        a = a + k;
        k = space_len_at(s, a, to);
    }
    let mut b = to;
    let mut k2 = space_len_before(s, a, b);
    while k2 > 0
        invariant
            from <= a <= b <= to <= s@.len(),
            k2 == space_at_end(s@.subrange(a as int, b as int)),
            space_at_start(s@.subrange(a as int, b as int)) == 0,
            trimmed(s@.subrange(from as int, to as int)) == trimmed(s@.subrange(a as int, b as int)),
        decreases b - a,
    {
        proof {
            let cur = s@.subrange(a as int, b as int);
            let shorter = s@.subrange(a as int, b - k2);
            assert(cur.subrange(0, cur.len() - k2) =~= shorter);
            if shorter.len() >= 1 {
                assert(shorter[0] == cur[0]);
            }
            if shorter.len() >= 2 {
                assert(shorter[1] == cur[1]);
            }
            if shorter.len() >= 3 {
                assert(shorter[2] == cur[2]);
            }
        }
        b = b - k2;
        k2 = space_len_before(s, a, b);
    }
    (a, b)
}

proof fn lemma_digits_value_grows(s: Seq<u8>, i: int)
    requires
        0 <= i <= s.len(),
        forall|j: int| 0 <= j < s.len() ==> is_digit(#[trigger] s[j]),
    ensures
        digits_value(s.subrange(0, i)) <= digits_value(s),
    decreases s.len() - i,
{
    if i < s.len() {
        lemma_digits_value_grows(s, i + 1);
        assert(s.subrange(0, i + 1).drop_last() =~= s.subrange(0, i));
    } else {
        assert(s.subrange(0, i) =~= s);
    }
}

/// The number written in `s[from..to]`, if it is one that fits a `u64`.
fn parse_decimal(s: &[u8], from: usize, to: usize) -> (r: Option<u64>)
    requires
        from <= to <= s@.len(),
    ensures
        r == decimal(s@.subrange(from as int, to as int)),
{
    let ghost whole = s@.subrange(from as int, to as int);
    let mut a = from;
    if a < to && s[a] == 0x2Bu8 {
        a = a + 1;
    }
    let ghost digits = s@.subrange(a as int, to as int);
    proof {
        if from < to {
            assert(whole[0] == s@[from as int]);
        }
        assert(without_plus(whole) =~= digits);
    }
    if a == to {
        return None;
    }
    let mut value: u64 = 0;
    let mut i = a;
    while i < to
        invariant
            a <= i <= to <= s@.len(),
            digits == s@.subrange(a as int, to as int),
            without_plus(s@.subrange(from as int, to as int)) == digits,
            forall|j: int| a <= j < i ==> is_digit(#[trigger] s@[j]),
            value == digits_value(s@.subrange(a as int, i as int)),
        decreases to - i,
    {
        let b = s[i];
        proof {
            assert(s@.subrange(a as int, i + 1).drop_last() =~= s@.subrange(a as int, i as int));
        }
        if b < 0x30u8 || b > 0x39u8 {
            proof {
                assert(digits[i - a] == s@[i as int]);
                assert(!is_digit(digits[i - a]));
            }
            return None;
        }
        let d = (b - 0x30u8) as u64;
        if value > (u64::MAX - d) / 10 {
            proof {
                let v = value as int;
                let dd = d as int;
                assert(v * 10 + dd > u64::MAX) by (nonlinear_arith)
                    requires
                        v > (u64::MAX - dd) / 10,
                        0 <= dd <= 9,
                ;
                let pre = s@.subrange(a as int, i + 1);
                assert(pre.drop_last() =~= s@.subrange(a as int, i as int));
                assert(digits.subrange(0, i + 1 - a) =~= pre);
                if forall|j: int| 0 <= j < digits.len() ==> is_digit(#[trigger] digits[j]) {
                    lemma_digits_value_grows(digits, i + 1 - a);
                }
            }
            return None;
        }
        value = value * 10 + d;
        i = i + 1;
    }
    proof {
        assert(s@.subrange(a as int, to as int) =~= digits);
        assert forall|j: int| 0 <= j < digits.len() implies is_digit(#[trigger] digits[j]) by {
            assert(digits[j] == s@[a + j]);
        }
    }
    Some(value)
}


/// Whether `s[from..to]` reads `FAULTS`.
fn is_faults_heading(s: &[u8], from: usize, to: usize) -> (r: bool)
    requires
        from <= to <= s@.len(),
    ensures
        r == (s@.subrange(from as int, to as int) == faults_heading()),
{
    let heading: [u8; 6] = [0x46u8, 0x41u8, 0x55u8, 0x4Cu8, 0x54u8, 0x53u8];
    proof {
        assert(heading@ =~= faults_heading());
    }
    if to - from != 6 {
        return false;
    }
    let mut i: usize = 0;
    while i < 6
        invariant
            i <= 6,
            to - from == 6,
            from <= to <= s@.len(),
            heading@ == faults_heading(),
            forall|j: int| 0 <= j < i ==> s@[from + j] == heading@[j],
        decreases 6 - i,
    {
        if s[from + i] != heading[i] {
            proof {
                assert(s@.subrange(from as int, to as int)[i as int] != faults_heading()[i as int]);
            }
            return false;
        }
        i = i + 1;
    }
    proof {
        assert(s@.subrange(from as int, to as int) =~= faults_heading());
    }
    true
}

/// The cumulative page-fault count in a report of the process-statistics
/// tool: line `FAULTS_HEADING_LINE` must read `FAULTS` and the next line
/// holds the count, both up to surrounding whitespace. `None` when the report
/// has another shape.
pub fn parse_fault_count(report: &[u8]) -> (r: Option<u64>)
    ensures
        r == fault_count_of(report@),
{
    let key = line_bounds(report, FAULTS_HEADING_LINE);
    let value = line_bounds(report, FAULTS_HEADING_LINE + 1);
    match (key, value) {
        (Some((ka, kb)), Some((va, vb))) => {
            let (ta, tb) = trim_bounds(report, ka, kb);
            if !is_faults_heading(report, ta, tb) {
                return None;
            }
            let (ua, ub) = trim_bounds(report, va, vb);
            parse_decimal(report, ua, ub)
        },
        _ => None,
    }
}

/// The page size printed by the page-size tool: the number on its output, up
/// to surrounding whitespace. `None` when there is no such number or it is
/// zero, which is no page size.
pub fn parse_page_size(output: &[u8]) -> (r: Option<u64>)
    ensures
        r == match decimal(trimmed(output@)) {
            Some(0) => None,
            other => other,
        },
{
    let (a, b) = trim_bounds(output, 0, output.len());
    proof {
        assert(output@.subrange(0, output@.len() as int) =~= output@);
    }
    match parse_decimal(output, a, b) {
        Some(0) => None,
        other => other,
    }
}

} // verus!
