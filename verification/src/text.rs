//! Character-level utilities for the script and address grammars:
//! splitting, trimming, and decimal / hexadecimal digits.

use vstd::prelude::*;
use vstd::string::StrSliceExecFns;

verus! {

/// The characters of a string slice, as a vector.
pub fn to_chars(s: &str) -> (v: Vec<char>)
    ensures
        v@ == s@,
{
    let n = s.unicode_len();
    let mut v: Vec<char> = Vec::new();
    let mut i: usize = 0;
    while i < n
        invariant
            i <= n,
            n == s@.len(),
            v@ == s@.subrange(0, i as int),
        decreases n - i,
    {
        let c = s.get_char(i);
        v.push(c);
        proof {
            assert(v@ =~= s@.subrange(0, i + 1));
        }
        i = i + 1;
    }
    proof {
        assert(s@.subrange(0, n as int) =~= s@);
    }
    v
}

/// Relies on `String`'s `FromIterator` implementation (through
/// `Iterator::collect`): the returned string holds exactly the given
/// characters, in order.
#[verifier::external_body]
pub fn chars_to_string(v: &Vec<char>) -> (r: String)
    ensures
        r@ == v@,
{
    v.iter().collect()
}

/// A copy of `v[from..to]`.
pub fn copy_range(v: &Vec<char>, from: usize, to: usize) -> (r: Vec<char>)
    requires
        from <= to <= v@.len(),
    ensures
        r@ == v@.subrange(from as int, to as int),
    decreases to - from,
{
    let mut r: Vec<char> = Vec::new();
    let mut i: usize = from;
    while i < to
        invariant
            from <= i <= to <= v@.len(),
            r@ == v@.subrange(from as int, i as int),
        decreases to - i,
    {
        r.push(v[i]);
        proof {
            assert(r@ =~= v@.subrange(from as int, i + 1));
        }
        i = i + 1;
    }
    r
}

/// The index of the first occurrence of `sep`, or the length when absent.
pub open spec fn spec_find(s: Seq<char>, sep: char) -> int
    decreases s.len(),
{
    if s.len() == 0 {
        0
    } else if s[0] == sep {
        0
    } else {
        1 + spec_find(s.drop_first(), sep)
    }
}

/// `spec_find` stays within the sequence.
pub proof fn lemma_find_bounds(s: Seq<char>, sep: char)
    ensures
        0 <= spec_find(s, sep) <= s.len(),
    decreases s.len(),
{
    if s.len() != 0 && s[0] != sep {
        lemma_find_bounds(s.drop_first(), sep);
    }
}

/// An index before which `sep` does not occur, and at which it does (or
/// the end), is where `spec_find` points.
proof fn lemma_find_at(s: Seq<char>, sep: char, k: int)
    requires
        0 <= k <= s.len(),
        forall|j: int| 0 <= j < k ==> s[j] != sep,
        k < s.len() ==> s[k] == sep,
    ensures
        spec_find(s, sep) == k,
    decreases k,
{
    if k == 0 {
    } else {
        assert(s[0] != sep);
        lemma_find_at(s.drop_first(), sep, k - 1);
    }
}

/// The pieces of `s` between occurrences of `sep`: always one more piece
/// than separators, so empty pieces mark leading, trailing and repeated
/// separators.
pub open spec fn spec_split(s: Seq<char>, sep: char) -> Seq<Seq<char>>
    decreases s.len(),
    via spec_split_decreases
{
    let k = spec_find(s, sep);
    if k == s.len() {
        seq![s]
    } else {
        seq![s.take(k)] + spec_split(s.skip(k + 1), sep)
    }
}

#[via_fn]
proof fn spec_split_decreases(s: Seq<char>, sep: char) {
    lemma_find_bounds(s, sep);
}

/// The index of `sep` in `v` at or after `from`, or the length.
fn find_char(v: &Vec<char>, from: usize, sep: char) -> (k: usize)
    requires
        from <= v@.len(),
    ensures
        from <= k <= v@.len(),
        forall|j: int| from <= j < k ==> v@[j] != sep,
        k < v@.len() ==> v@[k as int] == sep,
    decreases v@.len() - from,
{
    let n = v.len();
    let mut i: usize = from;
    while i < n
        invariant
            from <= i <= n,
            n == v@.len(),
            forall|j: int| from <= j < i ==> v@[j] != sep,
        decreases n - i,
    {
        if v[i] == sep {
            return i;
        }
        i = i + 1;
    }
    n
}

/// The pieces of `v` from `from` onward, split on `sep`.
pub fn split_chars(v: &Vec<char>, from: usize, sep: char) -> (parts: Vec<Vec<char>>)
    requires
        from <= v@.len(),
    ensures
        parts@.map_values(|p: Vec<char>| p@) == spec_split(v@.skip(from as int), sep),
    decreases v@.len() - from,
{
    let n = v.len();
    let k = find_char(v, from, sep);
    proof {
        let s = v@.skip(from as int);
        assert forall|j: int| 0 <= j < k - from implies s[j] != sep by {
            assert(s[j] == v@[from + j]);
        }
        if k < n {
            assert(s[k - from] == v@[k as int]);
        }
        lemma_find_at(s, sep, k - from);
    }
    let part = copy_range(v, from, k);
    proof {
        assert(part@ =~= v@.skip(from as int).take(k - from));
    }
    if k == n {
        let mut out: Vec<Vec<char>> = Vec::new();
        out.push(part);
        proof {
            assert(v@.skip(from as int).take(k - from) =~= v@.skip(from as int));
            assert(out@.map_values(|p: Vec<char>| p@) =~= spec_split(
                v@.skip(from as int),
                sep,
            ));
        }
        out
    } else {
        let mut rest = split_chars(v, k + 1, sep);
        let ghost restview = rest@;
        rest.insert(0, part);
        proof {
            let s = v@.skip(from as int);
            assert(s.skip(k - from + 1) =~= v@.skip(k + 1));
            assert(rest@ =~= seq![part] + restview);
            assert(rest@.map_values(|p: Vec<char>| p@) =~= seq![part@]
                + restview.map_values(|p: Vec<char>| p@));
            assert(spec_split(s, sep) == seq![s.take(k - from)] + spec_split(
                s.skip(k - from + 1),
                sep,
            ));
            assert(rest@.map_values(|p: Vec<char>| p@) =~= spec_split(s, sep));
        }
        rest
    }
}

/// The whitespace that surrounding trim removes: the Unicode
/// White_Space characters.
pub open spec fn is_space(c: char) -> bool {
    ||| c == '\t' || c == '\n' || c == '\u{B}' || c == '\u{C}' || c == '\r' || c == ' '
    ||| c == '\u{85}' || c == '\u{A0}' || c == '\u{1680}'
    ||| '\u{2000}' <= c <= '\u{200A}'
    ||| c == '\u{2028}' || c == '\u{2029}' || c == '\u{202F}' || c == '\u{205F}'
    ||| c == '\u{3000}'
}

/// Whether trim removes this character.
fn is_space_char(c: char) -> (r: bool)
    ensures
        r == is_space(c),
{
    match c {
        '\t' | '\n' | '\u{B}' | '\u{C}' | '\r' | ' ' => true,
        '\u{85}' | '\u{A0}' | '\u{1680}' => true,
        '\u{2028}' | '\u{2029}' | '\u{202F}' | '\u{205F}' | '\u{3000}' => true,
        _ => '\u{2000}' <= c && c <= '\u{200A}',
    }
}

/// `s` with leading whitespace removed.
pub open spec fn spec_trim_start(s: Seq<char>) -> Seq<char>
    decreases s.len(),
{
    if s.len() > 0 && is_space(s[0]) {
        spec_trim_start(s.drop_first())
    } else {
        s
    }
}

/// `s` with trailing whitespace removed.
pub open spec fn spec_trim_end(s: Seq<char>) -> Seq<char>
    decreases s.len(),
{
    if s.len() > 0 && is_space(s.last()) {
        spec_trim_end(s.drop_last())
    } else {
        s
    }
}

/// `s` with surrounding whitespace removed.
pub open spec fn spec_trim(s: Seq<char>) -> Seq<char> {
    spec_trim_end(spec_trim_start(s))
}

/// Dropping a known run of leading whitespace is what `spec_trim_start`
/// does.
proof fn lemma_trim_start_at(s: Seq<char>, lo: int)
    requires
        0 <= lo <= s.len(),
        forall|j: int| 0 <= j < lo ==> is_space(s[j]),
        lo < s.len() ==> !is_space(s[lo]),
    ensures
        spec_trim_start(s) == s.skip(lo),
    decreases lo,
{
    if lo == 0 {
        assert(s.skip(0) =~= s);
    } else {
        lemma_trim_start_at(s.drop_first(), lo - 1);
        assert(s.drop_first().skip(lo - 1) =~= s.skip(lo));
    }
}

/// Dropping a known run of trailing whitespace is what `spec_trim_end`
/// does.
proof fn lemma_trim_end_at(s: Seq<char>, hi: int)
    requires
        0 <= hi <= s.len(),
        forall|j: int| hi <= j < s.len() ==> is_space(s[j]),
        hi > 0 ==> !is_space(s[hi - 1]),
    ensures
        spec_trim_end(s) == s.take(hi),
    decreases s.len(),
{
    if hi == s.len() {
        if s.len() > 0 {
            assert(!is_space(s.last()));
        }
        assert(s.take(hi) =~= s);
    } else {
        assert(is_space(s.last()));
        lemma_trim_end_at(s.drop_last(), hi);
        assert(s.drop_last().take(hi) =~= s.take(hi));
    }
}

/// A copy of `v` with surrounding whitespace removed.
pub fn trim(v: &Vec<char>) -> (r: Vec<char>)
    ensures
        r@ == spec_trim(v@),
{
    let n = v.len();
    let mut lo: usize = 0;
    while lo < n && is_space_char(v[lo])
        invariant
            lo <= n,
            n == v@.len(),
            forall|j: int| 0 <= j < lo ==> is_space(v@[j]),
        decreases n - lo,
    {
        lo = lo + 1;
    }
    let mut hi: usize = n;
    while hi > lo && is_space_char(v[hi - 1])
        invariant
            lo <= hi <= n,
            n == v@.len(),
            forall|j: int| 0 <= j < lo ==> is_space(v@[j]),
            lo < n ==> !is_space(v@[lo as int]),
            forall|j: int| hi <= j < n ==> is_space(v@[j]),
        decreases hi,
    {
        hi = hi - 1;
    }
    proof {
        lemma_trim_start_at(v@, lo as int);
        let s = v@.skip(lo as int);
        assert forall|j: int| hi - lo <= j < s.len() implies is_space(s[j]) by {
            assert(s[j] == v@[lo + j]);
        }
        if hi > lo {
            assert(s[hi - lo - 1] == v@[hi - 1]);
        }
        lemma_trim_end_at(s, hi - lo);
        assert(s.take(hi - lo) =~= v@.subrange(lo as int, hi as int));
    }
    copy_range(v, lo, hi)
}


/// A decimal digit.
pub open spec fn is_digit(c: char) -> bool {
    '0' <= c <= '9'
}

/// The value of a decimal digit.
pub open spec fn digit_val(c: char) -> nat
    recommends
        is_digit(c),
{
    (c as nat - '0' as nat) as nat
}

/// All characters are decimal digits.
pub open spec fn all_digits(s: Seq<char>) -> bool {
    forall|i: int| 0 <= i < s.len() ==> is_digit(#[trigger] s[i])
}

/// The value of a string of decimal digits, most significant first.
pub open spec fn dec_val(s: Seq<char>) -> nat
    decreases s.len(),
{
    if s.len() == 0 {
        0
    } else {
        dec_val(s.drop_last()) * 10 + digit_val(s.last())
    }
}

/// The value of one decimal digit character, or nothing.
fn digit_of(c: char) -> (r: Option<u32>)
    ensures
        r is Some <==> is_digit(c),
        r matches Some(d) ==> d == digit_val(c) && d <= 9,
{
    if c >= '0' && c <= '9' {
        Some(c as u32 - '0' as u32)
    } else {
        None
    }
}

/// The value of a string of one to three decimal digits; `None` when the
/// string is empty, longer than three characters, or not all digits.
pub fn parse_dec(v: &Vec<char>) -> (r: Option<u32>)
    ensures
        r is Some <==> (1 <= v@.len() <= 3 && all_digits(v@)),
        r matches Some(n) ==> n == dec_val(v@) && n <= 999,
{
    if v.len() == 0 || v.len() > 3 {
        proof {
            assert(!(1 <= v@.len() <= 3));
        }
        return None;
    }
    let mut acc: u32 = 0;
    let mut i: usize = 0;
    let n = v.len();
    while i < n
        invariant
            i <= n <= 3,
            n == v@.len(),
            acc == dec_val(v@.subrange(0, i as int)),
            i <= 1 ==> acc <= 9,
            i <= 2 ==> acc <= 99,
            acc <= 999,
            forall|j: int| 0 <= j < i ==> is_digit(#[trigger] v@[j]),
        decreases n - i,
    {
        match digit_of(v[i]) {
            Some(d) => {
                proof {
                    assert(v@.subrange(0, i + 1).drop_last() =~= v@.subrange(0, i as int));
                    assert(dec_val(v@.subrange(0, i + 1)) == acc * 10 + d);
                }
                acc = acc * 10 + d;
            },
            None => {
                return None;
            },
        }
        i = i + 1;
    }
    proof {
        assert(v@.subrange(0, n as int) =~= v@);
    }
    Some(acc)
}


/// A hexadecimal digit, either case.
pub open spec fn is_hex(c: char) -> bool {
    ('0' <= c <= '9') || ('a' <= c <= 'f') || ('A' <= c <= 'F')
}

/// The value of a hexadecimal digit.
pub open spec fn hex_digit_val(c: char) -> nat
    recommends
        is_hex(c),
{
    if '0' <= c <= '9' {
        (c as nat - '0' as nat) as nat
    } else if 'a' <= c <= 'f' {
        (c as nat - 'a' as nat + 10) as nat
    } else {
        (c as nat - 'A' as nat + 10) as nat
    }
}

/// All characters are hexadecimal digits.
pub open spec fn all_hex(s: Seq<char>) -> bool {
    forall|i: int| 0 <= i < s.len() ==> is_hex(#[trigger] s[i])
}

/// The value of a string of hexadecimal digits, most significant first.
pub open spec fn hex_val(s: Seq<char>) -> nat
    decreases s.len(),
{
    if s.len() == 0 {
        0
    } else {
        hex_val(s.drop_last()) * 16 + hex_digit_val(s.last())
    }
}

/// The value of one hexadecimal digit character, or nothing.
fn hex_digit_of(c: char) -> (r: Option<u32>)
    ensures
        r is Some <==> is_hex(c),
        r matches Some(d) ==> d == hex_digit_val(c) && d <= 15,
{
    if c >= '0' && c <= '9' {
        Some(c as u32 - '0' as u32)
    } else if c >= 'a' && c <= 'f' {
        Some(c as u32 - 'a' as u32 + 10)
    } else if c >= 'A' && c <= 'F' {
        Some(c as u32 - 'A' as u32 + 10)
    } else {
        None
    }
}

/// The value of a string of one to four hexadecimal digits; `None` when
/// the string is empty, longer than four characters, or not all
/// hexadecimal digits.
pub fn parse_hex(v: &Vec<char>) -> (r: Option<u16>)
    ensures
        r is Some <==> (1 <= v@.len() <= 4 && all_hex(v@)),
        r matches Some(n) ==> n == hex_val(v@),
{
    if v.len() == 0 || v.len() > 4 {
        return None;
    }
    let mut acc: u32 = 0;
    let mut i: usize = 0;
    let n = v.len();
    while i < n
        invariant
            i <= n <= 4,
            n == v@.len(),
            acc == hex_val(v@.subrange(0, i as int)),
            i <= 1 ==> acc <= 0xf,
            i <= 2 ==> acc <= 0xff,
            i <= 3 ==> acc <= 0xfff,
            acc <= 0xffff,
            forall|j: int| 0 <= j < i ==> is_hex(#[trigger] v@[j]),
        decreases n - i,
    {
        match hex_digit_of(v[i]) {
            Some(d) => {
                proof {
                    assert(v@.subrange(0, i + 1).drop_last() =~= v@.subrange(0, i as int));
                    assert(hex_val(v@.subrange(0, i + 1)) == acc * 16 + d);
                }
                acc = acc * 16 + d;
            },
            None => {
                return None;
            },
        }
        i = i + 1;
    }
    proof {
        assert(v@.subrange(0, n as int) =~= v@);
    }
    Some(acc as u16)
}



/// The character of a decimal or hexadecimal digit value, lowercase.
pub open spec fn digit_char(d: nat) -> char
    recommends
        d <= 15,
{
    if d == 0 {
        '0'
    } else if d == 1 {
        '1'
    } else if d == 2 {
        '2'
    } else if d == 3 {
        '3'
    } else if d == 4 {
        '4'
    } else if d == 5 {
        '5'
    } else if d == 6 {
        '6'
    } else if d == 7 {
        '7'
    } else if d == 8 {
        '8'
    } else if d == 9 {
        '9'
    } else if d == 10 {
        'a'
    } else if d == 11 {
        'b'
    } else if d == 12 {
        'c'
    } else if d == 13 {
        'd'
    } else if d == 14 {
        'e'
    } else {
        'f'
    }
}

/// The decimal text of a number, without leading zeros.
pub open spec fn spec_dec(n: nat) -> Seq<char>
    decreases n,
{
    if n < 10 {
        seq![digit_char(n)]
    } else {
        spec_dec(n / 10) + seq![digit_char(n % 10)]
    }
}

/// The lowercase hexadecimal text of a number, without leading zeros.
pub open spec fn spec_hex(n: nat) -> Seq<char>
    decreases n,
{
    if n < 16 {
        seq![digit_char(n)]
    } else {
        spec_hex(n / 16) + seq![digit_char(n % 16)]
    }
}

/// The character of one digit value.
fn digit_char_of(d: u64) -> (r: char)
    requires
        d <= 15,
    ensures
        r == digit_char(d as nat),
{
    match d {
        0 => '0',
        1 => '1',
        2 => '2',
        3 => '3',
        4 => '4',
        5 => '5',
        6 => '6',
        7 => '7',
        8 => '8',
        9 => '9',
        10 => 'a',
        11 => 'b',
        12 => 'c',
        13 => 'd',
        14 => 'e',
        _ => 'f',
    }
}

/// Appends the decimal text of `n`.
pub fn push_dec(out: &mut Vec<char>, n: u64)
    ensures
        final(out)@ == old(out)@ + spec_dec(n as nat),
    decreases n,
{
    if n < 10 {
        out.push(digit_char_of(n));
        proof {
            assert(final(out)@ =~= old(out)@ + spec_dec(n as nat));
        }
    } else {
        push_dec(out, n / 10);
        out.push(digit_char_of(n % 10));
        proof {
            assert(final(out)@ =~= old(out)@ + spec_dec(n as nat));
        }
    }
}

/// Appends the lowercase hexadecimal text of `n`.
pub fn push_hex(out: &mut Vec<char>, n: u64)
    ensures
        final(out)@ == old(out)@ + spec_hex(n as nat),
    decreases n,
{
    if n < 16 {
        out.push(digit_char_of(n));
        proof {
            assert(final(out)@ =~= old(out)@ + spec_hex(n as nat));
        }
    } else {
        push_hex(out, n / 16);
        out.push(digit_char_of(n % 16));
        proof {
            assert(final(out)@ =~= old(out)@ + spec_hex(n as nat));
        }
    }
}

/// Appends all characters of `piece`.
pub fn push_all(out: &mut Vec<char>, piece: &Vec<char>)
    ensures
        final(out)@ == old(out)@ + piece@,
{
    let n = piece.len();
    let mut i: usize = 0;
    while i < n
        invariant
            i <= n,
            n == piece@.len(),
            out@ == old(out)@ + piece@.subrange(0, i as int),
        decreases n - i,
    {
        out.push(piece[i]);
        proof {
            assert(old(out)@ + piece@.subrange(0, i + 1) =~= (old(out)@ + piece@.subrange(
                0,
                i as int,
            )).push(piece@[i as int]));
        }
        i = i + 1;
    }
    proof {
        assert(old(out)@ + piece@.subrange(0, n as int) =~= old(out)@ + piece@);
    }
}

/// The pieces joined with the separator between consecutive pieces.
pub open spec fn spec_join(items: Seq<Seq<char>>, sep: Seq<char>) -> Seq<char>
    decreases items.len(),
{
    if items.len() == 0 {
        Seq::empty()
    } else if items.len() == 1 {
        items[0]
    } else {
        items[0] + sep + spec_join(items.drop_first(), sep)
    }
}

} // verus!
