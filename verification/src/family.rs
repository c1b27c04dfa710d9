//! Address families: parsing and formatting of IPv4 and IPv6 address
//! literals as fixed-width bit-strings.

use vstd::prelude::*;

use crate::bits::{bits_to_nat, u8_bits, Bit, Prefix};
use crate::text::{
    all_digits, all_hex, dec_val, hex_val, parse_dec, parse_hex, push_dec, push_hex, spec_dec,
    spec_hex, spec_split, split_chars,
};

verus! {

/// The address family: IPv4 (width 32) or IPv6 (width 128).
#[derive(Clone, Copy, Debug, PartialEq, Eq, Structural)]
pub enum Family {
    V4,
    V6,
}

impl Family {
    /// Bits per address.
    pub open spec fn spec_width(self) -> nat {
        if self is V4 {
            32
        } else {
            128
        }
    }

    /// Bits per address.
    pub fn width(&self) -> (r: usize)
        ensures
            r == self.spec_width(),
    {
        match self {
            Family::V4 => 32,
            Family::V6 => 128,
        }
    }
}

/// The sixteen bits of one IPv6 group value, MSB-first.
pub open spec fn u16_bits(n: nat) -> Seq<Bit>
    recommends
        n < 0x10000,
{
    u8_bits((n / 256) as u8) + u8_bits((n % 256) as u8)
}

/// A run of all-zero IPv6 groups, as bits.
pub open spec fn zero_groups(k: nat) -> Seq<Bit> {
    Seq::new(16 * k, |i: int| Bit::B0)
}

/// An IPv4 octet: one to three decimal digits, no leading zero, value at
/// most 255.
pub open spec fn is_octet(s: Seq<char>) -> bool {
    &&& 1 <= s.len() <= 3
    &&& all_digits(s)
    &&& (s.len() > 1 ==> s[0] != '0')
    &&& dec_val(s) <= 255
}

/// The 32 bits of a dotted-quad IPv4 address literal, or nothing when the
/// text is not one.
pub open spec fn spec_parse_v4(s: Seq<char>) -> Option<Seq<Bit>> {
    let parts = spec_split(s, '.');
    if parts.len() == 4 && is_octet(parts[0]) && is_octet(parts[1]) && is_octet(parts[2])
        && is_octet(parts[3]) {
        Some(
            u8_bits(dec_val(parts[0]) as u8) + u8_bits(dec_val(parts[1]) as u8) + u8_bits(
                dec_val(parts[2]) as u8,
            ) + u8_bits(dec_val(parts[3]) as u8),
        )
    } else {
        None
    }
}

/// An IPv6 group: one to four hexadecimal digits.
pub open spec fn group_ok(s: Seq<char>) -> bool {
    1 <= s.len() <= 4 && all_hex(s)
}

/// All pieces in `[from, to)` are valid IPv6 groups.
pub open spec fn groups_ok(parts: Seq<Seq<char>>, from: int, to: int) -> bool {
    forall|i: int| from <= i < to ==> group_ok(#[trigger] parts[i])
}

/// The bits of the groups in `[from, to)`, in order.
pub open spec fn groups_bits(parts: Seq<Seq<char>>, from: int, to: int) -> Seq<Bit>
    decreases to - from,
{
    if from >= to {
        Seq::empty()
    } else {
        u16_bits(hex_val(parts[from])) + groups_bits(parts, from + 1, to)
    }
}

/// The index of the first empty piece at or after `i`, or the length.
pub open spec fn first_empty(parts: Seq<Seq<char>>, i: int) -> int
    decreases parts.len() - i,
    when 0 <= i <= parts.len()
{
    if i >= parts.len() {
        i
    } else if parts[i].len() == 0 {
        i
    } else {
        first_empty(parts, i + 1)
    }
}

/// The 128 bits of a colon-hex IPv6 address literal, with at most one
/// `::` filling in the missing zero groups and an optional embedded
/// dotted-quad IPv4 tail standing for the last two groups, or nothing
/// when the text is not one. The accepted forms are eight groups; six
/// groups and an IPv4 tail; `::` alone; `::` before trailing groups (an
/// IPv4 tail allowed last); `::` after leading groups; and an interior
/// `::` (an IPv4 tail allowed last) — with `::` always standing for at
/// least one zero group.
pub open spec fn spec_parse_v6(s: Seq<char>) -> Option<Seq<Bit>> {
    let parts = spec_split(s, ':');
    let n = parts.len() as int;
    if n == 8 && groups_ok(parts, 0, 8) {
        Some(groups_bits(parts, 0, 8))
    } else if n == 7 && groups_ok(parts, 0, 6) && spec_parse_v4(parts[6]) is Some {
        Some(groups_bits(parts, 0, 6) + spec_parse_v4(parts[6]).unwrap())
    } else if n == 3 && parts[0].len() == 0 && parts[1].len() == 0 && parts[2].len() == 0 {
        Some(zero_groups(8))
    } else if 3 <= n <= 9 && parts[0].len() == 0 && parts[1].len() == 0 && groups_ok(
        parts,
        2,
        n,
    ) {
        Some(zero_groups((8 - (n - 2)) as nat) + groups_bits(parts, 2, n))
    } else if 3 <= n <= 8 && parts[0].len() == 0 && parts[1].len() == 0 && groups_ok(
        parts,
        2,
        n - 1,
    ) && spec_parse_v4(parts[n - 1]) is Some {
        Some(
            zero_groups((8 - (n - 3) - 2) as nat) + groups_bits(parts, 2, n - 1)
                + spec_parse_v4(parts[n - 1]).unwrap(),
        )
    } else if 3 <= n <= 9 && parts[n - 1].len() == 0 && parts[n - 2].len() == 0 && groups_ok(
        parts,
        0,
        n - 2,
    ) {
        Some(groups_bits(parts, 0, n - 2) + zero_groups((8 - (n - 2)) as nat))
    } else if 3 <= n <= 8 && 0 < first_empty(parts, 0) < n - 1 && first_empty(
        parts,
        first_empty(parts, 0) + 1,
    ) == n && groups_ok(parts, 0, first_empty(parts, 0)) && groups_ok(
        parts,
        first_empty(parts, 0) + 1,
        n,
    ) {
        Some(
            groups_bits(parts, 0, first_empty(parts, 0)) + zero_groups((8 - (n - 1)) as nat)
                + groups_bits(parts, first_empty(parts, 0) + 1, n),
        )
    } else if 3 <= n <= 7 && 0 < first_empty(parts, 0) < n - 1 && first_empty(
        parts,
        first_empty(parts, 0) + 1,
    ) == n && groups_ok(parts, 0, first_empty(parts, 0)) && groups_ok(
        parts,
        first_empty(parts, 0) + 1,
        n - 1,
    ) && spec_parse_v4(parts[n - 1]) is Some {
        Some(
            groups_bits(parts, 0, first_empty(parts, 0)) + zero_groups((8 - n) as nat)
                + groups_bits(parts, first_empty(parts, 0) + 1, n - 1) + spec_parse_v4(
                parts[n - 1],
            ).unwrap(),
        )
    } else {
        None
    }
}

/// The bits of an address literal of the family, or nothing.
pub open spec fn spec_parse_addr(fam: Family, s: Seq<char>) -> Option<Seq<Bit>> {
    if fam is V4 {
        spec_parse_v4(s)
    } else {
        spec_parse_v6(s)
    }
}

/// Each group contributes sixteen bits.
proof fn lemma_groups_bits_len(parts: Seq<Seq<char>>, from: int, to: int)
    requires
        from <= to,
    ensures
        groups_bits(parts, from, to).len() == 16 * (to - from),
    decreases to - from,
{
    if from < to {
        lemma_groups_bits_len(parts, from + 1, to);
    }
}

/// Appending the next group extends the bits on the right.
proof fn lemma_groups_bits_snoc(parts: Seq<Seq<char>>, from: int, to: int)
    requires
        from <= to,
    ensures
        groups_bits(parts, from, to + 1) == groups_bits(parts, from, to) + u16_bits(
            hex_val(parts[to]),
        ),
    decreases to - from,
{
    if from == to {
        assert(groups_bits(parts, to + 1, to + 1) =~= Seq::<Bit>::empty());
        assert(groups_bits(parts, from, to + 1) =~= u16_bits(hex_val(parts[to])));
        assert(groups_bits(parts, from, to) =~= Seq::<Bit>::empty());
        assert(groups_bits(parts, from, to) + u16_bits(hex_val(parts[to])) =~= u16_bits(
            hex_val(parts[to]),
        ));
    } else {
        lemma_groups_bits_snoc(parts, from + 1, to);
        assert(groups_bits(parts, from, to + 1) == u16_bits(hex_val(parts[from]))
            + groups_bits(parts, from + 1, to + 1));
        assert(u16_bits(hex_val(parts[from])) + (groups_bits(parts, from + 1, to) + u16_bits(
            hex_val(parts[to]),
        )) =~= (u16_bits(hex_val(parts[from])) + groups_bits(parts, from + 1, to)) + u16_bits(
            hex_val(parts[to]),
        ));
    }
}

/// An empty piece at `j` caps where the first empty piece can be.
proof fn lemma_first_empty_le(parts: Seq<Seq<char>>, i: int, j: int)
    requires
        0 <= i <= j < parts.len(),
        parts[j].len() == 0,
    ensures
        i <= first_empty(parts, i) <= j,
    decreases j - i,
{
    if i < j && parts[i].len() != 0 {
        lemma_first_empty_le(parts, i + 1, j);
    }
}

/// The value of one octet piece, or nothing.
fn parse_octet(v: &Vec<char>) -> (r: Option<u8>)
    ensures
        r is Some <==> is_octet(v@),
        r matches Some(n) ==> n == dec_val(v@),
{
    match parse_dec(v) {
        Some(n) => {
            if n <= 255 && (v.len() == 1 || v[0] != '0') {
                Some(n as u8)
            } else {
                None
            }
        },
        None => None,
    }
}

/// The 32 bits of a dotted-quad IPv4 address literal.
fn parse_v4(v: &Vec<char>) -> (r: Option<Prefix>)
    ensures
        r is Some <==> spec_parse_v4(v@) is Some,
        r matches Some(p) ==> spec_parse_v4(v@) == Some(p@) && p@.len() == 32,
{
    let parts = split_chars(v, 0, '.');
    proof {
        assert(v@.skip(0) =~= v@);
    }
    let ghost gparts = spec_split(v@, '.');
    if parts.len() != 4 {
        return None;
    }
    proof {
        assert(gparts[0] == parts@[0]@ && gparts[1] == parts@[1]@ && gparts[2] == parts@[2]@
            && gparts[3] == parts@[3]@);
    }
    let a = match parse_octet(&parts[0]) {
        Some(x) => x,
        None => {
            return None;
        },
    };
    let b = match parse_octet(&parts[1]) {
        Some(x) => x,
        None => {
            return None;
        },
    };
    let c = match parse_octet(&parts[2]) {
        Some(x) => x,
        None => {
            return None;
        },
    };
    let d = match parse_octet(&parts[3]) {
        Some(x) => x,
        None => {
            return None;
        },
    };
    let mut p = Prefix::empty();
    p.extend(Prefix::from_u8(a));
    p.extend(Prefix::from_u8(b));
    p.extend(Prefix::from_u8(c));
    p.extend(Prefix::from_u8(d));
    proof {
        assert(p@ =~= u8_bits(a) + u8_bits(b) + u8_bits(c) + u8_bits(d));
        assert(p@ =~= u8_bits(dec_val(gparts[0]) as u8) + u8_bits(dec_val(gparts[1]) as u8)
            + u8_bits(dec_val(gparts[2]) as u8) + u8_bits(dec_val(gparts[3]) as u8));
        assert(p@.len() == 32);
    }
    Some(p)
}

/// The first empty piece at or after `i`, or the number of pieces.
fn first_empty_at(parts: &Vec<Vec<char>>, i: usize) -> (k: usize)
    requires
        i <= parts@.len(),
    ensures
        k == first_empty(parts@.map_values(|p: Vec<char>| p@), i as int),
        i <= k <= parts@.len(),
    decreases parts@.len() - i,
{
    let ghost gparts = parts@.map_values(|p: Vec<char>| p@);
    if i >= parts.len() {
        i
    } else if parts[i].len() == 0 {
        proof {
            assert(gparts[i as int].len() == 0);
        }
        i
    } else {
        proof {
            assert(gparts[i as int].len() != 0);
        }
        first_empty_at(parts, i + 1)
    }
}

/// Whether every piece in `[from, to)` is a valid IPv6 group.
fn check_groups(parts: &Vec<Vec<char>>, from: usize, to: usize) -> (ok: bool)
    requires
        from <= to <= parts@.len(),
    ensures
        ok == groups_ok(parts@.map_values(|p: Vec<char>| p@), from as int, to as int),
{
    let ghost gparts = parts@.map_values(|p: Vec<char>| p@);
    let mut i: usize = from;
    while i < to
        invariant
            from <= i <= to <= parts@.len(),
            gparts == parts@.map_values(|p: Vec<char>| p@),
            forall|j: int| from <= j < i ==> group_ok(#[trigger] gparts[j]),
        decreases to - i,
    {
        match parse_hex(&parts[i]) {
            Some(_) => {
                proof {
                    assert(group_ok(gparts[i as int]));
                }
            },
            None => {
                proof {
                    assert(!group_ok(gparts[i as int]));
                }
                return false;
            },
        }
        i = i + 1;
    }
    true
}

/// Appends the sixteen bits of one group value.
fn push_group(p: &mut Prefix, g: u16)
    ensures
        final(p)@ == old(p)@ + u16_bits(g as nat),
{
    p.extend(Prefix::from_u8((g / 256) as u8));
    p.extend(Prefix::from_u8((g % 256) as u8));
    proof {
        assert(final(p)@ =~= old(p)@ + u16_bits(g as nat));
    }
}

/// Appends the bits of the groups in `[from, to)`.
fn push_groups(p: &mut Prefix, parts: &Vec<Vec<char>>, from: usize, to: usize)
    requires
        from <= to <= parts@.len(),
        groups_ok(parts@.map_values(|pc: Vec<char>| pc@), from as int, to as int),
    ensures
        final(p)@ == old(p)@ + groups_bits(
            parts@.map_values(|pc: Vec<char>| pc@),
            from as int,
            to as int,
        ),
{
    let ghost gparts = parts@.map_values(|pc: Vec<char>| pc@);
    let mut i: usize = from;
    proof {
        assert(groups_bits(gparts, from as int, from as int) =~= Seq::<Bit>::empty());
        assert(p@ =~= p@ + groups_bits(gparts, from as int, from as int));
    }
    while i < to
        invariant
            from <= i <= to <= parts@.len(),
            gparts == parts@.map_values(|pc: Vec<char>| pc@),
            groups_ok(gparts, from as int, to as int),
            p@ == old(p)@ + groups_bits(gparts, from as int, i as int),
        decreases to - i,
    {
        let g = match parse_hex(&parts[i]) {
            Some(g) => g,
            None => {
                proof {
                    assert(group_ok(gparts[i as int]));
                }
                vstd::pervasive::unreached()
            },
        };
        push_group(p, g);
        proof {
            lemma_groups_bits_snoc(gparts, from as int, i as int);
            assert(g as nat == hex_val(gparts[i as int]));
            assert(p@ =~= old(p)@ + groups_bits(gparts, from as int, i + 1));
        }
        i = i + 1;
    }
}

/// Appends `k` all-zero groups.
fn push_zero_groups(p: &mut Prefix, k: usize)
    requires
        old(p)@.len() <= 128,
        k <= 8,
    ensures
        final(p)@ == old(p)@ + zero_groups(k as nat),
{
    let n = p.len();
    p.right_pad(n + 16 * k, Bit::B0);
    proof {
        assert(final(p)@ =~= old(p)@ + zero_groups(k as nat));
    }
}

/// The 128 bits of a colon-hex IPv6 address literal.
fn parse_v6(v: &Vec<char>) -> (r: Option<Prefix>)
    ensures
        r is Some <==> spec_parse_v6(v@) is Some,
        r matches Some(p) ==> spec_parse_v6(v@) == Some(p@) && p@.len() == 128,
{
    let parts = split_chars(v, 0, ':');
    proof {
        assert(v@.skip(0) =~= v@);
    }
    let ghost gparts = spec_split(v@, ':');
    let n = parts.len();
    proof {
        assert(gparts.len() == n);
    }
    if n == 8 && check_groups(&parts, 0, 8) {
        let mut p = Prefix::empty();
        push_groups(&mut p, &parts, 0, 8);
        proof {
            lemma_groups_bits_len(gparts, 0, 8);
            assert(p@ =~= groups_bits(gparts, 0, 8));
        }
        return Some(p);
    }
    if n == 7 && check_groups(&parts, 0, 6) {
        match parse_v4(&parts[6]) {
            Some(tail) => {
                let mut p = Prefix::empty();
                push_groups(&mut p, &parts, 0, 6);
                proof {
                    lemma_groups_bits_len(gparts, 0, 6);
                }
                p.extend(tail);
                proof {
                    assert(p@ =~= groups_bits(gparts, 0, 6) + spec_parse_v4(
                        gparts[6],
                    ).unwrap());
                    assert(p@.len() == 128);
                }
                return Some(p);
            },
            None => {},
        }
    }
    if n == 3 && parts[0].len() == 0 && parts[1].len() == 0 && parts[2].len() == 0 {
        let mut p = Prefix::empty();
        push_zero_groups(&mut p, 8);
        proof {
            assert(gparts[0].len() == 0 && gparts[1].len() == 0 && gparts[2].len() == 0);
            assert(p@ =~= zero_groups(8));
        }
        return Some(p);
    }
    if 3 <= n && n <= 9 && parts[0].len() == 0 && parts[1].len() == 0 && check_groups(
        &parts,
        2,
        n,
    ) {
        let mut p = Prefix::empty();
        push_zero_groups(&mut p, 8 - (n - 2));
        push_groups(&mut p, &parts, 2, n);
        proof {
            lemma_groups_bits_len(gparts, 2, n as int);
            assert(p@ =~= zero_groups((8 - (n - 2)) as nat) + groups_bits(
                gparts,
                2,
                n as int,
            ));
            assert(p@.len() == 128);
        }
        return Some(p);
    }
    if 3 <= n && n <= 8 && parts[0].len() == 0 && parts[1].len() == 0 && check_groups(
        &parts,
        2,
        n - 1,
    ) {
        match parse_v4(&parts[n - 1]) {
            Some(tail) => {
                let mut p = Prefix::empty();
                push_zero_groups(&mut p, 8 - (n - 3) - 2);
                push_groups(&mut p, &parts, 2, n - 1);
                proof {
                    lemma_groups_bits_len(gparts, 2, n - 1);
                }
                p.extend(tail);
                proof {
                    assert(p@ =~= zero_groups((8 - (n - 3) - 2) as nat) + groups_bits(
                        gparts,
                        2,
                        n - 1,
                    ) + spec_parse_v4(gparts[n - 1]).unwrap());
                    assert(p@.len() == 128);
                }
                return Some(p);
            },
            None => {},
        }
    }
    if 3 <= n && n <= 9 && parts[0].len() == 0 && parts[1].len() == 0 {
        proof {
            // The trailing and interior forms need a nonempty first piece.
            assert(gparts[0].len() == 0);
            assert(first_empty(gparts, 0) == 0);
            if n as int - 2 >= 1 && groups_ok(gparts, 0, n as int - 2) {
                assert(group_ok(gparts[0]));
            }
        }
        return None;
    }
    if 3 <= n && n <= 9 && parts[n - 1].len() == 0 && parts[n - 2].len() == 0 && check_groups(
        &parts,
        0,
        n - 2,
    ) {
        let mut p = Prefix::empty();
        push_groups(&mut p, &parts, 0, n - 2);
        proof {
            lemma_groups_bits_len(gparts, 0, n - 2);
        }
        push_zero_groups(&mut p, 8 - (n - 2));
        proof {
            assert(p@ =~= groups_bits(gparts, 0, n - 2) + zero_groups((8 - (n - 2)) as nat));
            assert(p@.len() == 128);
        }
        return Some(p);
    }
    if 3 <= n && n <= 9 && parts[n - 1].len() == 0 && parts[n - 2].len() == 0 {
        proof {
            // An interior `::` leaves no further empty piece, but the last
            // piece here is empty.
            let k = first_empty(gparts, 0);
            if 0 < k && k < n as int - 1 {
                lemma_first_empty_le(gparts, k + 1, n as int - 1);
            }
        }
        return None;
    }
    if n < 3 || n > 8 {
        return None;
    }
    let k = first_empty_at(&parts, 0);
    if !(0 < k && k < n - 1) {
        return None;
    }
    let k2 = first_empty_at(&parts, k + 1);
    if k2 != n {
        return None;
    }
    if !check_groups(&parts, 0, k) {
        return None;
    }
    if check_groups(&parts, k + 1, n) {
        let mut p = Prefix::empty();
        push_groups(&mut p, &parts, 0, k);
        proof {
            lemma_groups_bits_len(gparts, 0, k as int);
        }
        push_zero_groups(&mut p, 8 - (n - 1));
        push_groups(&mut p, &parts, k + 1, n);
        proof {
            lemma_groups_bits_len(gparts, k + 1, n as int);
            assert(p@ =~= groups_bits(gparts, 0, k as int) + zero_groups((8 - (n - 1)) as nat)
                + groups_bits(gparts, k + 1, n as int));
            assert(p@.len() == 128);
        }
        return Some(p);
    }
    if n <= 7 && check_groups(&parts, k + 1, n - 1) {
        match parse_v4(&parts[n - 1]) {
            Some(tail) => {
                let mut p = Prefix::empty();
                push_groups(&mut p, &parts, 0, k);
                proof {
                    lemma_groups_bits_len(gparts, 0, k as int);
                }
                push_zero_groups(&mut p, 8 - n);
                push_groups(&mut p, &parts, k + 1, n - 1);
                proof {
                    lemma_groups_bits_len(gparts, k + 1, n - 1);
                }
                p.extend(tail);
                proof {
                    assert(p@ =~= groups_bits(gparts, 0, k as int) + zero_groups(
                        (8 - n) as nat,
                    ) + groups_bits(gparts, k + 1, n - 1) + spec_parse_v4(
                        gparts[n - 1],
                    ).unwrap());
                    assert(p@.len() == 128);
                }
                return Some(p);
            },
            None => {},
        }
    }
    None
}

/// The bits of an address literal of the family; the result has exactly
/// the family's width.
pub fn parse_addr(fam: Family, v: &Vec<char>) -> (r: Option<Prefix>)
    ensures
        r is Some <==> spec_parse_addr(fam, v@) is Some,
        r matches Some(p) ==> spec_parse_addr(fam, v@) == Some(p@) && p@.len()
            == fam.spec_width(),
    {
    match fam {
        Family::V4 => parse_v4(v),
        Family::V6 => parse_v6(v),
    }
}


/// The length of the run of zero groups starting at `i`.
pub open spec fn zrun(g: Seq<u64>, i: int) -> int
    decreases g.len() - i,
    when 0 <= i <= g.len()
{
    if i >= g.len() || g[i] != 0 {
        0
    } else {
        1 + zrun(g, i + 1)
    }
}

/// The leftmost longest run of zero groups at or after `i`: its start and
/// its length.
pub open spec fn best_zero_run(g: Seq<u64>, i: int) -> (int, int)
    decreases g.len() - i,
    when 0 <= i <= g.len()
{
    if i >= g.len() {
        (0, 0)
    } else {
        let c = zrun(g, i);
        let rest = best_zero_run(g, i + 1);
        if c >= rest.1 {
            (i, c)
        } else {
            rest
        }
    }
}

/// A zero run stays within the groups.
proof fn lemma_zrun_bounds(g: Seq<u64>, i: int)
    requires
        0 <= i <= g.len(),
    ensures
        0 <= zrun(g, i) <= g.len() - i,
    decreases g.len() - i,
{
    if i < g.len() && g[i] == 0 {
        lemma_zrun_bounds(g, i + 1);
    }
}

/// The best zero run stays within the groups.
proof fn lemma_best_zero_run_bounds(g: Seq<u64>, i: int)
    requires
        0 <= i <= g.len(),
    ensures
        0 <= best_zero_run(g, i).0 <= g.len(),
        0 <= best_zero_run(g, i).1 <= g.len() - best_zero_run(g, i).0,
        best_zero_run(g, i).1 > 0 ==> i <= best_zero_run(g, i).0,
    decreases g.len() - i,
{
    if i < g.len() {
        lemma_zrun_bounds(g, i);
        lemma_best_zero_run_bounds(g, i + 1);
    }
}

/// The hexadecimal texts of the groups in `[from, to)`, joined by `:`.
pub open spec fn hex_groups_text(g: Seq<u64>, from: int, to: int) -> Seq<char>
    decreases to - from,
{
    if from >= to {
        Seq::empty()
    } else if from == to - 1 {
        spec_hex(g[from] as nat)
    } else {
        spec_hex(g[from] as nat) + seq![':'] + hex_groups_text(g, from + 1, to)
    }
}

/// The text of a CIDR of the family: the bit-string padded with zeros to
/// the family width, written as an address literal, then `/` and the
/// unpadded length. IPv4 is dotted-quad decimal; IPv6 is lowercase
/// colon-hex with the leftmost longest run of two or more zero groups
/// compressed to `::`.
pub open spec fn spec_format_cidr(fam: Family, p: Seq<Bit>) -> Seq<char>
    recommends
        p.len() <= fam.spec_width(),
{
    let full = p + Seq::new((fam.spec_width() - p.len()) as nat, |i: int| Bit::B0);
    if fam is V4 {
        spec_dec(bits_to_nat(full.subrange(0, 8))) + seq!['.'] + spec_dec(
            bits_to_nat(full.subrange(8, 16)),
        ) + seq!['.'] + spec_dec(bits_to_nat(full.subrange(16, 24))) + seq!['.'] + spec_dec(
            bits_to_nat(full.subrange(24, 32)),
        ) + seq!['/'] + spec_dec(p.len())
    } else {
        let g = Seq::new(8, |i: int| bits_to_nat(full.subrange(16 * i, 16 * i + 16)) as u64);
        let bs = best_zero_run(g, 0).0;
        let bl = best_zero_run(g, 0).1;
        let addr = if bl >= 2 {
            hex_groups_text(g, 0, bs) + seq![':', ':'] + hex_groups_text(g, bs + bl, 8)
        } else {
            hex_groups_text(g, 0, 8)
        };
        addr + seq!['/'] + spec_dec(p.len())
    }
}

/// The length of the zero run of groups starting at `i`.
fn zrun_at(g: &Vec<u64>, i: usize) -> (r: usize)
    requires
        i <= g@.len(),
    ensures
        r == zrun(g@, i as int),
        r <= g@.len() - i,
    decreases g@.len() - i,
{
    if i >= g.len() || g[i] != 0 {
        0
    } else {
        1 + zrun_at(g, i + 1)
    }
}

/// The leftmost longest zero run at or after `i`.
fn best_zero_run_at(g: &Vec<u64>, i: usize) -> (r: (usize, usize))
    requires
        i <= g@.len(),
    ensures
        r.0 == best_zero_run(g@, i as int).0,
        r.1 == best_zero_run(g@, i as int).1,
        r.0 <= g@.len(),
        r.1 <= g@.len() - r.0,
    decreases g@.len() - i,
{
    proof {
        lemma_best_zero_run_bounds(g@, i as int);
    }
    if i >= g.len() {
        (0, 0)
    } else {
        let c = zrun_at(g, i);
        let rest = best_zero_run_at(g, i + 1);
        if c >= rest.1 {
            (i, c)
        } else {
            rest
        }
    }
}

/// Appends the hexadecimal texts of the groups in `[from, to)`, joined by
/// `:`.
fn push_hex_groups(out: &mut Vec<char>, g: &Vec<u64>, from: usize, to: usize)
    requires
        from <= to <= g@.len(),
    ensures
        final(out)@ == old(out)@ + hex_groups_text(g@, from as int, to as int),
    decreases to - from,
{
    if from >= to {
        proof {
            assert(final(out)@ =~= old(out)@ + hex_groups_text(g@, from as int, to as int));
        }
    } else if from == to - 1 {
        push_hex(out, g[from]);
    } else {
        push_hex(out, g[from]);
        out.push(':');
        let ghost mid = out@;
        push_hex_groups(out, g, from + 1, to);
        proof {
            assert(final(out)@ =~= old(out)@ + hex_groups_text(g@, from as int, to as int));
        }
    }
}

/// The text of a CIDR of the family: address with the bits zero-padded to
/// the width, a slash, and the prefix length.
#[verifier::rlimit(50)]
pub fn format_cidr(fam: Family, p: Prefix) -> (r: Vec<char>)
    requires
        p@.len() <= fam.spec_width(),
    ensures
        r@ == spec_format_cidr(fam, p@),
{
    let len = p.len();
    let w = fam.width();
    let mut q = p;
    q.right_pad(w, Bit::B0);
    proof {
        assert(q@ =~= p@ + Seq::new((fam.spec_width() - p@.len()) as nat, |i: int| Bit::B0));
    }
    let mut out: Vec<char> = Vec::new();
    match fam {
        Family::V4 => {
            let ch = match q.chunks(8) {
                Ok(c) => c,
                Err(_) => vstd::pervasive::unreached(),
            };
            push_dec(&mut out, ch[0]);
            out.push('.');
            push_dec(&mut out, ch[1]);
            out.push('.');
            push_dec(&mut out, ch[2]);
            out.push('.');
            push_dec(&mut out, ch[3]);
            out.push('/');
            push_dec(&mut out, len as u64);
            proof {
                assert(out@ =~= spec_format_cidr(fam, p@));
            }
        },
        Family::V6 => {
            let ch = match q.chunks(16) {
                Ok(c) => c,
                Err(_) => vstd::pervasive::unreached(),
            };
            proof {
                let full = p@ + Seq::new((fam.spec_width() - p@.len()) as nat, |i: int| Bit::B0);
                let g = Seq::new(8, |i: int| bits_to_nat(full.subrange(16 * i, 16 * i + 16)) as u64);
                assert(ch@ =~= g) by {
                    assert forall|i: int| 0 <= i < 8 implies ch@[i] == g[i] by {
                        crate::bits::lemma_bits_to_nat_bound(full.subrange(16 * i, 16 * i + 16));
                        vstd::arithmetic::power2::lemma2_to64();
                    }
                }
            }
            let (bs, bl) = best_zero_run_at(&ch, 0);
            if bl >= 2 {
                push_hex_groups(&mut out, &ch, 0, bs);
                out.push(':');
                out.push(':');
                push_hex_groups(&mut out, &ch, bs + bl, 8);
            } else {
                push_hex_groups(&mut out, &ch, 0, 8);
            }
            out.push('/');
            push_dec(&mut out, len as u64);
            proof {
                assert(out@ =~= spec_format_cidr(fam, p@));
            }
        },
    }
    out
}

} // verus!
