//! The algebraic laws of the trie set algebra: identity, commutativity,
//! associativity and idempotence of union, the difference laws, deletion
//! via complement, range membership, and the single-prefix round trip.

use vstd::prelude::*;

use crate::bits::{bits_to_nat, lemma_cmp_value, lex_le, Bit};
use crate::family::{spec_format_cidr, Family};
use crate::trie::{
    hmax, lemma_canonical_unique, lemma_diff_sem, lemma_from_range_sem, lemma_opt_sem,
    lemma_prefixes_cover, lemma_union_sem, Tree,
};

verus! {

/// Union with the empty set is the identity, on either side.
pub proof fn lemma_union_empty(t: Tree)
    ensures
        t.spec_union(Tree::Unsat) == t,
        Tree::Unsat.spec_union(t) == t,
{
    match t {
        Tree::Sat => {},
        Tree::Unsat => {},
        Tree::Mixed(l, r) => {},
    }
}

/// Union with the full set is the full set, on either side.
pub proof fn lemma_union_full(t: Tree)
    ensures
        t.spec_union(Tree::Sat) == Tree::Sat,
        Tree::Sat.spec_union(t) == Tree::Sat,
{
    match t {
        Tree::Sat => {},
        Tree::Unsat => {},
        Tree::Mixed(l, r) => {},
    }
}

/// Union is commutative, for every pair of trees.
pub proof fn lemma_union_commutative(a: Tree, b: Tree)
    ensures
        a.spec_union(b) == b.spec_union(a),
    decreases a,
{
    match (a, b) {
        (Tree::Mixed(l1, r1), Tree::Mixed(l2, r2)) => {
            lemma_union_commutative(*l1, *l2);
            lemma_union_commutative(*r1, *r2);
        },
        _ => {},
    }
}

/// Union of canonical trees is associative.
pub proof fn lemma_union_associative(a: Tree, b: Tree, c: Tree)
    requires
        a.canonical(),
        b.canonical(),
        c.canonical(),
    ensures
        a.spec_union(b).spec_union(c) == a.spec_union(b.spec_union(c)),
{
    let ab = a.spec_union(b);
    let bc = b.spec_union(c);
    let u1 = ab.spec_union(c);
    let u2 = a.spec_union(bc);
    lemma_union_sem(a, b);
    lemma_union_sem(ab, c);
    lemma_union_sem(b, c);
    lemma_union_sem(a, bc);
    let n = hmax(hmax(a.height(), b.height()), c.height());
    assert forall|s: Seq<Bit>| s.len() == n implies (#[trigger] u1.contains(s)
        <==> #[trigger] u2.contains(s)) by {
        assert(ab.contains(s) <==> a.contains(s) || b.contains(s));
        assert(bc.contains(s) <==> b.contains(s) || c.contains(s));
        assert(u1.contains(s) <==> ab.contains(s) || c.contains(s));
        assert(u2.contains(s) <==> a.contains(s) || bc.contains(s));
    }
    lemma_canonical_unique(u1, u2, n);
}

/// Union of a canonical tree with itself is that tree.
pub proof fn lemma_union_idempotent(t: Tree)
    requires
        t.canonical(),
    ensures
        t.spec_union(t) == t,
{
    lemma_union_sem(t, t);
    let u = t.spec_union(t);
    assert forall|s: Seq<Bit>| s.len() == t.height() implies (#[trigger] u.contains(s)
        <==> #[trigger] t.contains(s)) by {
        assert(u.contains(s) <==> t.contains(s) || t.contains(s));
    }
    lemma_canonical_unique(u, t, t.height());
}

/// A canonical tree minus itself is the empty set.
pub proof fn lemma_difference_self(t: Tree)
    requires
        t.canonical(),
    ensures
        t.spec_diff(t) == Tree::Unsat,
{
    lemma_diff_sem(t, t);
    let d = t.spec_diff(t);
    assert forall|s: Seq<Bit>| s.len() == t.height() implies (#[trigger] d.contains(s)
        <==> #[trigger] Tree::Unsat.contains(s)) by {
        assert(d.contains(s) <==> t.contains(s) && !t.contains(s));
    }
    lemma_canonical_unique(d, Tree::Unsat, t.height());
}

/// Subtracting the empty set changes nothing.
pub proof fn lemma_difference_empty(t: Tree)
    ensures
        t.spec_diff(Tree::Unsat) == t,
{
    match t {
        Tree::Sat => {},
        Tree::Unsat => {},
        Tree::Mixed(l, r) => {},
    }
}

/// Subtracting from the full set is complement.
pub proof fn lemma_full_difference(t: Tree)
    ensures
        Tree::Sat.spec_diff(t) == t.spec_flip(),
{
    match t {
        Tree::Sat => {},
        Tree::Unsat => {},
        Tree::Mixed(l, r) => {},
    }
}

/// Deleting a prefix is the complement of adding it to the complement,
/// for every tree and prefix.
pub proof fn lemma_del_via_complement(t: Tree, p: Seq<Bit>)
    ensures
        t.spec_del(p) == t.spec_flip().spec_add(p).spec_flip(),
{
}

/// Range equivalence: a width-W string extends some prefix enumerated
/// from `from_range(start, end)` exactly when its integer value lies in
/// the closed interval of the bounds' integer values.
pub proof fn lemma_range_cover(start: Seq<Bit>, end: Seq<Bit>, x: Seq<Bit>)
    requires
        start.len() == end.len(),
        lex_le(start, end),
        x.len() == start.len(),
    ensures
        ({
            let ps = Tree::spec_from_range(Seq::empty(), start, end).spec_opt().spec_prefixes(
                Seq::empty(),
            );
            (exists|i: int| 0 <= i < ps.len() && (#[trigger] ps[i]).is_prefix_of(x))
                <==> (bits_to_nat(start) <= bits_to_nat(x) <= bits_to_nat(end))
        }),
{
    let t = Tree::spec_from_range(Seq::empty(), start, end);
    lemma_from_range_sem(Seq::empty(), start, end);
    lemma_opt_sem(t);
    assert(t.spec_opt() == t);
    lemma_prefixes_cover(t, Seq::empty(), x);
    assert(Seq::<Bit>::empty().is_prefix_of(x)) by {
        assert(Seq::<Bit>::empty() =~= x.subrange(0, 0));
    }
    assert(x.skip(0) =~= x);
    assert(Seq::<Bit>::empty() + x =~= x);
    assert(t.contains(x) <==> lex_le(start, x) && lex_le(x, end));
    lemma_cmp_value(start, x);
    lemma_cmp_value(x, end);
}

/// Adding one prefix to the empty set and enumerating after
/// normalization yields exactly that prefix, extended below the current
/// path.
proof fn lemma_add_single_at(p: Seq<Bit>, cur: Seq<Bit>)
    ensures
        Tree::Unsat.spec_add(p).spec_opt().spec_prefixes(cur) == seq![cur + p],
    decreases p.len(),
{
    let t = Tree::Unsat.spec_add(p);
    if p.len() == 0 {
        assert(t == Tree::Sat);
        assert(t.spec_opt().spec_prefixes(cur) =~= seq![cur + p]) by {
            assert(cur + p =~= cur);
        }
    } else {
        let b = p[0];
        let p1 = p.drop_first();
        let c = Tree::Unsat.spec_add(p1);
        let cb = if b is B0 {
            cur.push(Bit::B0)
        } else {
            cur.push(Bit::B1)
        };
        lemma_add_single_at(p1, cb);
        let ol = c.spec_opt();
        assert(ol.spec_prefixes(cb) == seq![cb + p1]);
        assert(ol !is Unsat) by {
            if ol is Unsat {
                assert(ol.spec_prefixes(cb) =~= Seq::<Seq<Bit>>::empty());
            }
        }
        assert(cb + p1 =~= cur + p);
        assert(Tree::Unsat.spec_opt() == Tree::Unsat);
        if b is B0 {
            assert(t == Tree::Mixed(Box::new(c), Box::new(Tree::Unsat)));
            assert(t.spec_opt() == Tree::Mixed(Box::new(c.spec_opt()), Box::new(Tree::Unsat)));
            assert(Tree::Unsat.spec_prefixes(cur.push(Bit::B1)) =~= Seq::<Seq<Bit>>::empty());
            assert(t.spec_opt().spec_prefixes(cur) == ol.spec_prefixes(cb)
                + Tree::Unsat.spec_prefixes(cur.push(Bit::B1)));
            assert(t.spec_opt().spec_prefixes(cur) =~= seq![cur + p]);
        } else {
            assert(t == Tree::Mixed(Box::new(Tree::Unsat), Box::new(c)));
            assert(t.spec_opt() == Tree::Mixed(Box::new(Tree::Unsat), Box::new(c.spec_opt())));
            assert(Tree::Unsat.spec_prefixes(cur.push(Bit::B0)) =~= Seq::<Seq<Bit>>::empty());
            assert(t.spec_opt().spec_prefixes(cur) == Tree::Unsat.spec_prefixes(cur.push(Bit::B0))
                + ol.spec_prefixes(cb));
            assert(t.spec_opt().spec_prefixes(cur) =~= seq![cur + p]);
        }
    }
}

/// Round trip of a single prefix: adding it to the empty set and
/// enumerating the normalized tree yields exactly that prefix.
pub proof fn lemma_single_prefix_roundtrip(p: Seq<Bit>)
    ensures
        Tree::Unsat.spec_add(p).spec_opt().spec_prefixes(Seq::empty()) == seq![p],
{
    lemma_add_single_at(p, Seq::empty());
    assert(Seq::<Bit>::empty() + p =~= p);
}


/// Round trip of a parsed CIDR through the whole pipeline: adding one
/// prefix to the empty set, enumerating the normalized tree and
/// formatting yields a single CIDR, the prefix itself written with its
/// bits beyond the stated length zeroed.
pub proof fn lemma_cidr_roundtrip(fam: Family, p: Seq<Bit>)
    requires
        p.len() <= fam.spec_width(),
    ensures
        Tree::Unsat.spec_add(p).spec_opt().spec_prefixes(Seq::empty()).map_values(
            |q: Seq<Bit>| spec_format_cidr(fam, q),
        ) == seq![spec_format_cidr(fam, p)],
{
    lemma_single_prefix_roundtrip(p);
    assert(seq![p].map_values(|q: Seq<Bit>| spec_format_cidr(fam, q)) =~= seq![
        spec_format_cidr(fam, p),
    ]);
}
} // verus!
