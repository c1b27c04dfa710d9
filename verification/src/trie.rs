//! The compressed binary trie: a set of fixed-width bit-strings with
//! algebraic set operations and canonical normalization.

use vstd::prelude::*;

use crate::bits::{lex_le, prefix_cmp, Bit, Prefix, PrefixOrd};
use crate::errors::Error;

verus! {

/// The larger of two heights.
pub open spec fn hmax(a: nat, b: nat) -> nat {
    if a >= b {
        a
    } else {
        b
    }
}

/// One normalization step: a branch whose children are both `Sat` or both
/// `Unsat` collapses to that leaf.
pub open spec fn spec_node(l: Tree, r: Tree) -> Tree {
    if l is Sat && r is Sat {
        Tree::Sat
    } else if l is Unsat && r is Unsat {
        Tree::Unsat
    } else {
        Tree::Mixed(Box::new(l), Box::new(r))
    }
}

/// A set of fixed-width bit-strings as a compressed binary tree. `Sat` is
/// the full set below this node, `Unsat` the empty set, and `Mixed(l, r)`
/// splits on the next bit: strings whose next bit is 0 live in `l`, the
/// others in `r`.
#[derive(Debug, PartialEq, Eq)]
pub enum Tree {
    Sat,
    Unsat,
    Mixed(Box<Tree>, Box<Tree>),
}

impl Clone for Tree {
    /// An equal tree, by deep copy.
    fn clone(&self) -> (res: Self)
        ensures
            res == *self,
        decreases self,
    {
        match self {
            Tree::Sat => Tree::Sat,
            Tree::Unsat => Tree::Unsat,
            Tree::Mixed(l, r) => Tree::Mixed(
                Box::new((**l).clone()),
                Box::new((**r).clone()),
            ),
        }
    }
}

impl Tree {
    /// The number of branches along the longest root-to-leaf path.
    pub open spec fn height(self) -> nat
        decreases self,
    {
        match self {
            Tree::Mixed(l, r) => 1 + hmax((*l).height(), (*r).height()),
            _ => 0,
        }
    }

    /// Canonical form: no node has two `Sat` children or two `Unsat`
    /// children; such nodes collapse under `optimize`.
    pub open spec fn canonical(self) -> bool
        decreases self,
    {
        match self {
            Tree::Mixed(l, r) => (*l).canonical() && (*r).canonical() && !((*l) is Sat
                && (*r) is Sat) && !((*l) is Unsat && (*r) is Unsat),
            _ => true,
        }
    }

    /// Membership of a bit-string: walk the string's bits down the tree
    /// until a leaf decides. The string must be at least as long as the
    /// tree is high for the answer to be meaningful.
    pub open spec fn contains(self, s: Seq<Bit>) -> bool
        decreases self,
    {
        match self {
            Tree::Sat => true,
            Tree::Unsat => false,
            Tree::Mixed(l, r) => s.len() > 0 && (if s[0] is B0 {
                (*l).contains(s.drop_first())
            } else {
                (*r).contains(s.drop_first())
            }),
        }
    }

    /// What `flip` returns: `Sat` and `Unsat` swapped throughout.
    pub open spec fn spec_flip(self) -> Tree
        decreases self,
    {
        match self {
            Tree::Sat => Tree::Unsat,
            Tree::Unsat => Tree::Sat,
            Tree::Mixed(l, r) => Tree::Mixed(
                Box::new((*l).spec_flip()),
                Box::new((*r).spec_flip()),
            ),
        }
    }

    /// What `optimize` returns: the canonical form, collapsing every node
    /// whose two children normalize to the same leaf.
    pub open spec fn spec_opt(self) -> Tree
        decreases self,
    {
        match self {
            Tree::Mixed(l, r) => {
                let ol = (*l).spec_opt();
                let or = (*r).spec_opt();
                if ol is Sat && or is Sat {
                    Tree::Sat
                } else if ol is Unsat && or is Unsat {
                    Tree::Unsat
                } else {
                    Tree::Mixed(Box::new(ol), Box::new(or))
                }
            },
            _ => self,
        }
    }

    /// What `union` returns.
    pub open spec fn spec_union(self, other: Tree) -> Tree
        decreases self,
    {
        match (self, other) {
            (_, Tree::Sat) => Tree::Sat,
            (a, Tree::Unsat) => a,
            (Tree::Sat, _) => Tree::Sat,
            (Tree::Unsat, b) => b,
            (Tree::Mixed(l1, r1), Tree::Mixed(l2, r2)) => Tree::Mixed(
                Box::new((*l1).spec_union(*l2)),
                Box::new((*r1).spec_union(*r2)),
            ).spec_opt(),
        }
    }

    /// What `difference` returns.
    pub open spec fn spec_diff(self, other: Tree) -> Tree
        decreases self,
    {
        match (self, other) {
            (_, Tree::Sat) => Tree::Unsat,
            (a, Tree::Unsat) => a,
            (Tree::Sat, b) => b.spec_flip(),
            (Tree::Unsat, _) => Tree::Unsat,
            (Tree::Mixed(l1, r1), Tree::Mixed(l2, r2)) => Tree::Mixed(
                Box::new((*l1).spec_diff(*l2)),
                Box::new((*r1).spec_diff(*r2)),
            ).spec_opt(),
        }
    }

    /// What `add` returns: the prefix set of `p` inserted, recursing into
    /// the side the next bit of `p` selects and collapsing each rebuilt
    /// node so the insertion path stays normalized.
    pub open spec fn spec_add(self, p: Seq<Bit>) -> Tree
        decreases p.len(),
    {
        if p.len() == 0 {
            Tree::Sat
        } else {
            match self {
                Tree::Sat => Tree::Sat,
                Tree::Unsat => {
                    if p[0] is B0 {
                        spec_node(Tree::Unsat.spec_add(p.drop_first()), Tree::Unsat)
                    } else {
                        spec_node(Tree::Unsat, Tree::Unsat.spec_add(p.drop_first()))
                    }
                },
                Tree::Mixed(l, r) => {
                    if p[0] is B0 {
                        spec_node((*l).spec_add(p.drop_first()), *r)
                    } else {
                        spec_node(*l, (*r).spec_add(p.drop_first()))
                    }
                },
            }
        }
    }

    /// What `del` returns: deletion as complement of addition.
    pub open spec fn spec_del(self, p: Seq<Bit>) -> Tree {
        self.spec_flip().spec_add(p).spec_flip()
    }

    /// What `prefixes` yields below this node when the path from the root
    /// spells `cur`: the canonical covering, left (0) before right (1).
    pub open spec fn spec_prefixes(self, cur: Seq<Bit>) -> Seq<Seq<Bit>>
        decreases self,
    {
        match self {
            Tree::Sat => seq![cur],
            Tree::Unsat => Seq::empty(),
            Tree::Mixed(l, r) => (*l).spec_prefixes(cur.push(Bit::B0)) + (*r).spec_prefixes(
                cur.push(Bit::B1),
            ),
        }
    }

    /// What range construction returns at the node whose path spells
    /// `curr`: `Unsat` when every extension of `curr` lies outside
    /// `[start, end]`, `Sat` when every one lies inside, and otherwise the
    /// normalized branch on the next bit.
    pub open spec fn spec_from_range(curr: Seq<Bit>, start: Seq<Bit>, end: Seq<Bit>) -> Tree
        recommends
            curr.len() <= start.len(),
            start.len() == end.len(),
        decreases start.len() - curr.len(),
            when curr.len() <= start.len() && start.len() == end.len()
        via Tree::from_range_decreases
    {
        if prefix_cmp(curr, start) is Less || prefix_cmp(curr, end) is Greater {
            Tree::Unsat
        } else if (prefix_cmp(curr, start) is Greater || prefix_cmp(curr, start) is Equal) && (
        prefix_cmp(curr, end) is Less || prefix_cmp(curr, end) is Equal) {
            Tree::Sat
        } else {
            Tree::Mixed(
                Box::new(Tree::spec_from_range(curr.push(Bit::B0), start, end)),
                Box::new(Tree::spec_from_range(curr.push(Bit::B1), start, end)),
            ).spec_opt()
        }
    }

    #[via_fn]
    proof fn from_range_decreases(curr: Seq<Bit>, start: Seq<Bit>, end: Seq<Bit>) {
        if !(prefix_cmp(curr, start) is Less || prefix_cmp(curr, end) is Greater) && !((
        prefix_cmp(curr, start) is Greater || prefix_cmp(curr, start) is Equal) && (prefix_cmp(
            curr,
            end,
        ) is Less || prefix_cmp(curr, end) is Equal)) {
            lemma_range_straddle(curr, start, end);
        }
    }
}

/// At a node where range construction neither rejects nor accepts every
/// extension, the current path is strictly shorter than the bounds.
proof fn lemma_range_straddle(curr: Seq<Bit>, start: Seq<Bit>, end: Seq<Bit>)
    requires
        curr.len() <= start.len(),
        start.len() == end.len(),
        !(prefix_cmp(curr, start) is Less || prefix_cmp(curr, end) is Greater),
        !((prefix_cmp(curr, start) is Greater || prefix_cmp(curr, start) is Equal) && (
        prefix_cmp(curr, end) is Less || prefix_cmp(curr, end) is Equal)),
    ensures
        curr.len() < start.len(),
{
    if curr.len() == start.len() {
        crate::bits::lemma_cmp_total(curr, start);
        crate::bits::lemma_cmp_total(curr, end);
    }
}


/// A nonempty prefix relation steps through the head bit.
proof fn lemma_prefix_step(p: Seq<Bit>, s: Seq<Bit>)
    requires
        p.len() > 0,
    ensures
        p.is_prefix_of(s) <==> (s.len() > 0 && p[0] == s[0] && p.drop_first().is_prefix_of(
            s.drop_first(),
        )),
{
    if p.is_prefix_of(s) {
        assert(p[0] == s.subrange(0, p.len() as int)[0]);
        assert(p.drop_first() =~= s.drop_first().subrange(0, p.len() - 1));
    } else {
        if s.len() > 0 && p[0] == s[0] && p.drop_first().is_prefix_of(s.drop_first()) {
            assert(p =~= s.subrange(0, p.len() as int)) by {
                assert forall|i: int| 0 <= i < p.len() implies p[i] == s[i] by {
                    if i > 0 {
                        assert(p.drop_first()[i - 1] == s.drop_first().subrange(
                            0,
                            p.len() - 1,
                        )[i - 1]);
                    }
                }
            }
        }
    }
}

/// `flip` swaps membership, preserves the shape, and keeps canonical form.
pub proof fn lemma_flip_sem(t: Tree)
    ensures
        t.spec_flip().height() == t.height(),
        t.spec_flip().canonical() == t.canonical(),
        forall|s: Seq<Bit>|
            s.len() >= t.height() ==> (#[trigger] t.spec_flip().contains(s) <==> !t.contains(s)),
    decreases t,
{
    match t {
        Tree::Mixed(l, r) => {
            lemma_flip_sem(*l);
            lemma_flip_sem(*r);
            assert forall|s: Seq<Bit>| s.len() >= t.height() implies (#[trigger] t.spec_flip().contains(s)
                <==> !t.contains(s)) by {
                let s1 = s.drop_first();
                assert((*l).spec_flip().contains(s1) <==> !(*l).contains(s1));
                assert((*r).spec_flip().contains(s1) <==> !(*r).contains(s1));
            }
        },
        _ => {},
    }
}

/// Flipping twice restores the original tree exactly.
pub proof fn lemma_flip_involutive(t: Tree)
    ensures
        t.spec_flip().spec_flip() == t,
    decreases t,
{
    match t {
        Tree::Mixed(l, r) => {
            lemma_flip_involutive(*l);
            lemma_flip_involutive(*r);
        },
        _ => {},
    }
}

/// `optimize` yields the canonical form: canonical output, no growth in
/// height, the same set, and identity on already-canonical trees.
pub proof fn lemma_opt_sem(t: Tree)
    ensures
        t.spec_opt().canonical(),
        t.spec_opt().height() <= t.height(),
        forall|s: Seq<Bit>|
            s.len() >= t.height() ==> (#[trigger] t.spec_opt().contains(s) <==> t.contains(s)),
        t.canonical() ==> t.spec_opt() == t,
    decreases t,
{
    match t {
        Tree::Mixed(l, r) => {
            lemma_opt_sem(*l);
            lemma_opt_sem(*r);
            let ol = (*l).spec_opt();
            let or = (*r).spec_opt();
            assert forall|s: Seq<Bit>| s.len() >= t.height() implies (#[trigger] t.spec_opt().contains(s)
                <==> t.contains(s)) by {
                let s1 = s.drop_first();
                assert(ol.contains(s1) <==> (*l).contains(s1));
                assert(or.contains(s1) <==> (*r).contains(s1));
            }
        },
        _ => {},
    }
}

/// `union` computes the set union: canonical for canonical inputs, no
/// higher than its inputs, and membership is the disjunction.
pub proof fn lemma_union_sem(a: Tree, b: Tree)
    ensures
        a.spec_union(b).height() <= hmax(a.height(), b.height()),
        a.canonical() && b.canonical() ==> a.spec_union(b).canonical(),
        forall|s: Seq<Bit>|
            s.len() >= hmax(a.height(), b.height()) ==> (#[trigger] a.spec_union(b).contains(s)
                <==> a.contains(s) || b.contains(s)),
    decreases a,
{
    match (a, b) {
        (Tree::Mixed(l1, r1), Tree::Mixed(l2, r2)) => {
            lemma_union_sem(*l1, *l2);
            lemma_union_sem(*r1, *r2);
            let m = Tree::Mixed(
                Box::new((*l1).spec_union(*l2)),
                Box::new((*r1).spec_union(*r2)),
            );
            lemma_opt_sem(m);
            assert forall|s: Seq<Bit>| s.len() >= hmax(a.height(), b.height()) implies (
            #[trigger] a.spec_union(b).contains(s) <==> a.contains(s) || b.contains(s)) by {
                let s1 = s.drop_first();
                assert(m.spec_opt().contains(s) <==> m.contains(s));
                assert((*l1).spec_union(*l2).contains(s1) <==> (*l1).contains(s1) || (
                *l2).contains(s1));
                assert((*r1).spec_union(*r2).contains(s1) <==> (*r1).contains(s1) || (
                *r2).contains(s1));
            }
        },
        _ => {},
    }
}

/// `difference` computes the set difference: canonical for canonical
/// inputs, no higher than its inputs, and membership is conjunction with
/// the complement.
pub proof fn lemma_diff_sem(a: Tree, b: Tree)
    ensures
        a.spec_diff(b).height() <= hmax(a.height(), b.height()),
        a.canonical() && b.canonical() ==> a.spec_diff(b).canonical(),
        forall|s: Seq<Bit>|
            s.len() >= hmax(a.height(), b.height()) ==> (#[trigger] a.spec_diff(b).contains(s)
                <==> a.contains(s) && !b.contains(s)),
    decreases a,
{
    match (a, b) {
        (Tree::Sat, b2) => {
            lemma_flip_sem(b2);
        },
        (Tree::Mixed(l1, r1), Tree::Mixed(l2, r2)) => {
            lemma_diff_sem(*l1, *l2);
            lemma_diff_sem(*r1, *r2);
            let m = Tree::Mixed(
                Box::new((*l1).spec_diff(*l2)),
                Box::new((*r1).spec_diff(*r2)),
            );
            lemma_opt_sem(m);
            assert forall|s: Seq<Bit>| s.len() >= hmax(a.height(), b.height()) implies (
            #[trigger] a.spec_diff(b).contains(s) <==> a.contains(s) && !b.contains(s)) by {
                let s1 = s.drop_first();
                assert(m.spec_opt().contains(s) <==> m.contains(s));
                assert((*l1).spec_diff(*l2).contains(s1) <==> (*l1).contains(s1) && !(
                *l2).contains(s1));
                assert((*r1).spec_diff(*r2).contains(s1) <==> (*r1).contains(s1) && !(
                *r2).contains(s1));
            }
        },
        _ => {},
    }
}

/// One normalization step keeps the set, respects the height bound, and
/// turns canonical children into a canonical tree.
proof fn lemma_node_sem(l: Tree, r: Tree)
    ensures
        spec_node(l, r).height() <= 1 + hmax(l.height(), r.height()),
        l.canonical() && r.canonical() ==> spec_node(l, r).canonical(),
        forall|s: Seq<Bit>|
            s.len() >= 1 ==> (#[trigger] spec_node(l, r).contains(s) <==> Tree::Mixed(
                Box::new(l),
                Box::new(r),
            ).contains(s)),
{
    assert forall|s: Seq<Bit>| s.len() >= 1 implies (#[trigger] spec_node(l, r).contains(s)
        <==> Tree::Mixed(Box::new(l), Box::new(r)).contains(s)) by {
        let s1 = s.drop_first();
        let m = Tree::Mixed(Box::new(l), Box::new(r));
        assert(m.contains(s) == (if s[0] is B0 {
            l.contains(s1)
        } else {
            r.contains(s1)
        }));
        if l is Sat && r is Sat {
            assert(l == Tree::Sat && r == Tree::Sat);
            assert(m.contains(s));
        } else if l is Unsat && r is Unsat {
            assert(l == Tree::Unsat && r == Tree::Unsat);
            assert(!m.contains(s));
        }
    }
}

/// `add` inserts exactly the prefix set of `p`: membership becomes the
/// old membership or extension of `p`, the height stays within the width,
/// and a canonical tree stays canonical.
pub proof fn lemma_add_sem(t: Tree, p: Seq<Bit>)
    ensures
        t.spec_add(p).height() <= hmax(t.height(), p.len()),
        t.canonical() ==> t.spec_add(p).canonical(),
        forall|s: Seq<Bit>|
            s.len() >= hmax(t.height(), p.len()) ==> (#[trigger] t.spec_add(p).contains(s)
                <==> t.contains(s) || p.is_prefix_of(s)),
    decreases p.len(),
{
    if p.len() == 0 {
        assert forall|s: Seq<Bit>| s.len() >= hmax(t.height(), p.len()) implies (
        #[trigger] t.spec_add(p).contains(s) <==> t.contains(s) || p.is_prefix_of(s)) by {
            assert(p =~= s.subrange(0, 0));
        }
    } else {
        match t {
            Tree::Sat => {},
            Tree::Unsat => {
                lemma_add_sem(Tree::Unsat, p.drop_first());
                let c = Tree::Unsat.spec_add(p.drop_first());
                lemma_node_sem(c, Tree::Unsat);
                lemma_node_sem(Tree::Unsat, c);
                assert forall|s: Seq<Bit>| s.len() >= hmax(t.height(), p.len()) implies (
                #[trigger] t.spec_add(p).contains(s) <==> t.contains(s) || p.is_prefix_of(s)) by {
                    let s1 = s.drop_first();
                    lemma_prefix_step(p, s);
                    assert(c.contains(s1) <==> p.drop_first().is_prefix_of(s1));
                    if p[0] is B0 {
                        assert(t.spec_add(p).contains(s) == Tree::Mixed(
                            Box::new(c),
                            Box::new(Tree::Unsat),
                        ).contains(s));
                    } else {
                        assert(t.spec_add(p).contains(s) == Tree::Mixed(
                            Box::new(Tree::Unsat),
                            Box::new(c),
                        ).contains(s));
                    }
                    if s[0] == p[0] {
                        assert(t.spec_add(p).contains(s) == c.contains(s1));
                    } else {
                        if p[0] is B0 {
                            assert(Tree::Mixed(Box::new(c), Box::new(Tree::Unsat)).contains(s)
                                == Tree::Unsat.contains(s1));
                        } else {
                            assert(Tree::Mixed(Box::new(Tree::Unsat), Box::new(c)).contains(s)
                                == Tree::Unsat.contains(s1));
                        }
                        assert(!t.spec_add(p).contains(s));
                        assert(!p.is_prefix_of(s));
                    }
                }
            },
            Tree::Mixed(l, r) => {
                lemma_add_sem(*l, p.drop_first());
                lemma_add_sem(*r, p.drop_first());
                let cl = (*l).spec_add(p.drop_first());
                let cr = (*r).spec_add(p.drop_first());
                lemma_node_sem(cl, *r);
                lemma_node_sem(*l, cr);
                assert forall|s: Seq<Bit>| s.len() >= hmax(t.height(), p.len()) implies (
                #[trigger] t.spec_add(p).contains(s) <==> t.contains(s) || p.is_prefix_of(s)) by {
                    let s1 = s.drop_first();
                    lemma_prefix_step(p, s);
                    assert(cl.contains(s1) <==> (*l).contains(s1) || p.drop_first().is_prefix_of(
                        s1,
                    ));
                    assert(cr.contains(s1) <==> (*r).contains(s1) || p.drop_first().is_prefix_of(
                        s1,
                    ));
                    if p[0] is B0 {
                        assert(t.spec_add(p).contains(s) == Tree::Mixed(
                            Box::new(cl),
                            Box::new(*r),
                        ).contains(s));
                    } else {
                        assert(t.spec_add(p).contains(s) == Tree::Mixed(
                            Box::new(*l),
                            Box::new(cr),
                        ).contains(s));
                    }
                    if s[0] == p[0] {
                        if p[0] is B0 {
                            assert(t.spec_add(p).contains(s) == cl.contains(s1));
                        } else {
                            assert(t.spec_add(p).contains(s) == cr.contains(s1));
                        }
                    } else {
                        assert(!p.is_prefix_of(s));
                        assert(t.spec_add(p).contains(s) == t.contains(s));
                    }
                }
            },
        }
    }
}

impl Tree {
    /// A fresh, empty set.
    pub fn new() -> (r: Self)
        ensures
            r == Tree::Unsat,
    {
        Tree::Unsat
    }

    /// A branch node built from two subtrees, without normalization.
    pub fn mixed(l: Self, r: Self) -> (t: Self)
        ensures
            t == Tree::Mixed(Box::new(l), Box::new(r)),
    {
        Tree::Mixed(Box::new(l), Box::new(r))
    }

    /// The complement: swaps `Sat` and `Unsat` throughout. Membership of
    /// every full-width string is negated.
    pub fn flip(self) -> (r: Self)
        ensures
            r == self.spec_flip(),
            r.height() == self.height(),
            r.canonical() == self.canonical(),
            forall|s: Seq<Bit>|
                s.len() >= self.height() ==> (#[trigger] r.contains(s) <==> !self.contains(s)),
        decreases self,
    {
        proof {
            lemma_flip_sem(self);
        }
        match self {
            Tree::Sat => Tree::Unsat,
            Tree::Unsat => Tree::Sat,
            Tree::Mixed(l, r) => Tree::mixed((*l).flip(), (*r).flip()),
        }
    }

    /// Set union. The result is canonical when both inputs are, is no
    /// higher than the inputs, and contains exactly the strings contained
    /// in either input.
    pub fn union(self, other: Self) -> (r: Self)
        ensures
            r == self.spec_union(other),
            r.height() <= hmax(self.height(), other.height()),
            self.canonical() && other.canonical() ==> r.canonical(),
            forall|s: Seq<Bit>|
                s.len() >= hmax(self.height(), other.height()) ==> (#[trigger] r.contains(s)
                    <==> self.contains(s) || other.contains(s)),
        decreases self,
    {
        proof {
            lemma_union_sem(self, other);
        }
        match (self, other) {
            (_, Tree::Sat) => Tree::Sat,
            (a, Tree::Unsat) => a,
            (Tree::Sat, _) => Tree::Sat,
            (Tree::Unsat, b) => b,
            (Tree::Mixed(l1, r1), Tree::Mixed(l2, r2)) => {
                let l = (*l1).union(*l2);
                let r = (*r1).union(*r2);
                Tree::mixed(l, r).optimize()
            },
        }
    }

    /// Set difference. The result is canonical when both inputs are, is no
    /// higher than the inputs, and contains exactly the strings of `self`
    /// not contained in `other`.
    pub fn difference(self, other: Self) -> (r: Self)
        ensures
            r == self.spec_diff(other),
            r.height() <= hmax(self.height(), other.height()),
            self.canonical() && other.canonical() ==> r.canonical(),
            forall|s: Seq<Bit>|
                s.len() >= hmax(self.height(), other.height()) ==> (#[trigger] r.contains(s)
                    <==> self.contains(s) && !other.contains(s)),
        decreases self,
    {
        proof {
            lemma_diff_sem(self, other);
        }
        match (self, other) {
            (_, Tree::Sat) => Tree::Unsat,
            (a, Tree::Unsat) => a,
            (Tree::Sat, b) => b.flip(),
            (Tree::Unsat, _) => Tree::Unsat,
            (Tree::Mixed(l1, r1), Tree::Mixed(l2, r2)) => {
                let l = (*l1).difference(*l2);
                let r = (*r1).difference(*r2);
                Tree::mixed(l, r).optimize()
            },
        }
    }

    /// Inserts the prefix set of `prefix`: afterwards the tree contains
    /// exactly what it contained before plus every extension of `prefix`.
    /// Every node rebuilt on the insertion path is collapsed when its
    /// children become equal leaves, so a normalized tree stays
    /// normalized.
    pub fn add(self, prefix: Prefix) -> (r: Self)
        ensures
            r == self.spec_add(prefix@),
            r.height() <= hmax(self.height(), prefix@.len()),
            self.canonical() ==> r.canonical(),
            forall|s: Seq<Bit>|
                s.len() >= hmax(self.height(), prefix@.len()) ==> (#[trigger] r.contains(s)
                    <==> self.contains(s) || prefix@.is_prefix_of(s)),
        decreases prefix@.len(),
    {
        proof {
            lemma_add_sem(self, prefix@);
        }
        if prefix.len() == 0 {
            return Tree::Sat;
        }
        let (h, t) = match prefix.split() {
            Ok(ht) => ht,
            Err(_) => vstd::pervasive::unreached(),
        };
        match (self, h) {
            (Tree::Sat, _) => Tree::Sat,
            (Tree::Unsat, Bit::B0) => Tree::node(Tree::Unsat.add(t), Tree::Unsat),
            (Tree::Unsat, Bit::B1) => Tree::node(Tree::Unsat, Tree::Unsat.add(t)),
            (Tree::Mixed(l, r), Bit::B0) => Tree::node((*l).add(t), *r),
            (Tree::Mixed(l, r), Bit::B1) => Tree::node(*l, (*r).add(t)),
        }
    }

    /// One normalization step over two freshly built children.
    fn node(l: Self, r: Self) -> (t: Self)
        ensures
            t == spec_node(l, r),
    {
        match (l, r) {
            (Tree::Sat, Tree::Sat) => Tree::Sat,
            (Tree::Unsat, Tree::Unsat) => Tree::Unsat,
            (a, b) => Tree::Mixed(Box::new(a), Box::new(b)),
        }
    }

    /// Deletes the prefix set of `prefix`, as the complement of adding it
    /// to the complement: afterwards the tree contains exactly what it
    /// contained before minus every extension of `prefix`, and a
    /// normalized tree stays normalized.
    pub fn del(self, prefix: Prefix) -> (r: Self)
        ensures
            r == self.spec_del(prefix@),
            r.height() <= hmax(self.height(), prefix@.len()),
            self.canonical() ==> r.canonical(),
            forall|s: Seq<Bit>|
                s.len() >= hmax(self.height(), prefix@.len()) ==> (#[trigger] r.contains(s)
                    <==> self.contains(s) && !prefix@.is_prefix_of(s)),
    {
        proof {
            lemma_flip_sem(self);
            lemma_add_sem(self.spec_flip(), prefix@);
            lemma_flip_sem(self.spec_flip().spec_add(prefix@));
        }
        self.flip().add(prefix).flip()
    }

    /// Adds a whole subtree: plain union.
    pub fn add_tree(self, tree: Tree) -> (r: Self)
        ensures
            r == self.spec_union(tree),
    {
        self.union(tree)
    }

    /// Deletes a whole subtree: plain difference.
    pub fn del_tree(self, tree: Tree) -> (r: Self)
        ensures
            r == self.spec_diff(tree),
    {
        self.difference(tree)
    }

    /// Normalization: bottom-up collapse of `Mixed(Sat, Sat)` to `Sat` and
    /// `Mixed(Unsat, Unsat)` to `Unsat`. The result is canonical, denotes
    /// the same set, and an already-canonical tree is returned unchanged.
    pub fn optimize(self) -> (r: Self)
        ensures
            r == self.spec_opt(),
            r.canonical(),
            r.height() <= self.height(),
            forall|s: Seq<Bit>|
                s.len() >= self.height() ==> (#[trigger] r.contains(s) <==> self.contains(s)),
            self.canonical() ==> r == self,
        decreases self,
    {
        proof {
            lemma_opt_sem(self);
        }
        match self {
            Tree::Sat => Tree::Sat,
            Tree::Unsat => Tree::Unsat,
            Tree::Mixed(l, r) => match ((*l).optimize(), (*r).optimize()) {
                (Tree::Sat, Tree::Sat) => Tree::Sat,
                (Tree::Unsat, Tree::Unsat) => Tree::Unsat,
                (ol, or) => Tree::mixed(ol, or),
            },
        }
    }
}


/// The all-zero bit-string of a given length.
pub open spec fn all_zeros(n: nat) -> Seq<Bit> {
    Seq::new(n, |i: int| Bit::B0)
}

/// A canonical branch node is neither full nor empty: among the strings
/// of any sufficient length some are in and some are out.
proof fn lemma_canonical_mixed_nonconst(t: Tree, n: nat)
    requires
        t is Mixed,
        t.canonical(),
        t.height() <= n,
    ensures
        exists|s: Seq<Bit>| s.len() == n && #[trigger] t.contains(s),
        exists|s: Seq<Bit>| s.len() == n && !(#[trigger] t.contains(s)),
    decreases t,
{
    match t {
        Tree::Mixed(l, r) => {
            let m = (n - 1) as nat;
            // A string the tree contains.
            if (*l) is Sat {
                let w = seq![Bit::B0] + all_zeros(m);
                assert(w[0] is B0 && w.drop_first() =~= all_zeros(m));
                assert(w.len() == n);
                assert(t.contains(w) == (*l).contains(w.drop_first()));
                assert(w.len() == n && t.contains(w));
            } else if (*l) is Mixed {
                lemma_canonical_mixed_nonconst(*l, m);
                assert(exists|s: Seq<Bit>| s.len() == m && #[trigger] (*l).contains(s));
                let s = choose|s: Seq<Bit>| s.len() == m && #[trigger] (*l).contains(s);
                assert(s.len() == m && (*l).contains(s));
                let w = seq![Bit::B0] + s;
                assert(w[0] is B0 && w.drop_first() =~= s);
                assert(w.len() == n);
                assert(t.contains(w) == (*l).contains(w.drop_first()));
                assert(w.len() == n && t.contains(w));
            } else if (*r) is Sat {
                let w = seq![Bit::B1] + all_zeros(m);
                assert(w[0] is B1 && w.drop_first() =~= all_zeros(m));
                assert(t == Tree::Mixed(l, r));
                assert(w.len() == n);
                assert(w.len() > 0);
                assert(t.contains(w) == (*r).contains(w.drop_first()));
                assert((*r).contains(all_zeros(m)));
                assert(w.len() == n && t.contains(w));
            } else {
                // l is Unsat, so by canonical form r is not Unsat: r is Mixed.
                lemma_canonical_mixed_nonconst(*r, m);
                assert(exists|s: Seq<Bit>| s.len() == m && #[trigger] (*r).contains(s));
                let s = choose|s: Seq<Bit>| s.len() == m && #[trigger] (*r).contains(s);
                assert(s.len() == m && (*r).contains(s));
                let w = seq![Bit::B1] + s;
                assert(w[0] is B1 && w.drop_first() =~= s);
                assert(w.len() == n);
                assert(t.contains(w) == (*r).contains(w.drop_first()));
                assert(w.len() == n && t.contains(w));
            }
            // A string the tree misses.
            if (*l) is Unsat {
                let w = seq![Bit::B0] + all_zeros(m);
                assert(w[0] is B0 && w.drop_first() =~= all_zeros(m));
                assert(w.len() == n);
                assert(t.contains(w) == (*l).contains(w.drop_first()));
                assert(w.len() == n && !t.contains(w));
            } else if (*l) is Mixed {
                lemma_canonical_mixed_nonconst(*l, m);
                assert(exists|s: Seq<Bit>| s.len() == m && !(#[trigger] (*l).contains(s)));
                let s = choose|s: Seq<Bit>| s.len() == m && !(#[trigger] (*l).contains(s));
                assert(s.len() == m && !(*l).contains(s));
                let w = seq![Bit::B0] + s;
                assert(w[0] is B0 && w.drop_first() =~= s);
                assert(w.len() == n);
                assert(t.contains(w) == (*l).contains(w.drop_first()));
                assert(w.len() == n && !t.contains(w));
            } else if (*r) is Unsat {
                let w = seq![Bit::B1] + all_zeros(m);
                assert(w[0] is B1 && w.drop_first() =~= all_zeros(m));
                assert(w.len() == n);
                assert(t.contains(w) == (*r).contains(w.drop_first()));
                assert(w.len() == n && !t.contains(w));
            } else {
                lemma_canonical_mixed_nonconst(*r, m);
                assert(exists|s: Seq<Bit>| s.len() == m && !(#[trigger] (*r).contains(s)));
                let s = choose|s: Seq<Bit>| s.len() == m && !(#[trigger] (*r).contains(s));
                assert(s.len() == m && !(*r).contains(s));
                let w = seq![Bit::B1] + s;
                assert(w[0] is B1 && w.drop_first() =~= s);
                assert(w.len() == n);
                assert(t.contains(w) == (*r).contains(w.drop_first()));
                assert(w.len() == n && !t.contains(w));
            }
        },
        _ => {},
    }
}

/// Canonical form is a unique representation: two canonical trees of
/// height at most `n` that agree on membership of every length-`n` string
/// are the same tree.
pub proof fn lemma_canonical_unique(t1: Tree, t2: Tree, n: nat)
    requires
        t1.canonical(),
        t2.canonical(),
        t1.height() <= n,
        t2.height() <= n,
        forall|s: Seq<Bit>| s.len() == n ==> (#[trigger] t1.contains(s) <==> #[trigger] t2.contains(s)),
    ensures
        t1 == t2,
    decreases n,
{
    match (t1, t2) {
        (Tree::Sat, Tree::Unsat) => {
            assert(t1.contains(all_zeros(n)) <==> t2.contains(all_zeros(n)));
            assert(false);
        },
        (Tree::Unsat, Tree::Sat) => {
            assert(t1.contains(all_zeros(n)) <==> t2.contains(all_zeros(n)));
            assert(false);
        },
        (Tree::Sat, Tree::Mixed(l2, r2)) => {
            lemma_canonical_mixed_nonconst(t2, n);
            let s = choose|s: Seq<Bit>| s.len() == n && !(#[trigger] t2.contains(s));
            assert(t1.contains(s));
            assert(false);
        },
        (Tree::Unsat, Tree::Mixed(l2, r2)) => {
            lemma_canonical_mixed_nonconst(t2, n);
            let s = choose|s: Seq<Bit>| s.len() == n && #[trigger] t2.contains(s);
            assert(!t1.contains(s));
            assert(false);
        },
        (Tree::Mixed(l1, r1), Tree::Sat) => {
            lemma_canonical_mixed_nonconst(t1, n);
            let s = choose|s: Seq<Bit>| s.len() == n && !(#[trigger] t1.contains(s));
            assert(t2.contains(s));
            assert(false);
        },
        (Tree::Mixed(l1, r1), Tree::Unsat) => {
            lemma_canonical_mixed_nonconst(t1, n);
            let s = choose|s: Seq<Bit>| s.len() == n && #[trigger] t1.contains(s);
            assert(!t2.contains(s));
            assert(false);
        },
        (Tree::Mixed(l1, r1), Tree::Mixed(l2, r2)) => {
            let m = (n - 1) as nat;
            assert forall|s: Seq<Bit>| s.len() == m implies (#[trigger] (*l1).contains(s)
                <==> #[trigger] (*l2).contains(s)) by {
                let w = seq![Bit::B0] + s;
                assert(w.len() == n);
                assert(t1.contains(w) <==> t2.contains(w));
                assert(w.drop_first() =~= s);
            }
            assert forall|s: Seq<Bit>| s.len() == m implies (#[trigger] (*r1).contains(s)
                <==> #[trigger] (*r2).contains(s)) by {
                let w = seq![Bit::B1] + s;
                assert(w.len() == n);
                assert(t1.contains(w) <==> t2.contains(w));
                assert(w.drop_first() =~= s);
            }
            lemma_canonical_unique(*l1, *l2, m);
            lemma_canonical_unique(*r1, *r2, m);
        },
        _ => {},
    }
}


/// Range construction is exact: at the node whose path spells `curr`, the
/// built tree is canonical, fits in the remaining width, and contains an
/// extension `y` exactly when the full string `curr + y` lies in the
/// closed interval `[start, end]`.
pub proof fn lemma_from_range_sem(curr: Seq<Bit>, start: Seq<Bit>, end: Seq<Bit>)
    requires
        curr.len() <= start.len(),
        start.len() == end.len(),
    ensures
        Tree::spec_from_range(curr, start, end).canonical(),
        Tree::spec_from_range(curr, start, end).height() + curr.len() <= start.len(),
        forall|y: Seq<Bit>|
            y.len() == start.len() - curr.len() ==> (#[trigger] Tree::spec_from_range(
                curr,
                start,
                end,
            ).contains(y) <==> crate::bits::lex_le(start, curr + y) && crate::bits::lex_le(
                curr + y,
                end,
            )),
    decreases start.len() - curr.len(),
{
    let t = Tree::spec_from_range(curr, start, end);
    let cs = prefix_cmp(curr, start);
    let ce = prefix_cmp(curr, end);
    if cs is Less || ce is Greater {
        assert(t == Tree::Unsat);
        assert forall|y: Seq<Bit>| y.len() == start.len() - curr.len() implies (
        #[trigger] t.contains(y) <==> lex_le(start, curr + y) && lex_le(curr + y, end)) by {
            if cs is Less {
                crate::bits::lemma_cmp_extend(curr, start, y);
                crate::bits::lemma_cmp_swap(curr + y, start);
                assert(!lex_le(start, curr + y));
            } else {
                crate::bits::lemma_cmp_extend(curr, end, y);
                assert(!lex_le(curr + y, end));
            }
        }
    } else if (cs is Greater || cs is Equal) && (ce is Less || ce is Equal) {
        assert(t == Tree::Sat);
        assert forall|y: Seq<Bit>| y.len() == start.len() - curr.len() implies (
        #[trigger] t.contains(y) <==> lex_le(start, curr + y) && lex_le(curr + y, end)) by {
            if cs is Greater {
                crate::bits::lemma_cmp_swap(curr, start);
                crate::bits::lemma_cmp_extend(start, curr, y);
            } else {
                crate::bits::lemma_cmp_equal(curr, start);
                assert(y.len() == 0);
                assert(curr + y =~= start);
                crate::bits::lemma_cmp_equal(start, curr + y);
            }
            assert(lex_le(start, curr + y));
            if ce is Less {
                crate::bits::lemma_cmp_extend(curr, end, y);
            } else {
                crate::bits::lemma_cmp_equal(curr, end);
                assert(y.len() == 0);
                assert(curr + y =~= end);
                crate::bits::lemma_cmp_equal(curr + y, end);
            }
            assert(lex_le(curr + y, end));
        }
    } else {
        lemma_range_straddle(curr, start, end);
        let c0 = curr.push(Bit::B0);
        let c1 = curr.push(Bit::B1);
        lemma_from_range_sem(c0, start, end);
        lemma_from_range_sem(c1, start, end);
        let l = Tree::spec_from_range(c0, start, end);
        let r = Tree::spec_from_range(c1, start, end);
        let mx = Tree::Mixed(Box::new(l), Box::new(r));
        lemma_opt_sem(mx);
        assert(t == mx.spec_opt());
        assert forall|y: Seq<Bit>| y.len() == start.len() - curr.len() implies (
        #[trigger] t.contains(y) <==> lex_le(start, curr + y) && lex_le(curr + y, end)) by {
            assert(y.len() >= mx.height());
            assert(t.contains(y) == mx.contains(y));
            let y1 = y.drop_first();
            if y[0] is B0 {
                assert(mx.contains(y) == l.contains(y1));
                assert(curr + y =~= c0 + y1);
                assert(l.contains(y1) <==> lex_le(start, c0 + y1) && lex_le(c0 + y1, end));
            } else {
                assert(mx.contains(y) == r.contains(y1));
                assert(curr + y =~= c1 + y1);
                assert(r.contains(y1) <==> lex_le(start, c1 + y1) && lex_le(c1 + y1, end));
            }
        }
    }
}

impl Tree {
    /// The subtree of the range `[start, end]` below the node whose path
    /// spells `curr`.
    fn from_range_at(curr: Prefix, start: &Prefix, end: &Prefix) -> (r: Tree)
        requires
            curr@.len() <= start@.len(),
            start@.len() == end@.len(),
        ensures
            r == Tree::spec_from_range(curr@, start@, end@),
        decreases start@.len() - curr@.len(),
    {
        let cs = curr.compare(start);
        let ce = curr.compare(end);
        if cs == PrefixOrd::Less || ce == PrefixOrd::Greater {
            return Tree::Unsat;
        }
        if (cs == PrefixOrd::Greater || cs == PrefixOrd::Equal) && (ce == PrefixOrd::Less || ce
            == PrefixOrd::Equal) {
            return Tree::Sat;
        }
        proof {
            lemma_range_straddle(curr@, start@, end@);
        }
        let left = Self::from_range_at(curr.append(Bit::B0), start, end);
        let right = Self::from_range_at(curr.append(Bit::B1), start, end);
        Tree::mixed(left, right).optimize()
    }

    /// The normalized tree containing exactly the width-W strings in the
    /// closed interval `[start, end]` of two equal-length bit-strings;
    /// fails if and only if `start > end`.
    pub fn from_range(start: &Prefix, end: &Prefix) -> (r: Result<Tree, Error>)
        requires
            start@.len() == end@.len(),
        ensures
            r is Ok <==> crate::bits::lex_le(start@, end@),
            r matches Err(e) ==> e == Error::RangeInverted,
            r matches Ok(t) ==> {
                &&& t == Tree::spec_from_range(Seq::empty(), start@, end@)
                &&& t.canonical()
                &&& t.height() <= start@.len()
                &&& forall|x: Seq<Bit>|
                    x.len() == start@.len() ==> (#[trigger] t.contains(x) <==> crate::bits::lex_le(
                        start@,
                        x,
                    ) && crate::bits::lex_le(x, end@))
            },
    {
        let c = start.compare(end);
        if c == PrefixOrd::Greater {
            return Err(Error::RangeInverted);
        }
        if c == PrefixOrd::Incomparable {
            proof {
                crate::bits::lemma_cmp_total(start@, end@);
            }
            return vstd::pervasive::unreached();
        }
        proof {
            lemma_from_range_sem(Seq::empty(), start@, end@);
            assert forall|x: Seq<Bit>| x.len() == start@.len() implies (
            #[trigger] Tree::spec_from_range(Seq::empty(), start@, end@).contains(x)
                <==> lex_le(start@, x) && lex_le(x, end@)) by {
                assert(Seq::<Bit>::empty() + x =~= x);
            }
        }
        Ok(Self::from_range_at(Prefix::empty(), start, end))
    }
}


/// The prefix relation is transitive.
proof fn lemma_prefix_trans(a: Seq<Bit>, b: Seq<Bit>, c: Seq<Bit>)
    requires
        a.is_prefix_of(b),
        b.is_prefix_of(c),
    ensures
        a.is_prefix_of(c),
{
    assert(a =~= c.subrange(0, a.len() as int)) by {
        assert forall|i: int| 0 <= i < a.len() implies a[i] == c[i] by {
            assert(a[i] == b.subrange(0, a.len() as int)[i]);
            assert(b[i] == c.subrange(0, b.len() as int)[i]);
        }
    }
}

/// Extending a prefix by one bit means that bit stands at the next
/// position of any extension.
proof fn lemma_push_prefix(cur: Seq<Bit>, b: Bit, x: Seq<Bit>)
    requires
        x.len() > cur.len(),
    ensures
        cur.push(b).is_prefix_of(x) <==> (cur.is_prefix_of(x) && x[cur.len() as int] == b),
{
    let c = cur.len() as int;
    if cur.push(b).is_prefix_of(x) {
        assert(cur =~= x.subrange(0, c)) by {
            assert forall|i: int| 0 <= i < c implies cur[i] == x[i] by {
                assert(cur.push(b)[i] == x.subrange(0, c + 1)[i]);
            }
        }
        assert(cur.push(b)[c] == x.subrange(0, c + 1)[c]);
    } else {
        if cur.is_prefix_of(x) && x[c] == b {
            assert(cur.push(b) =~= x.subrange(0, c + 1)) by {
                assert forall|i: int| 0 <= i < c + 1 implies cur.push(b)[i] == x[i] by {
                    if i < c {
                        assert(cur[i] == x.subrange(0, c)[i]);
                    }
                }
            }
        }
    }
}

/// Every enumerated prefix extends the current path, stays within the
/// tree's height, and below a branch node is strictly longer than the
/// path.
proof fn lemma_prefixes_shape(t: Tree, cur: Seq<Bit>)
    ensures
        forall|i: int|
            0 <= i < t.spec_prefixes(cur).len() ==> {
                &&& cur.is_prefix_of(#[trigger] t.spec_prefixes(cur)[i])
                &&& t.spec_prefixes(cur)[i].len() <= cur.len() + t.height()
                &&& (t is Mixed ==> t.spec_prefixes(cur)[i].len() > cur.len())
            },
    decreases t,
{
    match t {
        Tree::Sat => {
            assert(cur =~= cur.subrange(0, cur.len() as int));
            assert(t.spec_prefixes(cur)[0] == cur);
        },
        Tree::Unsat => {},
        Tree::Mixed(l, r) => {
            let c0 = cur.push(Bit::B0);
            let c1 = cur.push(Bit::B1);
            lemma_prefixes_shape(*l, c0);
            lemma_prefixes_shape(*r, c1);
            let psl = (*l).spec_prefixes(c0);
            let psr = (*r).spec_prefixes(c1);
            assert(cur =~= c0.subrange(0, cur.len() as int));
            assert(cur =~= c1.subrange(0, cur.len() as int));
            assert forall|i: int| 0 <= i < t.spec_prefixes(cur).len() implies {
                &&& cur.is_prefix_of(#[trigger] t.spec_prefixes(cur)[i])
                &&& t.spec_prefixes(cur)[i].len() <= cur.len() + t.height()
                &&& (t is Mixed ==> t.spec_prefixes(cur)[i].len() > cur.len())
            } by {
                if i < psl.len() {
                    assert(t.spec_prefixes(cur)[i] == psl[i]);
                    assert(c0.is_prefix_of(psl[i]));
                    lemma_prefix_trans(cur, c0, psl[i]);
                } else {
                    let j = i - psl.len();
                    assert(t.spec_prefixes(cur)[i] == psr[j]);
                    assert(c1.is_prefix_of(psr[j]));
                    lemma_prefix_trans(cur, c1, psr[j]);
                }
            }
        },
    }
}

/// The enumerated prefixes cover exactly the represented set: a string at
/// least as long as the path plus the height extends one of them exactly
/// when it extends the path and its remainder is in the tree.
pub proof fn lemma_prefixes_cover(t: Tree, cur: Seq<Bit>, x: Seq<Bit>)
    requires
        x.len() >= cur.len() + t.height(),
    ensures
        (exists|i: int|
            0 <= i < t.spec_prefixes(cur).len() && (#[trigger] t.spec_prefixes(
                cur,
            )[i]).is_prefix_of(x)) <==> (cur.is_prefix_of(x) && t.contains(
            x.skip(cur.len() as int),
        )),
    decreases t,
{
    let ps = t.spec_prefixes(cur);
    match t {
        Tree::Sat => {
            assert(ps[0] == cur);
            if cur.is_prefix_of(x) {
                assert(0 <= 0 < ps.len() && ps[0].is_prefix_of(x));
            }
            if exists|i: int| 0 <= i < ps.len() && (#[trigger] ps[i]).is_prefix_of(x) {
                let i = choose|i: int| 0 <= i < ps.len() && (#[trigger] ps[i]).is_prefix_of(x);
                assert(i == 0);
            }
        },
        Tree::Unsat => {
            if exists|i: int| 0 <= i < ps.len() && (#[trigger] ps[i]).is_prefix_of(x) {
                let i = choose|i: int| 0 <= i < ps.len() && (#[trigger] ps[i]).is_prefix_of(x);
                assert(false);
            }
        },
        Tree::Mixed(l, r) => {
            let c = cur.len() as int;
            let c0 = cur.push(Bit::B0);
            let c1 = cur.push(Bit::B1);
            lemma_prefixes_cover(*l, c0, x);
            lemma_prefixes_cover(*r, c1, x);
            let psl = (*l).spec_prefixes(c0);
            let psr = (*r).spec_prefixes(c1);
            lemma_push_prefix(cur, Bit::B0, x);
            lemma_push_prefix(cur, Bit::B1, x);
            assert(x.skip(c).drop_first() =~= x.skip(c + 1));
            assert(x.skip(c).len() > 0);
            assert(x.skip(c)[0] == x[c]);
            if exists|i: int| 0 <= i < ps.len() && (#[trigger] ps[i]).is_prefix_of(x) {
                let i = choose|i: int| 0 <= i < ps.len() && (#[trigger] ps[i]).is_prefix_of(x);
                if i < psl.len() {
                    assert(ps[i] == psl[i]);
                    assert(0 <= i < psl.len() && psl[i].is_prefix_of(x));
                    assert(c0.is_prefix_of(x) && (*l).contains(x.skip(c + 1)));
                    assert(t.contains(x.skip(c)));
                } else {
                    let j = i - psl.len();
                    assert(ps[i] == psr[j]);
                    assert(0 <= j < psr.len() && psr[j].is_prefix_of(x));
                    assert(c1.is_prefix_of(x) && (*r).contains(x.skip(c + 1)));
                    assert(t.contains(x.skip(c)));
                }
            }
            if cur.is_prefix_of(x) && t.contains(x.skip(c)) {
                if x[c] is B0 {
                    assert((*l).contains(x.skip(c + 1)));
                    assert(c0.is_prefix_of(x));
                    let j = choose|j: int|
                        0 <= j < psl.len() && (#[trigger] psl[j]).is_prefix_of(x);
                    assert(ps[j] == psl[j]);
                    assert(0 <= j < ps.len() && ps[j].is_prefix_of(x));
                } else {
                    assert((*r).contains(x.skip(c + 1)));
                    assert(c1.is_prefix_of(x));
                    let j = choose|j: int|
                        0 <= j < psr.len() && (#[trigger] psr[j]).is_prefix_of(x);
                    assert(ps[psl.len() + j] == psr[j]);
                    assert(0 <= psl.len() + j < ps.len() && ps[psl.len() + j].is_prefix_of(x));
                }
            }
        },
    }
}

/// Minimality of the canonical cover: two distinct enumerated prefixes
/// are never nested, and never differ only in their last bit (such a pair
/// would have collapsed during normalization).
pub proof fn lemma_prefixes_minimal(t: Tree, cur: Seq<Bit>, i: int, j: int)
    requires
        t.canonical(),
        0 <= i < t.spec_prefixes(cur).len(),
        0 <= j < t.spec_prefixes(cur).len(),
        i != j,
    ensures
        !(#[trigger] t.spec_prefixes(cur)[i]).is_prefix_of(#[trigger] t.spec_prefixes(cur)[j]),
        !(t.spec_prefixes(cur)[i].len() == t.spec_prefixes(cur)[j].len() && t.spec_prefixes(
            cur,
        )[i].drop_last() == t.spec_prefixes(cur)[j].drop_last()),
    decreases t,
{
    let ps = t.spec_prefixes(cur);
    match t {
        Tree::Sat => {
            assert(false);
        },
        Tree::Unsat => {
            assert(false);
        },
        Tree::Mixed(l, r) => {
            let c = cur.len() as int;
            let c0 = cur.push(Bit::B0);
            let c1 = cur.push(Bit::B1);
            let psl = (*l).spec_prefixes(c0);
            let psr = (*r).spec_prefixes(c1);
            lemma_prefixes_shape(*l, c0);
            lemma_prefixes_shape(*r, c1);
            if i < psl.len() && j < psl.len() {
                lemma_prefixes_minimal(*l, c0, i, j);
                assert(ps[i] == psl[i] && ps[j] == psl[j]);
            } else if i >= psl.len() && j >= psl.len() {
                lemma_prefixes_minimal(*r, c1, i - psl.len(), j - psl.len());
                assert(ps[i] == psr[i - psl.len()] && ps[j] == psr[j - psl.len()]);
            } else {
                // One from each side: the bit at the path's length differs.
                let (p, q, bp, bq) = if i < psl.len() {
                    (ps[i], ps[j], Bit::B0, Bit::B1)
                } else {
                    (ps[i], ps[j], Bit::B1, Bit::B0)
                };
                if i < psl.len() {
                    assert(p == psl[i] && q == psr[j - psl.len()]);
                    assert(c0.is_prefix_of(p) && c1.is_prefix_of(q));
                } else {
                    assert(p == psr[i - psl.len()] && q == psl[j]);
                    assert(c1.is_prefix_of(p) && c0.is_prefix_of(q));
                }
                assert(p[c] == bp && q[c] == bq) by {
                    if i < psl.len() {
                        assert(c0[c] == p.subrange(0, c + 1)[c]);
                        assert(c1[c] == q.subrange(0, c + 1)[c]);
                    } else {
                        assert(c1[c] == p.subrange(0, c + 1)[c]);
                        assert(c0[c] == q.subrange(0, c + 1)[c]);
                    }
                }
                assert(p.len() > c && q.len() > c);
                // Not nested: a prefix relation would equate the bits at c.
                if p.is_prefix_of(q) {
                    assert(p[c] == q.subrange(0, p.len() as int)[c]);
                    assert(false);
                }
                // Not siblings: equal all but the last position forces the
                // differing bit to be the last, so both sides are plain
                // `Sat` leaves, which canonical form rules out.
                if p.len() == q.len() && p.drop_last() == q.drop_last() {
                    if p.len() - 1 > c {
                        assert(p.drop_last()[c] == q.drop_last()[c]);
                        assert(false);
                    } else {
                        assert(p.len() == c + 1);
                        if i < psl.len() {
                            assert(p =~= c0);
                            assert(q =~= c1);
                            assert((*l) !is Mixed && (*l) !is Unsat);
                            assert((*r) !is Mixed && (*r) !is Unsat);
                        } else {
                            assert(p =~= c1);
                            assert(q =~= c0);
                            assert((*l) !is Mixed && (*l) !is Unsat);
                            assert((*r) !is Mixed && (*r) !is Unsat);
                        }
                        assert(false);
                    }
                }
            }
        },
    }
}


impl Tree {
    /// The canonical form of the tree, built without consuming it.
    fn optimized(&self) -> (r: Tree)
        ensures
            r == self.spec_opt(),
        decreases self,
    {
        match self {
            Tree::Sat => Tree::Sat,
            Tree::Unsat => Tree::Unsat,
            Tree::Mixed(l, r) => match ((**l).optimized(), (**r).optimized()) {
                (Tree::Sat, Tree::Sat) => Tree::Sat,
                (Tree::Unsat, Tree::Unsat) => Tree::Unsat,
                (ol, or) => Tree::mixed(ol, or),
            },
        }
    }

    /// The covering prefixes below this node, each extending `prefix` by
    /// the path that reaches a `Sat` leaf, in left-to-right order.
    fn prefixes_from(self, prefix: Prefix) -> (r: Vec<Prefix>)
        ensures
            r@.map_values(|p: Prefix| p@) == self.spec_prefixes(prefix@),
        decreases self,
    {
        match self {
            Tree::Sat => {
                let mut v: Vec<Prefix> = Vec::new();
                v.push(prefix);
                proof {
                    assert(v@.map_values(|p: Prefix| p@) =~= seq![prefix@]);
                }
                v
            },
            Tree::Unsat => {
                let v: Vec<Prefix> = Vec::new();
                proof {
                    assert(v@.map_values(|p: Prefix| p@) =~= Seq::<Seq<Bit>>::empty());
                }
                v
            },
            Tree::Mixed(l, r) => {
                let mut out = (*l).prefixes_from(prefix.append(Bit::B0));
                let mut right = (*r).prefixes_from(prefix.append(Bit::B1));
                let ghost lv = out@;
                let ghost rv = right@;
                out.append(&mut right);
                proof {
                    assert(out@ =~= lv + rv);
                    assert(out@.map_values(|p: Prefix| p@) =~= lv.map_values(|p: Prefix| p@)
                        + rv.map_values(|p: Prefix| p@));
                }
                out
            },
        }
    }

    /// The canonical covering of the represented set: pairwise-disjoint
    /// prefixes, none mergeable with a sibling, whose union is the set, in
    /// depth-first order with 0 before 1.
    pub fn prefixes(&self) -> (r: Vec<Prefix>)
        ensures
            r@.map_values(|p: Prefix| p@) == self.spec_opt().spec_prefixes(Seq::empty()),
            forall|i: int| 0 <= i < r@.len() ==> (#[trigger] r@[i])@.len() <= self.height(),
    {
        let o = self.optimized();
        let r = o.prefixes_from(Prefix::empty());
        proof {
            lemma_opt_sem(*self);
            lemma_prefixes_shape(self.spec_opt(), Seq::empty());
            assert forall|i: int| 0 <= i < r@.len() implies (#[trigger] r@[i])@.len()
                <= self.height() by {
                assert(r@[i]@ == r@.map_values(|p: Prefix| p@)[i]);
            }
        }
        r
    }
}

} // verus!
