//! Tests of the bit-string and trie algebra.

use netcalc::bits::{Bit, Prefix, PrefixOrd};
use netcalc::errors::Error;
use netcalc::trie::Tree;

#[test]
fn test_from_range() {
    let start = Prefix::from_bits(&[0, 0, 0, 1u8]);
    let end = Prefix::from_bits(&[0, 1, 1, 0u8]);

    let expected = Tree::new()
        .add(Prefix::from_bits(&[0, 0, 0, 1u8]))
        .add(Prefix::from_bits(&[0, 0, 1, 0u8]))
        .add(Prefix::from_bits(&[0, 0, 1, 1u8]))
        .add(Prefix::from_bits(&[0, 1, 0, 0u8]))
        .add(Prefix::from_bits(&[0, 1, 0, 1u8]))
        .add(Prefix::from_bits(&[0, 1, 1, 0u8]))
        .optimize();

    let actual = Tree::from_range(&start, &end).unwrap();

    assert_eq!(expected, actual);
}

#[test]
fn test_chunk() {
    let mut prefix = Prefix::from_u8(1);
    prefix.extend(Prefix::from_u8(2));
    prefix.extend(Prefix::from_u8(3));
    prefix.extend(Prefix::from_u8(4));

    assert_eq!(prefix.chunks(8).unwrap(), vec![1, 2, 3, 4]);
}

#[test]
fn chunk_sizes_rejected() {
    let prefix = Prefix::from_u8(0xAB);
    assert_eq!(prefix.chunks(0), Err(Error::ChunkSizeInvalid));
    assert_eq!(prefix.chunks(65), Err(Error::ChunkSizeInvalid));
    assert_eq!(prefix.chunks(3), Err(Error::ChunkSizeInvalid));
    assert_eq!(prefix.chunks(4).unwrap(), vec![0xA, 0xB]);
}

#[test]
fn to_u64_values() {
    assert_eq!(Prefix::from_bits(&[1, 0, 1, 1]).to_u64().unwrap(), 0b1011);
    assert_eq!(Prefix::empty().to_u64().unwrap(), 0);
    let mut long = Prefix::empty();
    for _ in 0..9 {
        long.extend(Prefix::from_u8(0xFF));
    }
    assert_eq!(long.len(), 72);
    assert_eq!(long.to_u64(), Err(Error::ChunkSizeInvalid));
}

#[test]
fn prefix_editing() {
    let mut p = Prefix::empty();
    p.push(Bit::B1);
    let q = p.append(Bit::B0);
    assert_eq!(p.len(), 1);
    assert_eq!(q.len(), 2);
    assert_eq!(q.to_u64().unwrap(), 0b10);

    let mut r = q.append(Bit::B1);
    r.truncate(2);
    assert_eq!(r, q);

    let mut padded = Prefix::from_bits(&[1]);
    padded.right_pad(4, Bit::B0);
    assert_eq!(padded.to_u64().unwrap(), 0b1000);

    let (head, tail) = Prefix::from_bits(&[1, 0, 1]).split().unwrap();
    assert_eq!(head, Bit::B1);
    assert_eq!(tail.to_u64().unwrap(), 0b01);
    assert_eq!(Prefix::empty().split(), Err(Error::EmptyPrefix));
}

#[test]
fn prefix_compare_is_partial() {
    let a = Prefix::from_bits(&[0, 1]);
    let b = Prefix::from_bits(&[1, 0]);
    let c = Prefix::from_bits(&[0, 1, 1]);
    assert_eq!(a.compare(&b), PrefixOrd::Less);
    assert_eq!(b.compare(&a), PrefixOrd::Greater);
    assert_eq!(a.compare(&a), PrefixOrd::Equal);
    // A proper prefix denotes a larger set: neither less nor greater.
    assert_eq!(a.compare(&c), PrefixOrd::Incomparable);
    assert_eq!(c.compare(&a), PrefixOrd::Incomparable);
    assert_eq!(c.compare(&b), PrefixOrd::Less);
}

#[test]
fn complement_involution_example() {
    let t = Tree::new()
        .add(Prefix::from_bits(&[0, 1]))
        .add(Prefix::from_bits(&[1, 1, 0]));
    let back = t
        .flip()
        .flip();
    let again = Tree::new()
        .add(Prefix::from_bits(&[0, 1]))
        .add(Prefix::from_bits(&[1, 1, 0]));
    assert_eq!(back, again);
}

#[test]
fn union_laws_examples() {
    let a = || Tree::new().add(Prefix::from_bits(&[0, 1])).optimize();
    let b = || Tree::new().add(Prefix::from_bits(&[1])).optimize();
    let c = || Tree::new().add(Prefix::from_bits(&[0, 0, 1])).optimize();

    assert_eq!(a().union(b()), b().union(a()));
    assert_eq!(a().union(b()).union(c()), a().union(b().union(c())));
    assert_eq!(a().union(a()), a());
    assert_eq!(a().union(Tree::new()), a());
    assert_eq!(Tree::new().union(a()), a());
    assert_eq!(a().union(Tree::Sat), Tree::Sat);
    assert_eq!(Tree::Sat.union(a()), Tree::Sat);
}

#[test]
fn difference_laws_examples() {
    let a = || Tree::new().add(Prefix::from_bits(&[0, 1])).optimize();
    assert_eq!(a().difference(a()), Tree::new());
    assert_eq!(a().difference(Tree::new()), a());
    assert_eq!(Tree::Sat.difference(a()), a().flip());
}

#[test]
fn del_via_complement_example() {
    let t = || Tree::new().add(Prefix::from_bits(&[0])).add(Prefix::from_bits(&[1, 1]));
    let p = || Prefix::from_bits(&[0, 1]);
    assert_eq!(t().del(p()), t().flip().add(p()).flip());
}

#[test]
fn add_normalizes_along_the_insertion_path() {
    // Filling in the missing half collapses the branch rather than
    // leaving a full node with two full children.
    assert_eq!(
        Tree::mixed(Tree::Sat, Tree::Unsat).add(Prefix::from_bits(&[1])),
        Tree::Sat
    );
    let both = Tree::new()
        .add(Prefix::from_bits(&[0]))
        .add(Prefix::from_bits(&[1]));
    assert_eq!(both, Tree::Sat);
    // Deleting the last remaining piece collapses to the empty tree.
    let gone = Tree::new()
        .add(Prefix::from_bits(&[0, 1]))
        .del(Prefix::from_bits(&[0, 1]));
    assert_eq!(gone, Tree::new());
}

#[test]
fn add_del_are_idempotent_on_sets() {
    let t = Tree::new()
        .add(Prefix::from_bits(&[0, 1]))
        .add(Prefix::from_bits(&[0, 1]))
        .optimize();
    let once = Tree::new().add(Prefix::from_bits(&[0, 1])).optimize();
    assert_eq!(t, once);
}

#[test]
fn from_range_rejects_inverted() {
    let lo = Prefix::from_bits(&[0, 0, 1, 0]);
    let hi = Prefix::from_bits(&[1, 0, 0, 1]);
    assert_eq!(Tree::from_range(&hi, &lo), Err(Error::RangeInverted));
    assert!(Tree::from_range(&lo, &hi).is_ok());
    assert!(Tree::from_range(&lo, &lo).is_ok());
}

/// Does some enumerated prefix of `prefs` cover the `w`-bit string `x`?
fn covered(prefs: &[Prefix], w: usize, x: u64) -> bool {
    for p in prefs {
        let l = p.len();
        if l <= w {
            let v = p.to_u64().unwrap();
            if (x >> (w - l)) == v {
                return true;
            }
        }
    }
    false
}

/// Marks every `w`-bit string extending `bits` in the reference set.
fn mark(mask: &mut [bool], w: usize, bits: &[u8], value: bool) {
    for (x, slot) in mask.iter_mut().enumerate() {
        let mut matches = true;
        for (i, b) in bits.iter().enumerate() {
            let bit = (x >> (w - 1 - i)) & 1;
            if bit as u8 != *b {
                matches = false;
                break;
            }
        }
        if matches {
            *slot = value;
        }
    }
}

#[test]
fn set_semantics_against_brute_force() {
    // Four-bit universe: apply adds and deletes both ways and compare
    // membership through the enumerated prefixes with a reference bit-set.
    let w = 4usize;
    let mut mask = [false; 16];
    let mut tree = Tree::new();

    let script: &[(&[u8], bool)] = &[
        (&[0, 0], true),
        (&[0, 1, 1], true),
        (&[0, 1, 1, 0], false),
        (&[1], true),
        (&[1, 0, 1], false),
        (&[], true),
        (&[1, 1], false),
    ];
    for (bits, add) in script {
        if *add {
            tree = tree.add(Prefix::from_bits(bits));
        } else {
            tree = tree.del(Prefix::from_bits(bits));
        }
        mark(&mut mask, w, bits, *add);
    }

    let prefs = tree.prefixes();
    for x in 0..16u64 {
        assert_eq!(covered(&prefs, w, x), mask[x as usize], "mismatch at {}", x);
    }
}

#[test]
fn range_equivalence_brute_force() {
    // Every 4-bit value is covered by the range tree exactly when it lies
    // within the bounds.
    let lo = Prefix::from_bits(&[0, 0, 1, 1]);
    let hi = Prefix::from_bits(&[1, 1, 0, 1]);
    let t = Tree::from_range(&lo, &hi).unwrap();
    let prefs = t.prefixes();
    for x in 0..16u64 {
        assert_eq!(covered(&prefs, 4, x), (3..=13).contains(&x), "mismatch at {}", x);
    }
}

#[test]
fn prefixes_are_minimal_and_disjoint() {
    let t = Tree::from_range(
        &Prefix::from_bits(&[0, 0, 0, 1]),
        &Prefix::from_bits(&[0, 1, 1, 0]),
    )
    .unwrap();
    let prefs = t.prefixes();
    assert!(prefs.len() > 1);
    for i in 0..prefs.len() {
        for j in 0..prefs.len() {
            if i == j {
                continue;
            }
            let (a, b) = (&prefs[i], &prefs[j]);
            // Never nested: a first differing bit separates every pair.
            let c = a.compare(b);
            assert!(c == PrefixOrd::Less || c == PrefixOrd::Greater);
            // Never two that differ only in the last bit.
            if a.len() == b.len() && a.len() > 0 {
                let mut ta = a.clone();
                let mut tb = b.clone();
                ta.truncate(a.len() - 1);
                tb.truncate(b.len() - 1);
                assert_ne!(ta, tb, "mergeable pair at {} {}", i, j);
            }
        }
    }
}

#[test]
fn single_prefix_roundtrip() {
    let p = Prefix::from_bits(&[1, 0, 1]);
    let prefs = Tree::new().add(p).prefixes();
    assert_eq!(prefs.len(), 1);
    assert_eq!(prefs[0], Prefix::from_bits(&[1, 0, 1]));
}

#[test]
fn optimize_collapses() {
    let t = Tree::mixed(Tree::Sat, Tree::Sat);
    assert_eq!(t.optimize(), Tree::Sat);
    let u = Tree::mixed(Tree::Unsat, Tree::mixed(Tree::Unsat, Tree::Unsat));
    assert_eq!(u.optimize(), Tree::Unsat);
    let v = Tree::mixed(Tree::Sat, Tree::Unsat);
    assert_eq!(v.optimize(), Tree::mixed(Tree::Sat, Tree::Unsat));
}

#[test]
fn add_tree_del_tree_delegate() {
    let a = || Tree::new().add(Prefix::from_bits(&[0]));
    let b = || Tree::new().add(Prefix::from_bits(&[0, 1]));
    assert_eq!(a().add_tree(b()), a().union(b()));
    assert_eq!(a().del_tree(b()), a().difference(b()));
}
