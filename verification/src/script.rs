//! The script front end: operand and line parsing, the evaluator that
//! folds operations into one trie, and `convert`, the whole pipeline from
//! script text to the joined list of canonical CIDRs.

use vstd::prelude::*;
use vstd::string::StrSliceExecFns;

use crate::bits::{Bit, Prefix};
use crate::errors::{Error, ErrorModel};
use crate::family::{
    format_cidr, parse_addr, spec_format_cidr, spec_parse_addr, Family,
};
use crate::text::{
    chars_to_string, parse_dec, spec_join, spec_split, spec_trim, split_chars, to_chars, trim,
};
use crate::trie::Tree;

verus! {

/// The right-hand side of an operation: a single prefix or a whole
/// subtree (from a range).
pub enum Operand {
    Prefix(Prefix),
    Tree(Tree),
}

/// One script line's effect: add or delete an operand, or nothing (blank
/// and comment lines).
pub enum TreeOp {
    Add(Operand),
    Del(Operand),
    Noop,
}

/// The mathematical content of an operand.
pub enum OperandModel {
    Prefix(Seq<Bit>),
    Tree(Tree),
}

/// The mathematical content of an operation.
pub enum OpModel {
    AddPrefix(Seq<Bit>),
    DelPrefix(Seq<Bit>),
    AddTree(Tree),
    DelTree(Tree),
    Noop,
}

impl Operand {
    /// The operand's mathematical content.
    pub open spec fn model(self) -> OperandModel {
        match self {
            Operand::Prefix(p) => OperandModel::Prefix(p@),
            Operand::Tree(t) => OperandModel::Tree(t),
        }
    }
}

impl TreeOp {
    /// The operation's mathematical content.
    pub open spec fn model(self) -> OpModel {
        match self {
            TreeOp::Add(Operand::Prefix(p)) => OpModel::AddPrefix(p@),
            TreeOp::Del(Operand::Prefix(p)) => OpModel::DelPrefix(p@),
            TreeOp::Add(Operand::Tree(t)) => OpModel::AddTree(t),
            TreeOp::Del(Operand::Tree(t)) => OpModel::DelTree(t),
            TreeOp::Noop => OpModel::Noop,
        }
    }
}

/// An operand's tree, when it has one, is canonical.
pub open spec fn operand_canonical(m: OperandModel) -> bool {
    match m {
        OperandModel::Tree(t) => t.canonical(),
        _ => true,
    }
}

/// An operation's tree, when it has one, is canonical.
pub open spec fn op_canonical(m: OpModel) -> bool {
    match m {
        OpModel::AddTree(t) => t.canonical(),
        OpModel::DelTree(t) => t.canonical(),
        _ => true,
    }
}

/// An operation fits the family: its prefix is no longer than the width,
/// its tree no higher.
pub open spec fn op_fits(m: OpModel, w: nat) -> bool {
    match m {
        OpModel::AddPrefix(p) => p.len() <= w,
        OpModel::DelPrefix(p) => p.len() <= w,
        OpModel::AddTree(t) => t.height() <= w,
        OpModel::DelTree(t) => t.height() <= w,
        OpModel::Noop => true,
    }
}

/// What applying one operation does to the accumulated tree.
pub open spec fn spec_apply(m: OpModel, t: Tree) -> Tree {
    match m {
        OpModel::AddPrefix(p) => t.spec_add(p),
        OpModel::DelPrefix(p) => t.spec_del(p),
        OpModel::AddTree(u) => t.spec_union(u),
        OpModel::DelTree(u) => t.spec_diff(u),
        OpModel::Noop => t,
    }
}

/// What parsing an operand yields: a width-long prefix from an address
/// literal, a truncated prefix from a CIDR, or a tree from a range, tried
/// in that order; the last form's error stands when none fits.
pub open spec fn spec_parse_operand(fam: Family, s: Seq<char>) -> Result<
    OperandModel,
    ErrorModel,
> {
    match spec_parse_addr(fam, s) {
        Some(bits) => Ok(OperandModel::Prefix(bits)),
        None => match spec_parse_cidr(fam, s) {
            Ok(bits) => Ok(OperandModel::Prefix(bits)),
            Err(_) => match spec_parse_range(fam, s) {
                Ok(t) => Ok(OperandModel::Tree(t)),
                Err(e) => Err(e),
            },
        },
    }
}

/// What parsing `address/length` yields: the address bits truncated to
/// the length. Errors: not exactly one `/` or a malformed length is a
/// malformed CIDR; a bad address side is a malformed address; a length
/// over the width is too long a prefix.
pub open spec fn spec_parse_cidr(fam: Family, s: Seq<char>) -> Result<Seq<Bit>, ErrorModel> {
    let parts = spec_split(s, '/');
    if parts.len() != 2 {
        Err(ErrorModel::MalformedCidr)
    } else {
        match spec_parse_addr(fam, parts[0]) {
            None => Err(ErrorModel::MalformedAddress),
            Some(bits) => {
                if !(1 <= parts[1].len() <= 3 && crate::text::all_digits(parts[1])) {
                    Err(ErrorModel::MalformedCidr)
                } else if crate::text::dec_val(parts[1]) > fam.spec_width() {
                    Err(ErrorModel::PrefixTooLong)
                } else {
                    Ok(bits.take(crate::text::dec_val(parts[1]) as int))
                }
            },
        }
    }
}

/// What parsing `start-end` yields: the normalized tree of the closed
/// range. Errors: not exactly one `-` is a malformed range; a bad side is
/// a malformed address; a start above the end is an inverted range.
pub open spec fn spec_parse_range(fam: Family, s: Seq<char>) -> Result<Tree, ErrorModel> {
    let parts = spec_split(s, '-');
    if parts.len() != 2 {
        Err(ErrorModel::MalformedRange)
    } else {
        match (spec_parse_addr(fam, parts[0]), spec_parse_addr(fam, parts[1])) {
            (Some(a), Some(b)) => {
                if crate::bits::lex_le(a, b) {
                    Ok(Tree::spec_from_range(Seq::empty(), a, b))
                } else {
                    Err(ErrorModel::RangeInverted)
                }
            },
            _ => Err(ErrorModel::MalformedAddress),
        }
    }
}

/// What parsing one trimmed line yields: nothing for an empty or `#`
/// line, an addition for `+`, a deletion for `-`, and otherwise an
/// unrecognized-line error carrying the offending line.
pub open spec fn spec_parse_op(fam: Family, line: Seq<char>) -> Result<OpModel, ErrorModel> {
    if line.len() == 0 {
        Ok(OpModel::Noop)
    } else if line[0] == '#' {
        Ok(OpModel::Noop)
    } else if line[0] == '+' {
        match spec_parse_operand(fam, line.drop_first()) {
            Ok(OperandModel::Prefix(p)) => Ok(OpModel::AddPrefix(p)),
            Ok(OperandModel::Tree(t)) => Ok(OpModel::AddTree(t)),
            Err(e) => Err(e),
        }
    } else if line[0] == '-' {
        match spec_parse_operand(fam, line.drop_first()) {
            Ok(OperandModel::Prefix(p)) => Ok(OpModel::DelPrefix(p)),
            Ok(OperandModel::Tree(t)) => Ok(OpModel::DelTree(t)),
            Err(e) => Err(e),
        }
    } else {
        Err(ErrorModel::UnrecognizedLine(line))
    }
}

/// What evaluating the remaining lines does to the accumulated tree: each
/// line is trimmed, parsed, and applied in order; the first parse error
/// is fatal.
pub open spec fn spec_run(fam: Family, lines: Seq<Seq<char>>, t: Tree) -> Result<
    Tree,
    ErrorModel,
>
    decreases lines.len(),
{
    if lines.len() == 0 {
        Ok(t)
    } else {
        match spec_parse_op(fam, spec_trim(lines[0])) {
            Err(e) => Err(e),
            Ok(m) => spec_run(fam, lines.drop_first(), spec_apply(m, t)),
        }
    }
}

/// What `convert` returns for a family: the script's lines folded into
/// one tree, then the canonical covering prefixes formatted as CIDRs and
/// joined with the separator.
pub open spec fn spec_convert_fam(fam: Family, sep: Seq<char>, script: Seq<char>) -> Result<
    Seq<char>,
    ErrorModel,
> {
    match spec_run(fam, spec_split(script, '\n'), Tree::Unsat) {
        Err(e) => Err(e),
        Ok(t) => Ok(
            spec_join(
                t.spec_opt().spec_prefixes(Seq::empty()).map_values(
                    |p: Seq<Bit>| spec_format_cidr(fam, p),
                ),
                sep,
            ),
        ),
    }
}

/// What `convert` returns: version `"4"` selects IPv4, `"6"` IPv6, and
/// anything else fails.
pub open spec fn spec_convert(version: Seq<char>, sep: Seq<char>, script: Seq<char>) -> Result<
    Seq<char>,
    ErrorModel,
> {
    if version == seq!['4'] {
        spec_convert_fam(Family::V4, sep, script)
    } else if version == seq!['6'] {
        spec_convert_fam(Family::V6, sep, script)
    } else {
        Err(ErrorModel::UnknownVersion)
    }
}


/// The bits of `address/length`: the address truncated to the length.
pub fn parse_cidr(fam: Family, v: &Vec<char>) -> (r: Result<Prefix, Error>)
    ensures
        r is Ok <==> spec_parse_cidr(fam, v@) is Ok,
        r matches Ok(p) ==> spec_parse_cidr(fam, v@) == Ok::<Seq<Bit>, ErrorModel>(p@)
            && p@.len() <= fam.spec_width(),
        r matches Err(e) ==> spec_parse_cidr(fam, v@) == Err::<Seq<Bit>, ErrorModel>(e.model()),
{
    let parts = split_chars(v, 0, '/');
    proof {
        assert(v@.skip(0) =~= v@);
    }
    let ghost gparts = spec_split(v@, '/');
    if parts.len() != 2 {
        return Err(Error::MalformedCidr);
    }
    let addr = match parse_addr(fam, &parts[0]) {
        Some(p) => p,
        None => {
            return Err(Error::MalformedAddress);
        },
    };
    let lenval = match parse_dec(&parts[1]) {
        Some(n) => n,
        None => {
            return Err(Error::MalformedCidr);
        },
    };
    let w = fam.width();
    if lenval as usize > w {
        return Err(Error::PrefixTooLong);
    }
    let mut a = addr;
    a.truncate(lenval as usize);
    proof {
        assert(a@ =~= spec_parse_addr(fam, gparts[0]).unwrap().take(
            crate::text::dec_val(gparts[1]) as int,
        ));
    }
    Ok(a)
}

/// The tree of `start-end`: the normalized closed range.
pub fn parse_range(fam: Family, v: &Vec<char>) -> (r: Result<Tree, Error>)
    ensures
        r is Ok <==> spec_parse_range(fam, v@) is Ok,
        r matches Ok(t) ==> spec_parse_range(fam, v@) == Ok::<Tree, ErrorModel>(t) && t.height()
            <= fam.spec_width() && t.canonical(),
        r matches Err(e) ==> spec_parse_range(fam, v@) == Err::<Tree, ErrorModel>(e.model()),
{
    let parts = split_chars(v, 0, '-');
    proof {
        assert(v@.skip(0) =~= v@);
    }
    if parts.len() != 2 {
        return Err(Error::MalformedRange);
    }
    let a = match parse_addr(fam, &parts[0]) {
        Some(p) => p,
        None => {
            return Err(Error::MalformedAddress);
        },
    };
    let b = match parse_addr(fam, &parts[1]) {
        Some(p) => p,
        None => {
            return Err(Error::MalformedAddress);
        },
    };
    match Tree::from_range(&a, &b) {
        Ok(t) => Ok(t),
        Err(e) => Err(e),
    }
}

/// An operand fits the family: its prefix is no longer than the width,
/// its tree no higher.
pub open spec fn operand_fits(m: OperandModel, w: nat) -> bool {
    match m {
        OperandModel::Prefix(p) => p.len() <= w,
        OperandModel::Tree(t) => t.height() <= w,
    }
}

impl Operand {
    /// Parses an operand: an address literal, then a CIDR, then a range,
    /// the first success winning.
    pub fn parse(fam: Family, v: &Vec<char>) -> (r: Result<Operand, Error>)
        ensures
            r is Ok <==> spec_parse_operand(fam, v@) is Ok,
            r matches Ok(op) ==> spec_parse_operand(fam, v@) == Ok::<OperandModel, ErrorModel>(
                op.model(),
            ) && operand_fits(op.model(), fam.spec_width()) && operand_canonical(op.model()),
            r matches Err(e) ==> spec_parse_operand(fam, v@) == Err::<OperandModel, ErrorModel>(
                e.model(),
            ),
    {
        match parse_addr(fam, v) {
            Some(p) => Ok(Operand::Prefix(p)),
            None => match parse_cidr(fam, v) {
                Ok(p) => Ok(Operand::Prefix(p)),
                Err(_) => match parse_range(fam, v) {
                    Ok(t) => Ok(Operand::Tree(t)),
                    Err(e) => Err(e),
                },
            },
        }
    }
}

impl TreeOp {
    /// Parses one trimmed script line: blank and `#` lines do nothing,
    /// `+` adds its operand, `-` deletes it, and anything else fails with
    /// an unrecognized-line error that carries the line.
    pub fn parse(fam: Family, line: &Vec<char>) -> (r: Result<TreeOp, Error>)
        ensures
            r is Ok <==> spec_parse_op(fam, line@) is Ok,
            r matches Ok(op) ==> spec_parse_op(fam, line@) == Ok::<OpModel, ErrorModel>(
                op.model(),
            ) && op_fits(op.model(), fam.spec_width()) && op_canonical(op.model()),
            r matches Err(e) ==> spec_parse_op(fam, line@) == Err::<OpModel, ErrorModel>(
                e.model(),
            ),
    {
        if line.len() == 0 {
            return Ok(TreeOp::Noop);
        }
        let c = line[0];
        if c == '#' {
            return Ok(TreeOp::Noop);
        }
        if c == '+' || c == '-' {
            let rest = crate::text::copy_range(line, 1, line.len());
            proof {
                assert(rest@ =~= line@.drop_first());
            }
            match Operand::parse(fam, &rest) {
                Ok(op) => {
                    if c == '+' {
                        Ok(TreeOp::Add(op))
                    } else {
                        Ok(TreeOp::Del(op))
                    }
                },
                Err(e) => Err(e),
            }
        } else {
            Err(Error::UnrecognizedLine(chars_to_string(line)))
        }
    }

    /// Applies one operation to the accumulated tree. An operation that
    /// fits the width keeps the tree within the width, and one whose
    /// operand is canonical keeps the tree canonical.
    pub fn apply(self, tree: Tree) -> (r: Tree)
        ensures
            r == spec_apply(self.model(), tree),
            op_canonical(self.model()) && tree.canonical() ==> r.canonical(),
            forall|w: nat|
                op_fits(self.model(), w) && tree.height() <= w ==> #[trigger] spec_apply(
                    self.model(),
                    tree,
                ).height() <= w,
    {
        let ghost m = self.model();
        let ghost t0 = tree;
        let r = match self {
            TreeOp::Add(Operand::Prefix(p)) => tree.add(p),
            TreeOp::Del(Operand::Prefix(p)) => tree.del(p),
            TreeOp::Add(Operand::Tree(o)) => tree.add_tree(o),
            TreeOp::Del(Operand::Tree(o)) => tree.del_tree(o),
            TreeOp::Noop => tree,
        };
        proof {
            match m {
                OpModel::AddTree(u) => {
                    crate::trie::lemma_union_sem(t0, u);
                },
                OpModel::DelTree(u) => {
                    crate::trie::lemma_diff_sem(t0, u);
                },
                _ => {},
            }
        }
        r
    }
}

/// Converts a script of IP-set operations into the joined list of
/// canonical CIDR prefixes. `version` selects the family (`"4"` or
/// `"6"`), `sep` stands between the emitted CIDRs, and `s` is the full
/// script text, one operation per line.
pub fn convert(version: &str, sep: &str, s: &str) -> (r: Result<String, Error>)
    ensures
        r is Ok <==> spec_convert(version@, sep@, s@) is Ok,
        r matches Ok(out) ==> spec_convert(version@, sep@, s@) == Ok::<Seq<char>, ErrorModel>(
            out@,
        ),
        r matches Err(e) ==> spec_convert(version@, sep@, s@) == Err::<Seq<char>, ErrorModel>(
            e.model(),
        ),
{
    let fam: Family;
    if version.unicode_len() == 1 && version.get_char(0) == '4' {
        fam = Family::V4;
        proof {
            assert(version@ =~= seq!['4']);
        }
    } else if version.unicode_len() == 1 && version.get_char(0) == '6' {
        fam = Family::V6;
        proof {
            assert(version@ =~= seq!['6']);
        }
    } else {
        proof {
            assert(version@ != seq!['4'] && version@ != seq!['6']) by {
                if version@ == seq!['4'] {
                    assert(version@.len() == 1 && version@[0] == '4');
                }
                if version@ == seq!['6'] {
                    assert(version@.len() == 1 && version@[0] == '6');
                }
            }
        }
        return Err(Error::UnknownVersion);
    }
    match convert_fam(fam, sep, s) {
        Ok(out) => Ok(out),
        Err(e) => Err(e),
    }
}

/// Converts a script for one family: fold the lines into a tree, then
/// format and join its canonical covering.
fn convert_fam(fam: Family, sep: &str, s: &str) -> (r: Result<String, Error>)
    ensures
        r is Ok <==> spec_convert_fam(fam, sep@, s@) is Ok,
        r matches Ok(out) ==> spec_convert_fam(fam, sep@, s@) == Ok::<Seq<char>, ErrorModel>(
            out@,
        ),
        r matches Err(e) ==> spec_convert_fam(fam, sep@, s@) == Err::<Seq<char>, ErrorModel>(
            e.model(),
        ),
{
    let chars = to_chars(s);
    let lines = split_chars(&chars, 0, '\n');
    proof {
        assert(chars@.skip(0) =~= chars@);
    }
    let ghost glines = spec_split(s@, '\n');
    let mut tree = Tree::new();
    proof {
        assert(glines.skip(0) =~= glines);
    }
    let n = lines.len();
    let mut i: usize = 0;
    let w = fam.width();
    while i < n
        invariant
            i <= n,
            n == lines@.len(),
            w == fam.spec_width(),
            glines == lines@.map_values(|l: Vec<char>| l@),
            glines == spec_split(s@, '\n'),
            tree.height() <= fam.spec_width(),
            tree.canonical(),
            spec_run(fam, glines, Tree::Unsat) == spec_run(
                fam,
                glines.skip(i as int),
                tree,
            ),
        decreases n - i,
    {
        let line = trim(&lines[i]);
        proof {
            assert(glines.skip(i as int)[0] == glines[i as int]);
            assert(line@ == spec_trim(glines[i as int]));
            assert(glines.skip(i as int).drop_first() =~= glines.skip(i + 1));
        }
        match TreeOp::parse(fam, &line) {
            Ok(op) => {
                let ghost m = op.model();
                let ghost t0 = tree;
                tree = op.apply(tree);
                proof {
                    assert(spec_run(fam, glines.skip(i as int), t0) == spec_run(
                        fam,
                        glines.skip(i + 1),
                        tree,
                    ));
                }
            },
            Err(e) => {
                proof {
                    assert(spec_run(fam, glines.skip(i as int), tree) == Err::<Tree, ErrorModel>(
                        e.model(),
                    ));
                }
                return Err(e);
            },
        }
        i = i + 1;
    }
    proof {
        assert(glines.skip(n as int) =~= Seq::<Seq<char>>::empty());
        assert(spec_run(fam, glines, Tree::Unsat) == Ok::<Tree, ErrorModel>(tree));
    }
    let sepc = to_chars(sep);
    let mut rem = tree.prefixes();
    let ghost gprefs = tree.spec_opt().spec_prefixes(Seq::empty());
    let ghost gitems = gprefs.map_values(|p: Seq<Bit>| spec_format_cidr(fam, p));
    proof {
        assert forall|k: int| 0 <= k < gprefs.len() implies (#[trigger] gprefs[k]).len()
            <= fam.spec_width() by {
            assert(rem@[k]@ == rem@.map_values(|p: Prefix| p@)[k]);
            assert(rem@[k]@.len() <= tree.height());
        }
        assert(rem@.map_values(|p: Prefix| p@) =~= gprefs.skip(0));
        assert(gitems.take(0) =~= Seq::<Seq<char>>::empty());
    }
    let mut out: Vec<char> = Vec::new();
    let mut first: bool = true;
    while rem.len() > 0
        invariant
            sepc@ == sep@,
            w == fam.spec_width(),
            gitems == gprefs.map_values(|p: Seq<Bit>| spec_format_cidr(fam, p)),
            forall|k: int| 0 <= k < gprefs.len() ==> (#[trigger] gprefs[k]).len()
                <= fam.spec_width(),
            rem@.len() <= gprefs.len(),
            rem@.map_values(|p: Prefix| p@) == gprefs.skip(gprefs.len() - rem@.len()),
            first <==> rem@.len() == gprefs.len(),
            out@ == spec_join(gitems.take(gprefs.len() - rem@.len()), sep@),
        decreases rem@.len(),
    {
        let ghost done = gprefs.len() - rem@.len();
        let ghost rem0 = rem@;
        let p = rem.remove(0);
        proof {
            assert(p@ == rem0.map_values(|q: Prefix| q@)[0]);
            assert(p@ == gprefs.skip(done)[0]);
            assert(p@ == gprefs[done]);
            let ghost remv = rem@.map_values(|q: Prefix| q@);
            assert forall|k: int| #![trigger remv[k]] 0 <= k < remv.len() implies remv[k]
                == gprefs.skip(done + 1)[k] by {
                assert(rem@[k] == rem0[k + 1]);
                assert(rem0.map_values(|q: Prefix| q@)[k + 1] == rem0[k + 1]@);
                assert(gprefs.skip(done)[k + 1] == gprefs[done + 1 + k]);
            }
            assert(rem@.map_values(|q: Prefix| q@) =~= gprefs.skip(done + 1));
        }
        if !first {
            crate::text::push_all(&mut out, &sepc);
        }
        let fc = format_cidr(fam, p);
        crate::text::push_all(&mut out, &fc);
        proof {
            lemma_join_snoc(gitems.take(done), gitems[done], sep@);
            assert(gitems.take(done).push(gitems[done]) =~= gitems.take(done + 1));
            assert(gitems[done] == spec_format_cidr(fam, gprefs[done]));
            assert(out@ =~= spec_join(gitems.take(done + 1), sep@));
        }
        first = false;
    }
    proof {
        assert(gitems.take(gprefs.len() as int) =~= gitems);
    }
    Ok(chars_to_string(&out))
}

/// Joining one more piece appends a separator (once the list is
/// nonempty) and the piece.
proof fn lemma_join_snoc(items: Seq<Seq<char>>, x: Seq<char>, sep: Seq<char>)
    ensures
        spec_join(items.push(x), sep) == (if items.len() == 0 {
            x
        } else {
            spec_join(items, sep) + sep + x
        }),
    decreases items.len(),
{
    if items.len() == 0 {
        assert(items.push(x).len() == 1);
        assert(spec_join(items.push(x), sep) == items.push(x)[0]);
    } else if items.len() == 1 {
        assert(items.push(x).drop_first() =~= seq![x]);
        assert(spec_join(seq![x], sep) == x);
        assert(items.push(x)[0] == items[0]);
        assert(spec_join(items.push(x), sep) == items[0] + sep + x);
    } else {
        lemma_join_snoc(items.drop_first(), x, sep);
        assert(items.push(x).drop_first() =~= items.drop_first().push(x));
        assert(spec_join(items.push(x), sep) == items[0] + sep + spec_join(
            items.drop_first().push(x),
            sep,
        ));
        assert(items[0] + sep + (spec_join(items.drop_first(), sep) + sep + x) =~= (items[0]
            + sep + spec_join(items.drop_first(), sep)) + sep + x);
    }
}

} // verus!
