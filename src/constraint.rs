//! Constraint expressions: comma-separated clauses, each an optional
//! operator and a version literal, read as the intersection of their ranges.
use vstd::prelude::*;

use crate::error::ResolverError;
use crate::ranges::{
    at_least, below, from_to, members, range_at_least, range_below, range_between, range_full,
    range_intersection, range_singleton, range_union, VersionRanges,
};
use crate::text::{chars_of, pieces, split_bounds, split_commas, trim, trim_bounds, trim_end, trim_start};
use crate::version::{literal_version, parse_version, Release};

verus! {

/// The operator that opens a clause.
#[derive(Clone, Copy, Debug, PartialEq, Eq, Structural)]
pub enum Operator {
    /// `~=`: same major and minor, any later patch.
    Compatible,
    /// `>=`
    AtLeast,
    /// `<=`
    AtMost,
    /// `!=`
    NotEqual,
    /// `==`
    Equal,
    /// `>`
    Above,
    /// `<`
    Below,
    /// No operator: exact match.
    Bare,
}

/// Why a clause could not be read.
pub enum Fault {
    /// The version literal (given) is malformed.
    BadLiteral(Seq<char>),
    /// The clause (given) needs a successor version that does not exist.
    NoSuccessor(Seq<char>),
}

/// The operator that opens the clause `p`, and the length of its token.
pub open spec fn clause_operator(p: Seq<char>) -> (Operator, int) {
    if p.len() >= 2 && p[0] == '~' && p[1] == '=' {
        (Operator::Compatible, 2)
    } else if p.len() >= 2 && p[0] == '>' && p[1] == '=' {
        (Operator::AtLeast, 2)
    } else if p.len() >= 2 && p[0] == '<' && p[1] == '=' {
        (Operator::AtMost, 2)
    } else if p.len() >= 2 && p[0] == '!' && p[1] == '=' {
        (Operator::NotEqual, 2)
    } else if p.len() >= 2 && p[0] == '=' && p[1] == '=' {
        (Operator::Equal, 2)
    } else if p.len() >= 1 && p[0] == '>' {
        (Operator::Above, 1)
    } else if p.len() >= 1 && p[0] == '<' {
        (Operator::Below, 1)
    } else {
        (Operator::Bare, 0)
    }
}

/// The next patch release after `v`.
pub open spec fn next_patch(v: Release) -> Release {
    Release { major: v.major, minor: v.minor, patch: (v.patch + 1) as u64 }
}

/// The first release of the minor line after that of `v`.
pub open spec fn next_minor(v: Release) -> Release {
    Release { major: v.major, minor: (v.minor + 1) as u64, patch: 0 }
}

/// The versions that `op` admits around `v`; `None` where it needs a
/// successor of `v` beyond the largest number.
pub open spec fn operator_set(op: Operator, v: Release) -> Option<Set<Release>> {
    match op {
        Operator::Compatible => if v.minor < u64::MAX {
            Some(from_to(v, next_minor(v)))
        } else {
            None
        },
        Operator::AtLeast => Some(at_least(v)),
        Operator::AtMost => if v.patch < u64::MAX {
            Some(below(next_patch(v)))
        } else {
            None
        },
        Operator::NotEqual => if v.patch < u64::MAX {
            Some(below(v).union(at_least(next_patch(v))))
        } else {
            None
        },
        Operator::Above => if v.patch < u64::MAX {
            Some(at_least(next_patch(v)))
        } else {
            None
        },
        Operator::Below => Some(below(v)),
        Operator::Equal | Operator::Bare => Some(Set::empty().insert(v)),
    }
}

/// The version literal of the clause `p`.
pub open spec fn clause_literal(p: Seq<char>) -> Seq<char> {
    let n = clause_operator(p).1;
    if n == 0 {
        p
    } else {
        trim(p.skip(n))
    }
}

/// What the trimmed clause `p` means.
pub open spec fn clause_outcome(p: Seq<char>) -> Result<Set<Release>, Fault> {
    if p.len() == 0 || p == seq!['*'] {
        Ok(Set::full())
    } else {
        match literal_version(clause_literal(p)) {
            None => Err(Fault::BadLiteral(clause_literal(p))),
            Some(v) => match operator_set(clause_operator(p).0, v) {
                Some(s) => Ok(s),
                None => Err(Fault::NoSuccessor(p)),
            },
        }
    }
}

/// The intersection of the clauses `parts`, or the fault of the first that fails.
/// Empty clauses are skipped.
pub open spec fn conjunction(parts: Seq<Seq<char>>) -> Result<Set<Release>, Fault>
    decreases parts.len(),
{
    if parts.len() == 0 {
        Ok(Set::full())
    } else {
        match conjunction(parts.drop_last()) {
            Err(f) => Err(f),
            Ok(acc) => {
                let p = trim(parts.last());
                if p.len() == 0 {
                    Ok(acc)
                } else {
                    match clause_outcome(p) {
                        Err(f) => Err(f),
                        Ok(c) => Ok(acc.intersect(c)),
                    }
                }
            },
        }
    }
}

/// What the constraint expression `s` means.
pub open spec fn constraint_outcome(s: Seq<char>) -> Result<Set<Release>, Fault> {
    let t = trim(s);
    if t.len() == 0 || t == seq!['*'] {
        Ok(Set::full())
    } else {
        conjunction(split_commas(t))
    }
}

/// `e` is the error that reports `f`.
pub open spec fn reports(e: ResolverError, f: Fault) -> bool {
    match f {
        Fault::BadLiteral(lit) => e is InvalidVersion && e->InvalidVersion_version@ == lit,
        Fault::NoSuccessor(p) => e is InvalidConstraint && e->InvalidConstraint_constraint@ == p,
    }
}

/// `r` is what parsing a constraint with outcome `o` returns.
pub open spec fn parsed_as(
    r: Result<VersionRanges, ResolverError>,
    o: Result<Set<Release>, Fault>,
) -> bool {
    match o {
        Ok(set) => r is Ok && members(r->Ok_0) == set,
        Err(f) => r is Err && reports(r->Err_0, f),
    }
}

fn operator_of(cs: &Vec<char>, lo: usize, hi: usize) -> (r: (Operator, usize))
    requires
        lo <= hi <= cs@.len(),
    ensures
        (r.0, r.1 as int) == clause_operator(cs@.subrange(lo as int, hi as int)),
{
    let ghost p = cs@.subrange(lo as int, hi as int);
    if hi - lo >= 2 {
        let a = cs[lo];
        let b = cs[lo + 1];
        assert(p[0] == a && p[1] == b);
        if b == '=' {
            if a == '~' {
                return (Operator::Compatible, 2);
            } else if a == '>' {
                return (Operator::AtLeast, 2);
            } else if a == '<' {
                return (Operator::AtMost, 2);
            } else if a == '!' {
                return (Operator::NotEqual, 2);
            } else if a == '=' {
                return (Operator::Equal, 2);
            }
        }
    }
    if hi - lo >= 1 {
        assert(p[0] == cs@[lo as int]);
        if cs[lo] == '>' {
            return (Operator::Above, 1);
        } else if cs[lo] == '<' {
            return (Operator::Below, 1);
        }
    }
    (Operator::Bare, 0)
}

fn no_successor(s: &str, lo: usize, hi: usize) -> (e: ResolverError)
    requires
        lo <= hi <= s@.len(),
    ensures
        reports(e, Fault::NoSuccessor(s@.subrange(lo as int, hi as int))),
{
    ResolverError::InvalidConstraint {
        constraint: String::from_str(s.substring_char(lo, hi)),
        reason: String::from_str("the version has no successor"),
    }
}

/// Parses one trimmed clause `s[lo..hi]`.
fn parse_single_constraint(s: &str, cs: &Vec<char>, lo: usize, hi: usize) -> (r: Result<
    VersionRanges,
    ResolverError,
>)
    requires
        cs@ == s@,
        lo <= hi <= cs@.len(),
    ensures
        parsed_as(r, clause_outcome(cs@.subrange(lo as int, hi as int))),
{
    let ghost p = cs@.subrange(lo as int, hi as int);
    if lo == hi {
        return Ok(range_full());
    }
    if hi - lo == 1 && cs[lo] == '*' {
        assert(p =~= seq!['*']);
        return Ok(range_full());
    }
    assert(p != seq!['*']) by {
        if p == seq!['*'] {
            assert(p.len() == 1 && p[0] == cs@[lo as int]);
        }
    }
    let (op, n) = operator_of(cs, lo, hi);
    let (a, b) = if n == 0 {
        (lo, hi)
    } else {
        assert(p.skip(n as int) =~= cs@.subrange(lo + n, hi as int));
        trim_bounds(cs, lo + n, hi)
    };
    assert(cs@.subrange(a as int, b as int) == clause_literal(p));
    let v = match parse_version(s.substring_char(a, b)) {
        Ok(v) => v,
        Err(e) => {
            return Err(e);
        },
    };
    match op {
        Operator::Compatible => {
            if v.minor == u64::MAX {
                return Err(no_successor(s, lo, hi));
            }
            Ok(range_between(v, Release::new(v.major, v.minor + 1, 0)))
        },
        Operator::AtLeast => Ok(range_at_least(v)),
        Operator::AtMost => {
            if v.patch == u64::MAX {
                return Err(no_successor(s, lo, hi));
            }
            Ok(range_below(Release::new(v.major, v.minor, v.patch + 1)))
        },
        Operator::NotEqual => {
            if v.patch == u64::MAX {
                return Err(no_successor(s, lo, hi));
            }
            let lower = range_below(v);
            let upper = range_at_least(Release::new(v.major, v.minor, v.patch + 1));
            Ok(range_union(&lower, &upper))
        },
        Operator::Above => {
            if v.patch == u64::MAX {
                return Err(no_successor(s, lo, hi));
            }
            Ok(range_at_least(Release::new(v.major, v.minor, v.patch + 1)))
        },
        Operator::Below => Ok(range_below(v)),
        Operator::Equal | Operator::Bare => Ok(range_singleton(v)),
    }
}

/// Parses a constraint expression into the set of versions it admits.
///
/// Clauses are separated by commas and intersected; whitespace around
/// operators and commas is ignored; an empty expression or `*` admits every
/// version. A malformed literal gives `InvalidVersion` naming it; a clause
/// that needs a successor of the largest number gives `InvalidConstraint`.
pub fn parse_constraint(constraint: &str) -> (r: Result<
    VersionRanges,
    ResolverError,
>)
    ensures
        parsed_as(r, constraint_outcome(constraint@)),
{
    let cs = chars_of(constraint);
    assert(cs@.subrange(0, cs@.len() as int) =~= constraint@);
    let (lo, hi) = trim_bounds(&cs, 0, cs.len());
    let ghost t = cs@.subrange(lo as int, hi as int);
    assert(trim(constraint@) == t);
    if lo == hi {
        return Ok(range_full());
    }
    if hi - lo == 1 && cs[lo] == '*' {
        assert(t =~= seq!['*']);
        return Ok(range_full());
    }
    assert(t != seq!['*']) by {
        if t == seq!['*'] {
            assert(t.len() == 1 && t[0] == cs@[lo as int]);
        }
    }
    let spans = split_bounds(&cs, lo, hi);
    let ghost parts = split_commas(t);
    assert(constraint_outcome(constraint@) == conjunction(parts));
    let mut result = range_full();
    let mut k: usize = 0;
    assert(parts.take(0).len() == 0);
    while k < spans.len()
        invariant
            cs@ == constraint@,
            constraint_outcome(constraint@) == conjunction(parts),
            pieces(cs@, spans@) == parts,
            forall|j: int|
                0 <= j < spans@.len() ==> lo <= (#[trigger] spans@[j]).0 <= spans@[j].1 <= hi,
            hi <= cs@.len(),
            k <= spans@.len(),
            conjunction(parts.take(k as int)) == Ok::<Set<Release>, Fault>(members(result)),
        decreases spans.len() - k,
    {
        assert(parts.take(k + 1).drop_last() =~= parts.take(k as int));
        assert(parts.take(k + 1).last() == parts[k as int]);
        let (a, b) = spans[k];
        assert(parts[k as int] == cs@.subrange(a as int, b as int));
        let (pa, pb) = trim_bounds(&cs, a, b);
        if pa < pb {
            match parse_single_constraint(constraint, &cs, pa, pb) {
                Ok(c) => {
                    result = range_intersection(&result, &c);
                },
                Err(e) => {
                    proof {
                        let f = clause_outcome(cs@.subrange(pa as int, pb as int))->Err_0;
                        assert(conjunction(parts.take(k + 1)) == Err::<Set<Release>, Fault>(f));
                        lemma_conjunction_failure_sticks(parts, k + 1, f);
                    }
                    return Err(e);
                },
            }
        }
        k += 1;
    }
    assert(parts.take(spans@.len() as int) =~= parts);
    Ok(result)
}

/// Once a prefix of the clauses fails, the whole conjunction fails the same way.
proof fn lemma_conjunction_failure_sticks(parts: Seq<Seq<char>>, k: int, f: Fault)
    requires
        0 <= k <= parts.len(),
        conjunction(parts.take(k)) == Err::<Set<Release>, Fault>(f),
    ensures
        conjunction(parts) == Err::<Set<Release>, Fault>(f),
    decreases parts.len() - k,
{
    if k < parts.len() {
        assert(parts.take(k + 1).drop_last() =~= parts.take(k));
        lemma_conjunction_failure_sticks(parts, k + 1, f);
    } else {
        assert(parts.take(k) =~= parts);
    }
}

/// `*` and the empty expression admit every version.
pub proof fn lemma_wildcard_admits_all()
    ensures
        constraint_outcome(seq!['*']) == Ok::<Set<Release>, Fault>(Set::full()),
        constraint_outcome(Seq::empty()) == Ok::<Set<Release>, Fault>(Set::full()),
{
    assert(trim_start(seq!['*']) == seq!['*']);
    assert(trim_end(seq!['*']) == seq!['*']);
    assert(trim_start(Seq::<char>::empty()) == Seq::<char>::empty());
    assert(trim_end(Seq::<char>::empty()) == Seq::<char>::empty());
}

} // verus!
