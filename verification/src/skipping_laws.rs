//! When a partition need not be looked at.

use crate::filter_laws;
use crate::ieee;
use crate::number_laws;
use crate::partition_stats::StatsModel;
use crate::payload;
use crate::sql::{Pred, Scalar};
use crate::sql;
use vstd::prelude::*;

verus! {

/// A number lies in what is known of the numbers of a field.
pub open spec fn is_between(x: u64, range: (u64, u64)) -> bool {
    &&& !ieee::double_nan(x)
    &&& number_laws::double_value(range.0) <= number_laws::double_value(x)
        <= number_laws::double_value(range.1)
}

/// Fields of which one is a number.
pub open spec fn only_number(f: Seq<char>, x: u64) -> Map<Seq<char>, payload::Field> {
    map![f => payload::Field::Number(x, false)]
}

/// A comparison of a field with a number, other than that they differ.
pub open spec fn compares_number(p: Pred, f: Seq<char>, n: u64) -> bool {
    ||| p == Pred::Eq(f, Scalar::Number(n))
    ||| p == Pred::Lt(f, Scalar::Number(n))
    ||| p == Pred::Le(f, Scalar::Number(n))
    ||| p == Pred::Gt(f, Scalar::Number(n))
    ||| p == Pred::Ge(f, Scalar::Number(n))
}

/// A partition is passed over for a comparison with a number exactly where none of the numbers between
/// the smallest and the largest of the field would meet it.
pub proof fn numbers_rule_out(stats: StatsModel, p: Pred, f: Seq<char>, n: u64)
    requires
        compares_number(p, f, n),
        stats.ranges.contains_key(f),
        is_between(stats.ranges[f].0, stats.ranges[f]),
        is_between(stats.ranges[f].1, stats.ranges[f]),
    ensures
        p.may_match(stats) <==> exists|x: u64| #[trigger]
            is_between(x, stats.ranges[f]) && p.holds(only_number(f, x)),
{
    let range = stats.ranges[f];
    let (lo, hi) = range;
    number_laws::doubles_compare_by_value(lo, n);
    number_laws::doubles_compare_by_value(n, hi);
    number_laws::doubles_compare_by_value(n, n);
    number_meets(p, f, n, lo);
    number_meets(p, f, n, hi);
    number_meets(p, f, n, n);
    if p.may_match(stats) {
        if p is Eq {
            assert(is_between(n, range) && p.holds(only_number(f, n)));
        } else if p is Lt || p is Le {
            assert(is_between(lo, range) && p.holds(only_number(f, lo)));
        } else {
            assert(is_between(hi, range) && p.holds(only_number(f, hi)));
        }
    }
    if exists|x: u64| #[trigger] is_between(x, range) && p.holds(only_number(f, x)) {
        let x = choose|x: u64| #[trigger] is_between(x, range) && p.holds(only_number(f, x));
        number_meets(p, f, n, x);
    }
}

proof fn number_meets(p: Pred, f: Seq<char>, n: u64, x: u64)
    requires
        compares_number(p, f, n),
    ensures
        p.holds(only_number(f, x)) <==> !ieee::double_nan(x) && !ieee::double_nan(n) && {
            let (a, b) = (number_laws::double_value(x), number_laws::double_value(n));
            match p {
                Pred::Eq(_, _) => a == b,
                Pred::Lt(_, _) => a < b,
                Pred::Le(_, _) => a <= b,
                Pred::Gt(_, _) => a > b,
                _ => a >= b,
            }
        },
{
    let fields = only_number(f, x);
    filter_laws::predicates_mean(fields, f, Scalar::Number(n), seq![], p, p);
    number_laws::doubles_compare_by_value(x, n);
    number_laws::doubles_compare_by_value(n, x);
    assert(fields.contains_key(f) && fields[f] == payload::Field::Number(x, false));
    assert(payload::lookup(fields, f) == Some(payload::Field::Number(x, false)));
}

/// A partition is passed over for a text exactly where all texts of the field are known and it is none
/// of them.
pub proof fn texts_rule_out(stats: StatsModel, f: Seq<char>, t: Seq<char>)
    ensures
        !Pred::Eq(f, Scalar::Text(t)).may_match(stats) <==> stats.texts.contains_key(f)
            && stats.texts[f].complete && !stats.texts[f].values.contains(t),
{
}

/// A value can occur in a partition: a number within the range of the field, a text that is among the
/// texts of the field or where not all are known, and every truth value.
pub open spec fn can_occur(stats: StatsModel, f: Seq<char>, v: Scalar) -> bool {
    match v {
        Scalar::Number(n) => stats.ranges.contains_key(f) && {
            let (lo, hi) = stats.ranges[f];
            &&& !ieee::double_nan(n)
            &&& !ieee::double_nan(lo)
            &&& !ieee::double_nan(hi)
            &&& number_laws::double_value(lo) <= number_laws::double_value(n)
            &&& number_laws::double_value(n) <= number_laws::double_value(hi)
        },
        Scalar::Text(t) => stats.texts.contains_key(f) && (!stats.texts[f].complete
            || stats.texts[f].values.contains(t)),
        Scalar::Boolean(_) => true,
    }
}

/// A partition is passed over for a list of values exactly where something is known of the field and
/// none of the values can occur.
pub proof fn lists_rule_out(stats: StatsModel, f: Seq<char>, vs: Seq<Scalar>)
    ensures
        !Pred::In(f, vs).may_match(stats) <==> (stats.texts.contains_key(f)
            || stats.ranges.contains_key(f)) && forall|i: int|
            0 <= i < vs.len() ==> !can_occur(stats, f, #[trigger] vs[i]),
{
    assert forall|i: int| 0 <= i < vs.len() implies (can_occur(stats, f, #[trigger] vs[i])
        <==> sql::may_be_among(vs[i], f, stats)) by {
        if let Scalar::Number(n) = vs[i] {
            if stats.ranges.contains_key(f) {
                let (lo, hi) = stats.ranges[f];
                number_laws::doubles_compare_by_value(lo, n);
                number_laws::doubles_compare_by_value(n, hi);
            }
        }
    }
    if sql::some_may_be_among(vs, f, stats) {
        let i = choose|i: int|
            0 <= i < vs.len() && sql::may_be_among(#[trigger] vs[i], f, stats);
        assert(can_occur(stats, f, vs[i]));
    }
}

/// A partition is looked at where nothing is known of the field, and for all comparisons with texts
/// and truth values but whether they are equal to a text.
pub proof fn unknown_fields_rule_out_nothing(stats: StatsModel, f: Seq<char>, n: u64, v: Scalar)
    ensures
        !stats.ranges.contains_key(f) ==> {
            &&& Pred::Eq(f, Scalar::Number(n)).may_match(stats)
            &&& Pred::Lt(f, Scalar::Number(n)).may_match(stats)
            &&& Pred::Le(f, Scalar::Number(n)).may_match(stats)
            &&& Pred::Gt(f, Scalar::Number(n)).may_match(stats)
            &&& Pred::Ge(f, Scalar::Number(n)).may_match(stats)
        },
        Pred::Ne(f, v).may_match(stats),
        !(v is Number) ==> {
            &&& Pred::Lt(f, v).may_match(stats)
            &&& Pred::Le(f, v).may_match(stats)
            &&& Pred::Gt(f, v).may_match(stats)
            &&& Pred::Ge(f, v).may_match(stats)
        },
        v is Boolean ==> Pred::Eq(f, v).may_match(stats),
{
}

/// A partition is passed over for one predicate and another where it is for one of them, and for one
/// or another where it is for both.
pub proof fn joined_predicates_rule_out(stats: StatsModel, p: Pred, q: Pred)
    ensures
        Pred::And(Box::new(p), Box::new(q)).may_match(stats) <==> p.may_match(stats) && q.may_match(
            stats,
        ),
        Pred::Or(Box::new(p), Box::new(q)).may_match(stats) <==> p.may_match(stats) || q.may_match(
            stats,
        ),
{
}

} // verus!
