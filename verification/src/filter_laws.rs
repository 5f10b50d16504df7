//! What filters mean: comparisons, and comparisons that are joined.

use crate::ieee;
use crate::number_laws;
use crate::payload;
use crate::sql::{Pred, Scalar};
use crate::sql;
use crate::sql_laws;
use crate::sql_lexer::{CharClass, Piece, Tok};
use crate::sql_lexer;
use crate::sql_parser;
use crate::text;
use crate::text::FieldOrder;
use vstd::prelude::*;

verus! {

/// How the value of a field and a constant relate.
pub enum Relation {
    Less,
    Equal,
    Greater,
    /// They do not compare.
    Apart,
}

/// A text stands before another: up to some place they are equal, and there it ends before the other
/// one does or has the lower character.
pub open spec fn stands_before(a: Seq<char>, b: Seq<char>) -> bool {
    exists|n: int|
        {
            &&& 0 <= n <= a.len()
            &&& n < b.len()
            &&& #[trigger] a.take(n) == b.take(n)
            &&& n == a.len() || a[n] < b[n]
        }
}

/// How the value of a field relates to a constant: numbers by what they stand for, texts by their
/// characters, and false stands before true. Values of different kinds do not compare, nor does a
/// pattern that is no number.
pub open spec fn relation(field: payload::Field, value: Scalar) -> Relation {
    match (field, value) {
        (payload::Field::Number(a, _), Scalar::Number(b)) => if ieee::double_nan(a)
            || ieee::double_nan(b) {
            Relation::Apart
        } else if number_laws::double_value(a) < number_laws::double_value(b) {
            Relation::Less
        } else if number_laws::double_value(a) > number_laws::double_value(b) {
            Relation::Greater
        } else {
            Relation::Equal
        },
        (payload::Field::Text(a), Scalar::Text(b)) => if a == b {
            Relation::Equal
        } else if stands_before(a, b) {
            Relation::Less
        } else {
            Relation::Greater
        },
        (payload::Field::Boolean(a), Scalar::Boolean(b)) => if a == b {
            Relation::Equal
        } else if b {
            Relation::Less
        } else {
            Relation::Greater
        },
        _ => Relation::Apart,
    }
}

/// Of two texts that differ, one stands before the other, and it is the one that compares as less.
pub proof fn texts_compare_by_characters(a: Seq<char>, b: Seq<char>)
    ensures
        text::text_order(a, b) == FieldOrder::Less <==> stands_before(a, b),
        text::text_order(a, b) == FieldOrder::Greater <==> stands_before(b, a),
        text::text_order(a, b) == FieldOrder::Equal <==> a == b,
        !(stands_before(a, b) && stands_before(b, a)),
        a == b ==> !stands_before(a, b),
    decreases a.len(),
{
    text::text_order_equal(a, b);
    order_is_before(a, b);
    order_is_before(b, a);
    order_is_opposed(a, b);
}

proof fn order_is_opposed(a: Seq<char>, b: Seq<char>)
    ensures
        text::text_order(a, b) == FieldOrder::Less <==> text::text_order(b, a)
            == FieldOrder::Greater,
        text::text_order(a, b) == FieldOrder::Equal <==> text::text_order(b, a)
            == FieldOrder::Equal,
    decreases a.len(),
{
    if a.len() > 0 && b.len() > 0 && a[0] == b[0] {
        order_is_opposed(a.skip(1), b.skip(1));
    }
}

proof fn order_is_before(a: Seq<char>, b: Seq<char>)
    ensures
        text::text_order(a, b) == FieldOrder::Less <==> stands_before(a, b),
    decreases a.len(),
{
    if a.len() > 0 && b.len() > 0 && a[0] == b[0] {
        let (x, y) = (a.skip(1), b.skip(1));
        order_is_before(x, y);
        if stands_before(x, y) {
            let n = choose|n: int|
                {
                    &&& 0 <= n <= x.len()
                    &&& n < y.len()
                    &&& #[trigger] x.take(n) == y.take(n)
                    &&& n == x.len() || x[n] < y[n]
                };
            assert(a.take(n + 1) =~= seq![a[0]] + x.take(n));
            assert(b.take(n + 1) =~= seq![b[0]] + y.take(n));
            assert(stands_before(a, b));
        }
        if stands_before(a, b) {
            let n = choose|n: int|
                {
                    &&& 0 <= n <= a.len()
                    &&& n < b.len()
                    &&& #[trigger] a.take(n) == b.take(n)
                    &&& n == a.len() || a[n] < b[n]
                };
            if n == 0 {
                assert(false);
            }
            assert(x.take(n - 1) =~= a.take(n).skip(1));
            assert(y.take(n - 1) =~= b.take(n).skip(1));
            assert(stands_before(x, y));
        }
    } else {
        if stands_before(a, b) {
            let n = choose|n: int|
                {
                    &&& 0 <= n <= a.len()
                    &&& n < b.len()
                    &&& #[trigger] a.take(n) == b.take(n)
                    &&& n == a.len() || a[n] < b[n]
                };
            if n > 0 {
                assert(a.take(n)[0] == a[0]);
                assert(b.take(n)[0] == b[0]);
            }
        }
        assert(a.take(0) =~= b.take(0));
        if b.len() > 0 && (a.len() == 0 || a[0] < b[0]) {
            assert(stands_before(a, b));
        }
    }
}

/// What the comparisons hold of: a field of that name has to be there, and its value has to relate
/// to the constant as the operator says. `IN` holds where one of the constants is equal, `AND` where
/// both sides hold and `OR` where one does.
pub proof fn predicates_mean(
    fields: Map<Seq<char>, payload::Field>,
    f: Seq<char>,
    v: Scalar,
    vs: Seq<Scalar>,
    p: Pred,
    q: Pred,
)
    ensures
        ({
            let there = fields.contains_key(f);
            let r = relation(fields[f], v);
            &&& Pred::Eq(f, v).holds(fields) <==> there && r is Equal
            &&& Pred::Ne(f, v).holds(fields) <==> there && !(r is Equal)
            &&& Pred::Lt(f, v).holds(fields) <==> there && r is Less
            &&& Pred::Le(f, v).holds(fields) <==> there && (r is Less || r is Equal)
            &&& Pred::Gt(f, v).holds(fields) <==> there && r is Greater
            &&& Pred::Ge(f, v).holds(fields) <==> there && (r is Greater || r is Equal)
        }),
        Pred::In(f, vs).holds(fields) <==> fields.contains_key(f) && exists|i: int|
            0 <= i < vs.len() && relation(fields[f], #[trigger] vs[i]) is Equal,
        Pred::And(Box::new(p), Box::new(q)).holds(fields) <==> p.holds(fields) && q.holds(fields),
        Pred::Or(Box::new(p), Box::new(q)).holds(fields) <==> p.holds(fields) || q.holds(fields),
{
    if fields.contains_key(f) {
        order_is_relation(fields[f], v);
        assert forall|i: int| 0 <= i < vs.len() implies (relation(
            fields[f],
            #[trigger] vs[i],
        ) is Equal <==> sql::field_order(Some(fields[f]), vs[i]) == Some(FieldOrder::Equal)) by {
            order_is_relation(fields[f], vs[i]);
        }
        if exists|i: int| 0 <= i < vs.len() && relation(fields[f], #[trigger] vs[i]) is Equal {
            let i = choose|i: int|
                0 <= i < vs.len() && relation(fields[f], #[trigger] vs[i]) is Equal;
            assert(sql::field_order(Some(fields[f]), vs[i]) == Some(FieldOrder::Equal));
        }
    }
}

proof fn order_is_relation(field: payload::Field, value: Scalar)
    ensures
        sql::field_order(Some(field), value) == match relation(field, value) {
            Relation::Less => Some(FieldOrder::Less),
            Relation::Equal => Some(FieldOrder::Equal),
            Relation::Greater => Some(FieldOrder::Greater),
            Relation::Apart => None,
        },
{
    match (field, value) {
        (payload::Field::Number(a, _), Scalar::Number(b)) => {
            number_laws::doubles_compare_by_value(a, b);
            number_laws::doubles_compare_by_value(b, a);
        },
        (payload::Field::Text(a), Scalar::Text(b)) => {
            texts_compare_by_characters(a, b);
        },
        _ => {},
    }
}

/// A single comparison as tokens: a name, an operator and a constant, or a name, `IN` and constants
/// in brackets with commas between them; or tokens in brackets that stand for a filter.
pub open spec fn is_unit(u: Seq<Tok>) -> bool {
    ||| u.len() == 3 && u[0] is Ident && is_operator(u[1]) && is_constant(u[2])
    ||| exists|f: Seq<char>, vs: Seq<Scalar>|
        #![trigger sql_parser::predicate_tokens(Pred::In(f, vs))]
        sql_parser::writable(Pred::In(f, vs)) && u == sql_parser::predicate_tokens(Pred::In(f, vs))
    ||| exists|part: Seq<Tok>| u == #[trigger] bracket(part) && sql_parser::parsed(part) is Ok
}

/// Tokens in brackets.
pub open spec fn bracket(part: Seq<Tok>) -> Seq<Tok> {
    seq![Tok::LParen] + part + seq![Tok::RParen]
}

/// An operator that compares.
pub open spec fn is_operator(op: Tok) -> bool {
    op is Eq || op is Ne || op is Lt || op is Le || op is Gt || op is Ge
}

/// A number or a text.
pub open spec fn is_constant(v: Tok) -> bool {
    v is Number || v is Text
}

/// Parts one behind the other, with a token between each and the next.
pub open spec fn joined_by(parts: Seq<Seq<Tok>>, sep: Tok) -> Seq<Tok>
    decreases parts.len(),
{
    if parts.len() == 0 {
        Seq::empty()
    } else if parts.len() == 1 {
        parts[0]
    } else {
        parts[0] + seq![sep] + joined_by(parts.skip(1), sep)
    }
}

/// The comparison of a name and a constant by an operator.
pub open spec fn comparison_of(f: Seq<char>, op: Tok, v: Tok) -> Pred {
    let value = match v {
        Tok::Number(bits) => Scalar::Number(bits),
        Tok::Text(s) => Scalar::Text(s),
        _ => Scalar::Boolean(true),
    };
    match op {
        Tok::Eq => Pred::Eq(f, value),
        Tok::Ne => Pred::Ne(f, value),
        Tok::Lt => Pred::Lt(f, value),
        Tok::Le => Pred::Le(f, value),
        Tok::Gt => Pred::Gt(f, value),
        _ => Pred::Ge(f, value),
    }
}

/// A name, an operator and a constant stand for the comparison that the operator says.
pub proof fn comparisons_parse(f: Seq<char>, op: Tok, v: Tok)
    requires
        is_operator(op),
        is_constant(v),
    ensures
        sql_parser::parsed(seq![Tok::Ident(f), op, v]) == Ok::<Pred, Seq<char>>(
            comparison_of(f, op, v),
        ),
{
    let p = comparison_of(f, op, v);
    assert(sql_parser::predicate_tokens(p) =~= seq![Tok::Ident(f), op, v]);
    sql_parser::written_predicate_parses(p);
}

/// A name, `IN` and constants in brackets stand for the membership.
pub proof fn memberships_parse(f: Seq<char>, vs: Seq<Scalar>)
    requires
        vs.len() > 0,
        forall|i: int| 0 <= i < vs.len() ==> !((#[trigger] vs[i]) is Boolean),
    ensures
        sql_parser::parsed(sql_parser::predicate_tokens(Pred::In(f, vs))) == Ok::<Pred, Seq<char>>(
            Pred::In(f, vs),
        ),
{
    sql_parser::written_predicate_parses(Pred::In(f, vs));
}

/// A filter in brackets is parsed alike wherever it stands.
proof fn bracket_parses(tokens: Seq<Tok>, i: int, part: Seq<Tok>)
    requires
        sql_parser::parsed(part) is Ok,
        sql_parser::stands_at(tokens, i, bracket(part)),
    ensures
        sql_parser::parsed(bracket(part)) == sql_parser::parsed(part),
        sql_parser::primary_at(tokens, i) == Ok::<(Pred, int), Seq<char>>(
            (sql_parser::parsed(part)->Ok_0, i + bracket(part).len()),
        ),
{
    let u = bracket(part);
    let n = u.len() as int;
    assert forall|j: int| 0 <= j < part.len() + 2 implies #[trigger] tokens[i + j]
        == sql_laws::bracketed(part)[j] by {
        assert(tokens.subrange(i, i + u.len())[j] == u[j]);
    }
    sql_laws::bracketed_parses(tokens, i, part);
    assert forall|j: int| 0 <= j < part.len() + 2 implies #[trigger] u[0 + j]
        == sql_laws::bracketed(part)[j] by {}
    sql_laws::bracketed_parses(u, 0, part);
    let p = sql_parser::parsed(part)->Ok_0;
    assert(sql_parser::conjunction_from(u, n, p) == Ok::<(Pred, int), Seq<char>>((p, n)));
    assert(sql_parser::conjunction_at(u, 0) == Ok::<(Pred, int), Seq<char>>((p, n)));
    assert(sql_parser::disjunction_from(u, n, p) == Ok::<(Pred, int), Seq<char>>((p, n)));
}

/// A unit is parsed alike wherever it stands.
#[verifier::rlimit(40)]
#[verifier::spinoff_prover]
proof fn unit_parses(tokens: Seq<Tok>, i: int, u: Seq<Tok>)
    requires
        is_unit(u),
        sql_parser::stands_at(tokens, i, u),
    ensures
        u.len() > 0,
        sql_parser::parsed(u) is Ok,
        sql_parser::primary_at(tokens, i) == Ok::<(Pred, int), Seq<char>>(
            (sql_parser::parsed(u)->Ok_0, i + u.len()),
        ),
{
    if u.len() == 3 && u[0] is Ident && is_operator(u[1]) && is_constant(u[2]) {
        let (f, op, v) = (u[0]->Ident_0, u[1], u[2]);
        assert(u =~= seq![Tok::Ident(f), op, v]);
        comparisons_parse(f, op, v);
        let p = comparison_of(f, op, v);
        assert(sql_parser::predicate_tokens(p) =~= u);
        sql_parser::predicate_parses(tokens, i, p);
    } else if exists|f: Seq<char>, vs: Seq<Scalar>|
        #![trigger sql_parser::predicate_tokens(Pred::In(f, vs))]
        sql_parser::writable(Pred::In(f, vs)) && u == sql_parser::predicate_tokens(
            Pred::In(f, vs),
        ) {
        let (f, vs) = choose|f: Seq<char>, vs: Seq<Scalar>|
            #![trigger sql_parser::predicate_tokens(Pred::In(f, vs))]
            sql_parser::writable(Pred::In(f, vs)) && u == sql_parser::predicate_tokens(
                Pred::In(f, vs),
            );
        sql_parser::written_predicate_parses(Pred::In(f, vs));
        sql_parser::predicate_parses(tokens, i, Pred::In(f, vs));
    } else {
        let part = choose|part: Seq<Tok>|
            u == #[trigger] bracket(part) && sql_parser::parsed(part) is Ok;
        bracket_parses(tokens, i, part);
    }
}

/// The predicate that the tokens of a unit stand for holds of fields.
pub open spec fn unit_holds(u: Seq<Tok>, fields: Map<Seq<char>, payload::Field>) -> bool {
    sql_parser::parsed(u) matches Ok(p) && p.holds(fields)
}

/// All units of a group hold.
pub open spec fn all_hold(
    group: Seq<Seq<Tok>>,
    fields: Map<Seq<char>, payload::Field>,
) -> bool {
    forall|i: int| 0 <= i < group.len() ==> unit_holds(#[trigger] group[i], fields)
}

/// In one of the groups all units hold.
pub open spec fn one_holds(
    groups: Seq<Seq<Seq<Tok>>>,
    fields: Map<Seq<char>, payload::Field>,
) -> bool {
    exists|g: int| 0 <= g < groups.len() && all_hold(#[trigger] groups[g], fields)
}

/// Units joined by `AND`.
pub open spec fn conjunction_tokens(group: Seq<Seq<Tok>>) -> Seq<Tok> {
    joined_by(group, Tok::And)
}

/// The tokens of each group.
pub open spec fn group_parts(groups: Seq<Seq<Seq<Tok>>>) -> Seq<Seq<Tok>> {
    groups.map_values(|g: Seq<Seq<Tok>>| conjunction_tokens(g))
}

/// Groups joined by `OR`, each of units joined by `AND`.
pub open spec fn filter_tokens(groups: Seq<Seq<Seq<Tok>>>) -> Seq<Tok> {
    joined_by(group_parts(groups), Tok::Or)
}

/// Every unit of a group is one.
pub open spec fn all_units(group: Seq<Seq<Tok>>) -> bool {
    &&& group.len() > 0
    &&& forall|i: int| 0 <= i < group.len() ==> is_unit(#[trigger] group[i])
}

/// What `AND` joins to a predicate.
proof fn conjoined(tokens: Seq<Tok>, i: int, left: Pred, rest: Seq<Seq<Tok>>)
    requires
        rest.len() > 0 ==> sql_parser::stands_at(
            tokens,
            i,
            seq![Tok::And] + joined_by(rest, Tok::And),
        ),
        0 <= i <= tokens.len(),
        forall|j: int| 0 <= j < rest.len() ==> is_unit(#[trigger] rest[j]),
        ({
            let end = i + if rest.len() == 0 {
                0
            } else {
                1 + joined_by(rest, Tok::And).len() as int
            };
            sql_parser::token_at(tokens, end) != Some(Tok::And)
        }),
    ensures
        ({
            let end = i + if rest.len() == 0 {
                0
            } else {
                1 + joined_by(rest, Tok::And).len() as int
            };
            let r = sql_parser::conjunction_from(tokens, i, left);
            &&& r is Ok
            &&& r->Ok_0.1 == end
            &&& end <= tokens.len()
            &&& forall|fields: Map<Seq<char>, payload::Field>| #[trigger]
                r->Ok_0.0.holds(fields) <==> left.holds(fields) && all_hold(rest, fields)
        }),
    decreases rest.len(),
{
    if rest.len() == 0 {
    } else {
        let whole = joined_by(rest, Tok::And);
        let u = rest[0];
        let more = rest.skip(1);
        sql_parser::stands_at_parts(tokens, i, seq![Tok::And], whole);
        sql_parser::stands_at_one(tokens, i, Tok::And);
        if rest.len() > 1 {
            let tail = seq![Tok::And] + joined_by(more, Tok::And);
            assert(whole =~= u + tail);
            sql_parser::stands_at_parts(tokens, i + 1, u, tail);
        }
        unit_parses(tokens, i + 1, u);
        let right = sql_parser::parsed(u)->Ok_0;
        let next = i + 1 + u.len();
        let both = Pred::And(Box::new(left), Box::new(right));
        assert forall|j: int| 0 <= j < more.len() implies is_unit(#[trigger] more[j]) by {
            assert(more[j] == rest[j + 1]);
        }
        conjoined(tokens, next, both, more);
        assert forall|fields: Map<Seq<char>, payload::Field>| #[trigger]
            sql_parser::conjunction_from(tokens, i, left)->Ok_0.0.holds(fields) <==> left.holds(
                fields,
            ) && all_hold(rest, fields) by {
            let whole_pred = sql_parser::conjunction_from(tokens, next, both)->Ok_0.0;
            assert(whole_pred.holds(fields) <==> both.holds(fields) && all_hold(more, fields));
            assert(both.holds(fields) <==> left.holds(fields) && right.holds(fields));
            if all_hold(more, fields) && unit_holds(u, fields) {
                assert forall|j: int| 0 <= j < rest.len() implies unit_holds(
                    #[trigger] rest[j],
                    fields,
                ) by {
                    if j > 0 {
                        assert(rest[j] == more[j - 1]);
                    }
                }
            }
            if all_hold(rest, fields) {
                assert(unit_holds(rest[0], fields));
                assert forall|j: int| 0 <= j < more.len() implies unit_holds(
                    #[trigger] more[j],
                    fields,
                ) by {
                    assert(more[j] == rest[j + 1]);
                }
            }
        }
    }
}

/// A group of units joined by `AND`.
proof fn group_parses(tokens: Seq<Tok>, i: int, group: Seq<Seq<Tok>>)
    requires
        all_units(group),
        sql_parser::stands_at(tokens, i, conjunction_tokens(group)),
        sql_parser::token_at(tokens, i + conjunction_tokens(group).len()) != Some(Tok::And),
    ensures
        ({
            let end = i + conjunction_tokens(group).len();
            let r = sql_parser::conjunction_at(tokens, i);
            &&& r is Ok
            &&& r->Ok_0.1 == end
            &&& i < end <= tokens.len()
            &&& forall|fields: Map<Seq<char>, payload::Field>| #[trigger]
                r->Ok_0.0.holds(fields) <==> all_hold(group, fields)
        }),
{
    let u = group[0];
    let more = group.skip(1);
    let whole = conjunction_tokens(group);
    assert(is_unit(group[0]));
    if group.len() > 1 {
        let tail = seq![Tok::And] + joined_by(more, Tok::And);
        assert(whole =~= u + tail);
        sql_parser::stands_at_parts(tokens, i, u, tail);
    }
    unit_parses(tokens, i, u);
    let p = sql_parser::parsed(u)->Ok_0;
    assert forall|j: int| 0 <= j < more.len() implies is_unit(#[trigger] more[j]) by {
        assert(more[j] == group[j + 1]);
    }
    let next = i + u.len();
    conjoined(tokens, next, p, more);
    assert forall|fields: Map<Seq<char>, payload::Field>| #[trigger]
        sql_parser::conjunction_at(tokens, i)->Ok_0.0.holds(fields) <==> all_hold(
            group,
            fields,
        ) by {
        assert(sql_parser::conjunction_from(tokens, next, p)->Ok_0.0.holds(fields) <==> p.holds(
            fields,
        ) && all_hold(more, fields));
        if all_hold(more, fields) && unit_holds(u, fields) {
            assert forall|j: int| 0 <= j < group.len() implies unit_holds(
                #[trigger] group[j],
                fields,
            ) by {
                if j > 0 {
                    assert(group[j] == more[j - 1]);
                }
            }
        }
        if all_hold(group, fields) {
            assert(unit_holds(group[0], fields));
            assert forall|j: int| 0 <= j < more.len() implies unit_holds(#[trigger] more[j], fields) by {
                assert(more[j] == group[j + 1]);
            }
        }
    }
}

/// What `OR` joins to a predicate.
#[verifier::rlimit(60)]
#[verifier::spinoff_prover]
proof fn disjoined(tokens: Seq<Tok>, i: int, left: Pred, rest: Seq<Seq<Seq<Tok>>>)
    requires
        rest.len() > 0 ==> sql_parser::stands_at(
            tokens,
            i,
            seq![Tok::Or] + joined_by(group_parts(rest), Tok::Or),
        ),
        0 <= i <= tokens.len(),
        forall|j: int| 0 <= j < rest.len() ==> all_units(#[trigger] rest[j]),
        i + (if rest.len() == 0 {
            0
        } else {
            1 + joined_by(group_parts(rest), Tok::Or).len() as int
        }) == tokens.len(),
    ensures
        ({
            let r = sql_parser::disjunction_from(tokens, i, left);
            &&& r is Ok
            &&& r->Ok_0.1 == tokens.len()
            &&& forall|fields: Map<Seq<char>, payload::Field>| #[trigger]
                r->Ok_0.0.holds(fields) <==> left.holds(fields) || one_holds(rest, fields)
        }),
    decreases rest.len(),
{
    if rest.len() > 0 {
        let parts = group_parts(rest);
        let whole = joined_by(parts, Tok::Or);
        let group = rest[0];
        let more = rest.skip(1);
        assert(all_units(rest[0]));
        assert(group_parts(more) =~= parts.skip(1));
        sql_parser::stands_at_parts(tokens, i, seq![Tok::Or], whole);
        sql_parser::stands_at_one(tokens, i, Tok::Or);
        let own = conjunction_tokens(group);
        assert(parts[0] == own);
        let next = i + 1 + own.len();
        if rest.len() > 1 {
            let tail = seq![Tok::Or] + joined_by(group_parts(more), Tok::Or);
            assert(whole =~= own + tail);
            sql_parser::stands_at_parts(tokens, i + 1, own, tail);
            sql_parser::stands_at_parts(
                tokens,
                next,
                seq![Tok::Or],
                joined_by(group_parts(more), Tok::Or),
            );
            sql_parser::stands_at_one(tokens, next, Tok::Or);
        }
        group_parses(tokens, i + 1, group);
        let right = sql_parser::conjunction_at(tokens, i + 1)->Ok_0.0;
        let either = Pred::Or(Box::new(left), Box::new(right));
        assert forall|j: int| 0 <= j < more.len() implies all_units(#[trigger] more[j]) by {
            assert(more[j] == rest[j + 1]);
        }
        disjoined(tokens, next, either, more);
        assert forall|fields: Map<Seq<char>, payload::Field>| #[trigger]
            sql_parser::disjunction_from(tokens, i, left)->Ok_0.0.holds(fields) <==> left.holds(
                fields,
            ) || one_holds(rest, fields) by {
            assert(sql_parser::disjunction_from(tokens, next, either)->Ok_0.0.holds(fields)
                <==> either.holds(fields) || one_holds(more, fields));
            assert(either.holds(fields) <==> left.holds(fields) || right.holds(fields));
            assert(right.holds(fields) <==> all_hold(group, fields));
            if one_holds(more, fields) {
                let g = choose|g: int| 0 <= g < more.len() && all_hold(#[trigger] more[g], fields);
                assert(all_hold(rest[g + 1], fields));
            }
            if one_holds(rest, fields) {
                let g = choose|g: int| 0 <= g < rest.len() && all_hold(#[trigger] rest[g], fields);
                if g > 0 {
                    assert(all_hold(more[g - 1], fields));
                }
            }
            if all_hold(group, fields) {
                assert(all_hold(rest[0], fields));
            }
        }
    }
}

/// What joined comparisons stand for: tokens of groups joined by `OR`, each of units joined by
/// `AND`, parse to a predicate that holds of fields exactly where in at least one of the groups all
/// of the units hold. So `AND` binds closer than `OR`, for any number of either.
#[verifier::rlimit(60)]
#[verifier::spinoff_prover]
pub proof fn joined_comparisons_parse(groups: Seq<Seq<Seq<Tok>>>)
    requires
        groups.len() > 0,
        forall|g: int| 0 <= g < groups.len() ==> all_units(#[trigger] groups[g]),
    ensures
        sql_parser::parsed(filter_tokens(groups)) is Ok,
        forall|fields: Map<Seq<char>, payload::Field>| #[trigger]
            sql_parser::parsed(filter_tokens(groups))->Ok_0.holds(fields) <==> one_holds(
                groups,
                fields,
            ),
{
    let tokens = filter_tokens(groups);
    let parts = group_parts(groups);
    let group = groups[0];
    let more = groups.skip(1);
    assert(all_units(groups[0]));
    assert(group_parts(more) =~= parts.skip(1));
    let own = conjunction_tokens(group);
    assert(parts[0] == own);
    assert(tokens == joined_by(parts, Tok::Or));
    let next = own.len() as int;
    assert(tokens.subrange(0, tokens.len() as int) =~= tokens);
    assert(sql_parser::stands_at(tokens, 0, tokens));
    if groups.len() > 1 {
        let tail = seq![Tok::Or] + joined_by(group_parts(more), Tok::Or);
        assert(tokens =~= own + tail);
        sql_parser::stands_at_parts(tokens, 0, own, tail);
        sql_parser::stands_at_parts(
            tokens,
            next,
            seq![Tok::Or],
            joined_by(group_parts(more), Tok::Or),
        );
        sql_parser::stands_at_one(tokens, next, Tok::Or);
    }
    group_parses(tokens, 0, group);
    let p = sql_parser::conjunction_at(tokens, 0)->Ok_0.0;
    assert forall|j: int| 0 <= j < more.len() implies all_units(#[trigger] more[j]) by {
        assert(more[j] == groups[j + 1]);
    }
    disjoined(tokens, next, p, more);
    assert forall|fields: Map<Seq<char>, payload::Field>| #[trigger]
        sql_parser::parsed(tokens)->Ok_0.holds(fields) <==> one_holds(groups, fields) by {
        assert(sql_parser::disjunction_from(tokens, next, p)->Ok_0.0.holds(fields) <==> p.holds(
            fields,
        ) || one_holds(more, fields));
        assert(p.holds(fields) <==> all_hold(group, fields));
        if one_holds(more, fields) {
            let g = choose|g: int| 0 <= g < more.len() && all_hold(#[trigger] more[g], fields);
            assert(all_hold(groups[g + 1], fields));
        }
        if one_holds(groups, fields) {
            let g = choose|g: int| 0 <= g < groups.len() && all_hold(#[trigger] groups[g], fields);
            if g > 0 {
                assert(all_hold(more[g - 1], fields));
            }
        }
        if all_hold(group, fields) {
            assert(all_hold(groups[0], fields));
        }
    }
}

/// A word is `AND`, in capital or small letters.
pub open spec fn is_and(w: Seq<char>) -> bool {
    &&& w.len() == 3
    &&& w[0] == 'A' || w[0] == 'a'
    &&& w[1] == 'N' || w[1] == 'n'
    &&& w[2] == 'D' || w[2] == 'd'
}

/// A word is `OR`, in capital or small letters.
pub open spec fn is_or(w: Seq<char>) -> bool {
    &&& w.len() == 2
    &&& w[0] == 'O' || w[0] == 'o'
    &&& w[1] == 'R' || w[1] == 'r'
}

/// A word is `IN`, in capital or small letters.
pub open spec fn is_in(w: Seq<char>) -> bool {
    &&& w.len() == 2
    &&& w[0] == 'I' || w[0] == 'i'
    &&& w[1] == 'N' || w[1] == 'n'
}

/// A character of a name.
pub open spec fn in_name(c: char) -> bool {
    'a' <= c <= 'z' || 'A' <= c <= 'Z' || '0' <= c <= '9' || c == '_' || c == '.'
}

/// A name that a field can have in a filter: it begins with a letter or an underscore, has letters,
/// digits, underscores and points alone, and is none of the five words with a meaning of their own.
pub open spec fn is_name(w: Seq<char>) -> bool {
    &&& w.len() > 0
    &&& 'a' <= w[0] <= 'z' || 'A' <= w[0] <= 'Z' || w[0] == '_'
    &&& forall|i: int| 0 <= i < w.len() ==> in_name(#[trigger] w[i])
    &&& !is_and(w) && !is_or(w) && !is_in(w)
    &&& !text::reads_as(w, "TRUE"@) && !text::reads_as(w, "FALSE"@)
}

proof fn run_of_name(w: Seq<char>, i: int)
    requires
        0 <= i <= w.len(),
        forall|j: int| 0 <= j < w.len() ==> in_name(#[trigger] w[j]),
    ensures
        sql_lexer::run_end(w, i, CharClass::WordPart) == w.len(),
    decreases w.len() - i,
{
    if i < w.len() {
        assert(in_name(w[i]));
        run_of_name(w, i + 1);
    }
}

/// A text that is one word has one token.
proof fn word_tokens(w: Seq<char>)
    requires
        w.len() > 0,
        'a' <= w[0] <= 'z' || 'A' <= w[0] <= 'Z' || w[0] == '_',
        forall|i: int| 0 <= i < w.len() ==> in_name(#[trigger] w[i]),
    ensures
        sql_lexer::tokens_from(w, 0) == Ok::<Seq<Tok>, Seq<char>>(seq![sql_lexer::word_token(w)]),
{
    run_of_name(w, 0);
    assert(w.subrange(0, w.len() as int) =~= w);
    assert(sql_lexer::piece_at(w, 0) == Ok::<(Piece, int), Seq<char>>(
        (Piece::Token(sql_lexer::word_token(w)), w.len() as int),
    ));
    assert(sql_lexer::tokens_from(w, w.len() as int) == Ok::<Seq<Tok>, Seq<char>>(Seq::empty()));
    assert(seq![sql_lexer::word_token(w)] + Seq::<Tok>::empty() =~= seq![sql_lexer::word_token(w)]);
}

/// What words stand for: `AND`, `OR` and `IN` in capital or small letters are keywords, and every
/// name stands for itself.
pub proof fn words_are_read(w: Seq<char>)
    ensures
        is_and(w) ==> sql_lexer::tokens_from(w, 0) == Ok::<Seq<Tok>, Seq<char>>(seq![Tok::And]),
        is_or(w) ==> sql_lexer::tokens_from(w, 0) == Ok::<Seq<Tok>, Seq<char>>(seq![Tok::Or]),
        is_in(w) ==> sql_lexer::tokens_from(w, 0) == Ok::<Seq<Tok>, Seq<char>>(seq![Tok::In]),
        is_name(w) ==> sql_lexer::tokens_from(w, 0) == Ok::<Seq<Tok>, Seq<char>>(
            seq![Tok::Ident(w)],
        ),
{
    reveal_strlit("AND");
    reveal_strlit("OR");
    reveal_strlit("IN");
    if is_and(w) || is_or(w) || is_in(w) {
        assert forall|i: int| 0 <= i < w.len() implies in_name(#[trigger] w[i]) by {}
        word_tokens(w);
        assert(text::ascii_upper('a') == 'A' && text::ascii_upper('n') == 'N' && text::ascii_upper(
            'd',
        ) == 'D' && text::ascii_upper('o') == 'O' && text::ascii_upper('r') == 'R'
            && text::ascii_upper('i') == 'I');
        if is_or(w) {
            assert(text::reads_as(w, "OR"@));
        }
        if is_in(w) {
            assert(text::ascii_upper(w[0]) == 'I');
            assert(!text::reads_as(w, "OR"@));
            assert(text::reads_as(w, "IN"@));
        }
    }
    if is_name(w) {
        word_tokens(w);
        if text::reads_as(w, "AND"@) {
            upper_is(w[0], 'A', 'a');
            upper_is(w[1], 'N', 'n');
            upper_is(w[2], 'D', 'd');
        }
        if text::reads_as(w, "OR"@) {
            upper_is(w[0], 'O', 'o');
            upper_is(w[1], 'R', 'r');
        }
        if text::reads_as(w, "IN"@) {
            upper_is(w[0], 'I', 'i');
            upper_is(w[1], 'N', 'n');
        }
    }
}

proof fn upper_is(c: char, capital: char, small: char)
    requires
        'A' <= capital <= 'Z',
        small as int == capital as int + 32,
        text::ascii_upper(c) == capital,
    ensures
        c == capital || c == small,
{
}

/// An operator is spelled.
pub open spec fn spells(o: Seq<char>, op: Tok) -> bool {
    match op {
        Tok::Eq => o == seq!['='],
        Tok::Ne => o == seq!['!', '='] || o == seq!['<', '>'],
        Tok::Lt => o == seq!['<'],
        Tok::Le => o == seq!['<', '='],
        Tok::Gt => o == seq!['>'],
        Tok::Ge => o == seq!['>', '='],
        _ => false,
    }
}

/// What operators stand for.
pub proof fn operators_are_read(o: Seq<char>, op: Tok)
    requires
        spells(o, op),
    ensures
        sql_lexer::tokens_from(o, 0) == Ok::<Seq<Tok>, Seq<char>>(seq![op]),
{
    let n = o.len() as int;
    assert(!text::is_space(o[0]) && !text::is_digit(o[0]) && !text::is_letter(o[0]));
    assert(sql_lexer::piece_at(o, 0) == Ok::<(Piece, int), Seq<char>>((Piece::Token(op), n)));
    assert(sql_lexer::tokens_from(o, n) == Ok::<Seq<Tok>, Seq<char>>(Seq::empty()));
    assert(seq![op] + Seq::<Tok>::empty() =~= seq![op]);
}

/// A constant is spelled: a text between two quotes of one kind that it does not hold itself, or a
/// decimal number.
pub open spec fn spells_constant(v: Seq<char>, value: Scalar) -> bool {
    match value {
        Scalar::Text(s) => exists|q: char|
            (q == '\'' || q == '"') && v == #[trigger] quoted(q, s) && !s.contains(q),
        Scalar::Number(bits) => sql_lexer::decimal_text(v) && sql_lexer::double_of_text(v) == Some(
            bits,
        ),
        Scalar::Boolean(_) => false,
    }
}

/// A text between quotes.
pub open spec fn quoted(q: char, s: Seq<char>) -> Seq<char> {
    seq![q] + s + seq![q]
}

/// The token of a constant.
pub open spec fn constant_token(value: Scalar) -> Tok {
    match value {
        Scalar::Text(s) => Tok::Text(s),
        Scalar::Number(bits) => Tok::Number(bits),
        Scalar::Boolean(_) => Tok::Comma,
    }
}

proof fn run_unquoted(v: Seq<char>, q: char, s: Seq<char>, i: int)
    requires
        v == quoted(q, s),
        !s.contains(q),
        0 <= i <= s.len(),
    ensures
        sql_lexer::run_end(v, i + 1, CharClass::Unquoted(q)) == s.len() + 1,
    decreases s.len() - i,
{
    if i < s.len() {
        assert(v[i + 1] == s[i]);
        assert(s.contains(s[i]));
        run_unquoted(v, q, s, i + 1);
    } else {
        assert(v[i + 1] == q);
    }
}

proof fn run_of_digits(v: Seq<char>, from: int, i: int)
    requires
        0 <= from <= i <= v.len(),
        forall|j: int| from <= j < v.len() ==> text::is_digit(#[trigger] v[j]) || v[j] == '.',
    ensures
        sql_lexer::run_end(v, i, CharClass::NumberPart) == v.len(),
    decreases v.len() - i,
{
    if i < v.len() {
        run_of_digits(v, from, i + 1);
    }
}

/// What constants stand for.
pub proof fn constants_are_read(v: Seq<char>, value: Scalar)
    requires
        spells_constant(v, value),
    ensures
        sql_lexer::tokens_from(v, 0) == Ok::<Seq<Tok>, Seq<char>>(seq![constant_token(value)]),
{
    let n = v.len() as int;
    let t = constant_token(value);
    match value {
        Scalar::Text(s) => {
            let q = choose|q: char|
                (q == '\'' || q == '"') && v == #[trigger] quoted(q, s) && !s.contains(q);
            run_unquoted(v, q, s, 0);
            assert(v[0] == q);
            assert(v.subrange(1, s.len() as int + 1) =~= s);
            assert(sql_lexer::piece_at(v, 0) == Ok::<(Piece, int), Seq<char>>((Piece::Token(t), n)));
        },
        Scalar::Number(bits) => {
            let from = if v[0] == '-' {
                1int
            } else {
                0int
            };
            run_of_digits(v, from, from);
            assert(v.subrange(0, n) =~= v);
            assert(sql_lexer::piece_at(v, 0) == Ok::<(Piece, int), Seq<char>>(
                (Piece::Number(v), n),
            ));
        },
        _ => {},
    }
    assert(sql_lexer::tokens_from(v, n) == Ok::<Seq<Tok>, Seq<char>>(Seq::empty()));
    assert(seq![t] + Seq::<Tok>::empty() =~= seq![t]);
}

/// What the text of a comparison stands for: the predicate holds of fields exactly where there is a
/// field of that name whose value relates to the constant as the operator says.
pub proof fn comparison_texts_mean(f: Seq<char>, o: Seq<char>, op: Tok, v: Seq<char>, value: Scalar)
    requires
        is_name(f),
        spells(o, op),
        spells_constant(v, value),
    ensures
        ({
            let s = f + seq![' '] + (o + seq![' '] + v);
            &&& sql_lexer::tokens_from(s, 0) == Ok::<Seq<Tok>, Seq<char>>(
                seq![Tok::Ident(f), op, constant_token(value)],
            )
            &&& sql_parser::parsed_text(s) is Ok
            &&& forall|fields: Map<Seq<char>, payload::Field>| #[trigger]
                sql_parser::parsed_text(s)->Ok_0.holds(fields) <==> fields.contains_key(f) && {
                    let r = relation(fields[f], value);
                    match op {
                        Tok::Eq => r is Equal,
                        Tok::Ne => !(r is Equal),
                        Tok::Lt => r is Less,
                        Tok::Le => r is Less || r is Equal,
                        Tok::Gt => r is Greater,
                        _ => r is Greater || r is Equal,
                    }
                }
        }),
{
    let c = constant_token(value);
    let rest = o + seq![' '] + v;
    words_are_read(f);
    operators_are_read(o, op);
    constants_are_read(v, value);
    sql_laws::tokens_of_joined_texts(o, v);
    sql_laws::tokens_of_joined_texts(f, rest);
    assert(seq![op] + seq![c] =~= seq![op, c]);
    assert(seq![Tok::Ident(f)] + seq![op, c] =~= seq![Tok::Ident(f), op, c]);
    comparisons_parse(f, op, c);
    assert forall|fields: Map<Seq<char>, payload::Field>| #[trigger]
        comparison_of(f, op, c).holds(fields) <==> fields.contains_key(f) && {
            let r = relation(fields[f], value);
            match op {
                Tok::Eq => r is Equal,
                Tok::Ne => !(r is Equal),
                Tok::Lt => r is Less,
                Tok::Le => r is Less || r is Equal,
                Tok::Gt => r is Greater,
                _ => r is Greater || r is Equal,
            }
        } by {
        predicates_mean(
            fields,
            f,
            value,
            Seq::empty(),
            Pred::Eq(f, value),
            Pred::Eq(f, value),
        );
    }
}

/// Constants with a comma and a blank between each and the next.
pub open spec fn listed(vs: Seq<Seq<char>>) -> Seq<char>
    decreases vs.len(),
{
    if vs.len() == 0 {
        Seq::empty()
    } else if vs.len() == 1 {
        vs[0]
    } else {
        vs[0] + (seq![',', ' '] + listed(vs.skip(1)))
    }
}

proof fn tokens_behind_comma(t: Seq<char>)
    ensures
        sql_lexer::tokens_from(seq![',', ' '] + t, 0) == sql_laws::followed_by(
            seq![Tok::Comma],
            sql_lexer::tokens_from(t, 0),
        ),
{
    let full = seq![',', ' '] + t;
    assert(full[0] == ',' && full[1] == ' ');
    assert(sql_lexer::piece_at(full, 0) == Ok::<(Piece, int), Seq<char>>(
        (Piece::Token(Tok::Comma), 1),
    ));
    sql_laws::tokens_are_shifted(seq![',', ' '], t, 0);
    assert(sql_lexer::tokens_from(full, 1) == sql_lexer::tokens_from(full, 2));
}

proof fn listed_tokens(vs: Seq<Seq<char>>, values: Seq<Scalar>)
    requires
        vs.len() == values.len(),
        vs.len() > 0,
        forall|i: int| 0 <= i < vs.len() ==> spells_constant(#[trigger] vs[i], values[i]),
    ensures
        sql_lexer::tokens_from(listed(vs), 0) == Ok::<Seq<Tok>, Seq<char>>(
            seq![constant_token(values[0])] + sql_parser::more_scalar_tokens(values.skip(1)),
        ),
    decreases vs.len(),
{
    assert(spells_constant(vs[0], values[0]));
    constants_are_read(vs[0], values[0]);
    let c = constant_token(values[0]);
    if vs.len() == 1 {
        assert(values.skip(1).len() == 0);
        assert(seq![c] + sql_parser::more_scalar_tokens(values.skip(1)) =~= seq![c]);
    } else {
        let (rest, others) = (vs.skip(1), values.skip(1));
        assert forall|i: int| 0 <= i < rest.len() implies spells_constant(
            #[trigger] rest[i],
            others[i],
        ) by {
            assert(spells_constant(vs[i + 1], values[i + 1]));
        }
        listed_tokens(rest, others);
        let t = seq![',', ' '] + listed(rest);
        tokens_behind_comma(listed(rest));
        assert(t[0] == ',');
        sql_laws::tokens_are_local(vs[0], t, 0);
        assert(spells_constant(rest[0], others[0]));
        assert(sql_parser::scalar_tokens(others[0]) =~= seq![constant_token(others[0])]);
        let tail = sql_parser::more_scalar_tokens(others.skip(1));
        assert(sql_parser::more_scalar_tokens(others) =~= seq![Tok::Comma] + (seq![
            constant_token(others[0]),
        ] + tail));
    }
}

/// What the text of a membership stands for: the predicate holds of fields exactly where there is a
/// field of that name whose value equals one of the constants.
pub proof fn membership_texts_mean(
    f: Seq<char>,
    word: Seq<char>,
    vs: Seq<Seq<char>>,
    values: Seq<Scalar>,
)
    requires
        is_name(f),
        is_in(word),
        vs.len() > 0,
        vs.len() == values.len(),
        forall|i: int| 0 <= i < vs.len() ==> spells_constant(#[trigger] vs[i], values[i]),
    ensures
        ({
            let s = f + seq![' '] + (word + seq![' '] + (seq!['('] + listed(vs) + seq![')']));
            &&& sql_lexer::tokens_from(s, 0) is Ok
            &&& is_unit(sql_lexer::tokens_from(s, 0)->Ok_0)
            &&& sql_parser::parsed_text(s) is Ok
            &&& forall|fields: Map<Seq<char>, payload::Field>| #[trigger]
                sql_parser::parsed_text(s)->Ok_0.holds(fields) <==> fields.contains_key(f)
                    && exists|i: int|
                    0 <= i < values.len() && relation(fields[f], #[trigger] values[i]) is Equal
        }),
{
    let inner = seq![constant_token(values[0])] + sql_parser::more_scalar_tokens(values.skip(1));
    let list = seq!['('] + listed(vs) + seq![')'];
    let p = Pred::In(f, values);
    assert forall|i: int| 0 <= i < values.len() implies !((#[trigger] values[i]) is Boolean) by {
        assert(spells_constant(vs[i], values[i]));
    }
    listed_tokens(vs, values);
    words_are_read(f);
    words_are_read(word);
    assert(list + Seq::<char>::empty() =~= list);
    sql_laws::tokens_of_bracketed(listed(vs), Seq::empty());
    assert(sql_lexer::tokens_from(Seq::<char>::empty(), 0) == Ok::<Seq<Tok>, Seq<char>>(
        Seq::empty(),
    ));
    let around = bracket(inner);
    assert(sql_laws::bracketed(inner) + Seq::<Tok>::empty() =~= around);
    sql_laws::tokens_of_joined_texts(word, list);
    sql_laws::tokens_of_joined_texts(f, word + seq![' '] + list);
    assert(sql_parser::scalar_tokens(values[0]) =~= seq![constant_token(values[0])]);
    assert(seq![Tok::Ident(f)] + (seq![Tok::In] + around) =~= sql_parser::predicate_tokens(p));
    memberships_parse(f, values);
    assert(sql_parser::writable(p));
    assert forall|fields: Map<Seq<char>, payload::Field>| #[trigger]
        p.holds(fields) <==> fields.contains_key(f) && exists|i: int|
            0 <= i < values.len() && relation(fields[f], #[trigger] values[i]) is Equal by {
        predicates_mean(fields, f, Scalar::Number(0), values, p, p);
    }
}

/// Texts with a word and blanks between each and the next.
pub open spec fn texts_joined(parts: Seq<Seq<char>>, word: Seq<char>) -> Seq<char>
    decreases parts.len(),
{
    if parts.len() == 0 {
        Seq::empty()
    } else if parts.len() == 1 {
        parts[0]
    } else {
        parts[0] + seq![' '] + (word + seq![' '] + texts_joined(parts.skip(1), word))
    }
}

/// The tokens of texts.
spec fn tokens_of(parts: Seq<Seq<char>>) -> Seq<Seq<Tok>> {
    parts.map_values(|s: Seq<char>| sql_lexer::tokens_from(s, 0)->Ok_0)
}

proof fn joined_tokens(parts: Seq<Seq<char>>, word: Seq<char>, sep: Tok)
    requires
        parts.len() > 0,
        sql_lexer::tokens_from(word, 0) == Ok::<Seq<Tok>, Seq<char>>(seq![sep]),
        forall|i: int|
            0 <= i < parts.len() ==> sql_lexer::tokens_from(#[trigger] parts[i], 0) is Ok,
    ensures
        sql_lexer::tokens_from(texts_joined(parts, word), 0) == Ok::<Seq<Tok>, Seq<char>>(
            joined_by(tokens_of(parts), sep),
        ),
    decreases parts.len(),
{
    assert(sql_lexer::tokens_from(parts[0], 0) is Ok);
    assert(tokens_of(parts)[0] == sql_lexer::tokens_from(parts[0], 0)->Ok_0);
    if parts.len() > 1 {
        let rest = parts.skip(1);
        assert forall|i: int| 0 <= i < rest.len() implies sql_lexer::tokens_from(
            #[trigger] rest[i],
            0,
        ) is Ok by {
            assert(rest[i] == parts[i + 1]);
        }
        joined_tokens(rest, word, sep);
        assert(tokens_of(rest) =~= tokens_of(parts).skip(1));
        let t = texts_joined(rest, word);
        sql_laws::tokens_of_joined_texts(word, t);
        sql_laws::tokens_of_joined_texts(parts[0], word + seq![' '] + t);
        let more = joined_by(tokens_of(rest), sep);
        assert(tokens_of(parts)[0] + (seq![sep] + more) =~= tokens_of(parts)[0] + seq![sep] + more);
    }
}

/// The text of a single comparison, of a membership, or of a filter in brackets.
pub open spec fn is_unit_text(s: Seq<char>) -> bool {
    sql_lexer::tokens_from(s, 0) matches Ok(u) && is_unit(u)
}

/// The predicate that a text stands for holds of fields.
pub open spec fn text_holds(s: Seq<char>, fields: Map<Seq<char>, payload::Field>) -> bool {
    sql_parser::parsed_text(s) matches Ok(p) && p.holds(fields)
}

/// All texts of a group hold.
pub open spec fn all_texts_hold(
    group: Seq<Seq<char>>,
    fields: Map<Seq<char>, payload::Field>,
) -> bool {
    forall|i: int| 0 <= i < group.len() ==> text_holds(#[trigger] group[i], fields)
}

/// Groups of texts joined by one word, each of texts joined by another.
pub open spec fn filter_text(
    groups: Seq<Seq<Seq<char>>>,
    and_word: Seq<char>,
    or_word: Seq<char>,
) -> Seq<char> {
    texts_joined(groups.map_values(|g: Seq<Seq<char>>| texts_joined(g, and_word)), or_word)
}

/// A filter in brackets may stand wherever a comparison may.
pub proof fn bracketed_texts_are_units(s: Seq<char>)
    requires
        sql_parser::parsed_text(s) is Ok,
    ensures
        is_unit_text(seq!['('] + s + seq![')']),
{
    let text = seq!['('] + s + seq![')'];
    assert(text + Seq::<char>::empty() =~= text);
    sql_laws::tokens_of_bracketed(s, Seq::empty());
    assert(sql_lexer::tokens_from(Seq::<char>::empty(), 0) == Ok::<Seq<Tok>, Seq<char>>(
        Seq::empty(),
    ));
    let own = sql_lexer::tokens_from(s, 0)->Ok_0;
    assert(sql_laws::bracketed(own) + Seq::<Tok>::empty() =~= bracket(own));
}

/// What the text of a filter stands for: texts of comparisons, memberships or filters in brackets,
/// joined by `AND` to groups that are joined by `OR`, stand for a predicate that holds of fields
/// exactly where in at least one group every text on its own holds. This is so for any number of
/// texts and groups.
pub proof fn filter_texts_mean(
    groups: Seq<Seq<Seq<char>>>,
    and_word: Seq<char>,
    or_word: Seq<char>,
)
    requires
        is_and(and_word),
        is_or(or_word),
        groups.len() > 0,
        forall|g: int| 0 <= g < groups.len() ==> (#[trigger] groups[g]).len() > 0,
        forall|g: int, i: int|
            0 <= g < groups.len() && 0 <= i < groups[g].len() ==> is_unit_text(
                #[trigger] groups[g][i],
            ),
    ensures
        sql_parser::parsed_text(filter_text(groups, and_word, or_word)) is Ok,
        forall|fields: Map<Seq<char>, payload::Field>| #[trigger]
            sql_parser::parsed_text(filter_text(groups, and_word, or_word))->Ok_0.holds(fields)
                <==> exists|g: int|
                0 <= g < groups.len() && all_texts_hold(#[trigger] groups[g], fields),
{
    let texts = groups.map_values(|g: Seq<Seq<char>>| texts_joined(g, and_word));
    let token_groups = groups.map_values(|g: Seq<Seq<char>>| tokens_of(g));
    words_are_read(and_word);
    words_are_read(or_word);
    assert forall|g: int| 0 <= g < groups.len() implies sql_lexer::tokens_from(
        #[trigger] texts[g],
        0,
    ) == Ok::<Seq<Tok>, Seq<char>>(conjunction_tokens(token_groups[g])) by {
        assert forall|i: int| 0 <= i < groups[g].len() implies sql_lexer::tokens_from(
            #[trigger] groups[g][i],
            0,
        ) is Ok by {
            assert(is_unit_text(groups[g][i]));
        }
        assert(groups[g].len() > 0);
        joined_tokens(groups[g], and_word, Tok::And);
    }
    joined_tokens(texts, or_word, Tok::Or);
    assert(tokens_of(texts) =~= token_groups.map_values(
        |g: Seq<Seq<Tok>>| conjunction_tokens(g),
    ));
    assert forall|g: int| 0 <= g < token_groups.len() implies all_units(
        #[trigger] token_groups[g],
    ) by {
        assert(groups[g].len() > 0);
        assert forall|i: int| 0 <= i < token_groups[g].len() implies is_unit(
            #[trigger] token_groups[g][i],
        ) by {
            assert(is_unit_text(groups[g][i]));
        }
    }
    joined_comparisons_parse(token_groups);
    let whole = sql_parser::parsed(filter_tokens(token_groups))->Ok_0;
    assert(sql_parser::parsed_text(filter_text(groups, and_word, or_word)) == Ok::<
        Pred,
        Seq<char>,
    >(whole));
    assert forall|fields: Map<Seq<char>, payload::Field>| #[trigger]
        whole.holds(fields) <==> exists|g: int|
            0 <= g < groups.len() && all_texts_hold(#[trigger] groups[g], fields) by {
        groups_hold_alike(groups, token_groups, fields);
    }
}

proof fn groups_hold_alike(
    groups: Seq<Seq<Seq<char>>>,
    token_groups: Seq<Seq<Seq<Tok>>>,
    fields: Map<Seq<char>, payload::Field>,
)
    requires
        token_groups == groups.map_values(|g: Seq<Seq<char>>| tokens_of(g)),
        forall|g: int, i: int|
            0 <= g < groups.len() && 0 <= i < groups[g].len() ==> is_unit_text(
                #[trigger] groups[g][i],
            ),
    ensures
        one_holds(token_groups, fields) <==> exists|g: int|
            0 <= g < groups.len() && all_texts_hold(#[trigger] groups[g], fields),
{
    assert forall|g: int| 0 <= g < groups.len() implies all_hold(
        #[trigger] token_groups[g],
        fields,
    ) == all_texts_hold(groups[g], fields) by {
        let (texts, units) = (groups[g], token_groups[g]);
        assert forall|i: int| 0 <= i < texts.len() implies text_holds(#[trigger] texts[i], fields)
            == unit_holds(units[i], fields) by {
            assert(is_unit_text(groups[g][i]));
        }
        if all_hold(units, fields) {
            assert forall|i: int| 0 <= i < texts.len() implies text_holds(
                #[trigger] texts[i],
                fields,
            ) by {
                assert(unit_holds(units[i], fields));
            }
        }
        if all_texts_hold(texts, fields) {
            assert forall|i: int| 0 <= i < units.len() implies unit_holds(
                #[trigger] units[i],
                fields,
            ) by {
                assert(text_holds(texts[i], fields));
            }
        }
    }
    if one_holds(token_groups, fields) {
        let g = choose|g: int|
            0 <= g < token_groups.len() && all_hold(#[trigger] token_groups[g], fields);
        assert(all_texts_hold(groups[g], fields));
    }
    if exists|g: int| 0 <= g < groups.len() && all_texts_hold(#[trigger] groups[g], fields) {
        let g = choose|g: int| 0 <= g < groups.len() && all_texts_hold(#[trigger] groups[g], fields);
        assert(all_hold(token_groups[g], fields));
    }
}

} // verus!
