//! Which tokens are a filter.

use crate::filter_laws;
use crate::sql::{Pred, Scalar};
use crate::sql_lexer::Tok;
use crate::sql_parser;
use vstd::prelude::*;

verus! {

proof fn scalar_is_constant(tokens: Seq<Tok>, i: int)
    requires
        0 <= i,
        sql_parser::scalar_at(tokens, i) is Ok,
    ensures
        ({
            let (v, next) = sql_parser::scalar_at(tokens, i)->Ok_0;
            &&& i < tokens.len()
            &&& next == i + 1
            &&& !(v is Boolean)
            &&& filter_laws::is_constant(tokens[i])
            &&& tokens.subrange(i, i + 1) == sql_parser::scalar_tokens(v)
        }),
{
    let (v, next) = sql_parser::scalar_at(tokens, i)->Ok_0;
    assert(tokens.subrange(i, i + 1) =~= sql_parser::scalar_tokens(v));
}

proof fn scalars_are_listed(tokens: Seq<Tok>, i: int, values: Seq<Scalar>) -> (more: Seq<Scalar>)
    requires
        0 <= i <= tokens.len(),
        sql_parser::scalars_from(tokens, i, values) is Ok,
    ensures
        ({
            let (all, end) = sql_parser::scalars_from(tokens, i, values)->Ok_0;
            &&& all == values + more
            &&& i <= end <= tokens.len()
            &&& tokens.subrange(i, end) == sql_parser::more_scalar_tokens(more)
            &&& forall|j: int| 0 <= j < more.len() ==> !((#[trigger] more[j]) is Boolean)
        }),
    decreases tokens.len() - i,
{
    let (all, end) = sql_parser::scalars_from(tokens, i, values)->Ok_0;
    if sql_parser::token_at(tokens, i) == Some(Tok::Comma) {
        let (v, next) = sql_parser::scalar_at(tokens, i + 1)->Ok_0;
        scalar_is_constant(tokens, i + 1);
        let rest = scalars_are_listed(tokens, next, values.push(v));
        let more = seq![v] + rest;
        assert(values.push(v) + rest =~= values + more);
        assert(more.skip(1) =~= rest);
        assert(tokens.subrange(i, end) =~= seq![Tok::Comma] + tokens.subrange(i + 1, i + 2)
            + tokens.subrange(i + 2, end));
        assert forall|j: int| 0 <= j < more.len() implies !((#[trigger] more[j]) is Boolean) by {
            if j > 0 {
                assert(more[j] == rest[j - 1]);
            }
        }
        more
    } else {
        let more = Seq::<Scalar>::empty();
        assert(values + more =~= values);
        assert(tokens.subrange(i, end) =~= Seq::empty());
        more
    }
}

proof fn primary_is_unit(tokens: Seq<Tok>, i: int)
    requires
        0 <= i <= tokens.len(),
        sql_parser::primary_at(tokens, i) is Ok,
    ensures
        ({
            let end = sql_parser::primary_at(tokens, i)->Ok_0.1;
            &&& i < end <= tokens.len()
            &&& filter_laws::is_unit(tokens.subrange(i, end))
        }),
    decreases tokens.len() - i, 0int,
{
    let end = sql_parser::primary_at(tokens, i)->Ok_0.1;
    let u = tokens.subrange(i, end);
    if tokens[i] == Tok::LParen {
        let e = sql_parser::disjunction_at(tokens, i + 1)->Ok_0.1;
        let groups = disjunction_is_groups(tokens, i + 1);
        let part = tokens.subrange(i + 1, e);
        filter_laws::joined_comparisons_parse(groups);
        assert(u =~= filter_laws::bracket(part));
        assert(sql_parser::parsed(part) is Ok);
    } else if sql_parser::token_at(tokens, i + 1) == Some(Tok::In) {
        let f = tokens[i]->Ident_0;
        scalar_is_constant(tokens, i + 3);
        let first = sql_parser::scalar_at(tokens, i + 3)->Ok_0.0;
        let more = scalars_are_listed(tokens, i + 4, seq![first]);
        let vs = seq![first] + more;
        let e = sql_parser::scalars_from(tokens, i + 4, seq![first])->Ok_0.1;
        assert(vs.skip(1) =~= more);
        assert forall|j: int| 0 <= j < vs.len() implies !((#[trigger] vs[j]) is Boolean) by {
            if j > 0 {
                assert(vs[j] == more[j - 1]);
            }
        }
        assert(sql_parser::writable(Pred::In(f, vs)));
        assert(u =~= seq![Tok::Ident(f), Tok::In, Tok::LParen] + tokens.subrange(i + 3, i + 4)
            + tokens.subrange(i + 4, e) + seq![Tok::RParen]);
        assert(u == sql_parser::predicate_tokens(Pred::In(f, vs)));
    } else {
        scalar_is_constant(tokens, i + 2);
        assert(u[0] == tokens[i] && u[1] == tokens[i + 1] && u[2] == tokens[i + 2]);
    }
}

proof fn conjunction_goes_on(tokens: Seq<Tok>, i: int, left: Pred) -> (rest: Seq<Seq<Tok>>)
    requires
        0 <= i <= tokens.len(),
        sql_parser::conjunction_from(tokens, i, left) is Ok,
    ensures
        ({
            let end = sql_parser::conjunction_from(tokens, i, left)->Ok_0.1;
            &&& i <= end <= tokens.len()
            &&& forall|j: int| 0 <= j < rest.len() ==> filter_laws::is_unit(#[trigger] rest[j])
            &&& tokens.subrange(i, end) == if rest.len() == 0 {
                Seq::empty()
            } else {
                seq![Tok::And] + filter_laws::joined_by(rest, Tok::And)
            }
        }),
    decreases tokens.len() - i, 1int,
{
    let end = sql_parser::conjunction_from(tokens, i, left)->Ok_0.1;
    if sql_parser::token_at(tokens, i) == Some(Tok::And) {
        primary_is_unit(tokens, i + 1);
        let (right, next) = sql_parser::primary_at(tokens, i + 1)->Ok_0;
        let both = Pred::And(Box::new(left), Box::new(right));
        let more = conjunction_goes_on(tokens, next, both);
        let unit = tokens.subrange(i + 1, next);
        let rest = seq![unit] + more;
        assert(rest.skip(1) =~= more);
        assert(tokens.subrange(i, end) =~= seq![Tok::And] + (unit + tokens.subrange(next, end)));
        assert(unit + tokens.subrange(next, end) =~= filter_laws::joined_by(rest, Tok::And));
        assert forall|j: int| 0 <= j < rest.len() implies filter_laws::is_unit(
            #[trigger] rest[j],
        ) by {
            if j > 0 {
                assert(rest[j] == more[j - 1]);
            }
        }
        rest
    } else {
        assert(tokens.subrange(i, end) =~= Seq::empty());
        Seq::empty()
    }
}

proof fn conjunction_is_units(tokens: Seq<Tok>, i: int) -> (group: Seq<Seq<Tok>>)
    requires
        0 <= i <= tokens.len(),
        sql_parser::conjunction_at(tokens, i) is Ok,
    ensures
        ({
            let end = sql_parser::conjunction_at(tokens, i)->Ok_0.1;
            &&& i < end <= tokens.len()
            &&& filter_laws::all_units(group)
            &&& tokens.subrange(i, end) == filter_laws::conjunction_tokens(group)
        }),
    decreases tokens.len() - i, 2int,
{
    primary_is_unit(tokens, i);
    let (p, next) = sql_parser::primary_at(tokens, i)->Ok_0;
    let end = sql_parser::conjunction_at(tokens, i)->Ok_0.1;
    let more = conjunction_goes_on(tokens, next, p);
    let unit = tokens.subrange(i, next);
    let group = seq![unit] + more;
    assert(group.skip(1) =~= more);
    assert(tokens.subrange(i, end) =~= unit + tokens.subrange(next, end));
    assert(unit + tokens.subrange(next, end) =~= filter_laws::joined_by(group, Tok::And));
    assert forall|j: int| 0 <= j < group.len() implies filter_laws::is_unit(
        #[trigger] group[j],
    ) by {
        if j > 0 {
            assert(group[j] == more[j - 1]);
        }
    }
    group
}

proof fn disjunction_goes_on(tokens: Seq<Tok>, i: int, left: Pred) -> (rest: Seq<Seq<Seq<Tok>>>)
    requires
        0 <= i <= tokens.len(),
        sql_parser::disjunction_from(tokens, i, left) is Ok,
    ensures
        ({
            let end = sql_parser::disjunction_from(tokens, i, left)->Ok_0.1;
            &&& i <= end <= tokens.len()
            &&& forall|j: int| 0 <= j < rest.len() ==> filter_laws::all_units(#[trigger] rest[j])
            &&& tokens.subrange(i, end) == if rest.len() == 0 {
                Seq::empty()
            } else {
                seq![Tok::Or] + filter_laws::filter_tokens(rest)
            }
        }),
    decreases tokens.len() - i, 3int,
{
    let end = sql_parser::disjunction_from(tokens, i, left)->Ok_0.1;
    if sql_parser::token_at(tokens, i) == Some(Tok::Or) {
        let group = conjunction_is_units(tokens, i + 1);
        let (right, next) = sql_parser::conjunction_at(tokens, i + 1)->Ok_0;
        let either = Pred::Or(Box::new(left), Box::new(right));
        let more = disjunction_goes_on(tokens, next, either);
        let own = tokens.subrange(i + 1, next);
        let rest = seq![group] + more;
        groups_are_joined(group, more);
        assert(tokens.subrange(i, end) =~= seq![Tok::Or] + (own + tokens.subrange(next, end)));
        assert(own + tokens.subrange(next, end) =~= filter_laws::filter_tokens(rest));
        assert forall|j: int| 0 <= j < rest.len() implies filter_laws::all_units(
            #[trigger] rest[j],
        ) by {
            if j > 0 {
                assert(rest[j] == more[j - 1]);
            }
        }
        rest
    } else {
        assert(tokens.subrange(i, end) =~= Seq::empty());
        Seq::empty()
    }
}

proof fn groups_are_joined(group: Seq<Seq<Tok>>, more: Seq<Seq<Seq<Tok>>>)
    ensures
        filter_laws::filter_tokens(seq![group] + more) == filter_laws::conjunction_tokens(group) + (
        if more.len() == 0 {
            Seq::empty()
        } else {
            seq![Tok::Or] + filter_laws::filter_tokens(more)
        }),
{
    let parts = filter_laws::group_parts(seq![group] + more);
    assert(parts.skip(1) =~= filter_laws::group_parts(more));
    let own = filter_laws::conjunction_tokens(group);
    assert(parts[0] == own);
    if more.len() > 0 {
        let rest = filter_laws::filter_tokens(more);
        assert(own + seq![Tok::Or] + rest =~= own + (seq![Tok::Or] + rest));
    } else {
        assert(own + Seq::<Tok>::empty() =~= own);
    }
}

proof fn disjunction_is_groups(tokens: Seq<Tok>, i: int) -> (groups: Seq<Seq<Seq<Tok>>>)
    requires
        0 <= i <= tokens.len(),
        sql_parser::disjunction_at(tokens, i) is Ok,
    ensures
        ({
            let end = sql_parser::disjunction_at(tokens, i)->Ok_0.1;
            &&& i < end <= tokens.len()
            &&& groups.len() > 0
            &&& forall|j: int|
                0 <= j < groups.len() ==> filter_laws::all_units(#[trigger] groups[j])
            &&& tokens.subrange(i, end) == filter_laws::filter_tokens(groups)
        }),
    decreases tokens.len() - i, 4int,
{
    let group = conjunction_is_units(tokens, i);
    let (p, next) = sql_parser::conjunction_at(tokens, i)->Ok_0;
    let end = sql_parser::disjunction_at(tokens, i)->Ok_0.1;
    let more = disjunction_goes_on(tokens, next, p);
    let groups = seq![group] + more;
    groups_are_joined(group, more);
    let own = tokens.subrange(i, next);
    assert(tokens.subrange(i, end) =~= own + tokens.subrange(next, end));
    assert forall|j: int| 0 <= j < groups.len() implies filter_laws::all_units(
        #[trigger] groups[j],
    ) by {
        if j > 0 {
            assert(groups[j] == more[j - 1]);
        }
    }
    groups
}

/// Tokens are a filter.
pub open spec fn is_filter(tokens: Seq<Tok>, groups: Seq<Seq<Seq<Tok>>>) -> bool {
    &&& groups.len() > 0
    &&& forall|g: int| 0 <= g < groups.len() ==> filter_laws::all_units(#[trigger] groups[g])
    &&& tokens == filter_laws::filter_tokens(groups)
}

/// Tokens are accepted exactly where they are a filter: comparisons, memberships and filters in
/// brackets, joined by `AND` to groups that are joined by `OR`, with nothing before, behind or
/// between.
pub proof fn only_filters_are_accepted(tokens: Seq<Tok>)
    ensures
        sql_parser::parsed(tokens) is Ok <==> exists|groups: Seq<Seq<Seq<Tok>>>| #[trigger]
            is_filter(tokens, groups),
{
    if sql_parser::parsed(tokens) is Ok {
        let groups = disjunction_is_groups(tokens, 0);
        assert(tokens.subrange(0, tokens.len() as int) =~= tokens);
        assert(is_filter(tokens, groups));
    }
    if exists|groups: Seq<Seq<Seq<Tok>>>| #[trigger] is_filter(tokens, groups) {
        let groups = choose|groups: Seq<Seq<Seq<Tok>>>| #[trigger] is_filter(tokens, groups);
        filter_laws::joined_comparisons_parse(groups);
    }
}

} // verus!
