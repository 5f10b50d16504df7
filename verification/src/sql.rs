//! A small subset of SQL WHERE clauses: parsing, evaluation on a payload, and the test
//! whether a whole partition can be skipped.
//!
//! The operators are `=`, `!=`, `<>`, `<`, `>`, `<=`, `>=`, `AND`, `OR` and `IN`.

use crate::ieee;
use crate::partition_stats;
use crate::partition_stats::PartitionStats;
use crate::payload;
use crate::payload::{FieldValue, Payload};
use crate::sql_lexer;
use crate::sql_parser;
use crate::text;
use crate::text::FieldOrder;
use vstd::prelude::*;

verus! {

/// Why a filter could not be parsed.
#[derive(Debug)]
pub struct SqlError(String);

impl View for SqlError {
    type V = Seq<char>;

    closed spec fn view(&self) -> Seq<char> {
        self.0@
    }
}

impl SqlError {
    /// An error with the given reason.
    pub(crate) fn new(reason: &str) -> (e: Self)
        ensures
            e@ == reason@,
    {
        SqlError(reason.to_owned())
    }

    /// The reason, as it is shown to a user.
    pub fn message(&self) -> (m: String)
        ensures
            m@ == "SQL parse error: "@ + self@,
    {
        let mut m = "SQL parse error: ".to_owned();
        m.append(self.0.as_str());
        m
    }
}

/// A constant that a field is compared with.
#[derive(Debug)]
pub enum ScalarValue {
    /// A number, by the bits of its double precision value.
    Number(u64),
    String(String),
    Bool(bool),
}

/// The model of a `ScalarValue`.
pub enum Scalar {
    Number(u64),
    Text(Seq<char>),
    Boolean(bool),
}

impl View for ScalarValue {
    type V = Scalar;

    open spec fn view(&self) -> Scalar {
        match self {
            ScalarValue::Number(bits) => Scalar::Number(*bits),
            ScalarValue::String(s) => Scalar::Text(s@),
            ScalarValue::Bool(b) => Scalar::Boolean(*b),
        }
    }
}

/// A filter on scalar fields.
#[derive(Debug)]
pub enum SqlPredicate {
    Eq(String, ScalarValue),
    Ne(String, ScalarValue),
    Lt(String, ScalarValue),
    Le(String, ScalarValue),
    Gt(String, ScalarValue),
    Ge(String, ScalarValue),
    In(String, Vec<ScalarValue>),
    And(Box<SqlPredicate>, Box<SqlPredicate>),
    Or(Box<SqlPredicate>, Box<SqlPredicate>),
}

/// The model of an `SqlPredicate`.
pub enum Pred {
    Eq(Seq<char>, Scalar),
    Ne(Seq<char>, Scalar),
    Lt(Seq<char>, Scalar),
    Le(Seq<char>, Scalar),
    Gt(Seq<char>, Scalar),
    Ge(Seq<char>, Scalar),
    In(Seq<char>, Seq<Scalar>),
    And(Box<Pred>, Box<Pred>),
    Or(Box<Pred>, Box<Pred>),
}

/// The views of constants.
pub open spec fn scalar_views(values: Seq<ScalarValue>) -> Seq<Scalar> {
    Seq::new(values.len(), |i: int| values[i]@)
}

impl View for SqlPredicate {
    type V = Pred;

    open spec fn view(&self) -> Pred {
        self.model()
    }
}

impl SqlPredicate {
    /// The model of a predicate.
    pub open spec fn model(self) -> Pred
        decreases self,
    {
        match self {
            SqlPredicate::Eq(f, v) => Pred::Eq(f@, v@),
            SqlPredicate::Ne(f, v) => Pred::Ne(f@, v@),
            SqlPredicate::Lt(f, v) => Pred::Lt(f@, v@),
            SqlPredicate::Le(f, v) => Pred::Le(f@, v@),
            SqlPredicate::Gt(f, v) => Pred::Gt(f@, v@),
            SqlPredicate::Ge(f, v) => Pred::Ge(f@, v@),
            SqlPredicate::In(f, vs) => Pred::In(f@, scalar_views(vs@)),
            SqlPredicate::And(a, b) => Pred::And(Box::new(a.model()), Box::new(b.model())),
            SqlPredicate::Or(a, b) => Pred::Or(Box::new(a.model()), Box::new(b.model())),
        }
    }
}

/// How a field compares with a constant: not at all where the field is missing, the kinds
/// differ, or one of two numbers is NaN.
pub open spec fn field_order(field: Option<payload::Field>, value: Scalar) -> Option<FieldOrder> {
    match (field, value) {
        (Some(payload::Field::Number(a, _)), Scalar::Number(b)) => if ieee::double_lt(a, b) {
            Some(FieldOrder::Less)
        } else if ieee::double_eq(a, b) {
            Some(FieldOrder::Equal)
        } else if ieee::double_lt(b, a) {
            Some(FieldOrder::Greater)
        } else {
            None
        },
        (Some(payload::Field::Text(a)), Scalar::Text(b)) => Some(text::text_order(a, b)),
        (Some(payload::Field::Boolean(a)), Scalar::Boolean(b)) => if a == b {
            Some(FieldOrder::Equal)
        } else if b {
            Some(FieldOrder::Less)
        } else {
            Some(FieldOrder::Greater)
        },
        _ => None,
    }
}

/// A field equals one of the constants.
pub open spec fn equals_one_of(field: Option<payload::Field>, values: Seq<Scalar>) -> bool {
    exists|i: int|
        0 <= i < values.len() && field_order(field, #[trigger] values[i]) == Some(FieldOrder::Equal)
}

impl Pred {
    /// The predicate holds of a vector with these fields. No comparison with a field that is
    /// missing holds.
    pub open spec fn holds(self, fields: Map<Seq<char>, payload::Field>) -> bool
        decreases self,
    {
        match self {
            Pred::Eq(f, v) => field_order(payload::lookup(fields, f), v) == Some(FieldOrder::Equal),
            Pred::Ne(f, v) => fields.contains_key(f) && field_order(payload::lookup(fields, f), v)
                != Some(FieldOrder::Equal),
            Pred::Lt(f, v) => field_order(payload::lookup(fields, f), v) == Some(FieldOrder::Less),
            Pred::Le(f, v) => field_order(payload::lookup(fields, f), v) == Some(FieldOrder::Less)
                || field_order(payload::lookup(fields, f), v) == Some(FieldOrder::Equal),
            Pred::Gt(f, v) => field_order(payload::lookup(fields, f), v) == Some(
                FieldOrder::Greater,
            ),
            Pred::Ge(f, v) => field_order(payload::lookup(fields, f), v) == Some(
                FieldOrder::Greater,
            ) || field_order(payload::lookup(fields, f), v) == Some(FieldOrder::Equal),
            Pred::In(f, vs) => equals_one_of(payload::lookup(fields, f), vs),
            Pred::And(a, b) => a.holds(fields) && b.holds(fields),
            Pred::Or(a, b) => a.holds(fields) || b.holds(fields),
        }
    }
}

/// How a field compares with a constant.
pub fn compare_field(field: &Option<FieldValue>, value: &ScalarValue) -> (r: Option<FieldOrder>)
    ensures
        r == field_order(payload::field_view(*field), value@),
{
    match (field, value) {
        (Some(FieldValue::Number(a, _)), ScalarValue::Number(b)) => if ieee::double_less(*a, *b) {
            Some(FieldOrder::Less)
        } else if ieee::double_equal(*a, *b) {
            Some(FieldOrder::Equal)
        } else if ieee::double_less(*b, *a) {
            Some(FieldOrder::Greater)
        } else {
            None
        },
        (Some(FieldValue::Text(a)), ScalarValue::String(b)) => Some(
            text::compare_text(a.as_str(), b.as_str()),
        ),
        (Some(FieldValue::Boolean(a)), ScalarValue::Bool(b)) => if *a == *b {
            Some(FieldOrder::Equal)
        } else if *b {
            Some(FieldOrder::Less)
        } else {
            Some(FieldOrder::Greater)
        },
        _ => None,
    }
}

/// Whether a comparison came out as `wanted`.
fn is_order(order: Option<FieldOrder>, wanted: FieldOrder) -> (r: bool)
    ensures
        r == (order == Some(wanted)),
{
    match order {
        Some(o) => o == wanted,
        None => false,
    }
}

/// Whether a field equals one of the constants.
fn equals_any(field: &Option<FieldValue>, values: &Vec<ScalarValue>) -> (r: bool)
    ensures
        r == equals_one_of(payload::field_view(*field), scalar_views(values@)),
{
    let mut i: usize = 0;
    while i < values.len()
        invariant
            i <= values@.len(),
            forall|j: int|
                0 <= j < i ==> field_order(
                    payload::field_view(*field),
                    #[trigger] scalar_views(values@)[j],
                ) != Some(FieldOrder::Equal),
        decreases values@.len() - i,
    {
        assert(scalar_views(values@)[i as int] == values@[i as int]@);
        if is_order(compare_field(field, &values[i]), FieldOrder::Equal) {
            return true;
        }
        i += 1;
    }
    false
}

impl SqlPredicate {
    /// Whether the predicate holds of a vector with this payload.
    pub fn eval(&self, payload: &Payload) -> (r: bool)
        ensures
            r == self@.holds(payload::payload_fields(*payload)),
        decreases self,
    {
        match self {
            SqlPredicate::Eq(field, value) => {
                let f = payload::payload_get(payload, field.as_str());
                is_order(compare_field(&f, value), FieldOrder::Equal)
            },
            SqlPredicate::Ne(field, value) => {
                let f = payload::payload_get(payload, field.as_str());
                f.is_some() && !is_order(compare_field(&f, value), FieldOrder::Equal)
            },
            SqlPredicate::Lt(field, value) => {
                let f = payload::payload_get(payload, field.as_str());
                is_order(compare_field(&f, value), FieldOrder::Less)
            },
            SqlPredicate::Le(field, value) => {
                let f = payload::payload_get(payload, field.as_str());
                let order = compare_field(&f, value);
                is_order(order, FieldOrder::Less) || is_order(order, FieldOrder::Equal)
            },
            SqlPredicate::Gt(field, value) => {
                let f = payload::payload_get(payload, field.as_str());
                is_order(compare_field(&f, value), FieldOrder::Greater)
            },
            SqlPredicate::Ge(field, value) => {
                let f = payload::payload_get(payload, field.as_str());
                let order = compare_field(&f, value);
                is_order(order, FieldOrder::Greater) || is_order(order, FieldOrder::Equal)
            },
            SqlPredicate::In(field, values) => {
                let f = payload::payload_get(payload, field.as_str());
                equals_any(&f, values)
            },
            SqlPredicate::And(a, b) => a.eval(payload) && b.eval(payload),
            SqlPredicate::Or(a, b) => a.eval(payload) || b.eval(payload),
        }
    }
}

/// A number may be among those of a range.
pub open spec fn in_range(n: u64, range: (u64, u64)) -> bool {
    ieee::double_le(range.0, n) && ieee::double_le(n, range.1)
}

/// A constant may be among the values of a field of which something is known.
pub open spec fn may_be_among(
    value: Scalar,
    field: Seq<char>,
    stats: partition_stats::StatsModel,
) -> bool {
    match value {
        Scalar::Number(n) => stats.ranges.contains_key(field) && in_range(n, stats.ranges[field]),
        Scalar::Text(t) => stats.texts.contains_key(field) && stats.texts[field].may_hold(t),
        Scalar::Boolean(_) => true,
    }
}

/// One of the constants may be among the values of a field of which something is known.
pub open spec fn some_may_be_among(
    values: Seq<Scalar>,
    field: Seq<char>,
    stats: partition_stats::StatsModel,
) -> bool {
    exists|i: int| 0 <= i < values.len() && may_be_among(#[trigger] values[i], field, stats)
}

impl Pred {
    /// The aggregates of a partition do not rule out that the predicate holds of one of its
    /// vectors.
    pub open spec fn may_match(self, stats: partition_stats::StatsModel) -> bool
        decreases self,
    {
        match self {
            Pred::Eq(f, Scalar::Number(n)) => stats.ranges.contains_key(f) ==> in_range(
                n,
                stats.ranges[f],
            ),
            Pred::Eq(f, Scalar::Text(t)) => stats.texts.contains_key(f)
                ==> stats.texts[f].may_hold(t),
            Pred::Lt(f, Scalar::Number(n)) => stats.ranges.contains_key(f) ==> ieee::double_lt(
                stats.ranges[f].0,
                n,
            ),
            Pred::Le(f, Scalar::Number(n)) => stats.ranges.contains_key(f) ==> ieee::double_le(
                stats.ranges[f].0,
                n,
            ),
            Pred::Gt(f, Scalar::Number(n)) => stats.ranges.contains_key(f) ==> ieee::double_lt(
                n,
                stats.ranges[f].1,
            ),
            Pred::Ge(f, Scalar::Number(n)) => stats.ranges.contains_key(f) ==> ieee::double_le(
                n,
                stats.ranges[f].1,
            ),
            Pred::In(f, vs) => stats.texts.contains_key(f) || stats.ranges.contains_key(f)
                ==> some_may_be_among(vs, f, stats),
            Pred::And(a, b) => a.may_match(stats) && b.may_match(stats),
            Pred::Or(a, b) => a.may_match(stats) || b.may_match(stats),
            _ => true,
        }
    }
}

/// Skipping a partition is safe: where the aggregates speak for a vector and rule the predicate
/// out, the predicate does not hold of the vector.
pub proof fn skipping_is_safe(
    pred: Pred,
    stats: partition_stats::StatsModel,
    fields: Map<Seq<char>, payload::Field>,
)
    requires
        stats.covers(fields),
        !pred.may_match(stats),
    ensures
        !pred.holds(fields),
    decreases pred,
{
    match pred {
        Pred::And(a, b) => {
            if !a.may_match(stats) {
                skipping_is_safe(*a, stats, fields);
            } else {
                skipping_is_safe(*b, stats, fields);
            }
        },
        Pred::Or(a, b) => {
            skipping_is_safe(*a, stats, fields);
            skipping_is_safe(*b, stats, fields);
        },
        Pred::In(f, vs) => {
            if fields.contains_key(f) {
                assert forall|i: int| 0 <= i < vs.len() implies field_order(
                    Some(fields[f]),
                    #[trigger] vs[i],
                ) != Some(FieldOrder::Equal) by {
                    assert(!may_be_among(vs[i], f, stats));
                    if let payload::Field::Text(t) = fields[f] {
                        if let Scalar::Text(u) = vs[i] {
                            text::text_order_equal(t, u);
                        }
                    }
                }
            }
        },
        Pred::Eq(f, Scalar::Text(u)) => {
            if fields.contains_key(f) {
                if let payload::Field::Text(t) = fields[f] {
                    text::text_order_equal(t, u);
                }
            }
        },
        Pred::Eq(f, _) | Pred::Ne(f, _) | Pred::Lt(f, _) | Pred::Le(f, _) | Pred::Gt(f, _) | Pred::Ge(
            f,
            _,
        ) => {
            assert(fields.contains_key(f) ==> fields.contains_key(f));
        },
    }
}

/// Whether some constant may be among the values of a field of which something is known.
fn any_may_be_among(values: &Vec<ScalarValue>, field: &str, stats: &PartitionStats) -> (r: bool)
    ensures
        r == some_may_be_among(scalar_views(values@), field@, stats@),
{
    let mut i: usize = 0;
    while i < values.len()
        invariant
            i <= values@.len(),
            forall|j: int|
                0 <= j < i ==> !may_be_among(#[trigger] scalar_views(values@)[j], field@, stats@),
        decreases values@.len() - i,
    {
        assert(scalar_views(values@)[i as int] == values@[i as int]@);
        let among: bool = match &values[i] {
            ScalarValue::Number(n) => match stats.num_ranges.get(field) {
                Some(range) => ieee::double_less_equal(range.0, *n) && ieee::double_less_equal(
                    *n,
                    range.1,
                ),
                None => false,
            },
            ScalarValue::String(s) => match stats.string_values.get(field) {
                Some(set) => !set.complete || set.contains(s.as_str()),
                None => false,
            },
            ScalarValue::Bool(_) => true,
        };
        if among {
            return true;
        }
        i += 1;
    }
    false
}

/// Whether a partition with these aggregates may hold a vector of which the predicate holds;
/// where not, the partition can be skipped.
pub fn can_partition_match(predicate: &SqlPredicate, stats: &PartitionStats) -> (r: bool)
    ensures
        r == predicate@.may_match(stats@),
    decreases predicate,
{
    match predicate {
        SqlPredicate::Eq(field, value) => match value {
            ScalarValue::Number(v) => match stats.num_ranges.get(field.as_str()) {
                Some(range) => ieee::double_less_equal(range.0, *v) && ieee::double_less_equal(
                    *v,
                    range.1,
                ),
                None => true,
            },
            ScalarValue::String(v) => match stats.string_values.get(field.as_str()) {
                Some(set) => !set.complete || set.contains(v.as_str()),
                None => true,
            },
            ScalarValue::Bool(_) => true,
        },
        SqlPredicate::Ne(_, _) => true,
        SqlPredicate::Lt(field, value) => match value {
            ScalarValue::Number(v) => match stats.num_ranges.get(field.as_str()) {
                Some(range) => ieee::double_less(range.0, *v),
                None => true,
            },
            _ => true,
        },
        SqlPredicate::Le(field, value) => match value {
            ScalarValue::Number(v) => match stats.num_ranges.get(field.as_str()) {
                Some(range) => ieee::double_less_equal(range.0, *v),
                None => true,
            },
            _ => true,
        },
        SqlPredicate::Gt(field, value) => match value {
            ScalarValue::Number(v) => match stats.num_ranges.get(field.as_str()) {
                Some(range) => ieee::double_less(*v, range.1),
                None => true,
            },
            _ => true,
        },
        SqlPredicate::Ge(field, value) => match value {
            ScalarValue::Number(v) => match stats.num_ranges.get(field.as_str()) {
                Some(range) => ieee::double_less_equal(*v, range.1),
                None => true,
            },
            _ => true,
        },
        SqlPredicate::In(field, values) => {
            if stats.string_values.contains_key(field.as_str()) || stats.num_ranges.contains_key(
                field.as_str(),
            ) {
                any_may_be_among(values, field.as_str(), stats)
            } else {
                true
            }
        },
        SqlPredicate::And(a, b) => can_partition_match(a, stats) && can_partition_match(b, stats),
        SqlPredicate::Or(a, b) => can_partition_match(a, stats) || can_partition_match(b, stats),
    }
}

/// Parses the text of a filter.
pub fn parse_sql_filter(input: &str) -> (r: Result<SqlPredicate, SqlError>)
    ensures
        match r {
            Ok(p) => sql_parser::parsed_text(input@) == Ok::<Pred, Seq<char>>(p@),
            Err(e) => sql_parser::parsed_text(input@) == Err::<Pred, Seq<char>>(e@),
        },
        r is Ok ==> sql_lexer::well_spelled(input@, 0),
{
    match sql_lexer::tokenize(input) {
        Err(e) => Err(e),
        Ok(tokens) => sql_parser::parse_tokens(&tokens),
    }
}

/// No comparison with a field that is missing holds.
pub proof fn missing_field_fails(
    fields: Map<Seq<char>, payload::Field>,
    f: Seq<char>,
    v: Scalar,
    values: Seq<Scalar>,
)
    requires
        !fields.contains_key(f),
    ensures
        !Pred::Eq(f, v).holds(fields),
        !Pred::Ne(f, v).holds(fields),
        !Pred::Lt(f, v).holds(fields),
        !Pred::Le(f, v).holds(fields),
        !Pred::Gt(f, v).holds(fields),
        !Pred::Ge(f, v).holds(fields),
        !Pred::In(f, values).holds(fields),
{
}

} // verus!
