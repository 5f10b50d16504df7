//! What a partition knows of the scalar fields of its vectors.

use crate::ieee;
use crate::payload;
use crate::payload::{FieldValue, Payload};
use vstd::hash_map::StringHashMap;
use vstd::prelude::*;

verus! {

/// How many different texts a partition keeps per field.
pub const TEXT_LIMIT: usize = 64;

/// The different texts of one field.
#[derive(Debug)]
pub struct TextSet {
    /// The texts, each once, in the order in which they first came.
    pub values: Vec<String>,
    /// No text was left out for want of room.
    pub complete: bool,
}

/// The model of a `TextSet`.
#[verifier::ext_equal]
pub struct Texts {
    pub values: Seq<Seq<char>>,
    pub complete: bool,
}

/// The views of strings.
pub open spec fn text_views(values: Seq<String>) -> Seq<Seq<char>> {
    Seq::new(values.len(), |i: int| values[i]@)
}

impl View for TextSet {
    type V = Texts;

    open spec fn view(&self) -> Texts {
        Texts { values: text_views(self.values@), complete: self.complete }
    }
}

impl Texts {
    /// The set before any text came.
    pub open spec fn none() -> Texts {
        Texts { values: Seq::empty(), complete: true }
    }

    /// The set after one more text: it is added where it is new and there is room, and a new text
    /// without room marks the set as incomplete.
    pub open spec fn with(self, text: Seq<char>) -> Texts {
        if self.values.contains(text) {
            self
        } else if self.values.len() < TEXT_LIMIT {
            Texts { values: self.values.push(text), complete: self.complete }
        } else {
            Texts { values: self.values, complete: false }
        }
    }

    /// The field may have this text in the partition.
    pub open spec fn may_hold(self, text: Seq<char>) -> bool {
        !self.complete || self.values.contains(text)
    }
}

/// The aggregate of one number with a range of numbers, smallest and largest.
pub open spec fn widened(range: (u64, u64), n: u64) -> (u64, u64) {
    (
        if ieee::double_lt(n, range.0) {
            n
        } else {
            range.0
        },
        if ieee::double_lt(range.1, n) {
            n
        } else {
            range.1
        },
    )
}

/// Aggregates of the scalar fields of the vectors in one partition.
pub struct PartitionStats {
    /// The smallest and the largest number of each field that holds numbers.
    pub num_ranges: StringHashMap<(u64, u64)>,
    /// The texts of each field that holds texts.
    pub string_values: StringHashMap<TextSet>,
}

/// The model of `PartitionStats`.
#[verifier::ext_equal]
pub struct StatsModel {
    pub ranges: Map<Seq<char>, (u64, u64)>,
    pub texts: Map<Seq<char>, Texts>,
}

impl View for PartitionStats {
    type V = StatsModel;

    open spec fn view(&self) -> StatsModel {
        StatsModel {
            ranges: self.num_ranges@,
            texts: self.string_values@.map_values(|set: TextSet| set@),
        }
    }
}

impl StatsModel {
    /// The aggregates of no vectors.
    pub open spec fn none() -> StatsModel {
        StatsModel { ranges: Map::empty(), texts: Map::empty() }
    }

    /// The range of a field so far: before any number the smallest is the largest finite number
    /// and the largest the smallest.
    pub open spec fn range_before(self, name: Seq<char>) -> (u64, u64) {
        if self.ranges.contains_key(name) {
            self.ranges[name]
        } else {
            (ieee::DOUBLE_MAX, ieee::DOUBLE_MIN)
        }
    }

    /// The texts of a field so far.
    pub open spec fn texts_before(self, name: Seq<char>) -> Texts {
        if self.texts.contains_key(name) {
            self.texts[name]
        } else {
            Texts::none()
        }
    }

    /// The aggregates after one more vector with these fields.
    pub open spec fn with(self, fields: Map<Seq<char>, payload::Field>) -> StatsModel {
        StatsModel {
            ranges: Map::new(
                |name: Seq<char>|
                    self.ranges.contains_key(name) || (fields.contains_key(name)
                        && fields[name] is Number),
                |name: Seq<char>|
                    if fields.contains_key(name) && fields[name] is Number {
                        widened(self.range_before(name), fields[name]->Number_0)
                    } else {
                        self.ranges[name]
                    },
            ),
            texts: Map::new(
                |name: Seq<char>|
                    self.texts.contains_key(name) || (fields.contains_key(name)
                        && fields[name] is Text),
                |name: Seq<char>|
                    if fields.contains_key(name) && fields[name] is Text {
                        self.texts_before(name).with(fields[name]->Text_0)
                    } else {
                        self.texts[name]
                    },
            ),
        }
    }

    /// The aggregates speak for a vector with these fields: each of its numbers lies in the
    /// range of the field and each of its texts may be in the set of the field.
    pub open spec fn covers(self, fields: Map<Seq<char>, payload::Field>) -> bool {
        forall|name: Seq<char>| #[trigger]
            fields.contains_key(name) ==> match fields[name] {
                payload::Field::Number(n, _) => !ieee::double_nan(n) ==> {
                    &&& self.ranges.contains_key(name)
                    &&& ieee::double_le(self.ranges[name].0, n)
                    &&& ieee::double_le(n, self.ranges[name].1)
                },
                payload::Field::Text(t) => self.texts.contains_key(name) && self.texts[name].may_hold(t),
                _ => true,
            }
    }

    /// No bound of a range is NaN.
    pub open spec fn sound(self) -> bool {
        forall|name: Seq<char>| #[trigger]
            self.ranges.contains_key(name) ==> !ieee::double_nan(self.ranges[name].0)
                && !ieee::double_nan(self.ranges[name].1)
    }
}

/// Aggregating a vector makes the aggregates speak for it, and they go on speaking for the
/// vectors for which they spoke before.
pub proof fn stats_with_covers(
    stats: StatsModel,
    fields: Map<Seq<char>, payload::Field>,
    other: Map<Seq<char>, payload::Field>,
)
    requires
        stats.sound(),
    ensures
        stats.with(fields).sound(),
        stats.with(fields).covers(fields),
        stats.covers(other) ==> stats.with(fields).covers(other),
{
    let after = stats.with(fields);
    assert(!ieee::double_nan(ieee::DOUBLE_MAX) && !ieee::double_nan(ieee::DOUBLE_MIN));
    assert forall|name: Seq<char>| #[trigger] fields.contains_key(name) implies match fields[name] {
        payload::Field::Number(n, _) => !ieee::double_nan(n) ==> {
            &&& after.ranges.contains_key(name)
            &&& ieee::double_le(after.ranges[name].0, n)
            &&& ieee::double_le(n, after.ranges[name].1)
        },
        payload::Field::Text(t) => after.texts.contains_key(name) && after.texts[name].may_hold(t),
        _ => true,
    } by {
        if fields[name] is Text {
            let t = fields[name]->Text_0;
            let before = stats.texts_before(name);
            if !before.values.contains(t) && before.values.len() < TEXT_LIMIT {
                let pushed = before.values.push(t);
                assert(pushed[pushed.len() - 1] == t);
            }
        }
    }
    if stats.covers(other) {
        assert forall|name: Seq<char>| #[trigger] other.contains_key(name) implies match other[name] {
            payload::Field::Number(n, _) => !ieee::double_nan(n) ==> {
                &&& after.ranges.contains_key(name)
                &&& ieee::double_le(after.ranges[name].0, n)
                &&& ieee::double_le(n, after.ranges[name].1)
            },
            payload::Field::Text(t) => after.texts.contains_key(name)
                && after.texts[name].may_hold(t),
            _ => true,
        } by {
            if other[name] is Text {
                let t = other[name]->Text_0;
                let before = stats.texts[name];
                if before.values.contains(t) {
                    let i = choose|i: int| 0 <= i < before.values.len() && before.values[i] == t;
                    if fields.contains_key(name) && fields[name] is Text {
                        assert(after.texts[name].values[i] == t);
                    }
                }
            }
        }
    }
}

impl TextSet {
    /// Whether the set holds a text.
    pub fn contains(&self, text: &str) -> (r: bool)
        ensures
            r == self@.values.contains(text@),
    {
        let mut i: usize = 0;
        while i < self.values.len()
            invariant
                i <= self.values@.len(),
                forall|j: int| 0 <= j < i ==> (#[trigger] self.values@[j])@ != text@,
            decreases self.values@.len() - i,
        {
            if crate::text::same_text(self.values[i].as_str(), text) {
                assert(self@.values[i as int] == text@);
                return true;
            }
            i += 1;
        }
        assert forall|j: int| 0 <= j < self@.values.len() implies self@.values[j] != text@ by {
            assert(self.values@[j]@ != text@);
        }
        false
    }

    /// The set after one more text.
    fn with(&self, text: &String) -> (r: TextSet)
        ensures
            r@ == self@.with(text@),
    {
        let mut values: Vec<String> = Vec::with_capacity(self.values.len());
        let mut i: usize = 0;
        while i < self.values.len()
            invariant
                i <= self.values@.len(),
                values@ == self.values@.take(i as int),
            decreases self.values@.len() - i,
        {
            values.push(self.values[i].clone());
            i += 1;
            assert(values@ =~= self.values@.take(i as int));
        }
        assert(values@ =~= self.values@);
        if self.contains(text.as_str()) {
            return TextSet { values, complete: self.complete };
        }
        if values.len() < TEXT_LIMIT {
            let ghost before = values@;
            values.push(text.clone());
            assert(text_views(values@) =~= text_views(before).push(text@));
            TextSet { values, complete: self.complete }
        } else {
            TextSet { values, complete: false }
        }
    }
}

impl Default for PartitionStats {
    fn default() -> (stats: Self)
        ensures
            stats@ == StatsModel::none(),
    {
        PartitionStats::new()
    }
}

impl PartitionStats {
    /// The aggregates of no vectors.
    pub fn new() -> (stats: Self)
        ensures
            stats@ == StatsModel::none(),
    {
        let stats = PartitionStats {
            num_ranges: StringHashMap::new(),
            string_values: StringHashMap::new(),
        };
        assert(stats@ =~= StatsModel::none());
        stats
    }

    /// Takes one number of a field into its range.
    fn add_number(&mut self, name: &String, n: u64)
        ensures
            final(self)@.texts == old(self)@.texts,
            final(self)@.ranges == old(self)@.ranges.insert(
                name@,
                widened(old(self)@.range_before(name@), n),
            ),
    {
        let range: (u64, u64) = match self.num_ranges.get(name.as_str()) {
            Some(range) => *range,
            None => (ieee::DOUBLE_MAX, ieee::DOUBLE_MIN),
        };
        let low: u64 = if ieee::double_less(n, range.0) {
            n
        } else {
            range.0
        };
        let high: u64 = if ieee::double_less(range.1, n) {
            n
        } else {
            range.1
        };
        self.num_ranges.insert(name.clone(), (low, high));
    }

    /// Takes one text of a field into its set.
    fn add_text(&mut self, name: &String, text: &String)
        ensures
            final(self)@.ranges == old(self)@.ranges,
            final(self)@.texts == old(self)@.texts.insert(
                name@,
                old(self)@.texts_before(name@).with(text@),
            ),
    {
        let set: TextSet = match self.string_values.get(name.as_str()) {
            Some(set) => set.with(text),
            None => {
                let none = TextSet { values: Vec::new(), complete: true };
                assert(none@ =~= Texts::none());
                none.with(text)
            },
        };
        let ghost before = self.string_values@;
        self.string_values.insert(name.clone(), set);
        assert(self@.texts =~= old(self)@.texts.insert(name@, set@));
    }

    /// Takes the fields of one vector into the aggregates.
    pub fn update_entries(&mut self, entries: &Vec<(String, FieldValue)>)
        requires
            payload::distinct_names(entries@),
        ensures
            final(self)@ == old(self)@.with(payload::entry_fields(entries@)),
    {
        let ghost start = self@;
        let mut i: usize = 0;
        assert(self@ =~= start.with(payload::entry_fields(entries@.take(0))));
        while i < entries.len()
            invariant
                i <= entries@.len(),
                payload::distinct_names(entries@),
                self@ == start.with(payload::entry_fields(entries@.take(i as int))),
            decreases entries@.len() - i,
        {
            let ghost front = entries@.take(i as int);
            let ghost before = self@;
            let ghost seen = payload::entry_fields(front);
            proof {
                payload::entry_fields_by_index(front);
                assert(!seen.contains_key(entries@[i as int].0@));
                assert(entries@.take(i + 1).drop_last() =~= front);
            }
            match &entries[i].1 {
                FieldValue::Number(n, _) => {
                    self.add_number(&entries[i].0, *n);
                },
                FieldValue::Text(text) => {
                    self.add_text(&entries[i].0, text);
                },
                _ => {},
            }
            i += 1;
            proof {
                let now = payload::entry_fields(entries@.take(i as int));
                assert(self@.ranges =~= start.with(now).ranges);
                assert(self@.texts =~= start.with(now).texts);
            }
        }
        assert(entries@.take(i as int) =~= entries@);
    }

    /// Takes the payload of one vector into the aggregates.
    pub fn update(&mut self, payload: &Payload)
        ensures
            final(self)@ == old(self)@.with(payload::payload_fields(*payload)),
    {
        let entries = payload::payload_entries(payload);
        self.update_entries(&entries);
    }
}

} // verus!
