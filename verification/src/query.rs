//! The names and values of a query.

use crate::text;
use vstd::prelude::*;

verus! {

/// The last value that a query gives a name.
pub open spec fn looked_up(pairs: Seq<(Seq<char>, Seq<char>)>, name: Seq<char>) -> Option<Seq<char>>
    decreases pairs.len(),
{
    if pairs.len() == 0 {
        None
    } else if pairs.last().0 == name {
        Some(pairs.last().1)
    } else {
        looked_up(pairs.drop_last(), name)
    }
}

/// The last value that a query gives a name.
pub fn look_up<'a>(pairs: &'a Vec<(String, String)>, name: &str) -> (value: Option<&'a String>)
    ensures
        value.deep_view() == looked_up(pairs.deep_view(), name@),
{
    let ghost all = pairs.deep_view();
    let mut end: usize = pairs.len();
    assert(all.take(end as int) == all);
    while end > 0
        invariant
            end <= pairs@.len(),
            all == pairs.deep_view(),
            looked_up(all, name@) == looked_up(all.take(end as int), name@),
        decreases end,
    {
        assert(all.take(end as int).drop_last() == all.take(end - 1));
        assert(all.take(end as int).last() == pairs@[end - 1].deep_view());
        if text::same(pairs[end - 1].0.as_str(), name) {
            return Some(&pairs[end - 1].1);
        }
        end -= 1;
    }
    None
}

/// A name that a query does not hold has no value, and one that it does hold has one.
pub proof fn lemma_looked_up(pairs: Seq<(Seq<char>, Seq<char>)>, name: Seq<char>)
    ensures
        looked_up(pairs, name) is Some <==> exists|index: int|
            0 <= index < pairs.len() && (#[trigger] pairs[index]).0 == name,
    decreases pairs.len(),
{
    if pairs.len() > 0 {
        let earlier = pairs.drop_last();
        lemma_looked_up(earlier, name);
        if pairs.last().0 == name {
            assert(pairs[pairs.len() - 1].0 == name);
        } else {
            if looked_up(earlier, name) is Some {
                let index = choose|index: int|
                    0 <= index < earlier.len() && (#[trigger] earlier[index]).0 == name;
                assert(pairs[index].0 == name);
            }
            if exists|index: int| 0 <= index < pairs.len() && (#[trigger] pairs[index]).0 == name {
                let index = choose|index: int|
                    0 <= index < pairs.len() && (#[trigger] pairs[index]).0 == name;
                assert(earlier[index].0 == name);
            }
        }
    }
}

/// How often a query holds a name.
pub open spec fn occurrences(pairs: Seq<(Seq<char>, Seq<char>)>, name: Seq<char>) -> nat
    decreases pairs.len(),
{
    if pairs.len() == 0 {
        0
    } else {
        occurrences(pairs.drop_last(), name) + (if pairs.last().0 == name {
            1nat
        } else {
            0nat
        })
    }
}

/// The value that a query gives a name it holds exactly once.
pub open spec fn only_value(pairs: Seq<(Seq<char>, Seq<char>)>, name: Seq<char>) -> Option<
    Seq<char>,
> {
    if occurrences(pairs, name) == 1 {
        looked_up(pairs, name)
    } else {
        None
    }
}

/// How many different names a query holds.
pub open spec fn distinct_names(pairs: Seq<(Seq<char>, Seq<char>)>) -> nat
    decreases pairs.len(),
{
    if pairs.len() == 0 {
        0
    } else {
        distinct_names(pairs.drop_last()) + (if occurrences(pairs.drop_last(), pairs.last().0) == 0 {
            1nat
        } else {
            0nat
        })
    }
}

/// How often the first `count` pairs of a query hold a name.
fn count_occurrences(pairs: &Vec<(String, String)>, count: usize, name: &str) -> (found: usize)
    requires
        count <= pairs@.len(),
    ensures
        found == occurrences(pairs.deep_view().take(count as int), name@),
        found <= count,
{
    let ghost all = pairs.deep_view();
    let mut found: usize = 0;
    let mut index: usize = 0;
    while index < count
        invariant
            index <= count <= pairs@.len(),
            all == pairs.deep_view(),
            found == occurrences(all.take(index as int), name@),
            found <= index,
        decreases count - index,
    {
        assert(all.take(index + 1).drop_last() == all.take(index as int));
        assert(all.take(index + 1).last() == pairs@[index as int].deep_view());
        if text::same(pairs[index].0.as_str(), name) {
            found += 1;
        }
        index += 1;
    }
    found
}

/// The value that a query gives a name it holds exactly once.
pub fn one<'a>(pairs: &'a Vec<(String, String)>, name: &str) -> (value: Option<&'a String>)
    ensures
        value.deep_view() == only_value(pairs.deep_view(), name@),
{
    assert(pairs.deep_view().take(pairs@.len() as int) == pairs.deep_view());
    if count_occurrences(pairs, pairs.len(), name) == 1 {
        look_up(pairs, name)
    } else {
        None
    }
}

/// How many different names a query holds.
pub fn count_names(pairs: &Vec<(String, String)>) -> (count: usize)
    ensures
        count == distinct_names(pairs.deep_view()),
{
    let ghost all = pairs.deep_view();
    let mut count: usize = 0;
    let mut index: usize = 0;
    while index < pairs.len()
        invariant
            index <= pairs@.len(),
            all == pairs.deep_view(),
            count == distinct_names(all.take(index as int)),
            count <= index,
        decreases pairs@.len() - index,
    {
        assert(all.take(index + 1).drop_last() == all.take(index as int));
        assert(all.take(index + 1).last() == pairs@[index as int].deep_view());
        if count_occurrences(pairs, index, pairs[index].0.as_str()) == 0 {
            count += 1;
        }
        index += 1;
    }
    assert(all.take(index as int) == all);
    count
}

/// The count that the only value of a name denotes.
pub open spec fn only_count(pairs: Seq<(Seq<char>, Seq<char>)>, name: Seq<char>) -> Option<usize> {
    match only_value(pairs, name) {
        Some(value) => text::parsed_count(value),
        None => None,
    }
}

pub fn parsed_one(pairs: &Vec<(String, String)>, name: &str) -> (count: Option<usize>)
    ensures
        count == only_count(pairs.deep_view(), name@),
{
    match one(pairs, name) {
        Some(value) => text::parse_count(value.as_str()),
        None => None,
    }
}

pub fn has_one(pairs: &Vec<(String, String)>, name: &str, value: &str) -> (found: bool)
    ensures
        found == (only_value(pairs.deep_view(), name@) == Some(value@)),
{
    match one(pairs, name) {
        Some(only) => text::same(only.as_str(), value),
        None => false,
    }
}

/// The value of a name is the last that a query gives it.
pub proof fn the_last_value_counts(
    pairs: Seq<(Seq<char>, Seq<char>)>,
    name: Seq<char>,
    index: int,
)
    requires
        0 <= index < pairs.len(),
        pairs[index].0 == name,
        forall|later: int| index < later < pairs.len() ==> (#[trigger] pairs[later]).0 != name,
    ensures
        looked_up(pairs, name) == Some(pairs[index].1),
    decreases pairs.len(),
{
    if index < pairs.len() - 1 {
        let before = pairs.drop_last();
        assert(pairs[pairs.len() - 1].0 != name);
        assert(before[index] == pairs[index]);
        assert forall|later: int| index < later < before.len() implies (
        #[trigger] before[later]).0 != name by {
            assert(before[later] == pairs[later]);
        }
        the_last_value_counts(before, name, index);
    }
}

/// A name's only value is there exactly where the query gives it one value and no more.
pub proof fn only_values_stand_alone(pairs: Seq<(Seq<char>, Seq<char>)>, name: Seq<char>)
    ensures
        occurrences(pairs, name) == pairs.filter(
            |pair: (Seq<char>, Seq<char>)| pair.0 == name,
        ).len(),
        only_value(pairs, name) is Some <==> occurrences(pairs, name) == 1,
        only_value(pairs, name) matches Some(value) ==> pairs.contains((name, value)),
        occurrences(pairs, name) == 0 <==> looked_up(pairs, name) is None,
    decreases pairs.len(),
{
    reveal(Seq::filter);
    if pairs.len() > 0 {
        let before = pairs.drop_last();
        only_values_stand_alone(before, name);
        assert(pairs[pairs.len() - 1] == pairs.last());
        if looked_up(before, name) is Some && occurrences(before, name) == 1 {
            let value = only_value(before, name)->0;
            assert(pairs[before.index_of((name, value))] == (name, value));
        }
    }
}

/// The names of a query are counted once each.
pub proof fn names_are_counted_once(pairs: Seq<(Seq<char>, Seq<char>)>)
    ensures
        distinct_names(pairs) == pairs.map_values(
            |pair: (Seq<char>, Seq<char>)| pair.0,
        ).to_set().len(),
    decreases pairs.len(),
{
    let names = pairs.map_values(|pair: (Seq<char>, Seq<char>)| pair.0);
    if pairs.len() == 0 {
        assert(names.to_set() =~= Set::empty());
    } else {
        let before = pairs.drop_last();
        let known = before.map_values(|pair: (Seq<char>, Seq<char>)| pair.0);
        names_are_counted_once(before);
        only_values_stand_alone(before, pairs.last().0);
        lemma_looked_up(before, pairs.last().0);
        assert(names =~= known.push(pairs.last().0));
        assert(names.to_set() =~= known.to_set().insert(pairs.last().0)) by {
            assert forall|name: Seq<char>| names.to_set().contains(name) <==> known.to_set().insert(
                pairs.last().0,
            ).contains(name) by {
                if known.contains(name) {
                    assert(names[known.index_of(name)] == name);
                }
                assert(names[names.len() - 1] == pairs.last().0);
                if names.contains(name) {
                    let at = names.index_of(name);
                    if at < known.len() {
                        assert(known[at] == name);
                    }
                }
            }
        }
        known.lemma_cardinality_of_set();
        if known.contains(pairs.last().0) {
            let at = known.index_of(pairs.last().0);
            assert(before[at].0 == pairs.last().0);
            assert(looked_up(before, pairs.last().0) is Some);
        } else {
            if looked_up(before, pairs.last().0) is Some {
                let at = choose|at: int|
                    0 <= at < before.len() && (#[trigger] before[at]).0 == pairs.last().0;
                assert(known[at] == pairs.last().0);
            }
        }
    }
}

} // verus!
