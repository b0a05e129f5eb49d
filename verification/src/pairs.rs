//! Lists of named values, and the mapping that such a list stands for when
//! the last pair with a name decides its value.

use vstd::prelude::*;

verus! {

/// Whether some pair of the list has the given name.
pub open spec fn has_name<V>(pairs: Seq<(Seq<char>, V)>, name: Seq<char>) -> bool {
    exists|i: int| 0 <= i < pairs.len() && (#[trigger] pairs[i]).0 == name
}

/// The value that a mapping built from the pairs in order holds for the
/// name: that of the last pair with this name.
pub open spec fn last_value<V>(pairs: Seq<(Seq<char>, V)>, name: Seq<char>) -> Option<V>
    decreases pairs.len(),
{
    if pairs.len() == 0 {
        None
    } else if pairs.last().0 == name {
        Some(pairs.last().1)
    } else {
        last_value(pairs.drop_last(), name)
    }
}

/// Whether no two pairs of the list have the same name.
pub open spec fn distinct_names<V>(pairs: Seq<(Seq<char>, V)>) -> bool {
    forall|i: int, j: int|
        0 <= i < j < pairs.len() ==> (#[trigger] pairs[i]).0 != (#[trigger] pairs[j]).0
}

/// The mapping that a list of named values stands for: each name with the
/// value of the last pair that has it.
pub open spec fn pairs_map<V>(pairs: Seq<(Seq<char>, V)>) -> Map<Seq<char>, V> {
    Map::new(
        |name: Seq<char>| has_name(pairs, name),
        |name: Seq<char>| last_value(pairs, name).unwrap(),
    )
}

/// The last pair with a name decides the value of the name.
pub proof fn lemma_last_value_at<V>(pairs: Seq<(Seq<char>, V)>, name: Seq<char>, i: int)
    requires
        0 <= i < pairs.len(),
        pairs[i].0 == name,
        forall|j: int| i < j < pairs.len() ==> pairs[j].0 != name,
    ensures
        last_value(pairs, name) == Some(pairs[i].1),
    decreases pairs.len(),
{
    if i < pairs.len() - 1 {
        lemma_last_value_at(pairs.drop_last(), name, i);
    }
}

/// A name has a value exactly when some pair has the name.
pub proof fn lemma_last_value_none<V>(pairs: Seq<(Seq<char>, V)>, name: Seq<char>)
    ensures
        last_value(pairs, name) is None <==> !has_name(pairs, name),
    decreases pairs.len(),
{
    if pairs.len() > 0 {
        lemma_last_value_none(pairs.drop_last(), name);
        if pairs.last().0 == name {
            assert(pairs[pairs.len() - 1].0 == name);
        } else if has_name(pairs, name) {
            let i = choose|i: int| 0 <= i < pairs.len() && (#[trigger] pairs[i]).0 == name;
            assert(pairs.drop_last()[i].0 == name);
        } else if has_name(pairs.drop_last(), name) {
            let i = choose|i: int|
                0 <= i < pairs.drop_last().len() && (#[trigger] pairs.drop_last()[i]).0 == name;
            assert(pairs[i].0 == name);
        }
    }
}

/// A name is among the first `j + 1` pairs when it is among the first `j` or
/// is the name of the pair `j`.
pub proof fn lemma_has_name_take<V>(pairs: Seq<(Seq<char>, V)>, j: int, name: Seq<char>)
    requires
        0 <= j < pairs.len(),
    ensures
        has_name(pairs.take(j + 1), name) <==> (has_name(pairs.take(j), name) || pairs[j].0
            == name),
        last_value(pairs.take(j + 1), name) == if pairs[j].0 == name {
            Some(pairs[j].1)
        } else {
            last_value(pairs.take(j), name)
        },
{
    let more = pairs.take(j + 1);
    let less = pairs.take(j);
    assert(more.drop_last() =~= less);
    assert(more.last() == pairs[j]);
    if has_name(more, name) {
        let w = choose|w: int| 0 <= w < more.len() && (#[trigger] more[w]).0 == name;
        if w < j {
            assert(less[w].0 == name);
        }
    }
    if has_name(less, name) {
        let w = choose|w: int| 0 <= w < less.len() && (#[trigger] less[w]).0 == name;
        assert(more[w].0 == name);
    }
    if pairs[j].0 == name {
        assert(more[j].0 == name);
    }
}

/// A name has a value exactly when some pair has the name.
pub proof fn lemma_value_of_name<V>(pairs: Seq<(Seq<char>, V)>, name: Seq<char>)
    ensures
        last_value(pairs, name) is Some <==> has_name(pairs, name),
{
    lemma_last_value_none(pairs, name);
}

/// Reading one more pair sets the name of the pair to its value.
pub proof fn lemma_pairs_map_take<V>(pairs: Seq<(Seq<char>, V)>, j: int)
    requires
        0 <= j < pairs.len(),
    ensures
        pairs_map(pairs.take(j + 1)) == pairs_map(pairs.take(j)).insert(pairs[j].0, pairs[j].1),
{
    let more = pairs_map(pairs.take(j + 1));
    let less = pairs_map(pairs.take(j)).insert(pairs[j].0, pairs[j].1);
    assert forall|name: Seq<char>| more.dom().contains(name) <==> less.dom().contains(name) by {
        lemma_has_name_take(pairs, j, name);
    }
    assert forall|name: Seq<char>| #[trigger] more.dom().contains(name) implies more[name]
        == less[name] by {
        lemma_has_name_take(pairs, j, name);
    }
    assert(more =~= less);
}

} // verus!
