//! Name-to-text tables, kept as lists of pairs.
use vstd::prelude::*;

verus! {

/// What a list of pairs holds as a table: where a name occurs twice, the
/// later pair counts.
pub open spec fn table(pairs: Seq<(String, String)>) -> Map<Seq<char>, Seq<char>>
    decreases pairs.len(),
{
    if pairs.len() == 0 {
        Map::empty()
    } else {
        table(pairs.drop_last()).insert(pairs.last().0@, pairs.last().1@)
    }
}

/// Looks a name up in a table.
pub fn lookup<'a>(pairs: &'a Vec<(String, String)>, name: &String) -> (r: Option<&'a String>)
    ensures
        match r {
            Some(text) => table(pairs@).contains_key(name@) && table(pairs@)[name@] == text@,
            None => !table(pairs@).contains_key(name@),
        },
{
    let mut left: usize = pairs.len();
    assert(pairs@.take(left as int) =~= pairs@);
    while left > 0
        invariant
            left <= pairs.len(),
            table(pairs@).contains_key(name@) == table(pairs@.take(left as int)).contains_key(name@),
            table(pairs@).contains_key(name@) ==> table(pairs@)[name@] == table(pairs@.take(left as int))[name@],
        decreases left,
    {
        let pair = &pairs[left - 1];
        assert(pairs@.take(left as int).drop_last() =~= pairs@.take(left - 1));
        if pair.0 == *name {
            return Some(&pair.1);
        }
        left -= 1;
    }
    None
}

/// A pair at the end of a list counts for its name and changes nothing else.
pub proof fn law_later_pairs_count(pairs: Seq<(String, String)>, pair: (String, String), name: Seq<char>)
    ensures
        table(pairs.push(pair)).contains_key(pair.0@),
        table(pairs.push(pair))[pair.0@] == pair.1@,
        name != pair.0@ ==> table(pairs.push(pair)).contains_key(name) == table(pairs).contains_key(name),
        name != pair.0@ && table(pairs).contains_key(name) ==> table(pairs.push(pair))[name] == table(pairs)[name],
        !table(seq![]).contains_key(name),
{
    assert(pairs.push(pair).drop_last() =~= pairs);
}

/// A name has the value of the last pair that has it.
pub proof fn law_last_pair_counts(pairs: Seq<(String, String)>, i: int)
    requires
        0 <= i < pairs.len(),
        forall|j: int| i < j < pairs.len() ==> (#[trigger] pairs[j]).0@ != pairs[i].0@,
    ensures
        table(pairs).contains_key(pairs[i].0@),
        table(pairs)[pairs[i].0@] == pairs[i].1@,
    decreases pairs.len(),
{
    if i < pairs.len() - 1 {
        let init = pairs.drop_last();
        assert(pairs[pairs.len() - 1].0@ != pairs[i].0@);
        assert forall|j: int| i < j < init.len() implies (#[trigger] init[j]).0@ != init[i].0@ by {
            assert(init[j] == pairs[j]);
        }
        law_last_pair_counts(init, i);
    }
}

/// A name that no pair has is not in the table.
pub proof fn law_unknown_names(pairs: Seq<(String, String)>, name: Seq<char>)
    requires
        forall|i: int| 0 <= i < pairs.len() ==> (#[trigger] pairs[i]).0@ != name,
    ensures
        !table(pairs).contains_key(name),
    decreases pairs.len(),
{
    if pairs.len() > 0 {
        let init = pairs.drop_last();
        assert(pairs[pairs.len() - 1].0@ != name);
        assert forall|i: int| 0 <= i < init.len() implies (#[trigger] init[i]).0@ != name by {
            assert(init[i] == pairs[i]);
        }
        law_unknown_names(init, name);
    }
}

}
