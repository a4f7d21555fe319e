use vstd::prelude::*;

use crate::header::Header;
use crate::text::Text;

verus! {

/// One stored entry of the collection: a name and its FIFO sequence of values.
pub type Entry<'h> = (Text<'h>, Vec<Text<'h>>);

/// The views of a sequence of stored values.
pub open spec fn values_view<'h>(vs: Seq<Text<'h>>) -> Seq<Seq<char>> {
    vs.map_values(|t: Text<'h>| t@)
}

/// The views of a sequence of borrowed string slices.
pub open spec fn strs_view<'a>(vs: Seq<&'a str>) -> Seq<Seq<char>> {
    vs.map_values(|s: &'a str| s@)
}

/// The values stored under `name`: the mapped sequence when the name is
/// present, and the empty sequence when it is absent.
pub open spec fn values_for(m: Map<Seq<char>, Seq<Seq<char>>>, name: Seq<char>) -> Seq<Seq<char>> {
    if m.dom().contains(name) {
        m[name]
    } else {
        Seq::empty()
    }
}

/// The map after appending `value` to whatever `name` already held.
pub open spec fn added(
    m: Map<Seq<char>, Seq<Seq<char>>>,
    name: Seq<char>,
    value: Seq<char>,
) -> Map<Seq<char>, Seq<Seq<char>>> {
    m.insert(name, values_for(m, name).push(value))
}

/// The map after discarding every value of `name` and installing `value`
/// as its single value.
pub open spec fn replaced(
    m: Map<Seq<char>, Seq<Seq<char>>>,
    name: Seq<char>,
    value: Seq<char>,
) -> Map<Seq<char>, Seq<Seq<char>>> {
    m.insert(name, seq![value])
}

/// The map after deleting `name` and all of its values.
pub open spec fn removed(
    m: Map<Seq<char>, Seq<Seq<char>>>,
    name: Seq<char>,
) -> Map<Seq<char>, Seq<Seq<char>>> {
    m.remove(name)
}

/// The map described by a flat sequence of headers, grouped by name with
/// each name's values in the order they appear in the sequence.
pub open spec fn grouped<'h>(hs: Seq<Header<'h>>) -> Map<Seq<char>, Seq<Seq<char>>>
    decreases hs.len(),
{
    if hs.len() == 0 {
        Map::empty()
    } else {
        added(grouped(hs.drop_last()), hs.last().name@, hs.last().value@)
    }
}

/// The map described by a sequence of stored entries; a later entry for the
/// same name overrides an earlier one, though well-formed entry sequences
/// never hold a name twice.
pub open spec fn map_of<'h>(s: Seq<Entry<'h>>) -> Map<Seq<char>, Seq<Seq<char>>>
    decreases s.len(),
{
    if s.len() == 0 {
        Map::empty()
    } else {
        map_of(s.drop_last()).insert(s.last().0@, values_view(s.last().1@))
    }
}

/// How many values a sequence of entries holds, across all names.
pub open spec fn total_of<'h>(s: Seq<Entry<'h>>) -> nat
    decreases s.len(),
{
    if s.len() == 0 {
        0
    } else {
        total_of(s.drop_last()) + s.last().1@.len()
    }
}

/// No name occurs in two entries.
pub open spec fn distinct_names<'h>(s: Seq<Entry<'h>>) -> bool {
    forall|i: int, j: int|
        #![trigger s[i], s[j]]
        0 <= i < j < s.len() ==> s[i].0@ != s[j].0@
}

/// A well-formed entry sequence: names are distinct and no entry holds an
/// empty value sequence.
pub open spec fn wf_entries<'h>(s: Seq<Entry<'h>>) -> bool {
    &&& distinct_names(s)
    &&& forall|i: int| 0 <= i < s.len() ==> s[i].1@.len() > 0
}

/// Whether some entry of `s` holds the name `k`.
pub open spec fn has_name<'h>(s: Seq<Entry<'h>>, k: Seq<char>) -> bool {
    exists|i: int| #![trigger s[i]] 0 <= i < s.len() && s[i].0@ == k
}

/// A name is in the described map exactly when some entry holds it.
pub proof fn lemma_map_of_dom<'h>(s: Seq<Entry<'h>>)
    ensures
        forall|k: Seq<char>| #[trigger] map_of(s).dom().contains(k) <==> has_name(s, k),
    decreases s.len(),
{
    if s.len() == 0 {
    } else {
        lemma_map_of_dom(s.drop_last());
        assert forall|k: Seq<char>| #[trigger] map_of(s).dom().contains(k) implies has_name(s, k) by {
            if k == s.last().0@ {
                assert(0 <= s.len() - 1 < s.len() && s[s.len() - 1].0@ == k);
            } else {
                assert(map_of(s.drop_last()).dom().contains(k));
                let i = choose|i: int| #![trigger s.drop_last()[i]]
                    0 <= i < s.drop_last().len() && s.drop_last()[i].0@ == k;
                assert(s.drop_last()[i] == s[i]);
                assert(0 <= i < s.len() && s[i].0@ == k);
            }
        }
        assert forall|k: Seq<char>| has_name(s, k) implies #[trigger] map_of(s).dom().contains(k) by {
            let i = choose|i: int| #![trigger s[i]] 0 <= i < s.len() && s[i].0@ == k;
            if i < s.len() - 1 {
                assert(s.drop_last()[i] == s[i]);
                assert(has_name(s.drop_last(), k));
                assert(map_of(s.drop_last()).dom().contains(k));
            } else {
                assert(s.last().0@ == k);
            }
        }
    }
}

/// Dropping the last entry keeps well-formedness.
pub proof fn lemma_wf_drop_last<'h>(s: Seq<Entry<'h>>)
    requires
        wf_entries(s),
        s.len() > 0,
    ensures
        wf_entries(s.drop_last()),
{
    assert forall|i: int, j: int|
        #![trigger s.drop_last()[i], s.drop_last()[j]]
        0 <= i < j < s.drop_last().len() implies s.drop_last()[i].0@ != s.drop_last()[j].0@ by {
        assert(s.drop_last()[i] == s[i]);
        assert(s.drop_last()[j] == s[j]);
    }
    assert forall|i: int| 0 <= i < s.drop_last().len() implies s.drop_last()[i].1@.len() > 0 by {
        assert(s.drop_last()[i] == s[i]);
    }
}

/// In a distinct entry sequence, entry `i` decides what the map holds for
/// its name.
pub proof fn lemma_map_of_at<'h>(s: Seq<Entry<'h>>, i: int)
    requires
        distinct_names(s),
        0 <= i < s.len(),
    ensures
        map_of(s).dom().contains(s[i].0@),
        map_of(s)[s[i].0@] == values_view(s[i].1@),
    decreases s.len(),
{
    if i == s.len() - 1 {
    } else {
        assert forall|a: int, b: int|
            #![trigger s.drop_last()[a], s.drop_last()[b]]
            0 <= a < b < s.drop_last().len() implies s.drop_last()[a].0@ != s.drop_last()[b].0@ by {
            assert(s.drop_last()[a] == s[a]);
            assert(s.drop_last()[b] == s[b]);
        }
        lemma_map_of_at(s.drop_last(), i);
        assert(s.drop_last()[i] == s[i]);
        assert(s.last().0@ != s[i].0@);
    }
}

/// Removing entry `i` from a well-formed sequence keeps it well-formed, and
/// no remaining entry holds the removed name.
pub proof fn lemma_wf_remove<'h>(s: Seq<Entry<'h>>, i: int)
    requires
        wf_entries(s),
        0 <= i < s.len(),
    ensures
        wf_entries(s.remove(i)),
        forall|j: int| 0 <= j < s.remove(i).len() ==> #[trigger] s.remove(i)[j].0@ != s[i].0@,
{
    assert forall|a: int, b: int|
        #![trigger s.remove(i)[a], s.remove(i)[b]]
        0 <= a < b < s.remove(i).len() implies s.remove(i)[a].0@ != s.remove(i)[b].0@ by {
        assert(s.remove(i)[a] == (if a < i { s[a] } else { s[a + 1] }));
        assert(s.remove(i)[b] == (if b < i { s[b] } else { s[b + 1] }));
    }
    assert forall|j: int| 0 <= j < s.remove(i).len() implies #[trigger] s.remove(i)[j].1@.len() > 0
        && s.remove(i)[j].0@ != s[i].0@ by {
        assert(s.remove(i)[j] == (if j < i { s[j] } else { s[j + 1] }));
    }
}

/// Removing entry `i` removes exactly its name from the described map.
pub proof fn lemma_map_of_remove<'h>(s: Seq<Entry<'h>>, i: int)
    requires
        distinct_names(s),
        0 <= i < s.len(),
    ensures
        map_of(s.remove(i)) == map_of(s).remove(s[i].0@),
    decreases s.len(),
{
    let k = s[i].0@;
    if i == s.len() - 1 {
        assert(s.remove(i) =~= s.drop_last());
        lemma_map_of_dom(s.drop_last());
        assert forall|j: int| 0 <= j < s.drop_last().len() implies #[trigger] s.drop_last()[j].0@ != k by {
            assert(s.drop_last()[j] == s[j]);
        }
        assert(!map_of(s.drop_last()).dom().contains(k));
        assert(map_of(s.remove(i)) =~= map_of(s).remove(k));
    } else {
        assert forall|a: int, b: int|
            #![trigger s.drop_last()[a], s.drop_last()[b]]
            0 <= a < b < s.drop_last().len() implies s.drop_last()[a].0@ != s.drop_last()[b].0@ by {
            assert(s.drop_last()[a] == s[a]);
            assert(s.drop_last()[b] == s[b]);
        }
        assert(s.drop_last()[i] == s[i]);
        lemma_map_of_remove(s.drop_last(), i);
        assert(s.remove(i).drop_last() =~= s.drop_last().remove(i));
        assert(s.remove(i).last() == s.last());
        assert(s.last().0@ != k);
        assert(map_of(s.remove(i)) == map_of(s.drop_last().remove(i)).insert(
            s.last().0@,
            values_view(s.last().1@),
        ));
        assert(map_of(s.drop_last()).remove(k).insert(s.last().0@, values_view(s.last().1@))
            =~= map_of(s.drop_last()).insert(s.last().0@, values_view(s.last().1@)).remove(k));
    }
}

/// Removing entry `i` lowers the value count by that entry's share.
pub proof fn lemma_total_of_remove<'h>(s: Seq<Entry<'h>>, i: int)
    requires
        0 <= i < s.len(),
    ensures
        total_of(s.remove(i)) == total_of(s) - s[i].1@.len(),
    decreases s.len(),
{
    if i == s.len() - 1 {
        assert(s.remove(i) =~= s.drop_last());
    } else {
        lemma_total_of_remove(s.drop_last(), i);
        assert(s.drop_last()[i] == s[i]);
        assert(s.remove(i).drop_last() =~= s.drop_last().remove(i));
        assert(s.remove(i).last() == s.last());
    }
}

/// Appending an entry installs exactly its name in the described map.
pub proof fn lemma_map_of_push<'h>(s: Seq<Entry<'h>>, e: Entry<'h>)
    ensures
        map_of(s.push(e)) == map_of(s).insert(e.0@, values_view(e.1@)),
{
    assert(s.push(e).drop_last() =~= s);
    assert(s.push(e).last() == e);
}

/// Appending an entry raises the value count by that entry's share.
pub proof fn lemma_total_of_push<'h>(s: Seq<Entry<'h>>, e: Entry<'h>)
    ensures
        total_of(s.push(e)) == total_of(s) + e.1@.len(),
{
    assert(s.push(e).drop_last() =~= s);
    assert(s.push(e).last() == e);
}

/// Appending an entry with a fresh name and at least one value keeps a
/// well-formed sequence well-formed.
pub proof fn lemma_wf_push<'h>(s: Seq<Entry<'h>>, e: Entry<'h>)
    requires
        wf_entries(s),
        forall|j: int| 0 <= j < s.len() ==> #[trigger] s[j].0@ != e.0@,
        e.1@.len() > 0,
    ensures
        wf_entries(s.push(e)),
{
    assert forall|a: int, b: int|
        #![trigger s.push(e)[a], s.push(e)[b]]
        0 <= a < b < s.push(e).len() implies s.push(e)[a].0@ != s.push(e)[b].0@ by {
        if b < s.len() {
            assert(s.push(e)[a] == s[a]);
            assert(s.push(e)[b] == s[b]);
        } else {
            assert(s.push(e)[a] == s[a]);
            assert(s.push(e)[b] == e);
        }
    }
    assert forall|i: int| 0 <= i < s.push(e).len() implies s.push(e)[i].1@.len() > 0 by {
        if i < s.len() {
            assert(s.push(e)[i] == s[i]);
        } else {
            assert(s.push(e)[i] == e);
        }
    }
}

/// One step of a prefix sum over the entries.
pub proof fn lemma_total_of_take_step<'h>(s: Seq<Entry<'h>>, i: int)
    requires
        0 <= i < s.len(),
    ensures
        total_of(s.take(i + 1)) == total_of(s.take(i)) + s[i].1@.len(),
{
    assert(s.take(i + 1).drop_last() =~= s.take(i));
    assert(s.take(i + 1).last() == s[i]);
}

/// A prefix of the entries never holds more values than the whole.
pub proof fn lemma_total_of_take_le<'h>(s: Seq<Entry<'h>>, i: int)
    requires
        0 <= i <= s.len(),
    ensures
        total_of(s.take(i)) <= total_of(s),
    decreases s.len() - i,
{
    if i == s.len() {
        assert(s.take(i) =~= s);
    } else {
        lemma_total_of_take_step(s, i);
        lemma_total_of_take_le(s, i + 1);
    }
}

/// One step of building the described map entry by entry.
pub proof fn lemma_map_of_take_step<'h>(s: Seq<Entry<'h>>, i: int)
    requires
        0 <= i < s.len(),
    ensures
        map_of(s.take(i + 1)) == map_of(s.take(i)).insert(s[i].0@, values_view(s[i].1@)),
{
    assert(s.take(i + 1).drop_last() =~= s.take(i));
    assert(s.take(i + 1).last() == s[i]);
}

/// One step of viewing a prefix of stored values.
pub proof fn lemma_values_view_take_step<'h>(vs: Seq<Text<'h>>, j: int)
    requires
        0 <= j < vs.len(),
    ensures
        values_view(vs.take(j + 1)) == values_view(vs.take(j)).push(vs[j]@),
{
    assert(values_view(vs.take(j + 1)) =~= values_view(vs.take(j)).push(vs[j]@));
}

/// Viewing stored values commutes with appending one.
pub proof fn lemma_values_view_push<'h>(vs: Seq<Text<'h>>, t: Text<'h>)
    ensures
        values_view(vs.push(t)) == values_view(vs).push(t@),
{
    assert(values_view(vs.push(t)) =~= values_view(vs).push(t@));
}

/// Viewing stored values commutes with concatenation.
pub proof fn lemma_values_view_concat<'h>(a: Seq<Text<'h>>, b: Seq<Text<'h>>)
    ensures
        values_view(a + b) == values_view(a) + values_view(b),
{
    assert(values_view(a + b) =~= values_view(a) + values_view(b));
}

/// Viewing string slices commutes with appending one.
pub proof fn lemma_strs_view_push<'a>(vs: Seq<&'a str>, s: &'a str)
    ensures
        strs_view(vs.push(s)) == strs_view(vs).push(s@),
{
    assert(strs_view(vs.push(s)) =~= strs_view(vs).push(s@));
}

/// In a flat header sequence, all headers of one name stand side by side:
/// no header of another name comes between two headers of the same name.
pub open spec fn names_contiguous<'h>(hs: Seq<Header<'h>>) -> bool {
    forall|i: int, j: int, k: int|
        #![trigger hs[i], hs[j], hs[k]]
        0 <= i < j < k < hs.len() && hs[i].name@ == hs[k].name@ ==> hs[j].name@ == hs[i].name@
}

/// Every name occurring in a flat header sequence is in its grouping.
pub proof fn lemma_grouped_dom<'h>(hs: Seq<Header<'h>>)
    ensures
        forall|a: int| 0 <= a < hs.len() ==> #[trigger] grouped(hs).dom().contains(hs[a].name@),
    decreases hs.len(),
{
    if hs.len() > 0 {
        lemma_grouped_dom(hs.drop_last());
        assert forall|a: int| 0 <= a < hs.len()
            implies #[trigger] grouped(hs).dom().contains(hs[a].name@) by {
            if a < hs.len() - 1 {
                assert(hs.drop_last()[a] == hs[a]);
                assert(grouped(hs.drop_last()).dom().contains(hs[a].name@));
            }
        }
    }
}

/// Appending a header whose name continues the trailing block, and occurs
/// nowhere earlier, keeps the names contiguous.
pub proof fn lemma_contiguous_extend<'h>(hs: Seq<Header<'h>>, base: int, h: Header<'h>)
    requires
        names_contiguous(hs),
        0 <= base <= hs.len(),
        forall|a: int| base <= a < hs.len() ==> #[trigger] hs[a].name@ == h.name@,
        forall|a: int| 0 <= a < base ==> #[trigger] hs[a].name@ != h.name@,
    ensures
        names_contiguous(hs.push(h)),
{
    let hs2 = hs.push(h);
    assert forall|i: int, j: int, k: int|
        #![trigger hs2[i], hs2[j], hs2[k]]
        0 <= i < j < k < hs2.len() && hs2[i].name@ == hs2[k].name@
        implies hs2[j].name@ == hs2[i].name@ by {
        assert(hs2[i] == hs[i]);
        assert(hs2[j] == hs[j]);
        if k < hs.len() {
            assert(hs2[k] == hs[k]);
        } else {
            assert(hs2[k] == h);
            assert(i >= base);
        }
    }
}

/// Grouping a flat header sequence commutes with appending one header.
pub proof fn lemma_grouped_push<'h>(hs: Seq<Header<'h>>, h: Header<'h>)
    ensures
        grouped(hs.push(h)) == added(grouped(hs), h.name@, h.value@),
{
    assert(hs.push(h).drop_last() =~= hs);
    assert(hs.push(h).last() == h);
}

} // verus!
