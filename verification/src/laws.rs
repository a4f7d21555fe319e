use vstd::prelude::*;

use crate::model::{added, removed, replaced, values_for};

verus! {

/// The map after a sequence of single-value additions, applied in order.
pub open spec fn added_all(
    m: Map<Seq<char>, Seq<Seq<char>>>,
    ps: Seq<(Seq<char>, Seq<char>)>,
) -> Map<Seq<char>, Seq<Seq<char>>>
    decreases ps.len(),
{
    if ps.len() == 0 {
        m
    } else {
        added(added_all(m, ps.drop_last()), ps.last().0, ps.last().1)
    }
}

/// FIFO per name: after any sequence of additions into an empty map, the
/// values stored for a name are exactly the added values that carried that
/// name, in the order they were added — and the empty sequence for a name
/// that none of them carried.
pub proof fn lemma_adds_are_fifo(ps: Seq<(Seq<char>, Seq<char>)>, name: Seq<char>)
    ensures
        values_for(added_all(Map::empty(), ps), name) == ps.filter(
            |p: (Seq<char>, Seq<char>)| p.0 == name,
        ).map_values(|p: (Seq<char>, Seq<char>)| p.1),
    decreases ps.len(),
{
    reveal(Seq::filter);
    let pred = |p: (Seq<char>, Seq<char>)| p.0 == name;
    let val = |p: (Seq<char>, Seq<char>)| p.1;
    if ps.len() == 0 {
        assert(ps.filter(pred).map_values(val) =~= Seq::<Seq<char>>::empty());
    } else {
        lemma_adds_are_fifo(ps.drop_last(), name);
        let m = added_all(Map::empty(), ps.drop_last());
        if ps.last().0 == name {
            assert(ps.filter(pred) == ps.drop_last().filter(pred).push(ps.last()));
            assert(ps.filter(pred).map_values(val) =~= ps.drop_last().filter(pred).map_values(
                val,
            ).push(ps.last().1));
        } else {
            assert(ps.filter(pred) == ps.drop_last().filter(pred));
            assert(values_for(added(m, ps.last().0, ps.last().1), name) == values_for(m, name));
        }
    }
}

/// Replacement wins outright: after a replace, the name holds exactly the
/// one replaced value — whatever and however many values it held before —
/// so a following `get_one` returns it and `get` yields it alone.
pub proof fn lemma_replace_pins_single_value(
    m: Map<Seq<char>, Seq<Seq<char>>>,
    name: Seq<char>,
    value: Seq<char>,
)
    ensures
        replaced(m, name, value).dom().contains(name),
        values_for(replaced(m, name, value), name) == seq![value],
        values_for(replaced(m, name, value), name).len() == 1,
        values_for(replaced(m, name, value), name)[0] == value,
{
}

/// After a removal the name is gone: it is no longer contained, and the
/// values stored for it form the empty sequence.
pub proof fn lemma_remove_clears_name(m: Map<Seq<char>, Seq<Seq<char>>>, name: Seq<char>)
    ensures
        !removed(m, name).dom().contains(name),
        values_for(removed(m, name), name) == Seq::<Seq<char>>::empty(),
{
}

/// Removing an absent name changes nothing, so removing the same name twice
/// is the same as removing it once — both calls are total and the second is
/// a no-op.
pub proof fn lemma_remove_idempotent(m: Map<Seq<char>, Seq<Seq<char>>>, name: Seq<char>)
    ensures
        !m.dom().contains(name) ==> removed(m, name) == m,
        removed(removed(m, name), name) == removed(m, name),
{
    if !m.dom().contains(name) {
        assert(removed(m, name) =~= m);
    }
    assert(removed(removed(m, name), name) =~= removed(m, name));
}

} // verus!
