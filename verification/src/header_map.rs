use vstd::prelude::*;

use crate::header::Header;
use crate::model::{
    added, grouped, has_name, lemma_contiguous_extend, lemma_grouped_dom, lemma_grouped_push,
    lemma_map_of_at, lemma_map_of_dom,
    lemma_map_of_push, lemma_map_of_remove, lemma_map_of_take_step, lemma_strs_view_push,
    lemma_total_of_push, lemma_total_of_remove, lemma_total_of_take_le, lemma_total_of_take_step,
    lemma_values_view_concat, lemma_values_view_push, lemma_values_view_take_step, lemma_wf_push,
    lemma_wf_remove,
    map_of, names_contiguous, removed, replaced, strs_view, total_of, values_for, values_view,
    wf_entries, Entry,
};
use crate::text::Text;

verus! {

/// A collection of headers: a map from header name to its many ordered
/// values. Lookup is by exact string equality; the values of each name keep
/// the order in which they were added, while distinct names are unordered.
#[derive(Debug, Clone)]
pub struct HeaderMap<'h> {
    entries: Vec<Entry<'h>>,
}

impl<'h> View for HeaderMap<'h> {
    type V = Map<Seq<char>, Seq<Seq<char>>>;

    closed spec fn view(&self) -> Map<Seq<char>, Seq<Seq<char>>> {
        map_of(self.entries@)
    }
}

impl<'h> HeaderMap<'h> {
    /// The well-formedness every reachable map enjoys: each stored name is
    /// stored once, no name holds an empty value sequence, and the total
    /// value count fits a `usize`.
    pub closed spec fn wf(&self) -> bool {
        &&& wf_entries(self.entries@)
        &&& total_of(self.entries@) <= usize::MAX
    }

    /// How many values the map holds, across all names.
    pub closed spec fn total(&self) -> nat {
        total_of(self.entries@)
    }

    /// Returns an empty collection.
    pub fn new() -> (m: HeaderMap<'h>)
        ensures
            m.wf(),
            m@ == Map::<Seq<char>, Seq<Seq<char>>>::empty(),
            m.total() == 0,
    {
        HeaderMap { entries: Vec::new() }
    }

    /// The index of the entry holding `name`, if any entry does.
    fn position_of(&self, name: &str) -> (r: Option<usize>)
        ensures
            match r {
                Some(i) => i < self.entries@.len() && self.entries@[i as int].0@ == name@,
                None => !has_name(self.entries@, name@),
            },
    {
        let mut i: usize = 0;
        while i < self.entries.len()
            invariant
                i <= self.entries@.len(),
                forall|j: int| 0 <= j < i ==> #[trigger] self.entries@[j].0@ != name@,
            decreases self.entries@.len() - i,
        {
            let e = &self.entries[i];
            if e.0.equals_str(name) {
                return Some(i);
            }
            i += 1;
        }
        proof {
            assert forall|j: int| 0 <= j < self.entries@.len()
                implies #[trigger] self.entries@[j].0@ != name@ by {}
        }
        None
    }

    /// Returns true if the map holds a header with the name `name`.
    pub fn contains(&self, name: &str) -> (r: bool)
        ensures
            r == self@.dom().contains(name@),
    {
        proof {
            lemma_map_of_dom(self.entries@);
        }
        match self.position_of(name) {
            Some(i) => {
                proof {
                    assert(0 <= i < self.entries@.len() && self.entries@[i as int].0@ == name@);
                    assert(has_name(self.entries@, name@));
                }
                true
            },
            None => false,
        }
    }

    /// Returns the number of values stored in the map, across all names.
    pub fn len(&self) -> (r: usize)
        requires
            self.wf(),
        ensures
            r == self.total(),
    {
        let mut acc: usize = 0;
        let mut i: usize = 0;
        while i < self.entries.len()
            invariant
                self.wf(),
                i <= self.entries@.len(),
                acc == total_of(self.entries@.take(i as int)),
            decreases self.entries@.len() - i,
        {
            proof {
                lemma_total_of_take_step(self.entries@, i as int);
                lemma_total_of_take_le(self.entries@, i as int + 1);
            }
            let e = &self.entries[i];
            acc = acc + e.1.len();
            i += 1;
        }
        proof {
            assert(self.entries@.take(self.entries@.len() as int) =~= self.entries@);
        }
        acc
    }

    /// Returns true if no headers are stored in the map.
    pub fn is_empty(&self) -> (r: bool)
        ensures
            r == (self@ == Map::<Seq<char>, Seq<Seq<char>>>::empty()),
    {
        proof {
            lemma_map_of_dom(self.entries@);
            if self.entries@.len() > 0 {
                assert(0 <= 0 < self.entries@.len());
                assert(has_name(self.entries@, self.entries@[0].0@));
                assert(self@.dom().contains(self.entries@[0].0@));
            }
        }
        self.entries.is_empty()
    }
}

impl<'h> HeaderMap<'h> {
    /// Detaches and returns the entry holding `name`, if any entry does.
    fn take_entry(&mut self, name: &str) -> (r: Option<Entry<'h>>)
        requires
            old(self).wf(),
        ensures
            final(self).wf(),
            (match r {
                Some(e) => {
                    &&& old(self)@.dom().contains(name@)
                    &&& e.0@ == name@
                    &&& values_view(e.1@) == values_for(old(self)@, name@)
                    &&& e.1@.len() > 0
                    &&& final(self)@ == old(self)@.remove(name@)
                    &&& final(self).total() == old(self).total() - e.1@.len()
                },
                None => {
                    &&& !old(self)@.dom().contains(name@)
                    &&& final(self)@ == old(self)@
                    &&& final(self).total() == old(self).total()
                },
            }),
    {
        proof {
            lemma_map_of_dom(self.entries@);
        }
        match self.position_of(name) {
            Some(i) => {
                proof {
                    assert(0 <= i < self.entries@.len() && self.entries@[i as int].0@ == name@);
                    assert(has_name(self.entries@, name@));
                    lemma_map_of_at(self.entries@, i as int);
                    lemma_map_of_remove(self.entries@, i as int);
                    lemma_total_of_remove(self.entries@, i as int);
                    lemma_wf_remove(self.entries@, i as int);
                }
                let e = self.entries.remove(i);
                Some(e)
            },
            None => None,
        }
    }

    /// Installs an entry for a name the map does not yet hold.
    fn push_entry(&mut self, name: Text<'h>, vals: Vec<Text<'h>>)
        requires
            old(self).wf(),
            !old(self)@.dom().contains(name@),
            vals@.len() > 0,
            old(self).total() + vals@.len() <= usize::MAX,
        ensures
            final(self).wf(),
            final(self)@ == old(self)@.insert(name@, values_view(vals@)),
            final(self).total() == old(self).total() + vals@.len(),
    {
        proof {
            lemma_map_of_dom(self.entries@);
            assert forall|j: int| 0 <= j < self.entries@.len()
                implies #[trigger] self.entries@[j].0@ != name@ by {
                if self.entries@[j].0@ == name@ {
                    assert(has_name(self.entries@, name@));
                }
            }
            lemma_wf_push(self.entries@, (name, vals));
            lemma_map_of_push(self.entries@, (name, vals));
            lemma_total_of_push(self.entries@, (name, vals));
        }
        self.entries.push((name, vals));
    }

    /// Returns all of the values stored for the header with name `name`, in
    /// FIFO order, as views into the map; empty if the name is absent.
    pub fn get<'a>(&'a self, name: &str) -> (r: Vec<&'a str>)
        requires
            self.wf(),
        ensures
            strs_view(r@) == values_for(self@, name@),
    {
        let mut r: Vec<&'a str> = Vec::new();
        proof {
            lemma_map_of_dom(self.entries@);
        }
        match self.position_of(name) {
            None => {
                proof {
                    assert(strs_view(r@) =~= Seq::<Seq<char>>::empty());
                }
                r
            },
            Some(i) => {
                proof {
                    assert(0 <= i < self.entries@.len() && self.entries@[i as int].0@ == name@);
                    assert(has_name(self.entries@, name@));
                    lemma_map_of_at(self.entries@, i as int);
                }
                let vals = &self.entries[i].1;
                let mut j: usize = 0;
                while j < vals.len()
                    invariant
                        j <= vals@.len(),
                        values_view(vals@) == values_for(self@, name@),
                        strs_view(r@) == values_view(vals@.take(j as int)),
                    decreases vals@.len() - j,
                {
                    let v: &Text<'h> = &vals[j];
                    let s = v.as_str();
                    proof {
                        lemma_strs_view_push(r@, s);
                        lemma_values_view_take_step(vals@, j as int);
                    }
                    r.push(s);
                    j += 1;
                }
                proof {
                    assert(vals@.take(vals@.len() as int) =~= vals@);
                }
                r
            },
        }
    }

    /// Returns the first value stored for the header with name `name`, if
    /// there is one.
    pub fn get_one<'a>(&'a self, name: &str) -> (r: Option<&'a str>)
        requires
            self.wf(),
        ensures
            (match r {
                Some(v) => self@.dom().contains(name@) && v@ == values_for(self@, name@)[0],
                None => !self@.dom().contains(name@),
            }),
    {
        proof {
            lemma_map_of_dom(self.entries@);
        }
        match self.position_of(name) {
            None => None,
            Some(i) => {
                proof {
                    assert(0 <= i < self.entries@.len() && self.entries@[i as int].0@ == name@);
                    assert(has_name(self.entries@, name@));
                    lemma_map_of_at(self.entries@, i as int);
                }
                let vals = &self.entries[i].1;
                let v: &Text<'h> = &vals[0];
                Some(v.as_str())
            },
        }
    }

    /// Replaces every value stored for the name of `header` with the single
    /// value of `header`, adding it fresh when the name was absent. Returns
    /// true exactly when the name was present before.
    pub fn replace(&mut self, header: Header<'h>) -> (r: bool)
        requires
            old(self).wf(),
            old(self).total() < usize::MAX,
        ensures
            final(self).wf(),
            r == old(self)@.dom().contains(header.name@),
            final(self)@ == replaced(old(self)@, header.name@, header.value@),
            final(self).total() == old(self).total() - values_for(
                old(self)@,
                header.name@,
            ).len() + 1,
    {
        let taken = self.take_entry(header.name.as_str());
        let existed = taken.is_some();
        let mut vals: Vec<Text<'h>> = Vec::new();
        vals.push(header.value);
        proof {
            assert(values_view(vals@) =~= seq![header.value@]);
        }
        self.push_entry(header.name, vals);
        proof {
            if existed {
                assert(old(self)@.remove(header.name@).insert(header.name@, seq![header.value@])
                    =~= replaced(old(self)@, header.name@, header.value@));
            }
        }
        existed
    }

    /// A convenience method to replace a header using a raw name and value.
    pub fn replace_raw<'a: 'h, 'b: 'h>(&mut self, name: &'a str, value: &'b str) -> (r: bool)
        requires
            old(self).wf(),
            old(self).total() < usize::MAX,
        ensures
            final(self).wf(),
            r == old(self)@.dom().contains(name@),
            final(self)@ == replaced(old(self)@, name@, value@),
            final(self).total() == old(self).total() - values_for(old(self)@, name@).len() + 1,
    {
        self.replace(Header::new(name, value))
    }

    /// Unconditionally installs `values` as the complete value sequence for
    /// `name`, discarding whatever was there; an empty `values` leaves the
    /// name absent rather than storing an empty entry.
    pub fn replace_all<'a: 'h>(&mut self, name: &'a str, values: Vec<Text<'h>>)
        requires
            old(self).wf(),
            old(self).total() - values_for(old(self)@, name@).len() + values@.len() <= usize::MAX,
        ensures
            final(self).wf(),
            values@.len() == 0 ==> final(self)@ == old(self)@.remove(name@),
            values@.len() > 0 ==> final(self)@ == old(self)@.insert(name@, values_view(values@)),
            final(self).total() == old(self).total() - values_for(old(self)@, name@).len()
                + values@.len(),
    {
        let taken = self.take_entry(name);
        if values.len() > 0 {
            self.push_entry(Text::Borrowed(name), values);
            proof {
                if taken is Some {
                    assert(old(self)@.remove(name@).insert(name@, values_view(values@))
                        =~= old(self)@.insert(name@, values_view(values@)));
                }
            }
        } else {
            proof {
                if taken is None {
                    assert(old(self)@.remove(name@) =~= old(self)@);
                }
            }
        }
    }

    /// Appends the value of `header` to whatever its name already holds,
    /// creating the entry when the name is new; FIFO order is preserved.
    pub fn add(&mut self, header: Header<'h>)
        requires
            old(self).wf(),
            old(self).total() < usize::MAX,
        ensures
            final(self).wf(),
            final(self)@ == added(old(self)@, header.name@, header.value@),
            final(self).total() == old(self).total() + 1,
    {
        let taken = self.take_entry(header.name.as_str());
        match taken {
            Some(e) => {
                let (name0, mut vals) = e;
                proof {
                    lemma_values_view_push(vals@, header.value);
                }
                vals.push(header.value);
                self.push_entry(name0, vals);
                proof {
                    assert(old(self)@.remove(header.name@).insert(
                        header.name@,
                        values_for(old(self)@, header.name@).push(header.value@),
                    ) =~= added(old(self)@, header.name@, header.value@));
                }
            },
            None => {
                let mut vals: Vec<Text<'h>> = Vec::new();
                vals.push(header.value);
                proof {
                    assert(values_view(vals@) =~= Seq::<Seq<char>>::empty().push(header.value@));
                }
                self.push_entry(header.name, vals);
            },
        }
    }

    /// A convenience method to add a header using a raw name and value.
    pub fn add_raw<'a: 'h, 'b: 'h>(&mut self, name: &'a str, value: &'b str)
        requires
            old(self).wf(),
            old(self).total() < usize::MAX,
        ensures
            final(self).wf(),
            final(self)@ == added(old(self)@, name@, value@),
            final(self).total() == old(self).total() + 1,
    {
        self.add(Header::new(name, value))
    }

    /// Appends all of `values`, in order, to whatever `name` already holds;
    /// `values` is left empty. An empty `values` changes nothing.
    pub fn add_all<'a: 'h>(&mut self, name: &'a str, values: &mut Vec<Text<'h>>)
        requires
            old(self).wf(),
            old(self).total() + old(values)@.len() <= usize::MAX,
        ensures
            final(self).wf(),
            final(values)@.len() == 0,
            old(values)@.len() == 0 ==> final(self)@ == old(self)@,
            old(values)@.len() > 0 ==> final(self)@ == old(self)@.insert(
                name@,
                values_for(old(self)@, name@) + values_view(old(values)@),
            ),
            final(self).total() == old(self).total() + old(values)@.len(),
    {
        if values.len() == 0 {
            return;
        }
        let taken = self.take_entry(name);
        match taken {
            Some(e) => {
                let (name0, mut vals) = e;
                proof {
                    lemma_values_view_concat(vals@, values@);
                }
                vals.append(values);
                self.push_entry(name0, vals);
                proof {
                    assert(old(self)@.remove(name@).insert(
                        name@,
                        values_for(old(self)@, name@) + values_view(old(values)@),
                    ) =~= old(self)@.insert(
                        name@,
                        values_for(old(self)@, name@) + values_view(old(values)@),
                    ));
                }
            },
            None => {
                let mut vals: Vec<Text<'h>> = Vec::new();
                proof {
                    lemma_values_view_concat(vals@, values@);
                }
                vals.append(values);
                self.push_entry(Text::Borrowed(name), vals);
                proof {
                    assert(values_for(old(self)@, name@) + values_view(old(values)@)
                        =~= values_view(old(values)@));
                    assert(values_view(Seq::<Text<'h>>::empty()) + values_view(old(values)@)
                        =~= values_view(old(values)@));
                }
            },
        }
    }

    /// Removes the name and all of its values; a no-op if the name is absent.
    pub fn remove(&mut self, name: &str)
        requires
            old(self).wf(),
        ensures
            final(self).wf(),
            final(self)@ == removed(old(self)@, name@),
            final(self).total() == old(self).total() - values_for(old(self)@, name@).len(),
    {
        let taken = self.take_entry(name);
        proof {
            if taken is None {
                assert(old(self)@.remove(name@) =~= old(self)@);
            }
        }
    }
}

/// Flattens well-formed entries into one header per stored value: names
/// grouped, values of each name in FIFO order.
fn flatten_entries<'h>(entries: &Vec<Entry<'h>>) -> (r: Vec<Header<'h>>)
    requires
        wf_entries(entries@),
    ensures
        grouped(r@) == map_of(entries@),
        r@.len() == total_of(entries@),
        names_contiguous(r@),
{
    let mut r: Vec<Header<'h>> = Vec::new();
    let mut i: usize = 0;
    while i < entries.len()
        invariant
            wf_entries(entries@),
            i <= entries@.len(),
            grouped(r@) == map_of(entries@.take(i as int)),
            r@.len() == total_of(entries@.take(i as int)),
            names_contiguous(r@),
        decreases entries@.len() - i,
    {
        let e = &entries[i];
        let name = &e.0;
        let vals = &e.1;
        let ghost m0 = map_of(entries@.take(i as int));
        let ghost base = r@.len() as int;
        proof {
            lemma_map_of_dom(entries@.take(i as int));
            assert(!m0.dom().contains(name@)) by {
                if m0.dom().contains(name@) {
                    let j = choose|j: int| #![trigger entries@.take(i as int)[j]]
                        0 <= j < entries@.take(i as int).len()
                        && entries@.take(i as int)[j].0@ == name@;
                    assert(entries@.take(i as int)[j] == entries@[j]);
                    assert(entries@[j].0@ != entries@[i as int].0@);
                }
            }
            lemma_grouped_dom(r@);
            assert forall|a: int| 0 <= a < base implies #[trigger] r@[a].name@ != name@ by {
                assert(grouped(r@).dom().contains(r@[a].name@));
            }
        }
        let mut j: usize = 0;
        while j < vals.len()
            invariant
                wf_entries(entries@),
                i < entries@.len(),
                vals@ == entries@[i as int].1@,
                name@ == entries@[i as int].0@,
                m0 == map_of(entries@.take(i as int)),
                !m0.dom().contains(name@),
                j <= vals@.len(),
                base == total_of(entries@.take(i as int)),
                r@.len() == base + j,
                j == 0 ==> grouped(r@) == m0,
                j > 0 ==> grouped(r@) == m0.insert(name@, values_view(vals@.take(j as int))),
                names_contiguous(r@),
                forall|a: int| base <= a < r@.len() ==> #[trigger] r@[a].name@ == name@,
                forall|a: int| 0 <= a < base ==> #[trigger] r@[a].name@ != name@,
            decreases vals@.len() - j,
        {
            let v: &Text<'h> = &vals[j];
            let h = Header { name: name.duplicate(), value: v.duplicate() };
            proof {
                lemma_grouped_push(r@, h);
                lemma_values_view_take_step(vals@, j as int);
                lemma_contiguous_extend(r@, base, h);
                if j == 0 {
                    assert(vals@.take(0) =~= Seq::<Text<'h>>::empty());
                    assert(values_view(vals@.take(0)) =~= Seq::<Seq<char>>::empty());
                } else {
                    assert(m0.insert(name@, values_view(vals@.take(j as int))).insert(
                        name@,
                        values_view(vals@.take(j as int)).push(vals@[j as int]@),
                    ) =~= m0.insert(name@, values_view(vals@.take(j as int)).push(vals@[j as int]@)));
                }
            }
            r.push(h);
            j += 1;
        }
        proof {
            assert(vals@.take(vals@.len() as int) =~= vals@);
            lemma_map_of_take_step(entries@, i as int);
            lemma_total_of_take_step(entries@, i as int);
        }
        i += 1;
    }
    proof {
        assert(entries@.take(entries@.len() as int) =~= entries@);
    }
    r
}

impl<'h> HeaderMap<'h> {
    /// Removes every header stored in the map and returns them, one header
    /// per stored value: names in no specific order, the values of each name
    /// grouped and in FIFO order. The map is left empty.
    pub fn remove_all(&mut self) -> (r: Vec<Header<'h>>)
        requires
            old(self).wf(),
        ensures
            final(self).wf(),
            final(self)@ == Map::<Seq<char>, Seq<Seq<char>>>::empty(),
            final(self).total() == 0,
            grouped(r@) == old(self)@,
            r@.len() == old(self).total(),
            names_contiguous(r@),
    {
        let mut drained: Vec<Entry<'h>> = Vec::new();
        core::mem::swap(&mut self.entries, &mut drained);
        flatten_entries(&drained)
    }

    /// Returns every header stored in the map, one header per stored value:
    /// names in no specific order, the values of each name grouped and in
    /// FIFO order. The map is unchanged.
    pub fn iter(&self) -> (r: Vec<Header<'h>>)
        requires
            self.wf(),
        ensures
            grouped(r@) == self@,
            r@.len() == self.total(),
            names_contiguous(r@),
    {
        flatten_entries(&self.entries)
    }

    /// Consumes the map and returns every header stored in it, one header
    /// per stored value, with the same ordering guarantees as `iter`.
    pub fn into_iter(self) -> (r: Vec<Header<'h>>)
        requires
            self.wf(),
        ensures
            grouped(r@) == self@,
            r@.len() == self.total(),
            names_contiguous(r@),
    {
        flatten_entries(&self.entries)
    }

    /// Consumes the map and returns the headers the way they are stored:
    /// each name once, paired with its FIFO value sequence.
    pub fn into_iter_raw(self) -> (r: Vec<Entry<'h>>)
        requires
            self.wf(),
        ensures
            wf_entries(r@),
            map_of(r@) == self@,
            total_of(r@) == self.total(),
    {
        self.entries
    }
}

/// Every name a well-formed map holds has at least one value: an empty value
/// sequence is equivalent to absence and is never stored.
pub proof fn lemma_values_nonempty<'h>(m: &HeaderMap<'h>)
    requires
        m.wf(),
    ensures
        forall|k: Seq<char>| #[trigger] m@.dom().contains(k) ==> m@[k].len() > 0,
{
    lemma_map_of_dom(m.entries@);
    assert forall|k: Seq<char>| #[trigger] m@.dom().contains(k) implies m@[k].len() > 0 by {
        assert(has_name(m.entries@, k));
        let i = choose|i: int| #![trigger m.entries@[i]]
            0 <= i < m.entries@.len() && m.entries@[i].0@ == k;
        lemma_map_of_at(m.entries@, i);
    }
}

impl<'h> Default for HeaderMap<'h> {
    /// Returns an empty collection.
    fn default() -> (m: Self)
        ensures
            m.wf(),
            m@ == Map::<Seq<char>, Seq<Seq<char>>>::empty(),
            m.total() == 0,
    {
        HeaderMap::new()
    }
}

} // verus!
