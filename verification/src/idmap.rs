//! A map keyed by document id, kept sorted.
use vstd::prelude::*;

use crate::document;
use crate::document::{DocId, IdModel};

verus! {

/// Whether entries ascend by id, so that no id occurs twice.
pub open spec fn ids_ascend<V>(s: Seq<(IdModel, V)>) -> bool {
    forall|i: int, j: int|
        0 <= i < j < s.len() ==> document::id_lt((#[trigger] s[i]).0, (#[trigger] s[j]).0)
}

/// What is stored under an id.
pub open spec fn lookup<V>(s: Seq<(IdModel, V)>, id: IdModel) -> Option<V>
    decreases s.len(),
{
    if s.len() == 0 {
        None
    } else if s.last().0 == id {
        Some(s.last().1)
    } else {
        lookup(s.drop_last(), id)
    }
}

/// Sorted entries with `v` stored under `id`.
pub open spec fn placed<V>(s: Seq<(IdModel, V)>, id: IdModel, v: V) -> Seq<(IdModel, V)>
    decreases s.len(),
{
    if s.len() == 0 {
        seq![(id, v)]
    } else if s.last().0 == id {
        s.drop_last().push((id, v))
    } else if document::id_lt(id, s.last().0) {
        placed(s.drop_last(), id, v).push(s.last())
    } else {
        s.push((id, v))
    }
}

/// Entries without the last still ascend.
pub proof fn lemma_front_ascends<V>(s: Seq<(IdModel, V)>)
    requires
        ids_ascend(s),
        s.len() > 0,
    ensures
        ids_ascend(s.drop_last()),
        forall|i: int|
            0 <= i < s.len() - 1 ==> document::id_lt((#[trigger] s.drop_last()[i]).0, s.last().0),
{
    let front = s.drop_last();
    assert forall|i: int, j: int| 0 <= i < j < front.len() implies document::id_lt(
        (#[trigger] front[i]).0,
        (#[trigger] front[j]).0,
    ) by {
        assert(document::id_lt(s[i].0, s[j].0));
    }
    assert forall|i: int| 0 <= i < front.len() implies document::id_lt(
        (#[trigger] front[i]).0,
        s.last().0,
    ) by {
        assert(document::id_lt(s[i].0, s[s.len() - 1].0));
    }
}

/// The entry at a position is what is stored under its id.
pub proof fn lemma_lookup_at<V>(s: Seq<(IdModel, V)>, i: int)
    requires
        ids_ascend(s),
        0 <= i < s.len(),
    ensures
        lookup(s, s[i].0) == Some(s[i].1),
    decreases s.len(),
{
    if i < s.len() - 1 {
        lemma_front_ascends(s);
        lemma_lookup_at(s.drop_last(), i);
        assert(s.drop_last()[i] == s[i]);
        document::lemma_ids_are_ordered(s[i].0, s.last().0, s[i].0);
    }
}

/// What is found is stored somewhere.
pub proof fn lemma_lookup_found<V>(s: Seq<(IdModel, V)>, id: IdModel)
    ensures
        match lookup(s, id) {
            Some(v) => exists|i: int| 0 <= i < s.len() && #[trigger] s[i] == (id, v),
            None => forall|i: int| 0 <= i < s.len() ==> (#[trigger] s[i]).0 != id,
        },
    decreases s.len(),
{
    if s.len() > 0 {
        let front = s.drop_last();
        if s.last().0 == id {
            assert(s[s.len() - 1] == (id, s.last().1));
        } else {
            lemma_lookup_found(front, id);
            match lookup(front, id) {
                Some(v) => {
                    let i = choose|i: int| 0 <= i < front.len() && #[trigger] front[i] == (id, v);
                    assert(s[i] == (id, v));
                },
                None => {
                    assert forall|i: int| 0 <= i < s.len() implies (#[trigger] s[i]).0 != id by {
                        if i < front.len() {
                            assert(front[i].0 != id);
                        }
                    }
                },
            }
        }
    }
}

/// An id that comes after every entry is not stored.
proof fn lemma_lookup_beyond<V>(s: Seq<(IdModel, V)>, id: IdModel)
    requires
        forall|i: int| 0 <= i < s.len() ==> document::id_lt((#[trigger] s[i]).0, id),
    ensures
        lookup(s, id) is None,
{
    lemma_lookup_found(s, id);
    document::lemma_ids_are_ordered(id, id, id);
}

/// Storing under an id changes what is found under that id, and under no other; the entries
/// still ascend.
pub proof fn lemma_placed<V>(s: Seq<(IdModel, V)>, id: IdModel, v: V)
    requires
        ids_ascend(s),
    ensures
        ids_ascend(placed(s, id, v)),
        forall|x: IdModel| #[trigger]
            lookup(placed(s, id, v), x) == if x == id {
                Some(v)
            } else {
                lookup(s, x)
            },
        placed(s, id, v).len() == s.len() + if lookup(s, id) is Some {
            0int
        } else {
            1int
        },
        forall|i: int|
            0 <= i < placed(s, id, v).len() ==> (#[trigger] placed(s, id, v)[i]).0 == id || exists|
                k: int,
            | 0 <= k < s.len() && s[k] == placed(s, id, v)[i],
    decreases s.len(),
{
    let t = placed(s, id, v);
    if s.len() == 0 {
        assert(t.drop_last() =~= s);
    } else {
        let front = s.drop_last();
        let last = s.last();
        lemma_front_ascends(s);
        lemma_placed(front, id, v);
        document::lemma_ids_are_ordered(id, last.0, id);
        if last.0 == id {
            assert(t.drop_last() =~= front);
            assert forall|i: int, j: int| 0 <= i < j < t.len() implies document::id_lt(
                (#[trigger] t[i]).0,
                (#[trigger] t[j]).0,
            ) by {
                assert(t[i] == s[i]);
                assert(t[j].0 == s[j].0);
            }
            assert forall|i: int| 0 <= i < t.len() implies (#[trigger] t[i]).0 == id || exists|
                k: int,
            | 0 <= k < s.len() && s[k] == t[i] by {
                if i < front.len() {
                    assert(s[i] == t[i]);
                }
            }
        } else if document::id_lt(id, last.0) {
            let p = placed(front, id, v);
            assert(t.drop_last() =~= p);
            assert(lookup(s, id) == lookup(front, id));
            assert forall|i: int| 0 <= i < p.len() implies document::id_lt(
                (#[trigger] p[i]).0,
                last.0,
            ) by {
                if p[i].0 != id {
                    let k = choose|k: int| 0 <= k < front.len() && front[k] == p[i];
                    assert(document::id_lt(front[k].0, last.0));
                }
            }
            assert forall|i: int, j: int| 0 <= i < j < t.len() implies document::id_lt(
                (#[trigger] t[i]).0,
                (#[trigger] t[j]).0,
            ) by {
                assert(t[i] == p[i]);
                if j < p.len() {
                    assert(t[j] == p[j]);
                }
            }
            assert forall|x: IdModel| #[trigger]
                lookup(t, x) == if x == id {
                    Some(v)
                } else {
                    lookup(s, x)
                } by {
                assert(lookup(p, x) == if x == id {
                    Some(v)
                } else {
                    lookup(front, x)
                });
            }
            assert forall|i: int| 0 <= i < t.len() implies (#[trigger] t[i]).0 == id || exists|
                k: int,
            | 0 <= k < s.len() && s[k] == t[i] by {
                if i < p.len() {
                    assert(t[i] == p[i]);
                    if p[i].0 != id {
                        let k = choose|k: int| 0 <= k < front.len() && front[k] == p[i];
                        assert(s[k] == t[i]);
                    }
                } else {
                    assert(s[s.len() - 1] == t[i]);
                }
            }
        } else {
            assert(t.drop_last() =~= s);
            assert forall|i: int| 0 <= i < s.len() implies document::id_lt(
                (#[trigger] s[i]).0,
                id,
            ) by {
                if i < front.len() {
                    assert(document::id_lt(front[i].0, last.0));
                    document::lemma_ids_are_ordered(s[i].0, last.0, id);
                }
            }
            lemma_lookup_beyond(s, id);
            assert forall|i: int| 0 <= i < t.len() implies (#[trigger] t[i]).0 == id || exists|
                k: int,
            | 0 <= k < s.len() && s[k] == t[i] by {
                if i < s.len() {
                    assert(s[i] == t[i]);
                }
            }
        }
    }
}

/// Where an entry is placed.
proof fn lemma_placed_at<V>(s: Seq<(IdModel, V)>, id: IdModel, v: V, i: int)
    requires
        ids_ascend(s),
        0 <= i <= s.len(),
        forall|j: int| 0 <= j < i ==> document::id_lt((#[trigger] s[j]).0, id),
        forall|j: int| i <= j < s.len() ==> !document::id_lt((#[trigger] s[j]).0, id),
    ensures
        lookup(s, id) == if i < s.len() && s[i].0 == id {
            Some(s[i].1)
        } else {
            None
        },
        placed(s, id, v) == if i < s.len() && s[i].0 == id {
            s.update(i, (id, v))
        } else {
            s.insert(i, (id, v))
        },
    decreases s.len(),
{
    document::lemma_ids_are_ordered(id, id, id);
    if s.len() == 0 {
        assert(s.insert(0, (id, v)) =~= seq![(id, v)]);
    } else {
        let front = s.drop_last();
        let last = s.last();
        lemma_front_ascends(s);
        document::lemma_ids_are_ordered(id, last.0, id);
        if i == s.len() {
            assert(document::id_lt(s[s.len() - 1].0, id));
            lemma_lookup_beyond(s, id);
            assert(s.insert(i, (id, v)) =~= s.push((id, v)));
        } else if i == s.len() - 1 && last.0 == id {
            assert(s.update(i, (id, v)) =~= front.push((id, v)));
        } else {
            assert(!document::id_lt(s[s.len() - 1].0, id));
            if last.0 == id {
                assert(document::id_lt(s[i].0, s[s.len() - 1].0));
            }
            lemma_placed_at(front, id, v, i);
            assert(front.insert(i, (id, v)).push(last) =~= s.insert(i, (id, v)));
            if i < front.len() {
                assert(front[i] == s[i]);
                assert(front.update(i, (id, v)).push(last) =~= s.update(i, (id, v)));
            }
        }
    }
}

/// A map keyed by document id, kept sorted.
#[derive(Debug)]
pub struct IdMap<V: Copy> {
    entries: Vec<(DocId, V)>,
}

impl<V: Copy> View for IdMap<V> {
    type V = Seq<(IdModel, V)>;

    closed spec fn view(&self) -> Seq<(IdModel, V)> {
        self.entries@.map_values(|e: (DocId, V)| (e.0@, e.1))
    }
}

impl<V: Copy> IdMap<V> {
    #[verifier::type_invariant]
    spec fn sorted(self) -> bool {
        ids_ascend(self@)
    }

    /// An empty map.
    pub fn new() -> (r: Self)
        ensures
            r@ == Seq::<(IdModel, V)>::empty(),
    {
        let entries: Vec<(DocId, V)> = Vec::new();
        let r = IdMap { entries };
        assert(r@ =~= Seq::<(IdModel, V)>::empty());
        r
    }

    /// How many ids there are. They ascend.
    pub fn len(&self) -> (r: usize)
        ensures
            r == self@.len(),
            ids_ascend(self@),
    {
        proof {
            use_type_invariant(self);
        }
        self.entries.len()
    }

    /// The id at a position.
    pub fn id_at(&self, i: usize) -> (r: &DocId)
        requires
            i < self@.len(),
        ensures
            r@ == self@[i as int].0,
    {
        &self.entries[i].0
    }

    /// The value at a position.
    pub fn value_at(&self, i: usize) -> (r: V)
        requires
            i < self@.len(),
        ensures
            r == self@[i as int].1,
    {
        self.entries[i].1
    }

    /// The first position whose id does not come before `id`.
    fn position(&self, id: &DocId) -> (r: usize)
        ensures
            r <= self@.len(),
            forall|j: int| 0 <= j < r ==> document::id_lt((#[trigger] self@[j]).0, id@),
            forall|j: int| r <= j < self@.len() ==> !document::id_lt((#[trigger] self@[j]).0, id@),
    {
        proof {
            use_type_invariant(self);
        }
        let mut low: usize = 0;
        let mut high: usize = self.entries.len();
        while low < high
            invariant
                low <= high <= self@.len(),
                self@.len() == self.entries@.len(),
                ids_ascend(self@),
                forall|j: int| 0 <= j < low ==> document::id_lt((#[trigger] self@[j]).0, id@),
                forall|j: int|
                    high <= j < self@.len() ==> !document::id_lt((#[trigger] self@[j]).0, id@),
            decreases high - low,
        {
            let mid: usize = low + (high - low) / 2;
            let before: bool = self.entries[mid].0.before(id);
            proof {
                assert(self@[mid as int].0 == self.entries@[mid as int].0@);
                assert forall|j: int| 0 <= j <= mid && before implies document::id_lt(
                    (#[trigger] self@[j]).0,
                    id@,
                ) by {
                    if j < mid {
                        assert(document::id_lt(self@[j].0, self@[mid as int].0));
                        document::lemma_ids_are_ordered(self@[j].0, self@[mid as int].0, id@);
                    }
                }
                assert forall|j: int| mid <= j < self@.len() && !before implies !document::id_lt(
                    (#[trigger] self@[j]).0,
                    id@,
                ) by {
                    if j > mid && document::id_lt(self@[j].0, id@) {
                        assert(document::id_lt(self@[mid as int].0, self@[j].0));
                        document::lemma_ids_are_ordered(self@[mid as int].0, self@[j].0, id@);
                    }
                }
            }
            if before {
                low = mid + 1;
            } else {
                high = mid;
            }
        }
        low
    }

    /// What is stored under `id`.
    pub fn get(&self, id: &DocId) -> (r: Option<V>)
        ensures
            r == lookup(self@, id@),
    {
        proof {
            use_type_invariant(self);
        }
        let i: usize = self.position(id);
        proof {
            lemma_placed_at(self@, id@, arbitrary(), i as int);
        }
        if i < self.entries.len() && self.entries[i].0.same(id) {
            Some(self.entries[i].1)
        } else {
            None
        }
    }

    /// Store `v` under `id`. Returns what was there.
    pub fn insert(&mut self, id: DocId, v: V) -> (r: Option<V>)
        ensures
            final(self)@ == placed(old(self)@, id@, v),
            r == lookup(old(self)@, id@),
    {
        proof {
            use_type_invariant(&*self);
        }
        let i: usize = self.position(&id);
        let ghost s = self@;
        let ghost k = id@;
        proof {
            lemma_placed_at(s, k, v, i as int);
            lemma_placed(s, k, v);
        }
        let present: bool = i < self.entries.len() && self.entries[i].0.same(&id);
        let mut entries: Vec<(DocId, V)> = Vec::new();
        std::mem::swap(&mut entries, &mut self.entries);
        let r: Option<V> = if present {
            let was: V = entries[i].1;
            entries[i] = (id, v);
            Some(was)
        } else {
            entries.insert(i, (id, v));
            None
        };
        assert(entries@.map_values(|e: (DocId, V)| (e.0@, e.1)) =~= placed(s, k, v));
        self.entries = entries;
        r
    }

    /// Remove everything.
    pub fn clear(&mut self)
        ensures
            final(self)@ == Seq::<(IdModel, V)>::empty(),
    {
        self.entries = Vec::new();
        assert(self@ =~= Seq::<(IdModel, V)>::empty());
    }
}

} // verus!
