use vstd::prelude::*;

verus! {

/// The position of the first occurrence of `id` in `s`, as a spec value.
/// Meaningful only when `s` contains `id`.
pub open spec fn first_pos(s: Seq<u64>, id: u64) -> int
    decreases s.len(),
{
    if s.len() == 0 {
        0
    } else if s[0] == id {
        0
    } else {
        1 + first_pos(s.drop_first(), id)
    }
}

pub proof fn lemma_first_pos(s: Seq<u64>, id: u64)
    requires
        s.contains(id),
    ensures
        0 <= first_pos(s, id) < s.len(),
        s[first_pos(s, id)] == id,
        forall|j: int| 0 <= j < first_pos(s, id) ==> s[j] != id,
    decreases s.len(),
{
    if s.len() > 0 && s[0] != id {
        let t = s.drop_first();
        assert(t.contains(id)) by {
            let w = choose|w: int| 0 <= w < s.len() && s[w] == id;
            assert(t[w - 1] == id);
        }
        lemma_first_pos(t, id);
        assert forall|j: int| 0 <= j < first_pos(s, id) implies s[j] != id by {
            if j > 0 {
                assert(t[j - 1] != id);
            }
        }
    }
}

/// A bidirectional, total mapping between external entity ids and dense
/// graph-vertex indices. Index `i` is mapped to the id stored at
/// position `i`; ids are assigned indices in first-seen order and are
/// never reused or reassigned.
pub struct VertexIndex {
    ids: Vec<u64>,
}

impl View for VertexIndex {
    type V = Seq<u64>;

    closed spec fn view(&self) -> Seq<u64> {
        self.ids@
    }
}

impl VertexIndex {
    /// No two positions hold the same external id.
    pub open spec fn wf(&self) -> bool {
        forall|i: int, j: int|
            0 <= i < j < self@.len() ==> self@[i] != self@[j]
    }

    /// An empty index.
    pub fn new() -> (r: VertexIndex)
        ensures
            r@ =~= Seq::<u64>::empty(),
            r.wf(),
    {
        VertexIndex { ids: Vec::new() }
    }

    /// How many ids have been assigned an index.
    pub fn len(&self) -> (n: usize)
        ensures
            n == self@.len(),
    {
        self.ids.len()
    }

    /// The dense graph index assigned to `id`, or `None` when `id` was
    /// never assigned one.
    pub fn graph_index_of(&self, id: u64) -> (r: Option<usize>)
        ensures
            match r {
                Some(i) => self@.contains(id) && i == first_pos(self@, id),
                None => !self@.contains(id),
            },
    {
        let mut i: usize = 0;
        while i < self.ids.len()
            invariant
                i <= self.ids.len(),
                forall|j: int| 0 <= j < i ==> self.ids@[j] != id,
            decreases self.ids.len() - i,
        {
            if self.ids[i] == id {
                proof {
                    lemma_first_pos(self@, id);
                    assert(first_pos(self@, id) == i);
                }
                return Some(i);
            }
            i = i + 1;
        }
        None
    }

    /// The external id that index `i` stands for, or `None` when `i` is
    /// outside the assigned range.
    pub fn external_id_of(&self, i: usize) -> (r: Option<u64>)
        ensures
            match r {
                Some(id) => i < self@.len() && id == self@[i as int],
                None => i >= self@.len(),
            },
    {
        if i < self.ids.len() {
            Some(self.ids[i])
        } else {
            None
        }
    }

    /// Assigns the next free index to `id` unless `id` already has one;
    /// either way, returns the index that `id` is mapped to afterwards.
    pub fn assign_if_absent(&mut self, id: u64) -> (idx: usize)
        requires
            old(self).wf(),
        ensures
            final(self).wf(),
            old(self)@.contains(id) ==> final(self)@ =~= old(self)@,
            !old(self)@.contains(id) ==> final(self)@ =~= old(self)@.push(id),
            final(self)@.contains(id),
            idx == first_pos(final(self)@, id),
    {
        match self.graph_index_of(id) {
            Some(i) => i,
            None => {
                let idx = self.ids.len();
                self.ids.push(id);
                proof {
                    assert(self@[self@.len() - 1] == id);
                    assert(self@.contains(id));
                    lemma_first_pos(self@, id);
                    assert forall|j: int| 0 <= j < self@.len() - 1 implies self@[j] != id by {
                        assert(old(self)@[j] == self@[j]);
                    }
                    assert(first_pos(self@, id) == idx);
                }
                idx
            },
        }
    }
}

/// Law: the index is a bijection between the assigned ids and the range
/// `[0, N)`. Looking an assigned id up and mapping the index back yields
/// the same id, and every index in range maps to an id whose index it is.
pub proof fn lemma_vertex_index_bijection(v: VertexIndex)
    requires
        v.wf(),
    ensures
        forall|id: u64|
            v@.contains(id) ==> 0 <= #[trigger] first_pos(v@, id) < v@.len()
                && v@[first_pos(v@, id)] == id,
        forall|i: int| 0 <= i < v@.len() ==> first_pos(v@, #[trigger] v@[i]) == i,
{
    assert forall|id: u64| v@.contains(id) implies 0 <= #[trigger] first_pos(v@, id) < v@.len()
        && v@[first_pos(v@, id)] == id by {
        lemma_first_pos(v@, id);
    }
    assert forall|i: int| 0 <= i < v@.len() implies first_pos(v@, #[trigger] v@[i]) == i by {
        let id = v@[i];
        assert(v@.contains(id));
        lemma_first_pos(v@, id);
        let p = first_pos(v@, id);
        if p < i {
            assert(v@[p] == v@[i]);
        } else if p > i {
            assert(v@[i] != id);
        }
    }
}

} // verus!
