use vstd::prelude::*;
use vstd::set_lib::*;

verus! {

/// Hands out small integer identifiers and takes them back for reuse.
///
/// Identifiers below `current` have been handed out at some point; those in
/// `recycled` were given back and are handed out again, last returned first.
pub struct RecycleAllocator {
    current: usize,
    recycled: Vec<usize>,
}

/// Identifiers handed out and not given back, for the abstract state
/// `(next fresh identifier, stack of returned identifiers)`.
pub open spec fn live_ids(v: (nat, Seq<usize>)) -> Set<usize> {
    Set::new(|i: usize| i < v.0 && !v.1.contains(i))
}

/// Whether the abstract state is consistent: every returned identifier was
/// handed out before and is returned at most once.
pub open spec fn recycle_state_wf(v: (nat, Seq<usize>)) -> bool {
    &&& v.1.no_duplicates()
    &&& forall|j: int| 0 <= j < v.1.len() ==> (#[trigger] v.1[j]) < v.0
}

/// State and identifier after one allocation.
pub open spec fn alloc_step(v: (nat, Seq<usize>)) -> ((nat, Seq<usize>), usize) {
    if v.1.len() > 0 {
        ((v.0, v.1.drop_last()), v.1.last())
    } else {
        ((v.0 + 1, v.1), v.0 as usize)
    }
}

/// State after giving `id` back.
pub open spec fn dealloc_step(v: (nat, Seq<usize>), id: usize) -> (nat, Seq<usize>) {
    (v.0, v.1.push(id))
}

impl View for RecycleAllocator {
    type V = (nat, Seq<usize>);

    closed spec fn view(&self) -> (nat, Seq<usize>) {
        (self.current as nat, self.recycled@)
    }
}

impl RecycleAllocator {
    pub open spec fn wf(&self) -> bool {
        recycle_state_wf(self@)
    }

    /// Whether another identifier can be handed out without overflow.
    pub open spec fn can_alloc(&self) -> bool {
        self@.1.len() > 0 || self@.0 < usize::MAX
    }

    /// The identifier the next allocation hands out.
    pub open spec fn next_id(&self) -> usize {
        alloc_step(self@).1
    }

    /// How many returned identifiers wait to be handed out again.
    pub fn recycled_len(&self) -> (n: usize)
        ensures
            n == self@.1.len(),
    {
        self.recycled.len()
    }

    /// The next identifier never handed out before.
    pub fn next_fresh(&self) -> (n: usize)
        ensures
            n == self@.0,
    {
        self.current
    }

    /// An allocator that has handed out nothing.
    pub fn new() -> (r: Self)
        ensures
            r.wf(),
            r@ == (0nat, Seq::<usize>::empty()),
    {
        RecycleAllocator { current: 0, recycled: Vec::new() }
    }

    /// Hands out the most recently returned identifier, or a fresh one.
    pub fn allocate(&mut self) -> (id: usize)
        requires
            old(self).wf(),
            old(self).can_alloc(),
        ensures
            final(self).wf(),
            (final(self)@, id) == alloc_step(old(self)@),
            !live_ids(old(self)@).contains(id),
            live_ids(final(self)@) == live_ids(old(self)@).insert(id),
    {
        proof {
            lemma_alloc_step_fresh(self@);
        }
        if let Some(id) = self.recycled.pop() {
            id
        } else {
            self.current = self.current + 1;
            self.current - 1
        }
    }

    /// Takes back identifier `id`, which must be live.
    pub fn deallocate(&mut self, id: usize)
        requires
            old(self).wf(),
            live_ids(old(self)@).contains(id),
        ensures
            final(self).wf(),
            final(self)@ == dealloc_step(old(self)@, id),
            live_ids(final(self)@) == live_ids(old(self)@).remove(id),
    {
        proof {
            lemma_dealloc_step(self@, id);
        }
        self.recycled.push(id);
    }
}

/// Allocation never hands out a live identifier, makes the result live and
/// keeps the state consistent.
pub proof fn lemma_alloc_step_fresh(v: (nat, Seq<usize>))
    requires
        recycle_state_wf(v),
        v.1.len() > 0 || v.0 < usize::MAX,
    ensures
        recycle_state_wf(alloc_step(v).0),
        !live_ids(v).contains(alloc_step(v).1),
        live_ids(alloc_step(v).0) == live_ids(v).insert(alloc_step(v).1),
{
    let (w, id) = alloc_step(v);
    if v.1.len() > 0 {
        assert(v.1[v.1.len() - 1] == id);
        assert forall|i: usize| #[trigger] live_ids(w).contains(i) <==> live_ids(v).insert(id).contains(i) by {
            if i == id {
                if w.1.contains(i) {
                    let j = choose|j: int| 0 <= j < w.1.len() && w.1[j] == i;
                    assert(v.1[j] == v.1[v.1.len() - 1]);
                }
            } else {
                if v.1.contains(i) {
                    let j = choose|j: int| 0 <= j < v.1.len() && v.1[j] == i;
                    assert(w.1[j] == i);
                }
                if w.1.contains(i) {
                    let j = choose|j: int| 0 <= j < w.1.len() && w.1[j] == i;
                    assert(v.1[j] == i);
                }
            }
        }
        assert(live_ids(w) =~= live_ids(v).insert(id));
    } else {
        assert(live_ids(w) =~= live_ids(v).insert(id));
    }
}

/// Giving back a live identifier removes it from the live set and keeps the
/// state consistent.
pub proof fn lemma_dealloc_step(v: (nat, Seq<usize>), id: usize)
    requires
        recycle_state_wf(v),
        live_ids(v).contains(id),
    ensures
        recycle_state_wf(dealloc_step(v, id)),
        live_ids(dealloc_step(v, id)) == live_ids(v).remove(id),
{
    let w = dealloc_step(v, id);
    assert(w.1.last() == id);
    assert forall|i: usize| #[trigger] w.1.contains(i) <==> (v.1.contains(i) || i == id) by {
        if w.1.contains(i) {
            let j = choose|j: int| 0 <= j < w.1.len() && w.1[j] == i;
            if j < v.1.len() {
                assert(v.1[j] == i);
            }
        }
        if v.1.contains(i) {
            let j = choose|j: int| 0 <= j < v.1.len() && v.1[j] == i;
            assert(w.1[j] == i);
        }
    }
    assert(live_ids(w) =~= live_ids(v).remove(id));
}

/// At most as many identifiers wait for reuse as were ever handed out.
pub proof fn lemma_recycled_len(v: (nat, Seq<usize>))
    requires
        recycle_state_wf(v),
    ensures
        v.1.len() <= v.0,
{
    let s = v.1.map_values(|x: usize| x as int);
    assert(s.no_duplicates()) by {
        assert forall|a: int, b: int| 0 <= a < s.len() && 0 <= b < s.len() && a != b implies s[a]
            != s[b] by {
            assert(v.1[a] != v.1[b]);
        }
    }
    s.unique_seq_to_set();
    lemma_int_range(0, v.0 as int);
    assert(s.to_set().subset_of(set_int_range(0, v.0 as int))) by {
        assert forall|y: int| s.to_set().contains(y) implies set_int_range(0, v.0 as int).contains(
            y,
        ) by {
            let j = choose|j: int| 0 <= j < s.len() && s[j] == y;
            assert(v.1[j] < v.0);
        }
    }
    lemma_len_subset(s.to_set(), set_int_range(0, v.0 as int));
}

/// Giving an identifier back and then allocating hands the same identifier
/// out again and restores the state from before.
pub proof fn lemma_dealloc_then_alloc(v: (nat, Seq<usize>), id: usize)
    requires
        recycle_state_wf(v),
        live_ids(v).contains(id),
    ensures
        alloc_step(dealloc_step(v, id)) == (v, id),
{
    assert(v.1.push(id).drop_last() =~= v.1);
}

} // verus!
