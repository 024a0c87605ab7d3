//! Widget state that lives across rebuilds of the ui: the states are kept in the order the
//! widgets were visited, each widget's span of states between a `Begin` and its `End`.
use vstd::prelude::*;

verus! {

/// An entry of the state list: the start of a widget's span, with its id and state, or the end
/// of a span.
pub enum Entry<S> {
    Begin { id: u64, state: S },
    End,
}

/// A widget state tracker.
pub struct ManagedState<S> {
    state: Vec<Entry<S>>,
}

/// A cursor into a `ManagedState`, used while a ui is built.
pub struct ManagedStateTracker<'a, S> {
    /// The state list being rebuilt.
    pub tracker: &'a mut ManagedState<S>,
    /// The position of the cursor in the list.
    pub index: usize,
}

/// Where the search of `begin` for a widget's state stops, from position `i` at nesting depth
/// `level`: at a `Begin` with the id at depth 0 (found), at the `End` of the enclosing span
/// (not found), or at the end of the list (not found).
pub open spec fn scan_begin<S>(e: Seq<Entry<S>>, i: int, level: int, id: u64) -> (int, bool)
    decreases e.len() - i,
{
    if i < 0 || i >= e.len() {
        (i, false)
    } else {
        match e[i] {
            Entry::End => if level > 0 {
                scan_begin(e, i + 1, level - 1, id)
            } else {
                (i, false)
            },
            Entry::Begin { id: tid, .. } => if level == 0 && tid == id {
                (i, true)
            } else {
                scan_begin(e, i + 1, level + 1, id)
            },
        }
    }
}

/// Where the search of `end` stops, from position `i` at depth `level`: at the `End` of the
/// enclosing span, or `None` when the list ends first.
pub open spec fn scan_end<S>(e: Seq<Entry<S>>, i: int, level: int) -> Option<int>
    decreases e.len() - i,
{
    if i < 0 || i >= e.len() {
        None
    } else {
        match e[i] {
            Entry::Begin { .. } => scan_end(e, i + 1, level + 1),
            Entry::End => if level > 0 {
                scan_end(e, i + 1, level - 1)
            } else {
                Some(i)
            },
        }
    }
}

proof fn lemma_scan_begin_range<S>(e: Seq<Entry<S>>, i: int, level: int, id: u64)
    requires
        0 <= i <= e.len(),
    ensures
        i <= scan_begin(e, i, level, id).0 <= e.len(),
        scan_begin(e, i, level, id).1 ==> scan_begin(e, i, level, id).0 < e.len() && (e[scan_begin(e, i, level, id).0] matches Entry::Begin { id: t, .. } && t == id),
        !scan_begin(e, i, level, id).1 && scan_begin(e, i, level, id).0 < e.len() ==> e[scan_begin(e, i, level, id).0] is End,
    decreases e.len() - i,
{
    if i < e.len() {
        match e[i] {
            Entry::End => if level > 0 {
                lemma_scan_begin_range(e, i + 1, level - 1, id);
            },
            Entry::Begin { id: tid, .. } => if !(level == 0 && tid == id) {
                lemma_scan_begin_range(e, i + 1, level + 1, id);
            },
        }
    }
}

proof fn lemma_scan_end_range<S>(e: Seq<Entry<S>>, i: int, level: int)
    requires
        0 <= i <= e.len(),
    ensures
        scan_end(e, i, level) matches Some(p) ==> i <= p < e.len() && e[p] is End,
    decreases e.len() - i,
{
    if i < e.len() {
        match e[i] {
            Entry::Begin { .. } => lemma_scan_end_range(e, i + 1, level + 1),
            Entry::End => if level > 0 {
                lemma_scan_end_range(e, i + 1, level - 1);
            },
        }
    }
}

impl<S> ManagedState<S> {
    /// The entries of the state list.
    pub closed spec fn entries(&self) -> Seq<Entry<S>> {
        self.state@
    }

    /// Retrieve a `ManagedStateTracker` that can be used to build a ui.
    /// Normally you will call this function at the start of your `view` implementation.
    /// Once the tracker is done with, the state list is the one the tracker left.
    pub fn tracker(&mut self) -> (t: ManagedStateTracker<'_, S>)
        ensures
            t.entries() == old(self).entries(),
            t.position() == 0,
            t.wf(),
            *final(self) == *final(t.tracker),
    {
        ManagedStateTracker { tracker: self, index: 0 }
    }
}

impl<S> Default for ManagedState<S> {
    /// An empty state list.
    fn default() -> (r: Self)
        ensures
            r.entries() == Seq::<Entry<S>>::empty(),
    {
        ManagedState { state: Vec::new() }
    }
}

impl<'a, S> ManagedStateTracker<'a, S> {
    /// The entries of the state list.
    pub closed spec fn entries(&self) -> Seq<Entry<S>> {
        self.tracker.state@
    }

    /// The position of the cursor.
    pub closed spec fn position(&self) -> int {
        self.index as int
    }

    /// Whether the cursor is within the list.
    pub closed spec fn wf(&self) -> bool {
        self.index <= self.tracker.state@.len()
    }

    /// The state of entry `i`, which starts a span.
    fn state_at(&mut self, i: usize) -> (r: &mut S)
        requires
            i < old(self).entries().len(),
            old(self).entries()[i as int] is Begin,
        ensures
            *final(final(self).tracker) == *final(old(self).tracker),
            *r == old(self).entries()[i as int]->Begin_state,
            final(self).entries() == old(self).entries().update(
                i as int,
                Entry::Begin { id: old(self).entries()[i as int]->Begin_id, state: *final(r) },
            ),
            final(self).index == old(self).index,
    {
        match &mut self.tracker.state[i] {
            Entry::Begin { state, .. } => state,
            Entry::End => vstd::pervasive::unreached(),
        }
    }

    /// Get a state object for the given id. If such an object doesn't exist yet in the current
    /// span, it is constructed using `default`: where the search ran into the end of the span,
    /// it is put at the cursor, and where it ran to the end of the list, at the end. States
    /// passed over on the way to the one found are dropped. The span of the widget that requests
    /// this state object should be closed using `end`.
    pub fn begin<F: FnOnce() -> S>(&mut self, id: u64, default: F) -> (r: &mut S)
        requires
            old(self).wf(),
            call_requires(default, ()),
        ensures
            *final(final(self).tracker) == *final(old(self).tracker),
            final(self).wf(),
            ({
                let e = old(self).entries();
                let start = old(self).position();
                let (p, found) = scan_begin(e, start, 0, id);
                if found {
                    &&& *r == e[p]->Begin_state
                    &&& final(self).position() == start + 1
                    &&& final(self).entries() == (e.subrange(0, start) + e.subrange(p, e.len() as int)).update(
                        start,
                        Entry::Begin { id, state: *final(r) },
                    )
                } else {
                    let pos = if p < e.len() { start } else { e.len() as int };
                    &&& call_ensures(default, (), *r)
                    &&& final(self).position() == pos + 1
                    &&& final(self).entries() == e.subrange(0, pos) + seq![
                        Entry::Begin { id, state: *final(r) },
                        Entry::End,
                    ] + e.subrange(pos, e.len() as int)
                }
            }),
    {
        let ghost e = self.entries();
        let search_start = self.index;
        proof {
            lemma_scan_begin_range(e, search_start as int, 0, id);
        }
        let mut level: usize = 0;
        while self.index < self.tracker.state.len()
            invariant_except_break
                search_start <= self.index <= e.len(),
                level <= self.index - search_start,
                scan_begin(e, search_start as int, 0, id) == scan_begin(e, self.index as int, level as int, id),
            invariant
                self.entries() == e,
                e == old(self).entries(),
                search_start == old(self).index,
                search_start <= e.len(),
                *final(self.tracker) == *final(old(self).tracker),
            ensures
                !scan_begin(e, search_start as int, 0, id).1,
                if scan_begin(e, search_start as int, 0, id).0 < e.len() {
                    self.index == search_start
                } else {
                    self.index == e.len()
                },
            decreases e.len() - self.index,
        {
            let (is_end, tid) = match &self.tracker.state[self.index] {
                Entry::End => (true, 0),
                Entry::Begin { id: tid, .. } => (false, *tid),
            };
            if is_end {
                if level > 0 {
                    level -= 1;
                } else {
                    // not found, revert to start of local scope
                    self.index = search_start;
                    break;
                }
            } else if level == 0 && tid == id {
                let found_at = self.index;
                self.cut(search_start);
                let ghost mid = self.entries();
                proof {
                    assert(mid =~= e.subrange(0, search_start as int) + e.subrange(found_at as int, e.len() as int));
                    assert(mid[search_start as int] == e[found_at as int]);
                }
                self.index = search_start + 1;
                return self.state_at(search_start);
            } else {
                level += 1;
            }
            self.index += 1;
        }
        let i = self.index;
        let state = default();
        self.tracker.state.insert(i, Entry::Begin { id, state });
        let grown = self.tracker.state.len();
        assert(i < grown);
        self.tracker.state.insert(i + 1, Entry::End);
        self.index += 1;
        let ghost after = self.entries();
        proof {
            assert(after =~= e.subrange(0, i as int) + seq![Entry::Begin { id, state }, Entry::End] + e.subrange(i as int, e.len() as int));
        }
        self.state_at(i)
    }

    /// Ends the span of a widget: the states left in it after the cursor are dropped, and the
    /// cursor moves past its `End`. Should be called after all of its children have been handled.
    pub fn end(&mut self)
        requires
            old(self).wf(),
            scan_end(old(self).entries(), old(self).position(), 0) is Some,
        ensures
            *final(final(self).tracker) == *final(old(self).tracker),
            final(self).wf(),
            ({
                let e = old(self).entries();
                let start = old(self).position();
                let p = scan_end(e, start, 0)->Some_0;
                &&& final(self).position() == start + 1
                &&& final(self).entries() == e.subrange(0, start) + e.subrange(p, e.len() as int)
            }),
    {
        let ghost e = self.entries();
        let search_start = self.index;
        proof {
            lemma_scan_end_range(e, search_start as int, 0);
        }
        let mut level: usize = 0;
        while self.index < self.tracker.state.len()
            invariant
                search_start <= self.index <= e.len(),
                *final(self.tracker) == *final(old(self).tracker),
                self.entries() == e,
                e == old(self).entries(),
                search_start == old(self).index,
                level <= self.index - search_start,
                scan_end(e, self.index as int, level as int) == scan_end(e, search_start as int, 0),
                scan_end(e, search_start as int, 0) is Some,
            decreases e.len() - self.index,
        {
            let is_end = match &self.tracker.state[self.index] {
                Entry::End => true,
                Entry::Begin { .. } => false,
            };
            if !is_end {
                self.index += 1;
                level += 1;
            } else if level > 0 {
                self.index += 1;
                level -= 1;
            } else {
                // found it! remove any widget states that were not matched.
                self.cut(search_start);
                self.index = search_start + 1;
                return;
            }
        }
        proof {
            assert(scan_end(e, self.index as int, level as int) is None);
        }
        vstd::pervasive::unreached()
    }

    /// Drops the states after the cursor: those of widgets that were not visited again.
    pub fn finish(&mut self)
        requires
            old(self).wf(),
        ensures
            *final(final(self).tracker) == *final(old(self).tracker),
            final(self).entries() == old(self).entries().subrange(0, old(self).position()),
            final(self).position() == old(self).position(),
            final(self).wf(),
    {
        let ghost e = self.entries();
        while self.index < self.tracker.state.len()
            invariant
                self.index == old(self).index,
                *final(self.tracker) == *final(old(self).tracker),
                self.index <= self.entries().len() <= e.len(),
                e == old(self).entries(),
                self.entries() == e.subrange(0, self.entries().len() as int),
            decreases self.entries().len(),
        {
            self.tracker.state.pop();
        }
    }

    /// Removes the entries from `from` to the cursor.
    fn cut(&mut self, from: usize)
        requires
            from <= old(self).index <= old(self).tracker.state@.len(),
        ensures
            *final(final(self).tracker) == *final(old(self).tracker),
            final(self).index == from,
            final(self).entries() == old(self).entries().subrange(0, from as int) + old(self).entries().subrange(old(self).index as int, old(self).entries().len() as int),
    {
        let ghost e = self.entries();
        while self.index > from
            invariant
                from <= self.index <= old(self).index,
                *final(self.tracker) == *final(old(self).tracker),
                e == old(self).entries(),
                old(self).index <= e.len(),
                self.entries() == e.subrange(0, self.index as int) + e.subrange(old(self).index as int, e.len() as int),
            decreases self.index,
        {
            self.index -= 1;
            self.tracker.state.remove(self.index);
            proof {
                assert(self.entries() =~= e.subrange(0, self.index as int) + e.subrange(old(self).index as int, e.len() as int));
            }
        }
    }
}

/// A widget visited again at the place where its state is recorded finds that state there, and
/// the list keeps all its entries.
pub proof fn lemma_begin_in_place<S>(e: Seq<Entry<S>>, p: int, id: u64)
    requires
        0 <= p < e.len(),
        e[p] matches Entry::Begin { id: i, .. } && i == id,
    ensures
        scan_begin(e, p, 0, id) == (p, true),
        e.subrange(0, p) + e.subrange(p, e.len() as int) == e,
{
    assert(e.subrange(0, p) + e.subrange(p, e.len() as int) =~= e);
}

/// A span ended right at its recorded `End` finds it there, and the list keeps all its entries.
pub proof fn lemma_end_in_place<S>(e: Seq<Entry<S>>, p: int)
    requires
        0 <= p < e.len(),
        e[p] is End,
    ensures
        scan_end(e, p, 0) == Some(p),
        e.subrange(0, p) + e.subrange(p, e.len() as int) == e,
{
    assert(e.subrange(0, p) + e.subrange(p, e.len() as int) =~= e);
}

/// A widget new to the span being built, where the list has nothing more at the cursor or the
/// span ends there, is given a fresh state in a span of its own right at the cursor.
pub proof fn lemma_begin_fresh<S>(e: Seq<Entry<S>>, p: int, id: u64)
    requires
        0 <= p <= e.len(),
        p == e.len() || e[p] is End,
    ensures
        scan_begin(e, p, 0, id) == (p, false),
{
}

/// Whether, from position `k` on, the pass that the list records finds everything in place:
/// each `Begin` is found by a `begin` with its id right at the cursor, and each `End` by an `end`.
pub open spec fn replays<S>(e: Seq<Entry<S>>, k: int) -> bool
    decreases e.len() - k,
{
    if k < 0 || k >= e.len() {
        true
    } else {
        &&& match e[k] {
            Entry::Begin { id, .. } => scan_begin(e, k, 0, id) == (k, true),
            Entry::End => scan_end(e, k, 0) == Some(k),
        }
        &&& replays(e, k + 1)
    }
}

/// A rebuild that visits the widgets in the order the list records them finds every state where
/// it is recorded: each widget gets its own state back, and the list keeps all its entries.
pub proof fn lemma_replay<S>(e: Seq<Entry<S>>, k: int)
    requires
        0 <= k,
    ensures
        replays(e, k),
    decreases e.len() - k,
{
    if k < e.len() {
        match e[k] {
            Entry::Begin { id, .. } => lemma_begin_in_place(e, k, id),
            Entry::End => lemma_end_in_place(e, k),
        }
        lemma_replay(e, k + 1);
    }
}

} // verus!
