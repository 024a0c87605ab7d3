//! The rule tree: selectors arranged by the path of widgets they select, and the matching of
//! widgets against it.
use vstd::prelude::*;

use std::sync::Arc;

use crate::bitset::{insert_mask_bits, BitSet};
use crate::style::{
    child_match, meta_defined, meta_match, sibling_match, states_view, AsStr, Selector, SelectorV,
    SelectorWidget, StyleState,
};

verus! {

/// A node of the rule tree: the selector that leads to it from its parent, the declarations that
/// apply to widgets it selects, and the indices of its children.
pub struct Rule<D> {
    pub selector: Selector,
    pub declarations: Vec<D>,
    pub children: Vec<usize>,
}

/// A rule tree stored as a list of nodes; node 0 is the root.
pub struct RuleTree<D> {
    pub rules: Vec<Rule<D>>,
}

impl<D> RuleTree<D> {
    /// The shape that flattening a builder produces: children come after their parent, and at
    /// most 31 nodes, so that every node fits in the single-block bit set that matching fills.
    pub open spec fn wf(&self) -> bool {
        &&& self.rules.len() <= 31
        &&& forall|r: int, k: int|
            0 <= r < self.rules.len() && 0 <= k < self.rules@[r].children.len() ==> r
                < #[trigger] self.rules@[r].children@[k] < self.rules.len()
    }

    /// The selector of node `r`.
    pub open spec fn sel(&self, r: int) -> SelectorV {
        self.rules@[r].selector@
    }

    /// The children of node `r`.
    pub open spec fn kids(&self, r: int) -> Seq<usize> {
        self.rules@[r].children@
    }

    /// Whether child node `c` meta-matches a widget.
    pub open spec fn meta_ok(
        &self,
        c: int,
        states: Seq<StyleState<Seq<char>>>,
        class: Seq<char>,
        n: usize,
        len: usize,
    ) -> bool {
        meta_match(self.sel(c), states, class, n, len) == Some(true)
    }

    /// The bits that `add_to_bitset(r, ..)` adds: node `r`, and, for each child that
    /// meta-matches the widget, what adding that child adds.
    pub open spec fn reach(
        &self,
        r: int,
        states: Seq<StyleState<Seq<char>>>,
        class: Seq<char>,
        n: usize,
        len: usize,
    ) -> Set<int>
        decreases self.rules.len() - r, 1int, 0int,
    {
        if 0 <= r < self.rules.len() {
            insert_mask_bits(r).union(
                self.reach_children(r, self.kids(r).len() as int, states, class, n, len),
            )
        } else {
            Set::empty()
        }
    }

    /// What adding the first `k` children of node `r` adds.
    pub open spec fn reach_children(
        &self,
        r: int,
        k: int,
        states: Seq<StyleState<Seq<char>>>,
        class: Seq<char>,
        n: usize,
        len: usize,
    ) -> Set<int>
        decreases self.rules.len() - r, 0int, k,
    {
        if k <= 0 || k > self.kids(r).len() || !(0 <= r < self.rules.len()) {
            Set::empty()
        } else {
            let c = self.kids(r)[k - 1] as int;
            let before = self.reach_children(r, k - 1, states, class, n, len);
            if r < c < self.rules.len() && self.meta_ok(c, states, class, n, len) {
                before.union(self.reach(c, states, class, n, len))
            } else {
                before
            }
        }
    }

    /// The inputs on which `add_to_bitset(r, ..)` evaluates only defined meta selectors: every
    /// child it looks at has a defined meta selector, and so on below the ones that match.
    pub open spec fn safe(&self, r: int, n: usize, len: usize, states: Seq<StyleState<Seq<char>>>, class: Seq<char>) -> bool
        decreases self.rules.len() - r, 1int, 0int,
    {
        0 <= r < self.rules.len() && self.safe_children(r, self.kids(r).len() as int, n, len, states, class)
    }

    /// `safe` for the first `k` children of node `r`.
    pub open spec fn safe_children(
        &self,
        r: int,
        k: int,
        n: usize,
        len: usize,
        states: Seq<StyleState<Seq<char>>>,
        class: Seq<char>,
    ) -> bool
        decreases self.rules.len() - r, 0int, k,
    {
        if k <= 0 || k > self.kids(r).len() || !(0 <= r < self.rules.len()) {
            true
        } else {
            let c = self.kids(r)[k - 1] as int;
            if r < c < self.rules.len() {
                &&& self.safe_children(r, k - 1, n, len, states, class)
                &&& meta_defined(self.sel(c), n, len)
                &&& (self.meta_ok(c, states, class, n, len) ==> self.safe(c, n, len, states, class))
            } else {
                false
            }
        }
    }

    /// Add a node from the rule tree to a bitset.
    /// This will also add all the `:` based child selectors that apply based on `state`, `n` and
    /// `len`.
    pub fn add_to_bitset<S: AsStr>(
        &self,
        rule: usize,
        state: &[StyleState<S>],
        class: &str,
        n: usize,
        len: usize,
        to: &mut BitSet,
    )
        requires
            self.wf(),
            self.safe(rule as int, n, len, states_view(state@), class@),
            *old(to) is Large ==> old(to).blocks().len() > 0,
        ensures
            final(to)@ == old(to)@.union(self.reach(rule as int, states_view(state@), class@, n, len)),
            *final(to) is Large ==> final(to).blocks().len() > 0,
            *final(to) is Small <==> *old(to) is Small,
        decreases self.rules.len() - rule,
    {
        let ghost states = states_view(state@);
        to.insert(rule);
        let children = &self.rules[rule].children;
        let mut i: usize = 0;
        while i < children.len()
            invariant
                self.wf(),
                rule < self.rules.len(),
                children@ == self.kids(rule as int),
                states == states_view(state@),
                i <= children.len(),
                self.safe(rule as int, n, len, states, class@),
                *to is Large ==> to.blocks().len() > 0,
                *to is Small <==> *old(to) is Small,
                to@ == old(to)@.union(insert_mask_bits(rule as int)).union(
                    self.reach_children(rule as int, i as int, states, class@, n, len),
                ),
            decreases children.len() - i,
        {
            let child_rule = children[i];
            proof {
                lemma_safe_prefix(self, rule as int, i + 1, children.len() as int, n, len, states, class@);
            }
            let m = self.rules[child_rule].selector.match_meta(state, class, n, len);
            let ok = match m {
                Some(b) => b,
                None => false,
            };
            if ok {
                self.add_to_bitset(child_rule, state, class, n, len, to);
            }
            i += 1;
            proof {
                assert(to@ =~= old(to)@.union(insert_mask_bits(rule as int)).union(
                    self.reach_children(rule as int, i as int, states, class@, n, len),
                ));
            }
        }
        proof {
            assert(to@ =~= old(to)@.union(self.reach(rule as int, states, class@, n, len)));
        }
    }
}

impl<D> RuleTree<D> {
    /// The first `k` children of node `r` whose selector selects a widget named `widget`, as a
    /// child (`sibling` false) or as a following sibling (`sibling` true).
    pub open spec fn matching_kids(&self, r: int, k: int, direct: bool, widget: Seq<char>, sibling: bool) -> Seq<usize>
        decreases k,
    {
        if k <= 0 || k > self.kids(r).len() {
            Seq::empty()
        } else {
            let c = self.kids(r)[k - 1];
            let before = self.matching_kids(r, k - 1, direct, widget, sibling);
            let m = if sibling {
                sibling_match(self.sel(c as int), direct, widget)
            } else {
                child_match(self.sel(c as int), direct, widget)
            };
            if m == Some(true) {
                before.push(c)
            } else {
                before
            }
        }
    }

    fn matching(&self, rule: usize, direct: bool, widget: &str, sibling: bool) -> (r: Vec<usize>)
        requires
            self.wf(),
            rule < self.rules.len(),
        ensures
            r@ == self.matching_kids(rule as int, self.kids(rule as int).len() as int, direct, widget@, sibling),
    {
        let children = &self.rules[rule].children;
        let mut result: Vec<usize> = Vec::new();
        let mut i: usize = 0;
        while i < children.len()
            invariant
                self.wf(),
                rule < self.rules.len(),
                children@ == self.kids(rule as int),
                i <= children.len(),
                result@ == self.matching_kids(rule as int, i as int, direct, widget@, sibling),
            decreases children.len() - i,
        {
            let c = children[i];
            let m = if sibling {
                self.rules[c].selector.match_sibling(direct, widget)
            } else {
                self.rules[c].selector.match_child(direct, widget)
            };
            if let Some(true) = m {
                result.push(c);
            }
            i += 1;
        }
        result
    }

    /// The children of node `rule` that select a child widget named `widget`; `direct` tells
    /// whether the widget is a direct child of the one that matched `rule`.
    pub fn match_child(&self, rule: usize, direct: bool, widget: &str) -> (r: Vec<usize>)
        requires
            self.wf(),
            rule < self.rules.len(),
        ensures
            r@ == self.matching_kids(rule as int, self.kids(rule as int).len() as int, direct, widget@, false),
    {
        self.matching(rule, direct, widget, false)
    }

    /// The children of node `rule` that select a sibling widget named `widget`; `direct` tells
    /// whether the widget directly follows the one that matched `rule`.
    pub fn match_sibling(&self, rule: usize, direct: bool, widget: &str) -> (r: Vec<usize>)
        requires
            self.wf(),
            rule < self.rules.len(),
        ensures
            r@ == self.matching_kids(rule as int, self.kids(rule as int).len() as int, direct, widget@, true),
    {
        self.matching(rule, direct, widget, true)
    }
}

impl<D> RuleTree<D> {
    /// What `rematch` keeps of the nodes in `style`: each node whose selector is not a meta
    /// selector that fails, with what adding it adds.
    pub open spec fn rematched(
        &self,
        style: Set<int>,
        states: Seq<StyleState<Seq<char>>>,
        class: Seq<char>,
        n: usize,
        len: usize,
    ) -> Set<int> {
        Set::new(
            |i: int|
                exists|r: int|
                    #![trigger style.contains(r), self.reach(r, states, class, n, len)]
                    style.contains(r) && meta_match(self.sel(r), states, class, n, len) != Some(false)
                        && self.reach(r, states, class, n, len).contains(i),
        )
    }

    /// Rematching keeps every node of the style whose selector is no meta selector, and every
    /// node whose meta selector still holds.
    pub proof fn lemma_rematch_keeps(
        &self,
        style: Set<int>,
        states: Seq<StyleState<Seq<char>>>,
        class: Seq<char>,
        n: usize,
        len: usize,
        r: int,
    )
        requires
            self.wf(),
            style.contains(r),
            0 <= r < self.rules.len(),
            meta_match(self.sel(r), states, class, n, len) != Some(false),
        ensures
            self.rematched(style, states, class, n, len).contains(r),
    {
        assert(insert_mask_bits(r).contains(r));
        assert(self.reach(r, states, class, n, len).contains(r));
    }

    /// The inputs on which `rematch` is defined: every node of `style` exists and has a defined
    /// meta selector, and adding a node that is kept is safe.
    pub open spec fn rematch_ok(
        &self,
        style: Set<int>,
        states: Seq<StyleState<Seq<char>>>,
        class: Seq<char>,
        n: usize,
        len: usize,
    ) -> bool {
        forall|r: int|
            #[trigger] style.contains(r) ==> 0 <= r < self.rules.len() && meta_defined(
                self.sel(r),
                n,
                len,
            ) && (meta_match(self.sel(r), states, class, n, len) != Some(false) ==> self.safe(
                r,
                n,
                len,
                states,
                class,
            ))
    }

    /// Perform meta-selector matching again for the rules in the given bitset.
    /// Non meta selectors will be retained no matter what.
    pub fn rematch<S: AsStr>(
        &self,
        style: &BitSet,
        state: &[StyleState<S>],
        class: &str,
        n: usize,
        len: usize,
    ) -> (r: BitSet)
        requires
            self.wf(),
            64 * style.blocks().len() <= usize::MAX + 1,
            self.rematch_ok(style@, states_view(state@), class@, n, len),
        ensures
            r@ == self.rematched(style@, states_view(state@), class@, n, len),
    {
        let ghost states = states_view(state@);
        let mut result = BitSet::new();
        let mut it = style.iter();
        loop
            invariant
                self.wf(),
                states == states_view(state@),
                self.rematch_ok(style@, states, class@, n, len),
                it.wf(),
                it.elems().subset_of(style@),
                result is Small,
                result@ == self.rematched(style@.difference(it.elems()), states, class@, n, len),
            ensures
                result@ == self.rematched(style@, states, class@, n, len),
            decreases it.elems().len(),
        {
            proof {
                it.lemma_elems_finite();
            }
            let ghost before = it.elems();
            match it.next() {
                None => {
                    proof {
                        assert(style@.difference(it.elems()) =~= style@);
                    }
                    break;
                },
                Some(selector) => {
                    proof {
                        assert(style@.contains(selector as int));
                        vstd::set::axiom_set_remove_len(before, selector as int);
                    }
                    let m = self.rules[selector].selector.match_meta(state, class, n, len);
                    let keep = match m {
                        Some(b) => b,
                        None => true,
                    };
                    let ghost prev = result@;
                    if keep {
                        self.add_to_bitset(selector, state, class, n, len, &mut result);
                    }
                    proof {
                        let done = style@.difference(it.elems());
                        assert(done =~= style@.difference(before).insert(selector as int));
                        assert forall|i: int| result@.contains(i) == self.rematched(done, states, class@, n, len).contains(i) by {
                            if self.rematched(done, states, class@, n, len).contains(i) {
                                let r = choose|r: int| #![trigger done.contains(r), self.reach(r, states, class@, n, len)]
                                    done.contains(r) && meta_match(self.sel(r), states, class@, n, len) != Some(false)
                                        && self.reach(r, states, class@, n, len).contains(i);
                                if r != selector {
                                    assert(style@.difference(before).contains(r));
                                    assert(prev.contains(i));
                                }
                            }
                            if keep && self.reach(selector as int, states, class@, n, len).contains(i) {
                                assert(done.contains(selector as int));
                            }
                            if prev.contains(i) {
                                let r = choose|r: int| #![trigger style@.difference(before).contains(r), self.reach(r, states, class@, n, len)]
                                    style@.difference(before).contains(r) && meta_match(self.sel(r), states, class@, n, len) != Some(false)
                                        && self.reach(r, states, class@, n, len).contains(i);
                                assert(done.contains(r));
                            }
                        }
                        assert(result@ =~= self.rematched(done, states, class@, n, len));
                    }
                },
            }
        }
        result
    }
}

impl<D> RuleTree<D> {
    /// What adding the first `k` of the nodes `v` adds.
    pub open spec fn list_adds(
        &self,
        v: Seq<usize>,
        k: int,
        states: Seq<StyleState<Seq<char>>>,
        class: Seq<char>,
        n: usize,
        len: usize,
    ) -> Set<int>
        decreases k,
    {
        if k <= 0 || k > v.len() {
            Set::empty()
        } else {
            self.list_adds(v, k - 1, states, class, n, len).union(
                self.reach(v[k - 1] as int, states, class, n, len),
            )
        }
    }

    /// What a widget named `widget` takes from node `node` that matched an ancestor
    /// (`sibling` false) or an earlier sibling (`sibling` true): the matching children of the
    /// node, with what adding each adds.
    pub open spec fn node_adds(
        &self,
        node: int,
        direct: bool,
        sibling: bool,
        widget: Seq<char>,
        states: Seq<StyleState<Seq<char>>>,
        class: Seq<char>,
        n: usize,
        len: usize,
    ) -> Set<int> {
        let m = self.matching_kids(node, self.kids(node).len() as int, direct, widget, sibling);
        self.list_adds(m, m.len() as int, states, class, n, len)
    }

    /// What a widget takes from all nodes of `set`.
    pub open spec fn set_adds(
        &self,
        set: Set<int>,
        direct: bool,
        sibling: bool,
        widget: Seq<char>,
        states: Seq<StyleState<Seq<char>>>,
        class: Seq<char>,
        n: usize,
        len: usize,
    ) -> Set<int> {
        Set::new(
            |i: int|
                exists|node: int|
                    #![trigger set.contains(node), self.node_adds(node, direct, sibling, widget, states, class, n, len)]
                    set.contains(node) && self.node_adds(
                        node,
                        direct,
                        sibling,
                        widget,
                        states,
                        class,
                        n,
                        len,
                    ).contains(i),
        )
    }

    /// What a widget takes from the match sets `sets[a..]`; only the last set is direct.
    pub open spec fn sets_adds(
        &self,
        sets: Seq<Set<int>>,
        a: int,
        sibling: bool,
        widget: Seq<char>,
        states: Seq<StyleState<Seq<char>>>,
        class: Seq<char>,
        n: usize,
        len: usize,
    ) -> Set<int>
        decreases sets.len() - a,
    {
        if a < 0 || a >= sets.len() {
            Set::empty()
        } else {
            self.set_adds(sets[a], a == sets.len() - 1, sibling, widget, states, class, n, len).union(
                self.sets_adds(sets, a + 1, sibling, widget, states, class, n, len),
            )
        }
    }

    /// The inputs on which matching a widget against the match sets is defined: every node in
    /// them exists, and adding each child that matches is safe.
    pub open spec fn sets_ok(
        &self,
        sets: Seq<Set<int>>,
        sibling: bool,
        widget: Seq<char>,
        states: Seq<StyleState<Seq<char>>>,
        class: Seq<char>,
        n: usize,
        len: usize,
    ) -> bool {
        forall|a: int, node: int|
            0 <= a < sets.len() && #[trigger] sets[a].contains(node) ==> 0 <= node < self.rules.len()
                && self.node_ok(node, a == sets.len() - 1, sibling, widget, states, class, n, len)
    }

    /// Adding each child of `node` that selects the widget is safe.
    pub open spec fn node_ok(
        &self,
        node: int,
        direct: bool,
        sibling: bool,
        widget: Seq<char>,
        states: Seq<StyleState<Seq<char>>>,
        class: Seq<char>,
        n: usize,
        len: usize,
    ) -> bool {
        forall|c: usize|
            #[trigger] self.matching_kids(node, self.kids(node).len() as int, direct, widget, sibling).contains(c)
                ==> self.safe(c as int, n, len, states, class)
    }

    fn add_list<S: AsStr>(
        &self,
        v: &Vec<usize>,
        state: &[StyleState<S>],
        class: &str,
        n: usize,
        len: usize,
        to: &mut BitSet,
    )
        requires
            self.wf(),
            forall|c: usize| #[trigger] v@.contains(c) ==> self.safe(c as int, n, len, states_view(state@), class@),
            *old(to) is Small,
        ensures
            final(to)@ == old(to)@.union(self.list_adds(v@, v@.len() as int, states_view(state@), class@, n, len)),
            *final(to) is Small,
    {
        let mut i: usize = 0;
        while i < v.len()
            invariant
                self.wf(),
                forall|c: usize| #[trigger] v@.contains(c) ==> self.safe(c as int, n, len, states_view(state@), class@),
                i <= v.len(),
                *to is Small,
                to@ == old(to)@.union(self.list_adds(v@, i as int, states_view(state@), class@, n, len)),
            decreases v.len() - i,
        {
            proof {
                assert(v@.contains(v@[i as int]));
            }
            self.add_to_bitset(v[i], state, class, n, len, to);
            i += 1;
            proof {
                assert(to@ =~= old(to)@.union(self.list_adds(v@, i as int, states_view(state@), class@, n, len)));
            }
        }
    }

    fn add_matches<S: AsStr>(
        &self,
        sets: &[BitSet],
        sibling: bool,
        widget: &str,
        state: &[StyleState<S>],
        class: &str,
        n: usize,
        len: usize,
        to: &mut BitSet,
    )
        requires
            self.wf(),
            forall|a: int| 0 <= a < sets@.len() ==> 64 * (#[trigger] sets@[a]).blocks().len() <= usize::MAX + 1,
            self.sets_ok(sets@.map_values(|b: BitSet| b@), sibling, widget@, states_view(state@), class@, n, len),
            *old(to) is Small,
        ensures
            final(to)@ == old(to)@.union(self.sets_adds(sets@.map_values(|b: BitSet| b@), 0, sibling, widget@, states_view(state@), class@, n, len)),
            *final(to) is Small,
    {
        let ghost states = states_view(state@);
        let ghost views = sets@.map_values(|b: BitSet| b@);
        let mut a = sets.len();
        while a > 0
            invariant
                self.wf(),
                states == states_view(state@),
                views == sets@.map_values(|b: BitSet| b@),
                forall|a: int| 0 <= a < sets@.len() ==> 64 * (#[trigger] sets@[a]).blocks().len() <= usize::MAX + 1,
                self.sets_ok(views, sibling, widget@, states, class@, n, len),
                a <= sets.len(),
                *to is Small,
                to@ == old(to)@.union(self.sets_adds(views, a as int, sibling, widget@, states, class@, n, len)),
            decreases a,
        {
            a -= 1;
            let direct = a == sets.len() - 1;
            let ghost set = views[a as int];
            let ghost mid = to@;
            let mut it = sets[a].iter();
            loop
                invariant
                    self.wf(),
                    states == states_view(state@),
                    views == sets@.map_values(|b: BitSet| b@),
                    self.sets_ok(views, sibling, widget@, states, class@, n, len),
                    a < sets.len(),
                    direct == (a == sets.len() - 1),
                    set == views[a as int],
                    it.wf(),
                    it.elems().subset_of(set),
                    *to is Small,
                    to@ == mid.union(self.set_adds(set.difference(it.elems()), direct, sibling, widget@, states, class@, n, len)),
                ensures
                    to@ == mid.union(self.set_adds(set, direct, sibling, widget@, states, class@, n, len)),
                decreases it.elems().len(),
            {
                proof {
                    it.lemma_elems_finite();
                }
                let ghost before = it.elems();
                match it.next() {
                    None => {
                        proof {
                            assert(set.difference(it.elems()) =~= set);
                        }
                        break;
                    },
                    Some(node) => {
                        proof {
                            vstd::set::axiom_set_remove_len(before, node as int);
                            assert(set.contains(node as int));
                            assert(views[a as int].contains(node as int));
                        }
                        let children = self.matching(node, direct, widget, sibling);
                        let ghost prev = to@;
                        self.add_list(&children, state, class, n, len, to);
                        proof {
                            let done = set.difference(it.elems());
                            let old_done = set.difference(before);
                            assert(done =~= old_done.insert(node as int));
                            assert forall|i: int| to@.contains(i) == mid.union(self.set_adds(done, direct, sibling, widget@, states, class@, n, len)).contains(i) by {
                                if self.set_adds(done, direct, sibling, widget@, states, class@, n, len).contains(i) {
                                    let x = choose|x: int| #![trigger done.contains(x), self.node_adds(x, direct, sibling, widget@, states, class@, n, len)]
                                        done.contains(x) && self.node_adds(x, direct, sibling, widget@, states, class@, n, len).contains(i);
                                    if x != node {
                                        assert(old_done.contains(x));
                                        assert(self.set_adds(old_done, direct, sibling, widget@, states, class@, n, len).contains(i));
                                    }
                                }
                                if self.node_adds(node as int, direct, sibling, widget@, states, class@, n, len).contains(i) {
                                    assert(done.contains(node as int));
                                }
                                if self.set_adds(old_done, direct, sibling, widget@, states, class@, n, len).contains(i) {
                                    let x = choose|x: int| #![trigger old_done.contains(x), self.node_adds(x, direct, sibling, widget@, states, class@, n, len)]
                                        old_done.contains(x) && self.node_adds(x, direct, sibling, widget@, states, class@, n, len).contains(i);
                                    assert(done.contains(x));
                                }
                            }
                            assert(to@ =~= mid.union(self.set_adds(done, direct, sibling, widget@, states, class@, n, len)));
                        }
                    },
                }
            }
            proof {
                assert(to@ =~= old(to)@.union(self.sets_adds(views, a as int, sibling, widget@, states, class@, n, len)));
            }
        }
    }

    /// Matches a widget against the rule tree: each child rule of a node that matched an
    /// ancestor (the last one being the direct parent) or an earlier sibling (the last one being
    /// the direct predecessor) and that selects the widget is added, with its matching `:`
    /// children.
    pub fn match_widget<S: AsStr>(
        &self,
        ancestors: &[BitSet],
        siblings: &[BitSet],
        widget: &str,
        class: &str,
        state: &[StyleState<S>],
        n: usize,
        len: usize,
    ) -> (r: BitSet)
        requires
            self.wf(),
            forall|a: int| 0 <= a < ancestors@.len() ==> 64 * (#[trigger] ancestors@[a]).blocks().len() <= usize::MAX + 1,
            forall|a: int| 0 <= a < siblings@.len() ==> 64 * (#[trigger] siblings@[a]).blocks().len() <= usize::MAX + 1,
            self.sets_ok(ancestors@.map_values(|b: BitSet| b@), false, widget@, states_view(state@), class@, n, len),
            self.sets_ok(siblings@.map_values(|b: BitSet| b@), true, widget@, states_view(state@), class@, n, len),
        ensures
            r@ == self.sets_adds(ancestors@.map_values(|b: BitSet| b@), 0, false, widget@, states_view(state@), class@, n, len).union(
                self.sets_adds(siblings@.map_values(|b: BitSet| b@), 0, true, widget@, states_view(state@), class@, n, len)),
    {
        let mut result = BitSet::new();
        self.add_matches(ancestors, false, widget, state, class, n, len, &mut result);
        self.add_matches(siblings, true, widget, state, class, n, len, &mut result);
        proof {
            assert(result@ =~= self.sets_adds(ancestors@.map_values(|b: BitSet| b@), 0, false, widget@, states_view(state@), class@, n, len).union(
                self.sets_adds(siblings@.map_values(|b: BitSet| b@), 0, true, widget@, states_view(state@), class@, n, len)));
        }
        result
    }
}

/// The matching state while the widgets of a ui are styled: the rule tree, and for each ancestor
/// and each earlier sibling of the widget at hand the nodes that matched it, the nearest last.
pub struct Query<D> {
    pub rules: Arc<RuleTree<D>>,
    pub ancestors: Vec<BitSet>,
    pub siblings: Vec<BitSet>,
}

impl<D> Query<D> {
    /// A query at the root of a ui: the root node of the tree has matched the root, and there are
    /// no siblings yet.
    pub fn from_style(rules: Arc<RuleTree<D>>) -> (q: Self)
        ensures
            q.rules == rules,
            q.ancestors@.len() == 1,
            q.ancestors@[0]@ == set![0int],
            q.ancestors@[0] is Small,
            q.siblings@.len() == 0,
    {
        let root = BitSet::from_iter(vec![0]);
        proof {
            assert(insert_mask_bits(0).contains(0));
            assert(root@ =~= set![0int]);
        }
        Query { rules, ancestors: vec![root], siblings: Vec::new() }
    }

    /// The nodes of the tree that match a widget, given what matched its ancestors and its
    /// earlier siblings; see `RuleTree::match_widget`.
    pub fn match_widget<S: AsStr>(&self, widget: &str, class: &str, state: &[StyleState<S>], n: usize, len: usize) -> (r: BitSet)
        requires
            self.rules.wf(),
            forall|a: int| 0 <= a < self.ancestors@.len() ==> 64 * (#[trigger] self.ancestors@[a]).blocks().len() <= usize::MAX + 1,
            forall|a: int| 0 <= a < self.siblings@.len() ==> 64 * (#[trigger] self.siblings@[a]).blocks().len() <= usize::MAX + 1,
            self.rules.sets_ok(self.ancestors@.map_values(|b: BitSet| b@), false, widget@, states_view(state@), class@, n, len),
            self.rules.sets_ok(self.siblings@.map_values(|b: BitSet| b@), true, widget@, states_view(state@), class@, n, len),
        ensures
            r@ == self.rules.sets_adds(self.ancestors@.map_values(|b: BitSet| b@), 0, false, widget@, states_view(state@), class@, n, len).union(
                self.rules.sets_adds(self.siblings@.map_values(|b: BitSet| b@), 0, true, widget@, states_view(state@), class@, n, len)),
    {
        self.rules.match_widget(self.ancestors.as_slice(), self.siblings.as_slice(), widget, class, state, n, len)
    }
}

/// Whether `ys` is strictly increasing.
pub open spec fn increasing(ys: Seq<int>) -> bool {
    forall|i: int, j: int| 0 <= i < j < ys.len() ==> ys[i] < ys[j]
}

impl<D> RuleTree<D> {
    /// The declarations of the nodes `ys`, one node after the other.
    pub open spec fn decls_of(&self, ys: Seq<int>) -> Seq<D>
        decreases ys.len(),
    {
        if ys.len() == 0 {
            Seq::empty()
        } else {
            self.decls_of(ys.drop_last()) + self.rules@[ys.last()].declarations@
        }
    }

    /// The declarations of the nodes in `style`, in increasing order of the nodes.
    pub fn iter_declarations<'a>(&'a self, style: &BitSet) -> (r: Vec<&'a D>)
        requires
            64 * style.blocks().len() <= usize::MAX + 1,
            forall|i: int| #[trigger] style@.contains(i) ==> 0 <= i < self.rules.len(),
        ensures
            exists|ys: Seq<int>|
                increasing(ys) && ys.to_set() == style@ && r@.map_values(|d: &D| *d) == self.decls_of(ys),
    {
        let mut result: Vec<&'a D> = Vec::new();
        let mut it = style.iter();
        let ghost mut ys: Seq<int> = Seq::empty();
        loop
            invariant
                forall|i: int| #[trigger] style@.contains(i) ==> 0 <= i < self.rules.len(),
                it.wf(),
                it.elems().subset_of(style@),
                increasing(ys),
                ys.to_set() == style@.difference(it.elems()),
                forall|k: int, j: int| 0 <= k < ys.len() && #[trigger] it.elems().contains(j) ==> #[trigger] ys[k] < j,
                result@.map_values(|d: &D| *d) == self.decls_of(ys),
            ensures
                increasing(ys) && ys.to_set() == style@ && result@.map_values(|d: &D| *d) == self.decls_of(ys),
            decreases it.elems().len(),
        {
            proof {
                it.lemma_elems_finite();
            }
            let ghost before = it.elems();
            match it.next() {
                None => {
                    proof {
                        assert(style@.difference(it.elems()) =~= style@);
                    }
                    break;
                },
                Some(rule) => {
                    proof {
                        vstd::set::axiom_set_remove_len(before, rule as int);
                        assert(style@.contains(rule as int));
                    }
                    let decls = &self.rules[rule].declarations;
                    let ghost prev = result@;
                    let mut j: usize = 0;
                    while j < decls.len()
                        invariant
                            j <= decls.len(),
                            result@.len() == prev.len() + j,
                            forall|x: int| 0 <= x < prev.len() ==> result@[x] == prev[x],
                            forall|x: int| 0 <= x < j ==> *result@[prev.len() + x] == decls@[x],
                        decreases decls.len() - j,
                    {
                        result.push(&decls[j]);
                        j += 1;
                    }
                    proof {
                        let old_ys = ys;
                        ys = ys.push(rule as int);
                        assert(ys.drop_last() =~= old_ys);
                        assert(result@.map_values(|d: &D| *d) =~= prev.map_values(|d: &D| *d) + decls@);
                        assert forall|i: int| ys.to_set().contains(i) == style@.difference(it.elems()).contains(i) by {
                            if i == rule {
                                assert(ys[old_ys.len() as int] == i);
                            }
                            if old_ys.to_set().contains(i) {
                                let k = choose|k: int| 0 <= k < old_ys.len() && old_ys[k] == i;
                                assert(ys[k] == i);
                            }
                            if ys.to_set().contains(i) && i != rule {
                                let k = choose|k: int| 0 <= k < ys.len() && ys[k] == i;
                                assert(old_ys[k] == i);
                            }
                        }
                        assert(ys.to_set() =~= style@.difference(it.elems()));
                    }
                },
            }
        }
        result
    }
}

impl<D> Default for RuleTree<D> {
    /// A tree of one node, the root, selecting any widget and declaring nothing.
    fn default() -> (t: Self)
        ensures
            t.rules@.len() == 1,
            t.rules@[0].view_rule() == (RuleV::<D> { selector: SelectorV::Widget(crate::style::SelectorWidgetV::Any), declarations: Seq::empty(), children: Seq::empty() }),
            t.wf(),
    {
        let mut rules: Vec<Rule<D>> = Vec::new();
        rules.push(Rule { selector: Selector::Widget(SelectorWidget::Any), declarations: Vec::new(), children: Vec::new() });
        let t = RuleTree { rules };
        proof {
            assert(t.rules@[0].children@ =~= Seq::<usize>::empty());
            assert(t.rules@[0].declarations@ =~= Seq::<D>::empty());
        }
        t
    }
}

/// `safe_children` of all children covers each prefix of them.
proof fn lemma_safe_prefix<D>(
    t: &RuleTree<D>,
    r: int,
    k: int,
    m: int,
    n: usize,
    len: usize,
    states: Seq<StyleState<Seq<char>>>,
    class: Seq<char>,
)
    requires
        0 <= r < t.rules.len(),
        0 <= k <= m <= t.kids(r).len(),
        t.safe_children(r, m, n, len, states, class),
    ensures
        t.safe_children(r, k, n, len, states, class),
    decreases m - k,
{
    if k < m {
        lemma_safe_prefix(t, r, k, m - 1, n, len, states, class);
    }
}

} // verus!

verus! {

/// A tree of rules under construction: a selector, the declarations of the rule it ends, and the
/// subtrees below it.
pub struct RuleTreeBuilder<D> {
    selector: Selector,
    declarations: Vec<D>,
    children: Vec<RuleTreeBuilder<D>>,
}

/// The view of a `RuleTreeBuilder`.
pub struct BuilderV<D> {
    pub selector: SelectorV,
    pub declarations: Seq<D>,
    pub children: Seq<BuilderV<D>>,
}

impl<D> View for RuleTreeBuilder<D> {
    type V = BuilderV<D>;

    open spec fn view(&self) -> BuilderV<D> {
        self.tree()
    }
}

impl<D> RuleTreeBuilder<D> {
    /// The tree that this builder stands for.
    pub closed spec fn tree(&self) -> BuilderV<D>
        decreases self,
    {
        BuilderV {
            selector: self.selector@,
            declarations: self.declarations@,
            children: Seq::new(
                self.children@.len(),
                |i: int|
                    {
                        if 0 <= i < self.children@.len() {
                            self.children@[i].tree()
                        } else {
                            BuilderV { selector: SelectorV::Root, declarations: Seq::empty(), children: Seq::empty() }
                        }
                    },
            ),
        }
    }
}


/// The index of the first of `cs`, from `i` on, whose selector is `sel`; `cs.len()` when there
/// is none.
pub open spec fn find_child<D>(cs: Seq<BuilderV<D>>, sel: SelectorV, i: int) -> int
    decreases cs.len() - i,
{
    if i < 0 || i >= cs.len() {
        cs.len() as int
    } else if cs[i].selector == sel {
        i
    } else {
        find_child(cs, sel, i + 1)
    }
}

/// An empty subtree for `sel`.
pub open spec fn leaf<D>(sel: SelectorV) -> BuilderV<D> {
    BuilderV { selector: sel, declarations: Seq::empty(), children: Seq::empty() }
}

/// The builder after inserting `decls` at the path `sels`: each selector of the path leads to
/// the first child with that selector, created at the end when there is none, and the
/// declarations are appended at the end of the path.
pub open spec fn builder_insert<D>(b: BuilderV<D>, sels: Seq<SelectorV>, decls: Seq<D>) -> BuilderV<D>
    decreases sels.len(),
{
    if sels.len() == 0 {
        BuilderV { declarations: b.declarations + decls, ..b }
    } else {
        let idx = find_child(b.children, sels[0], 0);
        let kids = if idx == b.children.len() {
            b.children.push(leaf(sels[0]))
        } else {
            b.children
        };
        BuilderV {
            children: kids.update(idx, builder_insert(kids[idx], sels.drop_first(), decls)),
            ..b
        }
    }
}

/// `b` merged into `a`: the declarations of `b` follow those of `a`, and each subtree of `b`, in
/// order, is merged into the first child with its selector, or added at the end.
pub open spec fn builder_merge<D>(a: BuilderV<D>, b: BuilderV<D>) -> BuilderV<D>
    decreases b, 1int,
{
    BuilderV {
        selector: a.selector,
        declarations: a.declarations + b.declarations,
        children: merge_kids(a.children, b.children),
    }
}

/// The children `ac` after merging the subtrees `bc` into them, one after the other.
pub open spec fn merge_kids<D>(ac: Seq<BuilderV<D>>, bc: Seq<BuilderV<D>>) -> Seq<BuilderV<D>>
    decreases bc, 0int,
{
    if bc.len() == 0 {
        ac
    } else {
        let acc = merge_kids(ac, bc.drop_last());
        let sub = bc[bc.len() - 1];
        let i = find_child(acc, sub.selector, 0);
        if i < acc.len() {
            acc.update(i, builder_merge(acc[i], sub))
        } else {
            acc.push(sub)
        }
    }
}

/// The view of a rule of the flat tree.
pub struct RuleV<D> {
    pub selector: SelectorV,
    pub declarations: Seq<D>,
    pub children: Seq<usize>,
}

/// The rules that flattening `b` appends after `base` rules: `b` itself first, then each of its
/// subtrees in turn, `b` listing the index at which each subtree starts.
pub open spec fn flat<D>(b: BuilderV<D>, base: int) -> Seq<RuleV<D>>
    decreases b, 1int,
{
    let (rules, idxs) = flat_kids(b.children, base + 1);
    seq![RuleV { selector: b.selector, declarations: b.declarations, children: idxs }] + rules
}

/// The rules of the subtrees `cs` placed one after the other from index `base` on, with the
/// index at which each starts.
pub open spec fn flat_kids<D>(cs: Seq<BuilderV<D>>, base: int) -> (Seq<RuleV<D>>, Seq<usize>)
    decreases cs, 0int,
{
    if cs.len() == 0 {
        (Seq::empty(), Seq::empty())
    } else {
        let (r0, i0) = flat_kids(cs.drop_last(), base);
        let f = flat(cs[cs.len() - 1], base + r0.len());
        (r0 + f, i0.push((base + r0.len()) as usize))
    }
}

/// `find_child` finds the first child from `i` on with the selector, or gives the length.
pub proof fn lemma_find_child<D>(cs: Seq<BuilderV<D>>, sel: SelectorV, i: int)
    requires
        0 <= i <= cs.len(),
    ensures
        i <= find_child(cs, sel, i) <= cs.len(),
        find_child(cs, sel, i) < cs.len() ==> cs[find_child(cs, sel, i)].selector == sel,
        forall|j: int| i <= j < find_child(cs, sel, i) ==> cs[j].selector != sel,
    decreases cs.len() - i,
{
    if i < cs.len() && cs[i].selector != sel {
        lemma_find_child(cs, sel, i + 1);
    }
}

/// The declarations reached by following the path `sels` from `b`, each selector leading to the
/// first child with it; none where the path leaves the tree.
pub open spec fn decls_at<D>(b: BuilderV<D>, sels: Seq<SelectorV>) -> Seq<D>
    decreases sels.len(),
{
    if sels.len() == 0 {
        b.declarations
    } else {
        let i = find_child(b.children, sels[0], 0);
        if i < b.children.len() {
            decls_at(b.children[i], sels.drop_first())
        } else {
            Seq::empty()
        }
    }
}

/// A fresh subtree declares nothing along any path.
proof fn lemma_decls_at_leaf<D>(sel: SelectorV, sels: Seq<SelectorV>)
    ensures
        decls_at(leaf::<D>(sel), sels) == Seq::<D>::empty(),
{
}

/// Inserting declarations at a path appends them to what that path declared before.
pub proof fn lemma_insert_then_read<D>(b: BuilderV<D>, sels: Seq<SelectorV>, decls: Seq<D>)
    ensures
        decls_at(builder_insert(b, sels, decls), sels) == decls_at(b, sels) + decls,
    decreases sels.len(),
{
    if sels.len() == 0 {
    } else {
        let s0 = sels[0];
        let rest = sels.drop_first();
        let idx = find_child(b.children, s0, 0);
        lemma_find_child(b.children, s0, 0);
        let kids = if idx == b.children.len() {
            b.children.push(leaf(s0))
        } else {
            b.children
        };
        let sub = builder_insert(kids[idx], rest, decls);
        let nb = builder_insert(b, sels, decls);
        assert(nb.children == kids.update(idx, sub));
        lemma_builder_insert_selector(kids[idx], rest, decls);
        assert(sub.selector == s0);
        lemma_find_child(nb.children, s0, 0);
        assert forall|j: int| 0 <= j < idx implies nb.children[j].selector != s0 by {
            assert(nb.children[j] == b.children[j]);
        }
        assert(idx < kids.len());
        assert(nb.children[idx] == sub);
        let f = find_child(nb.children, s0, 0);
        if f < idx {
            assert(nb.children[f].selector == s0);
        }
        if f > idx {
            assert(nb.children[idx].selector != s0);
        }
        assert(f == idx);
        lemma_insert_then_read(kids[idx], rest, decls);
        if idx == b.children.len() {
            lemma_decls_at_leaf::<D>(s0, rest);
            assert(decls_at(b, sels) == Seq::<D>::empty());
            assert(Seq::<D>::empty() + decls =~= decls);
        }
    }
}

/// Inserting keeps the selector at the root of a builder.
proof fn lemma_builder_insert_selector<D>(b: BuilderV<D>, sels: Seq<SelectorV>, decls: Seq<D>)
    ensures
        builder_insert(b, sels, decls).selector == b.selector,
{
}

/// No two children of any node of the builder share a selector.
pub open spec fn distinct_kids<D>(b: BuilderV<D>) -> bool
    decreases b,
{
    &&& forall|i: int, j: int|
        0 <= i < j < b.children.len() ==> b.children[i].selector != b.children[j].selector
    &&& forall|i: int| 0 <= i < b.children.len() ==> distinct_kids(#[trigger] b.children[i])
}

/// Inserting keeps the children of every node apart by their selectors.
pub proof fn lemma_insert_distinct<D>(b: BuilderV<D>, sels: Seq<SelectorV>, decls: Seq<D>)
    requires
        distinct_kids(b),
    ensures
        distinct_kids(builder_insert(b, sels, decls)),
    decreases sels.len(),
{
    if sels.len() > 0 {
        let s0 = sels[0];
        let rest = sels.drop_first();
        let idx = find_child(b.children, s0, 0);
        lemma_find_child(b.children, s0, 0);
        let kids = if idx == b.children.len() {
            b.children.push(leaf(s0))
        } else {
            b.children
        };
        assert(distinct_kids(leaf::<D>(s0)));
        assert(forall|i: int| 0 <= i < kids.len() ==> distinct_kids(#[trigger] kids[i]));
        assert(forall|i: int, j: int| 0 <= i < j < kids.len() ==> kids[i].selector != kids[j].selector);
        lemma_insert_distinct(kids[idx], rest, decls);
        lemma_builder_insert_selector(kids[idx], rest, decls);
        let nb = builder_insert(b, sels, decls);
        assert(forall|i: int| 0 <= i < nb.children.len() ==> nb.children[i].selector == kids[i].selector);
        assert(forall|i: int| 0 <= i < nb.children.len() ==> distinct_kids(#[trigger] nb.children[i]));
    }
}

/// Merging keeps the children of every node apart by their selectors.
pub proof fn lemma_merge_distinct<D>(a: BuilderV<D>, b: BuilderV<D>)
    requires
        distinct_kids(a),
        distinct_kids(b),
    ensures
        distinct_kids(builder_merge(a, b)),
    decreases b, 1int,
{
    lemma_merge_kids_distinct(a.children, b.children);
}

/// Merging subtrees into children that are apart by their selectors keeps them apart.
proof fn lemma_merge_kids_distinct<D>(ac: Seq<BuilderV<D>>, bc: Seq<BuilderV<D>>)
    requires
        forall|i: int, j: int| 0 <= i < j < ac.len() ==> ac[i].selector != ac[j].selector,
        forall|i: int| 0 <= i < ac.len() ==> distinct_kids(#[trigger] ac[i]),
        forall|i: int| 0 <= i < bc.len() ==> distinct_kids(#[trigger] bc[i]),
    ensures
        forall|i: int, j: int|
            0 <= i < j < merge_kids(ac, bc).len() ==> merge_kids(ac, bc)[i].selector != merge_kids(
                ac,
                bc,
            )[j].selector,
        forall|i: int| 0 <= i < merge_kids(ac, bc).len() ==> distinct_kids(#[trigger] merge_kids(ac, bc)[i]),
    decreases bc, 0int,
{
    if bc.len() > 0 {
        let front = bc.drop_last();
        assert forall|i: int| 0 <= i < front.len() implies distinct_kids(#[trigger] front[i]) by {
            assert(front[i] == bc[i]);
        }
        lemma_merge_kids_distinct(ac, front);
        let acc = merge_kids(ac, front);
        let sub = bc[bc.len() - 1];
        assert(distinct_kids(sub));
        let i = find_child(acc, sub.selector, 0);
        lemma_find_child(acc, sub.selector, 0);
        if i < acc.len() {
            assert(decreases_to!(bc => sub));
            lemma_merge_distinct(acc[i], sub);
            let m = acc.update(i, builder_merge(acc[i], sub));
            assert(merge_kids(ac, bc) == m);
            assert(forall|j: int| 0 <= j < m.len() ==> m[j].selector == acc[j].selector);
            assert(forall|j: int| 0 <= j < m.len() ==> distinct_kids(#[trigger] m[j]));
        } else {
            let m = acc.push(sub);
            assert(merge_kids(ac, bc) == m);
            assert(forall|j: int| 0 <= j < m.len() ==> distinct_kids(#[trigger] m[j]));
        }
    }
}

/// Flattening places the children of every rule after it and within the rules it appends.
pub proof fn lemma_flat_ordered<D>(b: BuilderV<D>, base: int)
    requires
        0 <= base,
        base + flat(b, base).len() <= usize::MAX,
    ensures
        flat(b, base).len() >= 1,
        forall|r: int, k: int|
            0 <= r < flat(b, base).len() && 0 <= k < flat(b, base)[r].children.len() ==> base + r
                < #[trigger] flat(b, base)[r].children[k] < base + flat(b, base).len(),
    decreases b, 1int,
{
    let (rules, idxs) = flat_kids(b.children, base + 1);
    let f = flat(b, base);
    assert(f.len() == 1 + rules.len());
    lemma_flat_kids_ordered(b.children, base + 1);
    assert forall|r: int, k: int|
        0 <= r < f.len() && 0 <= k < f[r].children.len() implies base + r < #[trigger] f[r].children[k] < base
        + f.len() by {
        if r > 0 {
            assert(f[r] == rules[r - 1]);
        }
    }
}

/// The rules of a run of subtrees each keep their children after them and within the run, and
/// each subtree starts within the run.
proof fn lemma_flat_kids_ordered<D>(cs: Seq<BuilderV<D>>, base: int)
    requires
        0 <= base,
        base + flat_kids(cs, base).0.len() <= usize::MAX,
    ensures
        flat_kids(cs, base).1.len() == cs.len(),
        forall|j: int|
            0 <= j < cs.len() ==> base <= #[trigger] flat_kids(cs, base).1[j] < base + flat_kids(
                cs,
                base,
            ).0.len(),
        forall|r: int, k: int|
            0 <= r < flat_kids(cs, base).0.len() && 0 <= k < flat_kids(cs, base).0[r].children.len()
                ==> base + r < #[trigger] flat_kids(cs, base).0[r].children[k] < base + flat_kids(
                cs,
                base,
            ).0.len(),
    decreases cs, 0int,
{
    if cs.len() > 0 {
        let front = cs.drop_last();
        let (r0, i0) = flat_kids(front, base);
        let last = cs[cs.len() - 1];
        assert(decreases_to!(cs => last));
        let f = flat(last, base + r0.len());
        let (rules, idxs) = flat_kids(cs, base);
        assert(rules == r0 + f);
        lemma_flat_kids_ordered(front, base);
        lemma_flat_ordered(last, base + r0.len());
        assert forall|r: int, k: int|
            0 <= r < rules.len() && 0 <= k < rules[r].children.len() implies base + r
            < #[trigger] rules[r].children[k] < base + rules.len() by {
            if r >= r0.len() {
                assert(rules[r] == f[r - r0.len()]);
            } else {
                assert(rules[r] == r0[r]);
            }
        }
        assert forall|j: int| 0 <= j < cs.len() implies base <= #[trigger] idxs[j] < base + rules.len() by {
            if j < front.len() {
                assert(idxs[j] == i0[j]);
            }
        }
    }
}

impl<D> Rule<D> {
    /// The view of a rule.
    pub open spec fn view_rule(&self) -> RuleV<D> {
        RuleV { selector: self.selector@, declarations: self.declarations@, children: self.children@ }
    }
}

/// The views of the rules of a tree.
pub open spec fn rules_view<D>(rules: Seq<Rule<D>>) -> Seq<RuleV<D>> {
    rules.map_values(|r: Rule<D>| r.view_rule())
}

impl<D> RuleTreeBuilder<D> {
    /// The selector at the root of this builder.
    pub open spec fn root_selector(&self) -> SelectorV {
        self@.selector
    }

    proof fn lemma_view_children(&self)
        ensures
            self@.children.len() == self.children@.len(),
            forall|i: int| 0 <= i < self.children@.len() ==> #[trigger] self@.children[i] == self.children@[i]@,
            self@.selector == self.selector@,
            self@.declarations == self.declarations@,
    {
    }

    /// A builder with no rules below `selector`.
    pub fn new(selector: Selector) -> (r: Self)
        ensures
            r@ == leaf::<D>(selector@),
    {
        let r = RuleTreeBuilder { selector, declarations: Vec::new(), children: Vec::new() };
        proof {
            r.lemma_view_children();
            assert(r@.children =~= Seq::<BuilderV<D>>::empty());
        }
        r
    }

    /// The index of the first child whose selector is `selector`, or the number of children.
    fn find(&self, selector: &Selector) -> (r: usize)
        ensures
            r == find_child(self@.children, selector@, 0),
            r <= self.children@.len(),
    {
        proof {
            self.lemma_view_children();
        }
        let mut i: usize = 0;
        while i < self.children.len()
            invariant
                i <= self.children.len(),
                self@.children.len() == self.children@.len(),
                forall|j: int| 0 <= j < self.children@.len() ==> #[trigger] self@.children[j] == self.children@[j]@,
                find_child(self@.children, selector@, 0) == find_child(self@.children, selector@, i as int),
            decreases self.children.len() - i,
        {
            if self.children[i].selector.equals(selector) {
                return i;
            }
            i += 1;
        }
        i
    }

    /// Merge a `RuleTreeBuilder` into this one.
    /// It must have the same root selector.
    pub fn merge(&mut self, rule_tree: Self)
        requires
            old(self)@.selector == rule_tree@.selector,
        ensures
            final(self)@ == builder_merge(old(self)@, rule_tree@),
        decreases rule_tree@,
    {
        proof {
            old(self).lemma_view_children();
            rule_tree.lemma_view_children();
        }
        let ghost other = rule_tree@;
        let RuleTreeBuilder { selector: _, declarations: decls, children: subs } = rule_tree;
        let mut decls = decls;
        self.declarations.append(&mut decls);
        let ghost start = self@;
        proof {
            self.lemma_view_children();
            assert(start.children =~= old(self)@.children);
        }
        let mut subs = subs;
        let ghost all_subs = subs@;
        let total = subs.len();
        let mut k: usize = 0;
        while subs.len() > 0
            invariant
                other == rule_tree@,
                all_subs.len() == total,
                k + subs@.len() == all_subs.len(),
                all_subs.len() == other.children.len(),
                forall|j: int| 0 <= j < all_subs.len() ==> #[trigger] all_subs[j]@ == other.children[j],
                forall|j: int| 0 <= j < subs@.len() ==> #[trigger] subs@[j] == all_subs[k + j],
                self@.selector == old(self)@.selector,
                self@.declarations == old(self)@.declarations + other.declarations,
                self@.children == merge_kids(old(self)@.children, other.children.take(k as int)),
            decreases subs@.len(),
        {
            let sub = subs.remove(0);
            let ghost acc = self@.children;
            proof {
                self.lemma_view_children();
                assert(sub@ == other.children[k as int]);
                assert(other.children.take(k + 1).drop_last() =~= other.children.take(k as int));
                lemma_find_child(acc, sub@.selector, 0);
                assert(decreases_to!(rule_tree@ => sub@));
            }
            let i = self.find(&sub.selector);
            if i < self.children.len() {
                proof {
                    sub.lemma_view_children();
                }
                self.children[i].merge(sub);
            } else {
                self.children.push(sub);
            }
            k += 1;
            proof {
                self.lemma_view_children();
                assert(self@.children =~= merge_kids(old(self)@.children, other.children.take(k as int)));
            }
        }
        proof {
            self.lemma_view_children();
            assert(other.children.take(k as int) =~= other.children);
        }
    }

    /// Appends the rules of this builder to `into`, the root first and each subtree after it in
    /// turn, and returns the index of the root.
    pub fn flatten(self, into: &mut RuleTree<D>) -> (r: usize)
        ensures
            r == old(into).rules.len(),
            rules_view(final(into).rules@) == rules_view(old(into).rules@) + flat(self@, r as int),
        decreases self@,
    {
        proof {
            self.lemma_view_children();
        }
        let ghost me = self@;
        let index = into.rules.len();
        into.rules.push(Rule { selector: Selector::Root, declarations: Vec::new(), children: Vec::new() });
        let RuleTreeBuilder { selector, declarations, children } = self;
        let mut subs = children;
        let total = subs.len();
        let mut idxs: Vec<usize> = Vec::new();
        let mut k: usize = 0;
        while subs.len() > 0
            invariant
                me == self@,
                total == me.children.len(),
                k + subs@.len() == total,
                forall|j: int| 0 <= j < subs@.len() ==> #[trigger] subs@[j]@ == me.children[k + j],
                index == old(into).rules.len(),
                into.rules.len() > index,
                rules_view(into.rules@).take(index as int) == rules_view(old(into).rules@),
                rules_view(into.rules@).skip(index + 1) == flat_kids(me.children.take(k as int), index + 1).0,
                idxs@ == flat_kids(me.children.take(k as int), index + 1).1,
            decreases subs@.len(),
        {
            let sub = subs.remove(0);
            proof {
                assert(decreases_to!(self@ => sub@));
                assert(me.children.take(k + 1).drop_last() =~= me.children.take(k as int));
                assert(me.children.take(k + 1)[k as int] == sub@);
            }
            let ghost before = rules_view(into.rules@);
            let c = sub.flatten(into);
            idxs.push(c);
            k += 1;
            proof {
                assert(rules_view(into.rules@) =~= before + flat(sub@, c as int));
                assert(rules_view(into.rules@).take(index as int) =~= rules_view(old(into).rules@));
                assert(rules_view(into.rules@).skip(index + 1) =~= flat_kids(me.children.take(k as int), index + 1).0);
            }
        }
        proof {
            assert(me.children.take(k as int) =~= me.children);
        }
        into.rules.set(index, Rule { selector, declarations, children: idxs });
        proof {
            assert(rules_view(into.rules@) =~= rules_view(old(into).rules@) + flat(me, index as int));
        }
        index
    }

    /// Recursively insert some rules at the selectors path
    pub fn insert(&mut self, selectors: &[Selector], rules: Vec<D>)
        ensures
            final(self)@ == builder_insert(old(self)@, selectors@.map_values(|s: Selector| s@), rules@),
        decreases selectors@.len(),
    {
        proof {
            old(self).lemma_view_children();
        }
        let ghost sels = selectors@.map_values(|s: Selector| s@);
        if selectors.len() == 0 {
            let mut rules = rules;
            self.declarations.append(&mut rules);
            proof {
                self.lemma_view_children();
                assert(self@.children =~= old(self)@.children);
            }
        } else {
            let selector = &selectors[0];
            let index = self.find(selector);
            proof {
                lemma_find_child(old(self)@.children, sels[0], 0);
            }
            if index == self.children.len() {
                let child = RuleTreeBuilder::new(selector.copy());
                self.children.push(child);
            }
            let ghost mid = self@;
            proof {
                self.lemma_view_children();
                assert(mid.children =~= (if find_child(old(self)@.children, sels[0], 0) == old(self)@.children.len() {
                    old(self)@.children.push(leaf(sels[0]))
                } else {
                    old(self)@.children
                }));
            }
            let (_, rest) = selectors.split_at(1);
            self.children[index].insert(rest, rules);
            proof {
                self.lemma_view_children();
                assert(rest@.map_values(|s: Selector| s@) =~= sels.drop_first());
                assert(self@.children =~= mid.children.update(index as int, builder_insert(mid.children[index as int], sels.drop_first(), rules@)));
            }
        }
    }
}

} // verus!
