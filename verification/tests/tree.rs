use pixel_widgets::bitset::BitSet;
use std::sync::Arc;

use pixel_widgets::style::tree::{Query, Rule, RuleTree, RuleTreeBuilder};
use pixel_widgets::style::{Selector, SelectorWidget, StyleState};

fn named(s: &str) -> SelectorWidget {
    SelectorWidget::Named(s.to_string())
}

fn bits(s: &BitSet) -> Vec<usize> {
    let mut it = s.iter();
    let mut out = Vec::new();
    while let Some(b) = it.next() {
        out.push(b);
    }
    out
}

fn sample() -> RuleTree<u32> {
    let mut b = RuleTreeBuilder::new(Selector::Widget(SelectorWidget::Any));
    b.insert(&[Selector::Widget(named("button"))], vec![1]);
    b.insert(&[Selector::Widget(named("button")), Selector::State(StyleState::Hover)], vec![2]);
    b.insert(&[Selector::Widget(named("label"))], vec![3]);
    b.insert(&[], vec![0]);
    let mut tree = RuleTree { rules: Vec::new() };
    let root = b.flatten(&mut tree);
    assert_eq!(root, 0);
    tree
}

#[test]
fn default_tree_has_a_root_selecting_anything() {
    let t: RuleTree<u32> = RuleTree::default();
    assert_eq!(t.rules.len(), 1);
    assert_eq!(t.rules[0].selector, Selector::Widget(SelectorWidget::Any));
    assert!(t.rules[0].declarations.is_empty());
    assert!(t.rules[0].children.is_empty());
}

#[test]
fn flatten_lists_parents_before_children() {
    let t = sample();
    assert_eq!(t.rules.len(), 4);
    assert_eq!(t.rules[0].selector, Selector::Widget(SelectorWidget::Any));
    assert_eq!(t.rules[0].declarations, vec![0]);
    assert_eq!(t.rules[0].children, vec![1, 3]);
    assert_eq!(t.rules[1].selector, Selector::Widget(named("button")));
    assert_eq!(t.rules[1].declarations, vec![1]);
    assert_eq!(t.rules[1].children, vec![2]);
    assert_eq!(t.rules[2].selector, Selector::State(StyleState::Hover));
    assert_eq!(t.rules[2].declarations, vec![2]);
    assert!(t.rules[2].children.is_empty());
    assert_eq!(t.rules[3].selector, Selector::Widget(named("label")));
    assert_eq!(t.rules[3].declarations, vec![3]);
    for (r, rule) in t.rules.iter().enumerate() {
        for &c in rule.children.iter() {
            assert!(r < c && c < t.rules.len());
        }
    }
}

#[test]
fn flatten_appends_after_existing_rules() {
    let mut t: RuleTree<u32> = RuleTree::default();
    let mut b = RuleTreeBuilder::new(Selector::Widget(named("window")));
    b.insert(&[Selector::Class("big".to_string())], vec![5]);
    let root = b.flatten(&mut t);
    assert_eq!(root, 1);
    assert_eq!(t.rules.len(), 3);
    assert_eq!(t.rules[1].children, vec![2]);
    assert_eq!(t.rules[2].declarations, vec![5]);
}

#[test]
fn insert_at_the_same_path_appends() {
    let mut b = RuleTreeBuilder::new(Selector::Widget(SelectorWidget::Any));
    b.insert(&[Selector::Widget(named("a")), Selector::Class("x".to_string())], vec![1, 2]);
    b.insert(&[Selector::Widget(named("a")), Selector::Class("x".to_string())], vec![3]);
    let mut t: RuleTree<u32> = RuleTree { rules: Vec::new() };
    b.flatten(&mut t);
    assert_eq!(t.rules.len(), 3);
    assert_eq!(t.rules[0].children, vec![1]);
    assert_eq!(t.rules[1].children, vec![2]);
    assert_eq!(t.rules[2].declarations, vec![1, 2, 3]);
}

#[test]
fn merge_combines_matching_subtrees() {
    let mut a = RuleTreeBuilder::new(Selector::Widget(SelectorWidget::Any));
    a.insert(&[Selector::Widget(named("button"))], vec![1]);
    let mut b = RuleTreeBuilder::new(Selector::Widget(SelectorWidget::Any));
    b.insert(&[Selector::Widget(named("button"))], vec![2]);
    b.insert(&[Selector::Widget(named("label"))], vec![3]);
    b.insert(&[], vec![9]);
    a.merge(b);
    let mut t: RuleTree<u32> = RuleTree { rules: Vec::new() };
    a.flatten(&mut t);
    assert_eq!(t.rules.len(), 3);
    assert_eq!(t.rules[0].declarations, vec![9]);
    assert_eq!(t.rules[0].children, vec![1, 2]);
    assert_eq!(t.rules[1].selector, Selector::Widget(named("button")));
    assert_eq!(t.rules[1].declarations, vec![1, 2]);
    assert_eq!(t.rules[2].selector, Selector::Widget(named("label")));
    assert_eq!(t.rules[2].declarations, vec![3]);
}

#[test]
fn children_that_match() {
    let t = sample();
    assert_eq!(t.match_child(0, false, "button"), vec![1]);
    assert_eq!(t.match_child(0, true, "label"), vec![3]);
    assert!(t.match_child(0, false, "window").is_empty());
    assert!(t.match_sibling(0, true, "button").is_empty());
}

#[test]
fn siblings_that_match() {
    let mut b = RuleTreeBuilder::new(Selector::Widget(SelectorWidget::Any));
    b.insert(&[Selector::WidgetDirectAfter(named("a"))], vec![1]);
    b.insert(&[Selector::WidgetAfter(SelectorWidget::Any)], vec![2]);
    let mut t: RuleTree<u32> = RuleTree { rules: Vec::new() };
    b.flatten(&mut t);
    assert_eq!(t.match_sibling(0, true, "a"), vec![1, 2]);
    assert_eq!(t.match_sibling(0, false, "a"), vec![2]);
    assert_eq!(t.match_sibling(0, false, "b"), vec![2]);
}

#[test]
fn add_to_bitset_follows_meta_children() {
    let t = sample();
    let states: Vec<StyleState<&str>> = vec![StyleState::Hover];
    let mut set = BitSet::new();
    t.add_to_bitset(1, &states, "", 0, 1, &mut set);
    assert_eq!(bits(&set), vec![1, 2]);
    let none: Vec<StyleState<&str>> = Vec::new();
    let mut set = BitSet::new();
    t.add_to_bitset(1, &none, "", 0, 1, &mut set);
    assert_eq!(bits(&set), vec![1]);
}

#[test]
fn rematch_drops_meta_rules_that_no_longer_hold() {
    let t = sample();
    let none: Vec<StyleState<&str>> = Vec::new();
    let style = BitSet::from_iter(vec![1, 2]);
    let r = t.rematch(&style, &none, "", 0, 1);
    assert_eq!(bits(&r), vec![1]);
    let hover: Vec<StyleState<&str>> = vec![StyleState::Hover];
    let style = BitSet::from_iter(vec![1]);
    let r = t.rematch(&style, &hover, "", 0, 1);
    assert_eq!(bits(&r), vec![1, 2]);
}

#[test]
fn match_widget_from_ancestors_and_siblings() {
    let t = sample();
    let none: Vec<StyleState<&str>> = Vec::new();
    let ancestors = vec![BitSet::from_iter(vec![0])];
    let siblings: Vec<BitSet> = Vec::new();
    let r = t.match_widget(&ancestors, &siblings, "button", "", &none, 0, 1);
    assert_eq!(bits(&r), vec![1]);
    let hover: Vec<StyleState<&str>> = vec![StyleState::Hover];
    let r = t.match_widget(&ancestors, &siblings, "button", "", &hover, 0, 1);
    assert_eq!(bits(&r), vec![1, 2]);
    let r = t.match_widget(&ancestors, &siblings, "window", "", &none, 0, 1);
    assert!(bits(&r).is_empty());
}

#[test]
fn match_widget_only_direct_children_of_the_nearest_ancestor() {
    let mut b = RuleTreeBuilder::new(Selector::Widget(SelectorWidget::Any));
    b.insert(&[Selector::WidgetDirectChild(named("a"))], vec![1]);
    let mut t: RuleTree<u32> = RuleTree { rules: Vec::new() };
    b.flatten(&mut t);
    let none: Vec<StyleState<&str>> = Vec::new();
    let siblings: Vec<BitSet> = Vec::new();
    let near = vec![BitSet::new(), BitSet::from_iter(vec![0])];
    assert_eq!(bits(&t.match_widget(&near, &siblings, "a", "", &none, 0, 1)), vec![1]);
    let far = vec![BitSet::from_iter(vec![0]), BitSet::new()];
    assert!(bits(&t.match_widget(&far, &siblings, "a", "", &none, 0, 1)).is_empty());
}

#[test]
fn declarations_in_rule_order() {
    let t = sample();
    let style = BitSet::from_iter(vec![2, 0, 1]);
    let decls: Vec<u32> = t.iter_declarations(&style).into_iter().copied().collect();
    assert_eq!(decls, vec![0, 1, 2]);
}

#[test]
fn rules_can_be_built_directly() {
    let t = RuleTree {
        rules: vec![Rule { selector: Selector::Widget(SelectorWidget::Any), declarations: vec!["x"], children: vec![] }],
    };
    let style = BitSet::from_iter(vec![0]);
    assert_eq!(t.iter_declarations(&style), vec![&"x"]);
}

#[test]
fn query_from_the_root() {
    let q = Query::from_style(Arc::new(sample()));
    assert_eq!(q.ancestors.len(), 1);
    assert_eq!(bits(&q.ancestors[0]), vec![0]);
    assert!(q.siblings.is_empty());
    let none: Vec<StyleState<&str>> = Vec::new();
    assert_eq!(bits(&q.match_widget("label", "", &none, 0, 1)), vec![3]);
    let hover: Vec<StyleState<&str>> = vec![StyleState::Hover];
    assert_eq!(bits(&q.match_widget("button", "", &hover, 0, 1)), vec![1, 2]);
}
