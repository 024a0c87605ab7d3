//! Selectors of the stylesheet language and how they match widgets.
use vstd::prelude::*;

pub mod declaration;
pub mod parse;
pub mod sheet;
pub mod tokenize;
pub mod tree;

use crate::style::tokenize::TokenPos;

verus! {

/// The characters of a string slice, in order.
pub(crate) fn chars_of(s: &str) -> (r: Vec<char>)
    ensures
        r@ == s@,
{
    let mut chars: Vec<char> = Vec::new();
    for ch in it: s.chars()
        invariant
            it.seq() == s@,
            chars@ == s@.take(it.index() as int),
    {
        chars.push(ch);
        proof {
            assert(chars@ =~= s@.take(it.index() + 1));
        }
    }
    proof {
        assert(chars@ =~= s@);
    }
    chars
}

/// Compares two string slices by their characters.
pub(crate) fn str_eq(a: &str, b: &str) -> (r: bool)
    ensures
        r == (a@ == b@),
{
    let x = chars_of(a);
    let y = chars_of(b);
    if x.len() != y.len() {
        return false;
    }
    let mut i: usize = 0;
    while i < x.len()
        invariant
            x@ == a@,
            y@ == b@,
            x.len() == y.len(),
            i <= x.len(),
            forall|j: int| 0 <= j < i ==> x@[j] == y@[j],
        decreases x.len() - i,
    {
        if x[i] != y[i] {
            proof {
                assert(a@[i as int] != b@[i as int]);
            }
            return false;
        }
        i += 1;
    }
    proof {
        assert(a@ =~= b@);
    }
    true
}

/// Errors that can be encountered while reading a stylesheet.
#[derive(Debug)]
pub enum Error {
    /// Syntax error, with a description and the position of the offending token.
    Syntax(String, TokenPos),
    /// Unexpected end of file error
    Eof,
}

/// The view of an `Error`: the description is taken as its characters.
pub enum ErrorV {
    Syntax(Seq<char>, TokenPos),
    Eof,
}

impl View for Error {
    type V = ErrorV;

    open spec fn view(&self) -> ErrorV {
        match self {
            Error::Syntax(msg, pos) => ErrorV::Syntax(msg@, *pos),
            Error::Eof => ErrorV::Eof,
        }
    }
}

/// A value that can be read as a string slice; widget states are named by such values.
pub trait AsStr: View<V = Seq<char>> {
    /// The characters of the value as a string slice.
    fn as_text(&self) -> (r: &str)
        ensures
            r@ == self@,
    ;
}

impl AsStr for String {
    fn as_text(&self) -> (r: &str) {
        self.as_str()
    }
}

impl<'a> AsStr for &'a str {
    fn as_text(&self) -> (r: &str) {
        *self
    }
}

/// Handle to an image in a style builder.
#[derive(Debug)]
pub struct ImageId(pub String);

/// Handle to a patch in a style builder.
#[derive(Debug)]
pub struct PatchId(pub String);

/// Handle to a font in a style builder.
#[derive(Debug)]
pub struct FontId(pub String);

/// Widget name as used in a `Selector`.
#[derive(Debug, Clone, PartialEq, Eq)]
pub enum SelectorWidget {
    /// Match any widget
    Any,
    /// Match specific widgets
    Named(String),
}

/// The view of a `SelectorWidget`.
pub enum SelectorWidgetV {
    Any,
    Named(Seq<char>),
}

impl View for SelectorWidget {
    type V = SelectorWidgetV;

    open spec fn view(&self) -> SelectorWidgetV {
        match self {
            SelectorWidget::Any => SelectorWidgetV::Any,
            SelectorWidget::Named(s) => SelectorWidgetV::Named(s@),
        }
    }
}

/// Whether the widget selector selects a widget named `widget`.
pub open spec fn widget_matches(sel: SelectorWidgetV, widget: Seq<char>) -> bool {
    match sel {
        SelectorWidgetV::Any => true,
        SelectorWidgetV::Named(name) => name == widget,
    }
}

/// Widget states
#[derive(Debug, Clone, PartialEq, Eq)]
pub enum StyleState<S> {
    /// When the mouse is over the widget
    Hover,
    /// When the mouse is clicking on the widget
    Pressed,
    /// When the widget is in a checked state (checkbox, radio button)
    Checked,
    /// When a widget is disabled
    Disabled,
    /// When a widget has input focus
    Focused,
    /// When a widget in an expanded state
    Open,
    /// When a widget is in a collapsed state
    Closed,
    /// When a drag widget is being dragged
    Drag,
    /// When a drop widget accepts a dragged widget before it's dropped
    Drop,
    /// When a drop widget denies a dragged widget
    DropDenied,
    /// Custom state for custom widgets
    Custom(S),
}

impl<S: View<V = Seq<char>>> View for StyleState<S> {
    type V = StyleState<Seq<char>>;

    open spec fn view(&self) -> StyleState<Seq<char>> {
        match self {
            StyleState::Hover => StyleState::Hover,
            StyleState::Pressed => StyleState::Pressed,
            StyleState::Checked => StyleState::Checked,
            StyleState::Disabled => StyleState::Disabled,
            StyleState::Focused => StyleState::Focused,
            StyleState::Open => StyleState::Open,
            StyleState::Closed => StyleState::Closed,
            StyleState::Drag => StyleState::Drag,
            StyleState::Drop => StyleState::Drop,
            StyleState::DropDenied => StyleState::DropDenied,
            StyleState::Custom(s) => StyleState::Custom(s@),
        }
    }
}

impl<A: AsStr> StyleState<A> {
    /// Two states are equal when they are the same variant, custom states with the same name.
    pub fn state_eq<B: AsStr>(&self, other: &StyleState<B>) -> (r: bool)
        ensures
            r == (self@ == other@),
    {
        match (self, other) {
            (StyleState::Hover, StyleState::Hover) => true,
            (StyleState::Pressed, StyleState::Pressed) => true,
            (StyleState::Checked, StyleState::Checked) => true,
            (StyleState::Disabled, StyleState::Disabled) => true,
            (StyleState::Focused, StyleState::Focused) => true,
            (StyleState::Open, StyleState::Open) => true,
            (StyleState::Closed, StyleState::Closed) => true,
            (StyleState::Drag, StyleState::Drag) => true,
            (StyleState::Drop, StyleState::Drop) => true,
            (StyleState::DropDenied, StyleState::DropDenied) => true,
            (StyleState::Custom(a), StyleState::Custom(b)) => str_eq(a.as_text(), b.as_text()),
            _ => false,
        }
    }
}

/// A selector that selects widgets that match some property.
#[derive(Debug, PartialEq)]
pub enum Selector {
    /// Should be ignored when building
    Root,
    /// Match a widget
    Widget(SelectorWidget),
    /// Match a widget that is a direct child of the parent
    WidgetDirectChild(SelectorWidget),
    /// Match a widget that follows directly after the previous widget
    WidgetDirectAfter(SelectorWidget),
    /// Match a widget that follows after a previous widget
    WidgetAfter(SelectorWidget),
    /// Match the nth child widget modulo a number
    NthMod(usize, usize),
    /// Match the nth child widget counted from the last child widget modulo a number
    NthLastMod(usize, usize),
    /// Match the nth child widget
    Nth(usize),
    /// Match the nth child widget counted from the last child widget
    NthLast(usize),
    /// Match widgets that are the only child of their parent
    OnlyChild,
    /// Match widgets that have a class
    Class(String),
    /// Match widgets that are in a state
    State(StyleState<String>),
    /// Invert the nested selector
    Not(Box<Selector>),
}

/// The view of a `Selector`: its names are taken as their characters.
pub enum SelectorV {
    Root,
    Widget(SelectorWidgetV),
    WidgetDirectChild(SelectorWidgetV),
    WidgetDirectAfter(SelectorWidgetV),
    WidgetAfter(SelectorWidgetV),
    NthMod(usize, usize),
    NthLastMod(usize, usize),
    Nth(usize),
    NthLast(usize),
    OnlyChild,
    Class(Seq<char>),
    State(StyleState<Seq<char>>),
    Not(Box<SelectorV>),
}

impl View for Selector {
    type V = SelectorV;

    open spec fn view(&self) -> SelectorV
        decreases self,
    {
        match self {
            Selector::Root => SelectorV::Root,
            Selector::Widget(w) => SelectorV::Widget(w@),
            Selector::WidgetDirectChild(w) => SelectorV::WidgetDirectChild(w@),
            Selector::WidgetDirectAfter(w) => SelectorV::WidgetDirectAfter(w@),
            Selector::WidgetAfter(w) => SelectorV::WidgetAfter(w@),
            Selector::NthMod(a, b) => SelectorV::NthMod(*a, *b),
            Selector::NthLastMod(a, b) => SelectorV::NthLastMod(*a, *b),
            Selector::Nth(a) => SelectorV::Nth(*a),
            Selector::NthLast(a) => SelectorV::NthLast(*a),
            Selector::OnlyChild => SelectorV::OnlyChild,
            Selector::Class(c) => SelectorV::Class(c@),
            Selector::State(s) => SelectorV::State(s@),
            Selector::Not(inner) => SelectorV::Not(Box::new((**inner).view())),
        }
    }
}

/// Result of matching a sibling widget: `None` for selectors that do not select siblings.
pub open spec fn sibling_match(sel: SelectorV, direct: bool, widget: Seq<char>) -> Option<bool>
    decreases sel,
{
    match sel {
        SelectorV::WidgetDirectAfter(w) => Some(direct && widget_matches(w, widget)),
        SelectorV::WidgetAfter(w) => Some(widget_matches(w, widget)),
        SelectorV::Not(inner) => match sibling_match(*inner, direct, widget) {
            Some(b) => Some(!b),
            None => None,
        },
        _ => None,
    }
}

/// Result of matching a child widget: `None` for selectors that do not select children.
pub open spec fn child_match(sel: SelectorV, direct: bool, widget: Seq<char>) -> Option<bool>
    decreases sel,
{
    match sel {
        SelectorV::Widget(w) => Some(widget_matches(w, widget)),
        SelectorV::WidgetDirectChild(w) => Some(direct && widget_matches(w, widget)),
        SelectorV::Not(inner) => match child_match(*inner, direct, widget) {
            Some(b) => Some(!b),
            None => None,
        },
        _ => None,
    }
}

/// The inputs for which meta matching is defined: the positional selectors count from the end of
/// the parent's children only for an existing child, and take remainders by a non-zero number.
pub open spec fn meta_defined(sel: SelectorV, n: usize, len: usize) -> bool
    decreases sel,
{
    match sel {
        SelectorV::NthMod(_, den) => den != 0,
        SelectorV::NthLast(_) => n < len,
        SelectorV::NthLastMod(_, den) => n < len && den != 0,
        SelectorV::Not(inner) => meta_defined(*inner, n, len),
        _ => true,
    }
}

/// Result of matching the state, class and position of a widget: `None` for selectors that do
/// not look at those.
pub open spec fn meta_match(
    sel: SelectorV,
    states: Seq<StyleState<Seq<char>>>,
    class: Seq<char>,
    n: usize,
    len: usize,
) -> Option<bool>
    decreases sel,
{
    match sel {
        SelectorV::State(s) => Some(states.contains(s)),
        SelectorV::Class(c) => Some(c == class),
        SelectorV::Nth(num) => Some(n == num),
        SelectorV::NthMod(num, den) => Some(n % den == num),
        SelectorV::NthLast(num) => Some(len - 1 - n == num),
        SelectorV::NthLastMod(num, den) => Some((len - 1 - n) % (den as int) == num),
        SelectorV::OnlyChild => Some(n == 0 && len == 1),
        SelectorV::Not(inner) => match meta_match(*inner, states, class, n, len) {
            Some(b) => Some(!b),
            None => None,
        },
        _ => None,
    }
}

/// The views of a slice of states.
pub open spec fn states_view<S: View<V = Seq<char>>>(states: Seq<StyleState<S>>) -> Seq<
    StyleState<Seq<char>>,
> {
    states.map_values(|s: StyleState<S>| s@)
}

impl SelectorWidget {
    /// Whether this widget selector selects a widget named `widget`.
    pub fn matches(&self, widget: &str) -> (r: bool)
        ensures
            r == widget_matches(self@, widget@),
    {
        match self {
            SelectorWidget::Any => true,
            SelectorWidget::Named(select) => str_eq(select.as_str(), widget),
        }
    }

    /// Parses a widget selector: `*` selects any widget, other text selects widgets of that name.
    pub fn from_str(s: &str) -> (r: SelectorWidget)
        ensures
            r@ == (if s@ == "*"@ {
                SelectorWidgetV::Any
            } else {
                SelectorWidgetV::Named(s@)
            }),
    {
        if str_eq(s, "*") {
            SelectorWidget::Any
        } else {
            SelectorWidget::Named(String::from_str(s))
        }
    }

    fn copy(&self) -> (r: SelectorWidget)
        ensures
            r@ == self@,
    {
        match self {
            SelectorWidget::Any => SelectorWidget::Any,
            SelectorWidget::Named(s) => SelectorWidget::Named(s.clone()),
        }
    }

    fn equals(&self, other: &SelectorWidget) -> (r: bool)
        ensures
            r == (self@ == other@),
    {
        match (self, other) {
            (SelectorWidget::Any, SelectorWidget::Any) => true,
            (SelectorWidget::Named(a), SelectorWidget::Named(b)) => str_eq(a.as_str(), b.as_str()),
            _ => false,
        }
    }
}

impl StyleState<String> {
    /// Parses a state name; names that are not built in become custom states.
    pub fn from_str(s: &str) -> (r: StyleState<String>)
        ensures
            r@ == state_named(s@),
    {
        if str_eq(s, "hover") {
            StyleState::Hover
        } else if str_eq(s, "pressed") {
            StyleState::Pressed
        } else if str_eq(s, "checked") {
            StyleState::Checked
        } else if str_eq(s, "disabled") {
            StyleState::Disabled
        } else if str_eq(s, "open") {
            StyleState::Open
        } else if str_eq(s, "closed") {
            StyleState::Closed
        } else if str_eq(s, "drag") {
            StyleState::Drag
        } else if str_eq(s, "drop") {
            StyleState::Drop
        } else if str_eq(s, "drop-denied") {
            StyleState::DropDenied
        } else {
            StyleState::Custom(String::from_str(s))
        }
    }

    fn copy(&self) -> (r: StyleState<String>)
        ensures
            r@ == self@,
    {
        match self {
            StyleState::Hover => StyleState::Hover,
            StyleState::Pressed => StyleState::Pressed,
            StyleState::Checked => StyleState::Checked,
            StyleState::Disabled => StyleState::Disabled,
            StyleState::Focused => StyleState::Focused,
            StyleState::Open => StyleState::Open,
            StyleState::Closed => StyleState::Closed,
            StyleState::Drag => StyleState::Drag,
            StyleState::Drop => StyleState::Drop,
            StyleState::DropDenied => StyleState::DropDenied,
            StyleState::Custom(s) => StyleState::Custom(s.clone()),
        }
    }
}

/// The state that a name stands for: the built-in names, or else a custom state of that name.
pub open spec fn state_named(s: Seq<char>) -> StyleState<Seq<char>> {
    if s == "hover"@ {
        StyleState::Hover
    } else if s == "pressed"@ {
        StyleState::Pressed
    } else if s == "checked"@ {
        StyleState::Checked
    } else if s == "disabled"@ {
        StyleState::Disabled
    } else if s == "open"@ {
        StyleState::Open
    } else if s == "closed"@ {
        StyleState::Closed
    } else if s == "drag"@ {
        StyleState::Drag
    } else if s == "drop"@ {
        StyleState::Drop
    } else if s == "drop-denied"@ {
        StyleState::DropDenied
    } else {
        StyleState::Custom(s)
    }
}

/// The name by which a stylesheet selects a built-in state, for the states that have one.
pub open spec fn builtin_state_name(s: StyleState<Seq<char>>) -> Option<Seq<char>> {
    match s {
        StyleState::Hover => Some("hover"@),
        StyleState::Pressed => Some("pressed"@),
        StyleState::Checked => Some("checked"@),
        StyleState::Disabled => Some("disabled"@),
        StyleState::Open => Some("open"@),
        StyleState::Closed => Some("closed"@),
        StyleState::Drag => Some("drag"@),
        StyleState::Drop => Some("drop"@),
        StyleState::DropDenied => Some("drop-denied"@),
        _ => None,
    }
}

/// The names of the built-in states.
pub open spec fn builtin_state_names() -> Seq<Seq<char>> {
    seq![
        "hover"@,
        "pressed"@,
        "checked"@,
        "disabled"@,
        "open"@,
        "closed"@,
        "drag"@,
        "drop"@,
        "drop-denied"@,
    ]
}

/// Reading state names: each built-in state's name reads as that state, and a name becomes a
/// custom state of that same name exactly when it is none of the built-in names.
pub proof fn lemma_state_names(s: StyleState<Seq<char>>, name: Seq<char>)
    ensures
        builtin_state_name(s) matches Some(n) ==> state_named(n) == s,
        state_named(name) is Custom <==> !builtin_state_names().contains(name),
        state_named(name) is Custom ==> state_named(name) == StyleState::<Seq<char>>::Custom(name),
{
    reveal_strlit("hover");
    reveal_strlit("pressed");
    reveal_strlit("checked");
    reveal_strlit("disabled");
    reveal_strlit("open");
    reveal_strlit("closed");
    reveal_strlit("drag");
    reveal_strlit("drop");
    reveal_strlit("drop-denied");
    assert("hover"@.len() == 5 && "hover"@[0] == 'h');
    assert("pressed"@.len() == 7 && "pressed"@[0] == 'p');
    assert("checked"@.len() == 7 && "checked"@[0] == 'c');
    assert("disabled"@.len() == 8 && "disabled"@[0] == 'd');
    assert("open"@.len() == 4 && "open"@[0] == 'o');
    assert("closed"@.len() == 6 && "closed"@[0] == 'c');
    assert("drag"@.len() == 4 && "drag"@[0] == 'd' && "drag"@[2] == 'a');
    assert("drop"@.len() == 4 && "drop"@[0] == 'd' && "drop"@[2] == 'o');
    assert("drop-denied"@.len() == 11);
    match s {
        StyleState::Hover => assert(state_named("hover"@) == s),
        StyleState::Pressed => assert(state_named("pressed"@) == s),
        StyleState::Checked => assert(state_named("checked"@) == s),
        StyleState::Disabled => assert(state_named("disabled"@) == s),
        StyleState::Open => assert(state_named("open"@) == s),
        StyleState::Closed => assert(state_named("closed"@) == s),
        StyleState::Drag => assert(state_named("drag"@) == s),
        StyleState::Drop => assert(state_named("drop"@) == s),
        StyleState::DropDenied => assert(state_named("drop-denied"@) == s),
        _ => {},
    }
    let names = builtin_state_names();
    if !(state_named(name) is Custom) {
        let i: int = if name == "hover"@ {
            0
        } else if name == "pressed"@ {
            1
        } else if name == "checked"@ {
            2
        } else if name == "disabled"@ {
            3
        } else if name == "open"@ {
            4
        } else if name == "closed"@ {
            5
        } else if name == "drag"@ {
            6
        } else if name == "drop"@ {
            7
        } else {
            8
        };
        assert(names[i] == name);
    } else {
        assert forall|i: int| 0 <= i < names.len() implies names[i] != name by {}
    }
}

/// State, class and negation: `State(s)` selects the widgets whose states include `s`,
/// `Class(c)` the widgets of class `c`, and `Not(sel)` selects where `sel` does not, for the
/// widgets that `sel` judges at all.
pub proof fn lemma_state_class_not(
    sel: SelectorV,
    s: StyleState<Seq<char>>,
    c: Seq<char>,
    states: Seq<StyleState<Seq<char>>>,
    class: Seq<char>,
    n: usize,
    len: usize,
)
    ensures
        meta_match(SelectorV::State(s), states, class, n, len) == Some(states.contains(s)),
        meta_match(SelectorV::Class(c), states, class, n, len) == Some(c == class),
        meta_match(SelectorV::Not(Box::new(sel)), states, class, n, len) == match meta_match(
            sel,
            states,
            class,
            n,
            len,
        ) {
            Some(b) => Some(!b),
            None => None::<bool>,
        },
{
}

/// Positional selectors: `Nth(k)` selects exactly the child at index `k`, `NthLast(k)` exactly the
/// child with `k` children after it, and `OnlyChild` exactly the child of a parent with no
/// other children; so each of them selects at most one child of a parent. `NthMod(k, d)` selects
/// the children whose index leaves remainder `k` by `d`, and `NthLastMod(k, d)` those whose count
/// of later children does.
pub proof fn lemma_positional_selectors(
    k: usize,
    d: usize,
    states: Seq<StyleState<Seq<char>>>,
    class: Seq<char>,
    n: usize,
    m: usize,
    len: usize,
)
    requires
        n < len,
        m < len,
        d != 0,
    ensures
        meta_match(SelectorV::NthMod(k, d), states, class, n, len) == Some(n % d == k),
        meta_match(SelectorV::NthLastMod(k, d), states, class, n, len) == Some(
            (len - n - 1) % (d as int) == k,
        ),
        meta_match(SelectorV::Nth(k), states, class, n, len) == Some(n == k),
        meta_match(SelectorV::NthLast(k), states, class, n, len) == Some(n + k + 1 == len),
        meta_match(SelectorV::OnlyChild, states, class, n, len) == Some(len == 1),
        meta_match(SelectorV::NthLast(k), states, class, n, len) == Some(true) && meta_match(
            SelectorV::NthLast(k),
            states,
            class,
            m,
            len,
        ) == Some(true) ==> n == m,
{
}

impl Selector {
    /// Match a sibling widget of the current rule. If this selector is not a sibling selector
    /// `None` is returned.
    pub fn match_sibling(&self, direct: bool, widget: &str) -> (r: Option<bool>)
        ensures
            r == sibling_match(self@, direct, widget@),
        decreases self,
    {
        match self {
            Selector::WidgetDirectAfter(sel_widget) => Some(direct && sel_widget.matches(widget)),
            Selector::WidgetAfter(sel_widget) => Some(sel_widget.matches(widget)),
            Selector::Not(selector) => match selector.match_sibling(direct, widget) {
                Some(b) => Some(!b),
                None => None,
            },
            _ => None,
        }
    }

    /// Match a child widget of the current rule. If this selector is not a child selector `None`
    /// is returned.
    pub fn match_child(&self, direct: bool, widget: &str) -> (r: Option<bool>)
        ensures
            r == child_match(self@, direct, widget@),
        decreases self,
    {
        match self {
            Selector::Widget(sel_widget) => Some(sel_widget.matches(widget)),
            Selector::WidgetDirectChild(sel_widget) => Some(direct && sel_widget.matches(widget)),
            Selector::Not(selector) => match selector.match_child(direct, widget) {
                Some(b) => Some(!b),
                None => None,
            },
            _ => None,
        }
    }

    /// Match parameters of the widget matched by the current rule.
    /// If this selector is not a meta selector `None` is returned.
    pub fn match_meta<S: AsStr>(&self, state: &[StyleState<S>], class: &str, n: usize, len: usize) -> (r:
        Option<bool>)
        requires
            meta_defined(self@, n, len),
        ensures
            r == meta_match(self@, states_view(state@), class@, n, len),
        decreases self,
    {
        match self {
            Selector::State(sel_state) => {
                let mut i: usize = 0;
                while i < state.len()
                    invariant
                        i <= state.len(),
                        self@ == SelectorV::State(sel_state@),
                        forall|k: int| 0 <= k < i ==> state@[k]@ != sel_state@,
                    decreases state.len() - i,
                {
                    if state[i].state_eq(sel_state) {
                        proof {
                            assert(states_view(state@)[i as int] == sel_state@);
                            assert(states_view(state@).contains(sel_state@));
                        }
                        return Some(true);
                    }
                    i += 1;
                }
                proof {
                    assert(!states_view(state@).contains(sel_state@));
                }
                Some(false)
            },
            Selector::Class(sel_class) => Some(str_eq(sel_class.as_str(), class)),
            Selector::Nth(num) => Some(n == *num),
            Selector::NthMod(num, den) => Some((n % *den) == *num),
            Selector::NthLast(num) => Some(len - 1 - n == *num),
            Selector::NthLastMod(num, den) => Some(((len - 1 - n) % *den) == *num),
            Selector::OnlyChild => Some(n == 0 && len == 1),
            Selector::Not(selector) => match selector.match_meta(state, class, n, len) {
                Some(b) => Some(!b),
                None => None,
            },
            _ => None,
        }
    }

    /// A copy of this selector.
    pub fn copy(&self) -> (r: Selector)
        ensures
            r@ == self@,
        decreases self,
    {
        match self {
            Selector::Root => Selector::Root,
            Selector::Widget(w) => Selector::Widget(w.copy()),
            Selector::WidgetDirectChild(w) => Selector::WidgetDirectChild(w.copy()),
            Selector::WidgetDirectAfter(w) => Selector::WidgetDirectAfter(w.copy()),
            Selector::WidgetAfter(w) => Selector::WidgetAfter(w.copy()),
            Selector::NthMod(a, b) => Selector::NthMod(*a, *b),
            Selector::NthLastMod(a, b) => Selector::NthLastMod(*a, *b),
            Selector::Nth(a) => Selector::Nth(*a),
            Selector::NthLast(a) => Selector::NthLast(*a),
            Selector::OnlyChild => Selector::OnlyChild,
            Selector::Class(c) => Selector::Class(c.clone()),
            Selector::State(s) => Selector::State(s.copy()),
            Selector::Not(inner) => Selector::Not(Box::new(inner.copy())),
        }
    }

    /// Whether two selectors are the same.
    pub fn equals(&self, other: &Selector) -> (r: bool)
        ensures
            r == (self@ == other@),
        decreases self,
    {
        match (self, other) {
            (Selector::Root, Selector::Root) => true,
            (Selector::Widget(a), Selector::Widget(b)) => a.equals(b),
            (Selector::WidgetDirectChild(a), Selector::WidgetDirectChild(b)) => a.equals(b),
            (Selector::WidgetDirectAfter(a), Selector::WidgetDirectAfter(b)) => a.equals(b),
            (Selector::WidgetAfter(a), Selector::WidgetAfter(b)) => a.equals(b),
            (Selector::NthMod(a, b), Selector::NthMod(c, d)) => *a == *c && *b == *d,
            (Selector::NthLastMod(a, b), Selector::NthLastMod(c, d)) => *a == *c && *b == *d,
            (Selector::Nth(a), Selector::Nth(b)) => *a == *b,
            (Selector::NthLast(a), Selector::NthLast(b)) => *a == *b,
            (Selector::OnlyChild, Selector::OnlyChild) => true,
            (Selector::Class(a), Selector::Class(b)) => str_eq(a.as_str(), b.as_str()),
            (Selector::State(a), Selector::State(b)) => a.state_eq(b),
            (Selector::Not(a), Selector::Not(b)) => {
                let r = a.equals(b);
                proof {
                    if !r {
                        assert(self@ != other@);
                    }
                }
                r
            },
            _ => false,
        }
    }
}

} // verus!
