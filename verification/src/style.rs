//! The cascade: which declared value wins for each property of each
//! element, and the tree of styled nodes that results.

use vstd::prelude::*;
use vstd::hash_map::StringHashMap;
use crate::css::{
    declaration_views, outranks, ranks_above, value_view, DeclarationView, Rule, RuleView,
    Selector, SelectorView, SimpleSelector, SimpleSelectorView, Specificity, StyleSheet,
    StyleSheetView, Value, ValueView,
};
use crate::dom::{
    lemma_node_view, node_views, ElementData, ElementDataView, Node, NodeType, NodeTypeView,
    NodeView,
};
use crate::scan::{contains, holds};

verus! {

/// The winning value of each property, by property name.
pub type PropertyMap = StringHashMap<Value>;

/// A document node together with the values the cascade gave it.
pub struct StyledNode<'a> {
    pub node: &'a Node,
    pub specified_values: PropertyMap,
    pub children: Vec<StyledNode<'a>>,
}

/// A styled node as plain text.
pub struct StyledNodeView {
    pub node: NodeView,
    pub specified_values: Map<Seq<char>, ValueView>,
    pub children: Seq<StyledNodeView>,
}

/// How a node takes part in layout.
#[derive(Debug, Clone, Copy, PartialEq, Eq, Structural)]
pub enum Display {
    Inline,
    Block,
    DisplayNone,
}

/// The values with each as plain text.
pub open spec fn property_views(values: Map<Seq<char>, Value>) -> Map<Seq<char>, ValueView> {
    values.map_values(|value: Value| value@)
}

/// The styled node as a value, children and all.
pub open spec fn styled_view<'a>(styled: StyledNode<'a>) -> StyledNodeView
    decreases styled,
{
    StyledNodeView {
        node: styled.node@,
        specified_values: property_views(styled.specified_values@),
        children: Seq::new(
            styled.children@.len(),
            |i: int|
                if 0 <= i < styled.children@.len() {
                    styled_view(styled.children@[i])
                } else {
                    arbitrary()
                },
        ),
    }
}

impl<'a> View for StyledNode<'a> {
    type V = StyledNodeView;

    open spec fn view(&self) -> StyledNodeView {
        styled_view(*self)
    }
}

/// The views of styled nodes, one for one.
pub open spec fn styled_views<'a>(nodes: Seq<StyledNode<'a>>) -> Seq<StyledNodeView> {
    nodes.map_values(|styled: StyledNode<'a>| styled@)
}

/// The children of a styled node's view are the views of its children.
pub proof fn lemma_styled_view<'a>(styled: StyledNode<'a>)
    ensures
        styled@.node == styled.node@,
        styled@.specified_values == property_views(styled.specified_values@),
        styled@.children == styled_views(styled.children@),
{
    assert(styled@.children =~= styled_views(styled.children@));
}

impl StyledNodeView {
    /// The value of a property, if one was specified.
    pub open spec fn value(self, name: Seq<char>) -> Option<ValueView> {
        if self.specified_values.contains_key(name) {
            Some(self.specified_values[name])
        } else {
            None
        }
    }

    /// The value of `name`, else that of `fallback_name`, else `default`.
    pub open spec fn lookup(
        self,
        name: Seq<char>,
        fallback_name: Seq<char>,
        default: ValueView,
    ) -> ValueView {
        match self.value(name) {
            Some(v) => v,
            None => match self.value(fallback_name) {
                Some(v) => v,
                None => default,
            },
        }
    }

    /// `block` and `none` are read from the `display` keyword; anything
    /// else, or nothing, is inline.
    pub open spec fn display(self) -> Display {
        match self.value("display"@) {
            Some(ValueView::Keyword(s)) => if s == "block"@ {
                Display::Block
            } else if s == "none"@ {
                Display::DisplayNone
            } else {
                Display::Inline
            },
            _ => Display::Inline,
        }
    }
}

impl<'a> StyledNode<'a> {
    /// The value of a property, if one was specified.
    pub fn value(&self, name: &str) -> (r: Option<Value>)
        ensures
            value_view(r) == self@.value(name@),
    {
        proof {
            lemma_styled_view(*self);
        }
        match self.specified_values.get(name) {
            Some(v) => Some(v.clone()),
            None => None,
        }
    }

    /// The value of `name`, else that of `fallback_name`, else `default`.
    pub fn lookup(&self, name: &str, fallback_name: &str, default: &Value) -> (r: Value)
        ensures
            r@ == self@.lookup(name@, fallback_name@, default@),
    {
        match self.value(name) {
            Some(v) => v,
            None => match self.value(fallback_name) {
                Some(v) => v,
                None => default.clone(),
            },
        }
    }

    /// How the node takes part in layout: as its `display` property says,
    /// inline where it says nothing.
    pub fn display(&self) -> (r: Display)
        ensures
            r == self@.display(),
    {
        match self.value("display") {
            Some(Value::Keyword(s)) => {
                let block: String = "block".to_string();
                let none: String = "none".to_string();
                if s == block {
                    Display::Block
                } else if s == none {
                    Display::DisplayNone
                } else {
                    Display::Inline
                }
            },
            _ => Display::Inline,
        }
    }
}

/// A rule that matches an element, with the specificity of the selector
/// through which it matches.
pub type MatchedRule<'a> = (Specificity, &'a Rule);

/// A matched rule as plain text.
pub type MatchedRuleView = (Specificity, RuleView);

/// The matched rule with its rule as plain text.
pub open spec fn matched_view(matched: MatchedRule) -> MatchedRuleView {
    (matched.0, matched.1@)
}

/// The views of matched rules, one for one.
pub open spec fn matched_views(matched: Seq<MatchedRule>) -> Seq<MatchedRuleView> {
    Seq::new(matched.len(), |i: int| matched_view(matched[i]))
}

/// Whether a simple selector matches an element: its tag name, if it names
/// one, is the element's; its id, if it has one, is the element's; and each
/// of its classes is a class of the element.
pub open spec fn simple_selector_matches(
    elem: ElementDataView,
    selector: SimpleSelectorView,
) -> bool {
    &&& selector.tag_name matches Some(name) ==> elem.tag_name == name
    &&& selector.id matches Some(id) ==> elem.id() == Some(id)
    &&& forall|k: int|
        0 <= k < selector.class.len() ==> elem.has_class(#[trigger] selector.class[k])
}

/// A selector without tag name, id and classes matches every element.
pub proof fn lemma_universal_selector_matches(elem: ElementDataView, selector: SimpleSelectorView)
    requires
        selector.tag_name.is_none(),
        selector.id.is_none(),
        selector.class.len() == 0,
    ensures
        simple_selector_matches(elem, selector),
{
}

/// Whether a selector matches an element.
pub open spec fn selector_matches(elem: ElementDataView, selector: SelectorView) -> bool {
    match selector {
        SelectorView::Simple(simple) => simple_selector_matches(elem, simple),
    }
}

/// Whether a selector matches an element.
pub fn matches(elem: &ElementData, selector: &Selector) -> (r: bool)
    ensures
        r == selector_matches(elem@, selector@),
{
    match selector {
        Selector::Simple(simple_selector) => matches_simple_selector(elem, simple_selector),
    }
}

/// Whether a simple selector matches an element. A selector without tag
/// name, id and classes matches every element.
pub fn matches_simple_selector(elem: &ElementData, selector: &SimpleSelector) -> (r: bool)
    ensures
        r == simple_selector_matches(elem@, selector@),
{
    // Tag name
    match &selector.tag_name {
        Some(name) => {
            if elem.tag_name != *name {
                return false;
            }
        },
        None => {},
    }

    // Id
    match &selector.id {
        Some(id) => {
            match elem.id() {
                Some(own) => {
                    if *own != *id {
                        return false;
                    }
                },
                None => {
                    return false;
                },
            }
        },
        None => {},
    }

    // Classes
    let elem_classes = elem.classes();
    let mut k: usize = 0;
    while k < selector.class.len()
        invariant
            k <= selector.class@.len(),
            selector@.class.len() == selector.class@.len(),
            forall|name: Seq<char>| elem@.has_class(name) <==> holds(elem_classes@, name),
            forall|m: int| 0 <= m < k ==> elem@.has_class(#[trigger] selector@.class[m]),
        decreases selector.class@.len() - k,
    {
        assert(selector@.class[k as int] == selector.class@[k as int]@);
        if !contains(&elem_classes, &selector.class[k]) {
            return false;
        }
        k += 1;
    }
    true
}

/// The first selector, from position `from` on, that matches the element.
pub open spec fn first_match(
    elem: ElementDataView,
    selectors: Seq<SelectorView>,
    from: int,
) -> Option<int>
    decreases selectors.len() - from,
{
    if from < 0 || from >= selectors.len() {
        None
    } else if selector_matches(elem, selectors[from]) {
        Some(from)
    } else {
        first_match(elem, selectors, from + 1)
    }
}

/// A rule matches through the first of its selectors that matches, and
/// takes that selector's specificity.
pub open spec fn rule_match(elem: ElementDataView, rule: RuleView) -> Option<MatchedRuleView> {
    match first_match(elem, rule.selectors, 0) {
        Some(k) => Some((rule.selectors[k].specificity(), rule)),
        None => None,
    }
}

/// The matches among the first `n` rules, in the order of the rules.
pub open spec fn rule_matches(elem: ElementDataView, rules: Seq<RuleView>, n: nat) -> Seq<
    MatchedRuleView,
>
    decreases n,
{
    if n == 0 || n > rules.len() {
        Seq::empty()
    } else {
        let before = rule_matches(elem, rules, (n - 1) as nat);
        match rule_match(elem, rules[n - 1]) {
            Some(m) => before.push(m),
            None => before,
        }
    }
}

/// `sorted` with `m` put behind the last rule that does not outrank it.
pub open spec fn inserted(sorted: Seq<MatchedRuleView>, m: MatchedRuleView) -> Seq<
    MatchedRuleView,
>
    decreases sorted.len(),
{
    if sorted.len() > 0 && outranks(sorted.last().0, m.0) {
        inserted(sorted.drop_last(), m).push(sorted.last())
    } else {
        sorted.push(m)
    }
}

/// The first `n` of `matched` by rising specificity; rules of the same
/// specificity keep their order.
pub open spec fn cascade_order(matched: Seq<MatchedRuleView>, n: nat) -> Seq<MatchedRuleView>
    decreases n,
{
    if n == 0 || n > matched.len() {
        Seq::empty()
    } else {
        inserted(cascade_order(matched, (n - 1) as nat), matched[n - 1])
    }
}

/// `values` after the first `n` of `declarations`, each replacing what was
/// there under its name.
pub open spec fn declared(
    values: Map<Seq<char>, ValueView>,
    declarations: Seq<DeclarationView>,
    n: nat,
) -> Map<Seq<char>, ValueView>
    decreases n,
{
    if n == 0 || n > declarations.len() {
        values
    } else {
        declared(values, declarations, (n - 1) as nat).insert(
            declarations[n - 1].name,
            declarations[n - 1].value,
        )
    }
}

/// The values that the first `n` of `rules` leave, applied in order.
pub open spec fn applied(rules: Seq<MatchedRuleView>, n: nat) -> Map<Seq<char>, ValueView>
    decreases n,
{
    if n == 0 || n > rules.len() {
        Map::empty()
    } else {
        declared(
            applied(rules, (n - 1) as nat),
            rules[n - 1].1.declarations,
            rules[n - 1].1.declarations.len(),
        )
    }
}

/// The value of each property of an element under a stylesheet: the
/// declarations of the matching rules, applied by rising specificity and,
/// within one specificity, in the order of the stylesheet.
pub open spec fn cascade(elem: ElementDataView, stylesheet: StyleSheetView) -> Map<
    Seq<char>,
    ValueView,
> {
    let matched = rule_matches(elem, stylesheet.rules, stylesheet.rules.len());
    let sorted = cascade_order(matched, matched.len());
    applied(sorted, sorted.len())
}

/// The first selector of the rule that matches the element, if any does,
/// with the rule.
pub fn match_rule<'a>(elem: &ElementData, rule: &'a Rule) -> (r: Option<MatchedRule<'a>>)
    ensures
        match r {
            Some(matched) => matched.1 == rule && rule_match(elem@, rule@) == Some(
                matched_view(matched),
            ),
            None => rule_match(elem@, rule@).is_none(),
        },
{
    let mut k: usize = 0;
    while k < rule.selectors.len()
        invariant
            k <= rule.selectors@.len(),
            rule@.selectors.len() == rule.selectors@.len(),
            first_match(elem@, rule@.selectors, 0) == first_match(elem@, rule@.selectors, k as int),
        decreases rule.selectors@.len() - k,
    {
        assert(rule@.selectors[k as int] == rule.selectors@[k as int]@);
        if matches(elem, &rule.selectors[k]) {
            return Some((rule.selectors[k].specificity(), rule));
        }
        k += 1;
    }
    None
}

/// The rules of the stylesheet that match the element, in their order.
pub fn matching_rules<'a>(elem: &ElementData, stylesheet: &'a StyleSheet) -> (r: Vec<
    MatchedRule<'a>,
>)
    ensures
        matched_views(r@) == rule_matches(elem@, stylesheet@.rules, stylesheet@.rules.len()),
{
    let mut matched: Vec<MatchedRule<'a>> = Vec::new();
    assert(matched_views(matched@) =~= Seq::empty());
    let mut i: usize = 0;
    while i < stylesheet.rules.len()
        invariant
            i <= stylesheet.rules@.len(),
            stylesheet@.rules.len() == stylesheet.rules@.len(),
            matched_views(matched@) == rule_matches(elem@, stylesheet@.rules, i as nat),
        decreases stylesheet.rules@.len() - i,
    {
        assert(stylesheet@.rules[i as int] == stylesheet.rules@[i as int]@);
        let ghost before = matched_views(matched@);
        match match_rule(elem, &stylesheet.rules[i]) {
            Some(m) => {
                matched.push(m);
                assert(matched_views(matched@) =~= before.push(matched_view(m)));
            },
            None => {},
        }
        i += 1;
    }
    matched
}

/// Putting `m` at `at` is putting it behind the last rule that does not
/// outrank it, where every rule from `at` on outranks it and the rule
/// before `at` does not.
proof fn lemma_inserted_at(sorted: Seq<MatchedRuleView>, m: MatchedRuleView, at: int)
    requires
        0 <= at <= sorted.len(),
        forall|k: int| at <= k < sorted.len() ==> outranks((#[trigger] sorted[k]).0, m.0),
        at > 0 ==> !outranks(sorted[at - 1].0, m.0),
    ensures
        inserted(sorted, m) == sorted.insert(at, m),
    decreases sorted.len() - at,
{
    if at == sorted.len() {
        assert(sorted.insert(at, m) =~= sorted.push(m));
    } else {
        lemma_inserted_at(sorted.drop_last(), m, at);
        assert(sorted.insert(at, m) =~= sorted.drop_last().insert(at, m).push(sorted.last()));
    }
}

/// Sorts matched rules by rising specificity, keeping the order of rules
/// of the same specificity.
fn sort_by_specificity<'a>(matched: Vec<MatchedRule<'a>>) -> (r: Vec<MatchedRule<'a>>)
    ensures
        matched_views(r@) == cascade_order(matched_views(matched@), matched@.len()),
{
    let mut sorted: Vec<MatchedRule<'a>> = Vec::new();
    assert(matched_views(sorted@) =~= Seq::empty());
    let mut i: usize = 0;
    while i < matched.len()
        invariant
            i <= matched@.len(),
            matched_views(sorted@) == cascade_order(matched_views(matched@), i as nat),
            sorted@.len() <= i,
        decreases matched@.len() - i,
    {
        let m = matched[i];
        let mut at: usize = sorted.len();
        while at > 0 && ranks_above(sorted[at - 1].0, m.0)
            invariant
                at <= sorted@.len(),
                forall|k: int|
                    at <= k < sorted@.len() ==> outranks(
                        (#[trigger] matched_views(sorted@)[k]).0,
                        m.0,
                    ),
            decreases at,
        {
            at -= 1;
        }
        proof {
            lemma_inserted_at(matched_views(sorted@), matched_view(m), at as int);
        }
        let ghost before = matched_views(sorted@);
        sorted.insert(at, m);
        assert(matched_views(sorted@) =~= before.insert(at as int, matched_view(m)));
        i += 1;
    }
    sorted
}

/// The values that the cascade gives an element.
pub fn specified_values(elem: &ElementData, stylesheet: &StyleSheet) -> (r: PropertyMap)
    ensures
        property_views(r@) == cascade(elem@, stylesheet@),
{
    let mut values: PropertyMap = StringHashMap::new();
    assert(property_views(values@) =~= Map::empty());
    let rules = sort_by_specificity(matching_rules(elem, stylesheet));

    // Rules of higher specificity come later and overwrite the earlier ones.
    let mut i: usize = 0;
    while i < rules.len()
        invariant
            i <= rules@.len(),
            property_views(values@) == applied(matched_views(rules@), i as nat),
        decreases rules@.len() - i,
    {
        let rule = rules[i].1;
        let ghost declarations = matched_views(rules@)[i as int].1.declarations;
        assert(declarations == declaration_views(rule.declarations@));
        let mut j: usize = 0;
        while j < rule.declarations.len()
            invariant
                j <= rule.declarations@.len(),
                i < rules@.len(),
                declarations == declaration_views(rule.declarations@),
                declarations == matched_views(rules@)[i as int].1.declarations,
                property_views(values@) == declared(
                    applied(matched_views(rules@), i as nat),
                    declarations,
                    j as nat,
                ),
            decreases rule.declarations@.len() - j,
        {
            let declaration = &rule.declarations[j];
            let ghost before = property_views(values@);
            values.insert(declaration.name.clone(), declaration.value.clone());
            assert(property_views(values@) =~= before.insert(
                declaration.name@,
                declaration.value@,
            ));
            j += 1;
        }
        i += 1;
    }
    values
}

/// Resolving the same element under the same stylesheet twice gives the
/// same properties with the same values.
pub proof fn lemma_cascade_is_deterministic(
    elem: ElementDataView,
    stylesheet: StyleSheetView,
    first: PropertyMap,
    second: PropertyMap,
    property: Seq<char>,
)
    requires
        property_views(first@) == cascade(elem, stylesheet),
        property_views(second@) == cascade(elem, stylesheet),
    ensures
        first@.contains_key(property) == second@.contains_key(property),
        first@.contains_key(property) ==> first@[property]@ == second@[property]@,
{
    assert(property_views(first@).contains_key(property) == first@.contains_key(property));
    assert(property_views(second@).contains_key(property) == second@.contains_key(property));
    if first@.contains_key(property) {
        assert(property_views(first@)[property] == first@[property]@);
        assert(property_views(second@)[property] == second@[property]@);
    }
}

/// The styled tree of a document: node for node the same tree, each element
/// with the values that the cascade gives it, each text node with none.
pub open spec fn style_tree_of(node: NodeView, stylesheet: StyleSheetView) -> StyledNodeView
    decreases node,
{
    StyledNodeView {
        node,
        specified_values: match node.node_type {
            NodeTypeView::Element(elem) => cascade(elem, stylesheet),
            NodeTypeView::Text(_) => Map::empty(),
        },
        children: Seq::new(
            node.children.len(),
            |i: int|
                if 0 <= i < node.children.len() {
                    style_tree_of(node.children[i], stylesheet)
                } else {
                    arbitrary()
                },
        ),
    }
}

/// Builds the styled tree of the document under `root`.
pub fn style_tree<'a>(root: &'a Node, stylesheet: &'a StyleSheet) -> (r: StyledNode<'a>)
    ensures
        r.node == root,
        r@ == style_tree_of(root@, stylesheet@),
    decreases root,
{
    let specified_values = match &root.node_type {
        NodeType::Element(elem) => specified_values(elem, stylesheet),
        NodeType::Text(_) => {
            let none: PropertyMap = StringHashMap::new();
            assert(property_views(none@) =~= Map::empty());
            none
        },
    };
    proof {
        lemma_node_view(*root);
    }
    let mut children: Vec<StyledNode<'a>> = Vec::new();
    let mut i: usize = 0;
    while i < root.children.len()
        invariant
            i <= root.children@.len(),
            children@.len() == i,
            root@.children == node_views(root.children@),
            forall|k: int|
                0 <= k < i ==> (#[trigger] children@[k])@ == style_tree_of(
                    root@.children[k],
                    stylesheet@,
                ),
        decreases root.children@.len() - i,
    {
        children.push(style_tree(&root.children[i], stylesheet));
        i += 1;
    }
    let styled = StyledNode { node: root, specified_values, children };
    proof {
        lemma_styled_view(styled);
        assert(styled@.children =~= style_tree_of(root@, stylesheet@).children);
    }
    styled
}

} // verus!
