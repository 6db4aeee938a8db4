//! Which declaration the cascade picks for a property: the one from the
//! matching rule of highest specificity, the latest where several tie.

use vstd::prelude::*;
use crate::css::{
    lemma_outranks_total, outranks, DeclarationView, RuleView, SelectorView, Specificity,
    StyleSheetView, ValueView,
};
use crate::dom::ElementDataView;
use crate::grammar::css::falls;
use crate::style::{
    applied, cascade, cascade_order, declared, first_match, inserted, rule_match, rule_matches,
    selector_matches, MatchedRuleView,
};

verus! {

/// Declaration `j` of rule `i` sets `property` on the element: the rule
/// matches the element and the declaration has that name.
pub open spec fn sets(
    elem: ElementDataView,
    stylesheet: StyleSheetView,
    property: Seq<char>,
    i: int,
    j: int,
) -> bool {
    &&& 0 <= i < stylesheet.rules.len()
    &&& rule_match(elem, stylesheet.rules[i]).is_some()
    &&& 0 <= j < stylesheet.rules[i].declarations.len()
    &&& stylesheet.rules[i].declarations[j].name == property
}

/// The specificity with which rule `i` matches the element.
pub open spec fn matched_specificity(
    elem: ElementDataView,
    stylesheet: StyleSheetView,
    i: int,
) -> Specificity {
    rule_match(elem, stylesheet.rules[i]).unwrap().0
}

/// Declaration `j` of rule `i` prevails over declaration `j2` of rule
/// `i2`: its rule matches with higher specificity, or with the same and it
/// does not come before the other.
pub open spec fn prevails(
    elem: ElementDataView,
    stylesheet: StyleSheetView,
    i: int,
    j: int,
    i2: int,
    j2: int,
) -> bool {
    let s = matched_specificity(elem, stylesheet, i);
    let s2 = matched_specificity(elem, stylesheet, i2);
    outranks(s, s2) || (s == s2 && (i > i2 || (i == i2 && j >= j2)))
}

/// Declaration `j` of rule `i` is the one that the cascade picks for
/// `property`: it sets the property and prevails over every declaration
/// that does.
pub open spec fn wins(
    elem: ElementDataView,
    stylesheet: StyleSheetView,
    property: Seq<char>,
    i: int,
    j: int,
) -> bool {
    &&& sets(elem, stylesheet, property, i, j)
    &&& forall|i2: int, j2: int| #[trigger]
        sets(elem, stylesheet, property, i2, j2) ==> prevails(elem, stylesheet, i, j, i2, j2)
}

/// The last of the first `n` declarations with the name `property`.
spec fn last_named(declarations: Seq<DeclarationView>, n: nat, property: Seq<char>) -> Option<int>
    decreases n,
{
    if n == 0 || n > declarations.len() {
        None
    } else if declarations[n - 1].name == property {
        Some(n - 1)
    } else {
        last_named(declarations, (n - 1) as nat, property)
    }
}

/// The last declaration with a name has that name, and no later one has.
proof fn lemma_last_named(declarations: Seq<DeclarationView>, n: nat, property: Seq<char>)
    requires
        n <= declarations.len(),
    ensures
        match last_named(declarations, n, property) {
            Some(j) => 0 <= j < n && declarations[j].name == property && forall|j2: int|
                j < j2 < n ==> (#[trigger] declarations[j2]).name != property,
            None => forall|j2: int| 0 <= j2 < n ==> (#[trigger] declarations[j2]).name != property,
        },
    decreases n,
{
    if n > 0 && declarations[n - 1].name != property {
        lemma_last_named(declarations, (n - 1) as nat, property);
    }
}

/// Declarations leave under a name the value of the last of them that has
/// it, and what was there before where none has.
proof fn lemma_declared(
    values: Map<Seq<char>, ValueView>,
    declarations: Seq<DeclarationView>,
    n: nat,
    property: Seq<char>,
)
    requires
        n <= declarations.len(),
    ensures
        match last_named(declarations, n, property) {
            Some(j) => declared(values, declarations, n).contains_key(property) && declared(
                values,
                declarations,
                n,
            )[property] == declarations[j].value,
            None => declared(values, declarations, n).contains_key(property)
                == values.contains_key(property) && declared(values, declarations, n)[property]
                == values[property],
        },
    decreases n,
{
    if n > 0 {
        lemma_declared(values, declarations, (n - 1) as nat, property);
    }
}

/// The last declaration with the name `property` among the first `n` of
/// `rules`: the position of its rule and its own.
spec fn last_setting(rules: Seq<MatchedRuleView>, n: nat, property: Seq<char>) -> Option<(int, int)>
    decreases n,
{
    if n == 0 || n > rules.len() {
        None
    } else {
        let declarations = rules[n - 1].1.declarations;
        match last_named(declarations, declarations.len(), property) {
            Some(j) => Some((n - 1, j)),
            None => last_setting(rules, (n - 1) as nat, property),
        }
    }
}

/// Applying rules in order leaves, for each property, the value of the
/// last declaration that names it.
proof fn lemma_applied(rules: Seq<MatchedRuleView>, n: nat, property: Seq<char>)
    requires
        n <= rules.len(),
    ensures
        match last_setting(rules, n, property) {
            Some((k, j)) => {
                &&& 0 <= k < n
                &&& 0 <= j < rules[k].1.declarations.len()
                &&& rules[k].1.declarations[j].name == property
                &&& applied(rules, n).contains_key(property)
                &&& applied(rules, n)[property] == rules[k].1.declarations[j].value
                &&& forall|k2: int, j2: int|
                    0 <= k2 < n && 0 <= j2 < rules[k2].1.declarations.len() && (
                    #[trigger] rules[k2].1.declarations[j2]).name == property ==> k2 < k || (k2
                        == k && j2 <= j)
            },
            None => {
                &&& !applied(rules, n).contains_key(property)
                &&& forall|k2: int, j2: int|
                    0 <= k2 < n && 0 <= j2 < rules[k2].1.declarations.len() ==> (
                    #[trigger] rules[k2].1.declarations[j2]).name != property
            },
        },
    decreases n,
{
    if n > 0 {
        let declarations = rules[n - 1].1.declarations;
        lemma_applied(rules, (n - 1) as nat, property);
        lemma_last_named(declarations, declarations.len(), property);
        lemma_declared(
            applied(rules, (n - 1) as nat),
            declarations,
            declarations.len(),
            property,
        );
    }
}

/// The rules among the first `n` that match the element, by their place in
/// the stylesheet.
spec fn match_indices(elem: ElementDataView, rules: Seq<RuleView>, n: nat) -> Seq<int>
    decreases n,
{
    if n == 0 || n > rules.len() {
        Seq::empty()
    } else {
        let before = match_indices(elem, rules, (n - 1) as nat);
        if rule_match(elem, rules[n - 1]).is_some() {
            before.push(n - 1)
        } else {
            before
        }
    }
}

/// The matches stand in the order of their rules, one for each rule that
/// matches.
proof fn lemma_match_indices(elem: ElementDataView, rules: Seq<RuleView>, n: nat)
    requires
        n <= rules.len(),
    ensures
        ({
            let matched = rule_matches(elem, rules, n);
            let indices = match_indices(elem, rules, n);
            &&& matched.len() == indices.len()
            &&& forall|k: int|
                0 <= k < indices.len() ==> 0 <= #[trigger] indices[k] < n && rule_match(
                    elem,
                    rules[indices[k]],
                ) == Some(matched[k])
            &&& forall|k: int, k2: int|
                0 <= k < k2 < indices.len() ==> #[trigger] indices[k] < #[trigger] indices[k2]
            &&& forall|i: int|
                0 <= i < n && #[trigger] rule_match(elem, rules[i]).is_some() ==> exists|k: int|
                    0 <= k < indices.len() && #[trigger] indices[k] == i
        }),
    decreases n,
{
    if n > 0 {
        lemma_match_indices(elem, rules, (n - 1) as nat);
        let before = match_indices(elem, rules, (n - 1) as nat);
        let indices = match_indices(elem, rules, n);
        assert forall|i: int|
            0 <= i < n && #[trigger] rule_match(elem, rules[i]).is_some() implies exists|k: int|
            0 <= k < indices.len() && #[trigger] indices[k] == i by {
            if i < n - 1 {
                let k = choose|k: int| 0 <= k < before.len() && #[trigger] before[k] == i;
                assert(indices[k] == i);
            } else {
                assert(indices[indices.len() - 1] == i);
            }
        }
    }
}

/// `order` with `m` put behind the last position whose rule does not
/// outrank the rule at `m`.
spec fn placed(matched: Seq<MatchedRuleView>, order: Seq<int>, m: int) -> Seq<int>
    decreases order.len(),
{
    if order.len() > 0 && outranks(matched[order.last()].0, matched[m].0) {
        placed(matched, order.drop_last(), m).push(order.last())
    } else {
        order.push(m)
    }
}

/// The positions of the first `n` of `matched`, in cascade order.
spec fn order(matched: Seq<MatchedRuleView>, n: nat) -> Seq<int>
    decreases n,
{
    if n == 0 || n > matched.len() {
        Seq::empty()
    } else {
        placed(matched, order(matched, (n - 1) as nat), n - 1)
    }
}

/// Rising specificity, and rising position within one specificity.
spec fn in_cascade_order(matched: Seq<MatchedRuleView>, order: Seq<int>) -> bool {
    forall|k: int, k2: int|
        0 <= k < k2 < order.len() ==> !outranks(
            matched[#[trigger] order[k]].0,
            matched[#[trigger] order[k2]].0,
        ) && (matched[order[k]].0 == matched[order[k2]].0 ==> order[k] < order[k2])
}

/// Whether `m` is one of the positions in `order`.
spec fn occurs(order: Seq<int>, m: int) -> bool {
    exists|k: int| 0 <= k < order.len() && #[trigger] order[k] == m
}

/// Whether every position in `order` is one of the first `m`.
spec fn below(order: Seq<int>, m: int) -> bool {
    forall|k: int| 0 <= k < order.len() ==> 0 <= #[trigger] order[k] < m
}

/// Placing a position keeps the positions that were there and adds the
/// new one, and nothing else.
proof fn lemma_placed_holds(matched: Seq<MatchedRuleView>, order: Seq<int>, m: int)
    ensures
        placed(matched, order, m).len() == order.len() + 1,
        occurs(placed(matched, order, m), m),
        forall|k: int|
            0 <= k < order.len() ==> occurs(placed(matched, order, m), #[trigger] order[k]),
        forall|k: int|
            0 <= k < placed(matched, order, m).len() ==> placed(matched, order, m)[k] == m
                || occurs(order, #[trigger] placed(matched, order, m)[k]),
    decreases order.len(),
{
    let after = placed(matched, order, m);
    if order.len() > 0 && outranks(matched[order.last()].0, matched[m].0) {
        let rest = order.drop_last();
        let inner = placed(matched, rest, m);
        lemma_placed_holds(matched, rest, m);
        assert(after == inner.push(order.last()));
        assert(occurs(after, m)) by {
            let k = choose|k: int| 0 <= k < inner.len() && #[trigger] inner[k] == m;
            assert(after[k] == m);
        }
        assert forall|k: int| 0 <= k < order.len() implies occurs(after, #[trigger] order[k]) by {
            if k < rest.len() {
                assert(rest[k] == order[k]);
                assert(occurs(inner, rest[k]));
                let k2 = choose|k2: int| 0 <= k2 < inner.len() && #[trigger] inner[k2] == rest[k];
                assert(after[k2] == order[k]);
            } else {
                assert(after[after.len() - 1] == order[k]);
            }
        }
        assert forall|k: int| 0 <= k < after.len() implies after[k] == m || occurs(
            order,
            #[trigger] after[k],
        ) by {
            if k < inner.len() {
                assert(after[k] == inner[k]);
                if inner[k] != m {
                    assert(occurs(rest, inner[k]));
                    let k0 = choose|k0: int|
                        0 <= k0 < rest.len() && #[trigger] rest[k0] == inner[k];
                    assert(order[k0] == after[k]);
                }
            } else {
                assert(order[order.len() - 1] == after[k]);
            }
        }
    } else {
        assert(after == order.push(m));
        assert(after[after.len() - 1] == m);
        assert forall|k: int| 0 <= k < order.len() implies occurs(after, #[trigger] order[k]) by {
            assert(after[k] == order[k]);
        }
        assert forall|k: int| 0 <= k < after.len() implies after[k] == m || occurs(
            order,
            #[trigger] after[k],
        ) by {
            if k < order.len() {
                assert(order[k] == after[k]);
            }
        }
    }
}

/// Placing a position keeps the cascade order.
proof fn lemma_placed_in_order(matched: Seq<MatchedRuleView>, order: Seq<int>, m: int)
    requires
        0 <= m < matched.len(),
        below(order, m),
        in_cascade_order(matched, order),
    ensures
        below(placed(matched, order, m), m + 1),
        in_cascade_order(matched, placed(matched, order, m)),
    decreases order.len(),
{
    let after = placed(matched, order, m);
    lemma_placed_holds(matched, order, m);
    assert forall|k: int| 0 <= k < after.len() implies 0 <= #[trigger] after[k] < m + 1 by {
        if after[k] != m {
            assert(occurs(order, after[k]));
        }
    }
    if order.len() > 0 && outranks(matched[order.last()].0, matched[m].0) {
        let rest = order.drop_last();
        let last = order.last();
        let inner = placed(matched, rest, m);
        assert forall|k: int, k2: int| 0 <= k < k2 < rest.len() implies !outranks(
            matched[#[trigger] rest[k]].0,
            matched[#[trigger] rest[k2]].0,
        ) && (matched[rest[k]].0 == matched[rest[k2]].0 ==> rest[k] < rest[k2]) by {
            assert(rest[k] == order[k] && rest[k2] == order[k2]);
        }
        assert forall|k: int| 0 <= k < rest.len() implies 0 <= #[trigger] rest[k] < m by {
            assert(rest[k] == order[k]);
        }
        lemma_placed_in_order(matched, rest, m);
        lemma_placed_holds(matched, rest, m);
        assert(after == inner.push(last));
        assert(last == order[order.len() - 1]);
        assert forall|k: int, k2: int| 0 <= k < k2 < after.len() implies !outranks(
            matched[#[trigger] after[k]].0,
            matched[#[trigger] after[k2]].0,
        ) && (matched[after[k]].0 == matched[after[k2]].0 ==> after[k] < after[k2]) by {
            if k2 < inner.len() {
                assert(after[k] == inner[k] && after[k2] == inner[k2]);
            } else {
                assert(after[k] == inner[k]);
                assert(after[k2] == last);
                if inner[k] != m {
                    assert(occurs(rest, inner[k]));
                    let k0 = choose|k0: int|
                        0 <= k0 < rest.len() && #[trigger] rest[k0] == inner[k];
                    assert(order[k0] == rest[k0]);
                }
            }
        }
    } else {
        assert(after == order.push(m));
        assert forall|k: int, k2: int| 0 <= k < k2 < after.len() implies !outranks(
            matched[#[trigger] after[k]].0,
            matched[#[trigger] after[k2]].0,
        ) && (matched[after[k]].0 == matched[after[k2]].0 ==> after[k] < after[k2]) by {
            assert(after[k] == order[k]);
            if k2 < order.len() {
                assert(after[k2] == order[k2]);
            } else {
                assert(after[k2] == m);
                if k < order.len() - 1 {
                    assert(!outranks(matched[order[k]].0, matched[order[order.len() - 1]].0));
                }
            }
        }
    }
}

/// The cascade order of the first `n` positions holds each of them, and
/// is in cascade order.
proof fn lemma_order(matched: Seq<MatchedRuleView>, n: nat)
    requires
        n <= matched.len(),
    ensures
        order(matched, n).len() == n,
        below(order(matched, n), n as int),
        in_cascade_order(matched, order(matched, n)),
        forall|m: int| 0 <= m < n ==> #[trigger] occurs(order(matched, n), m),
    decreases n,
{
    if n > 0 {
        let before = order(matched, (n - 1) as nat);
        let after = order(matched, n);
        lemma_order(matched, (n - 1) as nat);
        lemma_placed_holds(matched, before, n - 1);
        lemma_placed_in_order(matched, before, n - 1);
        assert forall|m: int| 0 <= m < n implies #[trigger] occurs(after, m) by {
            if m < n - 1 {
                assert(occurs(before, m));
                let k0 = choose|k0: int| 0 <= k0 < before.len() && #[trigger] before[k0] == m;
                assert(occurs(after, before[k0]));
            }
        }
    }
}

/// Sorting the rules is sorting their positions.
proof fn lemma_inserted_is_placed(
    matched: Seq<MatchedRuleView>,
    sorted: Seq<MatchedRuleView>,
    order: Seq<int>,
    m: int,
)
    requires
        0 <= m < matched.len(),
        sorted.len() == order.len(),
        forall|k: int|
            0 <= k < order.len() ==> 0 <= #[trigger] order[k] < matched.len() && sorted[k]
                == matched[order[k]],
    ensures
        inserted(sorted, matched[m]).len() == placed(matched, order, m).len(),
        forall|k: int|
            0 <= k < placed(matched, order, m).len() ==> 0 <= #[trigger] placed(
                matched,
                order,
                m,
            )[k] < matched.len() && inserted(sorted, matched[m])[k] == matched[placed(
                matched,
                order,
                m,
            )[k]],
    decreases order.len(),
{
    if order.len() > 0 {
        assert(sorted.last() == matched[order.last()]);
        if outranks(matched[order.last()].0, matched[m].0) {
            lemma_inserted_is_placed(matched, sorted.drop_last(), order.drop_last(), m);
        }
    }
}

/// The rules in cascade order are the rules at the positions in cascade
/// order.
proof fn lemma_cascade_order(matched: Seq<MatchedRuleView>, n: nat)
    requires
        n <= matched.len(),
    ensures
        cascade_order(matched, n).len() == n,
        order(matched, n).len() == n,
        forall|k: int|
            0 <= k < n ==> 0 <= #[trigger] order(matched, n)[k] < n && cascade_order(matched, n)[k]
                == matched[order(matched, n)[k]],
    decreases n,
{
    if n > 0 {
        lemma_cascade_order(matched, (n - 1) as nat);
        lemma_order(matched, n);
        lemma_inserted_is_placed(
            matched,
            cascade_order(matched, (n - 1) as nat),
            order(matched, (n - 1) as nat),
            n - 1,
        );
    }
}

/// The cascade gives a property a value exactly where a declaration of a
/// matching rule sets it, and the value is that of the declaration that
/// wins: the one from the rule that matches with the highest specificity;
/// among rules of the same specificity, from the one that stands last in
/// the stylesheet; within that rule, the last with that name.
pub proof fn lemma_cascade_winner(
    elem: ElementDataView,
    stylesheet: StyleSheetView,
    property: Seq<char>,
)
    ensures
        cascade(elem, stylesheet).contains_key(property) <==> exists|i: int, j: int| #[trigger]
            sets(elem, stylesheet, property, i, j),
        cascade(elem, stylesheet).contains_key(property) ==> exists|i: int, j: int| #[trigger]
            wins(elem, stylesheet, property, i, j) && cascade(elem, stylesheet)[property]
                == stylesheet.rules[i].declarations[j].value,
{
    let rules = stylesheet.rules;
    let matched = rule_matches(elem, rules, rules.len());
    let indices = match_indices(elem, rules, rules.len());
    let n = matched.len();
    let sorted = cascade_order(matched, n);
    let positions = order(matched, n);
    lemma_match_indices(elem, rules, rules.len());
    lemma_cascade_order(matched, n);
    lemma_order(matched, n);
    lemma_applied(sorted, n, property);

    // Every declaration that sets the property stands in a sorted rule.
    assert forall|i: int, j: int| #[trigger] sets(elem, stylesheet, property, i, j) implies exists|
        k: int,
    |
        0 <= k < n && #[trigger] indices[positions[k]] == i && sorted[k].1.declarations[j].name
            == property by {
        let m = choose|m: int| 0 <= m < indices.len() && #[trigger] indices[m] == i;
        assert(occurs(positions, m));
        let k = choose|k: int| 0 <= k < positions.len() && #[trigger] positions[k] == m;
        assert(sorted[k] == matched[positions[k]]);
        assert(indices[positions[k]] == i);
    }

    match last_setting(sorted, n, property) {
        Some((k, j)) => {
            let i = indices[positions[k]];
            assert(sorted[k] == matched[positions[k]]);
            assert(rule_match(elem, rules[i]) == Some(sorted[k]));
            assert(sets(elem, stylesheet, property, i, j));
            assert forall|i2: int, j2: int| #[trigger]
                sets(elem, stylesheet, property, i2, j2) implies prevails(
                elem,
                stylesheet,
                i,
                j,
                i2,
                j2,
            ) by {
                let k2 = choose|k2: int|
                    0 <= k2 < n && #[trigger] indices[positions[k2]] == i2
                        && sorted[k2].1.declarations[j2].name == property;
                assert(sorted[k2] == matched[positions[k2]]);
                assert(rule_match(elem, rules[i2]) == Some(sorted[k2]));
                assert(sorted[k2].1.declarations[j2].name == property);
                assert(k2 < k || (k2 == k && j2 <= j));
                if k2 < k {
                    lemma_outranks_total(sorted[k].0, sorted[k2].0, sorted[k].0);
                    assert(!outranks(matched[positions[k2]].0, matched[positions[k]].0));
                    if sorted[k].0 == sorted[k2].0 {
                        assert(positions[k2] < positions[k]);
                        assert(indices[positions[k2]] < indices[positions[k]]);
                    }
                }
            }
            assert(wins(elem, stylesheet, property, i, j));
        },
        None => {
            assert forall|i: int, j: int| !#[trigger] sets(elem, stylesheet, property, i, j) by {
                if sets(elem, stylesheet, property, i, j) {
                    let k = choose|k: int|
                        0 <= k < n && #[trigger] indices[positions[k]] == i
                            && sorted[k].1.declarations[j].name == property;
                    assert(sorted[k] == matched[positions[k]]);
                    assert(rule_match(elem, rules[i]) == Some(sorted[k]));
                    assert(sorted[k].1.declarations[j].name == property);
                }
            }
        },
    }
}

/// The first match is a selector that matches, and none before it does.
proof fn lemma_first_match(elem: ElementDataView, selectors: Seq<SelectorView>, from: int)
    requires
        0 <= from,
    ensures
        match first_match(elem, selectors, from) {
            Some(k) => {
                &&& from <= k < selectors.len()
                &&& selector_matches(elem, selectors[k])
                &&& forall|m: int|
                    from <= m < k ==> !selector_matches(elem, #[trigger] selectors[m])
            },
            None => forall|m: int|
                from <= m < selectors.len() ==> !selector_matches(elem, #[trigger] selectors[m]),
        },
    decreases selectors.len() - from,
{
    if from < selectors.len() && !selector_matches(elem, selectors[from]) {
        lemma_first_match(elem, selectors, from + 1);
    }
}

/// A rule matches an element exactly where one of its selectors does. Where
/// its selectors fall in specificity, as those of a rule read from text do,
/// it matches with the highest specificity among the selectors that match.
pub proof fn lemma_rule_matches_through_its_best_selector(elem: ElementDataView, rule: RuleView)
    ensures
        rule_match(elem, rule).is_some() <==> exists|k: int|
            0 <= k < rule.selectors.len() && selector_matches(elem, #[trigger] rule.selectors[k]),
        falls(rule.selectors) && rule_match(elem, rule).is_some() ==> forall|k: int|
            0 <= k < rule.selectors.len() && selector_matches(elem, #[trigger] rule.selectors[k])
                ==> !outranks(rule.selectors[k].specificity(), rule_match(elem, rule).unwrap().0),
{
    lemma_first_match(elem, rule.selectors, 0);
    match first_match(elem, rule.selectors, 0) {
        Some(first) => {
            assert(selector_matches(elem, rule.selectors[first]));
            if falls(rule.selectors) {
                assert forall|k: int|
                    0 <= k < rule.selectors.len() && selector_matches(
                        elem,
                        #[trigger] rule.selectors[k],
                    ) implies !outranks(
                    rule.selectors[k].specificity(),
                    rule_match(elem, rule).unwrap().0,
                ) by {
                    if k > first {
                        assert(!outranks(
                            rule.selectors[k].specificity(),
                            rule.selectors[first].specificity(),
                        ));
                    }
                }
            }
        },
        None => {},
    }
}

} // verus!
