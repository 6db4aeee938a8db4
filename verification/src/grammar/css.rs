//! The grammar of stylesheets: what each part of a stylesheet's text stands
//! for, and where it ends.

use vstd::prelude::*;
use crate::css::{
    outranks, Color, DeclarationView, RuleView, SelectorView, SimpleSelectorView, StyleSheetView,
    Unit, ValueView,
};
use crate::scan::{is_whitespace, lemma_run_end, run_end, whitespace_end};

verus! {

/// Letters, digits, `-` and `_`.
pub open spec fn is_identifier_char(c: char) -> bool {
    ||| 'a' <= c <= 'z'
    ||| 'A' <= c <= 'Z'
    ||| '0' <= c <= '9'
    ||| c == '-'
    ||| c == '_'
}

/// The decimal digits.
pub open spec fn is_digit(c: char) -> bool {
    '0' <= c <= '9'
}

/// The hexadecimal digits, in either case.
pub open spec fn is_hex_digit(c: char) -> bool {
    ||| '0' <= c <= '9'
    ||| 'a' <= c <= 'f'
    ||| 'A' <= c <= 'F'
}

/// The number that a hexadecimal digit stands for.
pub open spec fn hex_value(c: char) -> int {
    if '0' <= c <= '9' {
        c as int - '0' as int
    } else if 'a' <= c <= 'f' {
        c as int - 'a' as int + 10
    } else {
        c as int - 'A' as int + 10
    }
}

/// The number that a run of decimal digits stands for.
pub open spec fn decimal(digits: Seq<char>) -> int
    decreases digits.len(),
{
    if digits.len() == 0 {
        0
    } else {
        decimal(digits.drop_last()) * 10 + (digits.last() as int - '0' as int)
    }
}

/// Where an identifier from `pos` on ends. It may be empty.
pub open spec fn identifier_end(input: Seq<char>, pos: int) -> int {
    run_end(input, pos, |c: char| is_identifier_char(c))
}

/// Where decimal digits from `pos` on end.
pub open spec fn digits_end(input: Seq<char>, pos: int) -> int {
    run_end(input, pos, |c: char| is_digit(c))
}

/// A simple selector without tag name, id or classes: it matches anything.
pub open spec fn universal_selector() -> SimpleSelectorView {
    SimpleSelectorView { tag_name: None, id: None, class: Seq::empty() }
}

/// The simple selector that starts at `pos`, added to what `so_far` holds,
/// and where it ends. `#` and an identifier give the id, `.` and an
/// identifier add a class, an identifier alone gives the tag name, and `*`
/// adds nothing; anything else ends the selector.
pub open spec fn simple_selector_at(input: Seq<char>, pos: int, so_far: SimpleSelectorView) -> (
    SimpleSelectorView,
    int,
)
    decreases input.len() - pos,
{
    if pos < 0 || pos >= input.len() {
        (so_far, pos)
    } else if input[pos] == '#' {
        let end = identifier_end(input, pos + 1);
        proof {
            lemma_run_end(input, pos + 1, |c: char| is_identifier_char(c));
        }
        simple_selector_at(
            input,
            end,
            SimpleSelectorView { id: Some(input.subrange(pos + 1, end)), ..so_far },
        )
    } else if input[pos] == '.' {
        let end = identifier_end(input, pos + 1);
        proof {
            lemma_run_end(input, pos + 1, |c: char| is_identifier_char(c));
        }
        simple_selector_at(
            input,
            end,
            SimpleSelectorView { class: so_far.class.push(input.subrange(pos + 1, end)), ..so_far },
        )
    } else if input[pos] == '*' {
        simple_selector_at(input, pos + 1, so_far)
    } else if is_identifier_char(input[pos]) {
        let end = identifier_end(input, pos);
        proof {
            lemma_run_end(input, pos, |c: char| is_identifier_char(c));
        }
        simple_selector_at(
            input,
            end,
            SimpleSelectorView { tag_name: Some(input.subrange(pos, end)), ..so_far },
        )
    } else {
        (so_far, pos)
    }
}

/// A simple selector ends at or after the place where it starts.
pub proof fn lemma_simple_selector_advances(
    input: Seq<char>,
    pos: int,
    so_far: SimpleSelectorView,
)
    requires
        0 <= pos <= input.len(),
    ensures
        pos <= simple_selector_at(input, pos, so_far).1 <= input.len(),
    decreases input.len() - pos,
{
    if pos < input.len() {
        lemma_run_end(input, pos + 1, |c: char| is_identifier_char(c));
        lemma_run_end(input, pos, |c: char| is_identifier_char(c));
        if input[pos] == '#' {
            let end = identifier_end(input, pos + 1);
            lemma_simple_selector_advances(
                input,
                end,
                SimpleSelectorView { id: Some(input.subrange(pos + 1, end)), ..so_far },
            );
        } else if input[pos] == '.' {
            let end = identifier_end(input, pos + 1);
            lemma_simple_selector_advances(
                input,
                end,
                SimpleSelectorView {
                    class: so_far.class.push(input.subrange(pos + 1, end)),
                    ..so_far
                },
            );
        } else if input[pos] == '*' {
            lemma_simple_selector_advances(input, pos + 1, so_far);
        } else if is_identifier_char(input[pos]) {
            let end = identifier_end(input, pos);
            lemma_simple_selector_advances(
                input,
                end,
                SimpleSelectorView { tag_name: Some(input.subrange(pos, end)), ..so_far },
            );
        }
    }
}

/// The selectors of a list that starts at `pos`, added to `so_far`, and the
/// place of the `{` that ends the list. Selectors are separated by `,`;
/// whitespace may stand around it and before the `{`.
pub open spec fn selectors_at(input: Seq<char>, pos: int, so_far: Seq<SelectorView>) -> Option<
    (Seq<SelectorView>, int),
>
    decreases input.len() - pos,
{
    if pos < 0 || pos > input.len() {
        None
    } else {
        let (selector, end) = simple_selector_at(input, pos, universal_selector());
        let next = whitespace_end(input, end);
        let found = so_far.push(SelectorView::Simple(selector));
        proof {
            lemma_simple_selector_advances(input, pos, universal_selector());
            lemma_run_end(input, end, |c: char| is_whitespace(c));
            if next < input.len() {
                lemma_run_end(input, next + 1, |c: char| is_whitespace(c));
            }
        }
        if next >= input.len() {
            None
        } else if input[next] == ',' {
            selectors_at(input, whitespace_end(input, next + 1), found)
        } else if input[next] == '{' {
            Some((found, next))
        } else {
            None
        }
    }
}

/// `sorted` with `selector` put before the selectors at its end that it
/// outranks.
pub open spec fn selector_inserted(sorted: Seq<SelectorView>, selector: SelectorView) -> Seq<
    SelectorView,
>
    decreases sorted.len(),
{
    if sorted.len() > 0 && outranks(selector.specificity(), sorted.last().specificity()) {
        selector_inserted(sorted.drop_last(), selector).push(sorted.last())
    } else {
        sorted.push(selector)
    }
}

/// The first `n` of `selectors` by falling specificity; selectors of the
/// same specificity keep their order.
pub open spec fn by_falling_specificity(selectors: Seq<SelectorView>, n: nat) -> Seq<
    SelectorView,
>
    decreases n,
{
    if n == 0 || n > selectors.len() {
        Seq::empty()
    } else {
        selector_inserted(by_falling_specificity(selectors, (n - 1) as nat), selectors[n - 1])
    }
}

/// No selector is outranked by one behind it.
pub open spec fn falls(selectors: Seq<SelectorView>) -> bool {
    forall|i: int, j: int|
        0 <= i < j < selectors.len() ==> !outranks(
            (#[trigger] selectors[j]).specificity(),
            (#[trigger] selectors[i]).specificity(),
        )
}

/// Whether `selector` is one of `selectors`.
pub open spec fn among(selectors: Seq<SelectorView>, selector: SelectorView) -> bool {
    exists|k: int| 0 <= k < selectors.len() && #[trigger] selectors[k] == selector
}

/// Putting a selector into a list keeps the selectors that were there and
/// adds the new one, and nothing else.
proof fn lemma_selector_inserted_holds(sorted: Seq<SelectorView>, selector: SelectorView)
    ensures
        selector_inserted(sorted, selector).len() == sorted.len() + 1,
        forall|k: int|
            0 <= k < selector_inserted(sorted, selector).len() ==> (#[trigger] selector_inserted(
                sorted,
                selector,
            )[k]) == selector || among(sorted, selector_inserted(sorted, selector)[k]),
    decreases sorted.len(),
{
    let after = selector_inserted(sorted, selector);
    if sorted.len() > 0 && outranks(selector.specificity(), sorted.last().specificity()) {
        let rest = sorted.drop_last();
        let inner = selector_inserted(rest, selector);
        lemma_selector_inserted_holds(rest, selector);
        assert forall|k: int| 0 <= k < after.len() implies (#[trigger] after[k]) == selector
            || among(sorted, after[k]) by {
            if k < inner.len() {
                assert(after[k] == inner[k]);
                if inner[k] != selector {
                    let k0 = choose|k0: int|
                        0 <= k0 < rest.len() && #[trigger] rest[k0] == inner[k];
                    assert(sorted[k0] == after[k]);
                }
            } else {
                assert(sorted[sorted.len() - 1] == after[k]);
            }
        }
    } else {
        assert forall|k: int| 0 <= k < after.len() implies (#[trigger] after[k]) == selector
            || among(sorted, after[k]) by {
            if k < sorted.len() {
                assert(sorted[k] == after[k]);
            }
        }
    }
}

/// Putting a selector into a falling list leaves a falling list.
proof fn lemma_selector_inserted_falls(sorted: Seq<SelectorView>, selector: SelectorView)
    requires
        falls(sorted),
    ensures
        falls(selector_inserted(sorted, selector)),
    decreases sorted.len(),
{
    let after = selector_inserted(sorted, selector);
    if sorted.len() > 0 && outranks(selector.specificity(), sorted.last().specificity()) {
        let rest = sorted.drop_last();
        let last = sorted.last();
        let inner = selector_inserted(rest, selector);
        assert forall|i: int, j: int| 0 <= i < j < rest.len() implies !outranks(
            (#[trigger] rest[j]).specificity(),
            (#[trigger] rest[i]).specificity(),
        ) by {
            assert(rest[i] == sorted[i] && rest[j] == sorted[j]);
        }
        lemma_selector_inserted_falls(rest, selector);
        lemma_selector_inserted_holds(rest, selector);
        assert forall|i: int, j: int| 0 <= i < j < after.len() implies !outranks(
            (#[trigger] after[j]).specificity(),
            (#[trigger] after[i]).specificity(),
        ) by {
            assert(after[i] == inner[i]);
            if j < inner.len() {
                assert(after[j] == inner[j]);
            } else {
                assert(after[j] == last);
                if inner[i] != selector {
                    let k0 = choose|k0: int|
                        0 <= k0 < rest.len() && #[trigger] rest[k0] == inner[i];
                    assert(sorted[k0] == inner[i]);
                    assert(sorted[sorted.len() - 1] == last);
                }
            }
        }
    } else {
        assert forall|i: int, j: int| 0 <= i < j < after.len() implies !outranks(
            (#[trigger] after[j]).specificity(),
            (#[trigger] after[i]).specificity(),
        ) by {
            assert(after[i] == sorted[i]);
            if j < sorted.len() {
                assert(after[j] == sorted[j]);
            } else {
                assert(after[j] == selector);
                if i < sorted.len() - 1 {
                    assert(!outranks(
                        sorted[sorted.len() - 1].specificity(),
                        sorted[i].specificity(),
                    ));
                }
            }
        }
    }
}

/// Selectors sorted by falling specificity fall.
pub proof fn lemma_sorted_selectors_fall(selectors: Seq<SelectorView>, n: nat)
    ensures
        falls(by_falling_specificity(selectors, n)),
    decreases n,
{
    if n > 0 && n <= selectors.len() {
        lemma_sorted_selectors_fall(selectors, (n - 1) as nat);
        lemma_selector_inserted_falls(
            by_falling_specificity(selectors, (n - 1) as nat),
            selectors[n - 1],
        );
    }
}

/// The selector list that starts at `pos`, most specific selector first,
/// and the place of the `{` behind it.
pub open spec fn selector_list_at(input: Seq<char>, pos: int) -> Option<(Seq<SelectorView>, int)> {
    match selectors_at(input, pos, Seq::empty()) {
        Some((selectors, end)) => Some((by_falling_specificity(selectors, selectors.len()), end)),
        None => None,
    }
}

/// The unit that starts at `pos`, and where it ends: `px`, in either case.
pub open spec fn unit_at(input: Seq<char>, pos: int) -> Option<(Unit, int)> {
    let end = identifier_end(input, pos);
    if 0 <= pos && end == pos + 2 && end <= input.len() && (input[pos] == 'p' || input[pos]
        == 'P') && (input[pos + 1] == 'x' || input[pos + 1] == 'X') {
        Some((Unit::Px, end))
    } else {
        None
    }
}

/// Whether a fraction written with the digits `fraction` is a half or more.
pub open spec fn is_half_or_more(fraction: Seq<char>) -> bool {
    fraction.len() > 0 && fraction[0] >= '5'
}

/// The number that starts at `pos`, in whole pixels, and where it ends.
///
/// A number is written with decimal digits, and may have a fraction behind
/// a `.`; either the digits before the `.` or those behind it may be left
/// out, but not both. A number with a fraction stands for the nearest whole
/// number, a half counting upwards. Two `.` in one run of digits make no
/// number.
pub open spec fn number_at(input: Seq<char>, pos: int) -> Option<(int, int)> {
    let whole_end = digits_end(input, pos);
    let whole = decimal(input.subrange(pos, whole_end));
    if 0 <= whole_end < input.len() && input[whole_end] == '.' {
        let end = digits_end(input, whole_end + 1);
        let fraction = input.subrange(whole_end + 1, end);
        if end < input.len() && input[end] == '.' {
            None
        } else if whole_end == pos && fraction.len() == 0 {
            None
        } else if is_half_or_more(fraction) {
            Some((whole + 1, end))
        } else {
            Some((whole, end))
        }
    } else if whole_end == pos {
        None
    } else {
        Some((whole, whole_end))
    }
}

/// A number ends inside the input, after the place where it starts.
pub proof fn lemma_number_advances(input: Seq<char>, pos: int)
    requires
        0 <= pos <= input.len(),
        number_at(input, pos).is_some(),
    ensures
        pos < number_at(input, pos).unwrap().1 <= input.len(),
{
    let whole_end = digits_end(input, pos);
    lemma_run_end(input, pos, |c: char| is_digit(c));
    if whole_end < input.len() {
        lemma_run_end(input, whole_end + 1, |c: char| is_digit(c));
    }
}

/// The length that starts at `pos`: a number and a unit. `None` where the
/// number is too large to store.
pub open spec fn length_at(input: Seq<char>, pos: int) -> Option<(ValueView, int)> {
    match number_at(input, pos) {
        Some((amount, end)) => if amount > i64::MAX {
            None
        } else {
            match unit_at(input, end) {
                Some((unit, after)) => Some((ValueView::Length(amount as i64, unit), after)),
                None => None,
            }
        },
        None => None,
    }
}

/// The byte that two hexadecimal digits at `pos` stand for.
pub open spec fn hex_pair_at(input: Seq<char>, pos: int) -> Option<(u8, int)> {
    if 0 <= pos && pos + 2 <= input.len() && is_hex_digit(input[pos]) && is_hex_digit(
        input[pos + 1],
    ) {
        Some(((hex_value(input[pos]) * 16 + hex_value(input[pos + 1])) as u8, pos + 2))
    } else {
        None
    }
}

/// The colour that starts with the `#` at `pos`: three pairs of hexadecimal
/// digits for red, green and blue. It is opaque.
pub open spec fn color_at(input: Seq<char>, pos: int) -> Option<(ValueView, int)> {
    match hex_pair_at(input, pos + 1) {
        Some((r, after_r)) => match hex_pair_at(input, after_r) {
            Some((g, after_g)) => match hex_pair_at(input, after_g) {
                Some((b, after_b)) => Some(
                    (ValueView::ColorValue(Color { r, g, b, a: 255 }), after_b),
                ),
                None => None,
            },
            None => None,
        },
        None => None,
    }
}

/// The value that starts at `pos`: a length where a digit stands there, a
/// colour where `#` does, else a keyword, which may be empty.
pub open spec fn value_at(input: Seq<char>, pos: int) -> Option<(ValueView, int)> {
    if pos < 0 || pos >= input.len() {
        None
    } else if is_digit(input[pos]) {
        length_at(input, pos)
    } else if input[pos] == '#' {
        color_at(input, pos)
    } else {
        let end = identifier_end(input, pos);
        Some((ValueView::Keyword(input.subrange(pos, end)), end))
    }
}

/// The declaration that starts at `pos`: a name, `:`, a value and `;`, with
/// whitespace allowed around the `:` and before the `;`.
pub open spec fn declaration_at(input: Seq<char>, pos: int) -> Option<(DeclarationView, int)> {
    let name_end = identifier_end(input, pos);
    let colon = whitespace_end(input, name_end);
    if 0 <= colon < input.len() && input[colon] == ':' {
        match value_at(input, whitespace_end(input, colon + 1)) {
            Some((value, value_end)) => {
                let semicolon = whitespace_end(input, value_end);
                if 0 <= semicolon < input.len() && input[semicolon] == ';' {
                    Some(
                        (
                            DeclarationView { name: input.subrange(pos, name_end), value },
                            semicolon + 1,
                        ),
                    )
                } else {
                    None
                }
            },
            None => None,
        }
    } else {
        None
    }
}

/// A value ends inside the input, at or after the place where it starts.
pub proof fn lemma_value_advances(input: Seq<char>, pos: int)
    requires
        0 <= pos <= input.len(),
        value_at(input, pos).is_some(),
    ensures
        pos <= value_at(input, pos).unwrap().1 <= input.len(),
{
    lemma_run_end(input, pos, |c: char| is_identifier_char(c));
    if is_digit(input[pos]) {
        lemma_number_advances(input, pos);
        lemma_run_end(input, number_at(input, pos).unwrap().1, |c: char| is_identifier_char(c));
    }
}

/// A declaration ends inside the input, after the place where it starts.
pub proof fn lemma_declaration_advances(input: Seq<char>, pos: int)
    requires
        0 <= pos <= input.len(),
        declaration_at(input, pos).is_some(),
    ensures
        pos < declaration_at(input, pos).unwrap().1 <= input.len(),
{
    let name_end = identifier_end(input, pos);
    lemma_run_end(input, pos, |c: char| is_identifier_char(c));
    let colon = whitespace_end(input, name_end);
    lemma_run_end(input, name_end, |c: char| is_whitespace(c));
    let value_start = whitespace_end(input, colon + 1);
    lemma_run_end(input, colon + 1, |c: char| is_whitespace(c));
    lemma_value_advances(input, value_start);
    let value_end = value_at(input, value_start).unwrap().1;
    lemma_run_end(input, value_end, |c: char| is_whitespace(c));
}

/// The declarations from `pos` up to the `}` that ends their block, added
/// to `so_far`, and the place behind the `}`.
pub open spec fn declarations_at(
    input: Seq<char>,
    pos: int,
    so_far: Seq<DeclarationView>,
) -> Option<(Seq<DeclarationView>, int)>
    decreases input.len() - pos,
{
    let start = whitespace_end(input, pos);
    if pos < 0 || pos > input.len() || start >= input.len() {
        None
    } else if input[start] == '}' {
        Some((so_far, start + 1))
    } else {
        match declaration_at(input, start) {
            Some((declaration, after)) => {
                proof {
                    lemma_run_end(input, pos, |c: char| is_whitespace(c));
                    lemma_declaration_advances(input, start);
                }
                declarations_at(input, after, so_far.push(declaration))
            },
            None => None,
        }
    }
}

/// The block of declarations that starts with the `{` at `pos`.
pub open spec fn declaration_block_at(input: Seq<char>, pos: int) -> Option<
    (Seq<DeclarationView>, int),
> {
    if 0 <= pos < input.len() && input[pos] == '{' {
        declarations_at(input, pos + 1, Seq::empty())
    } else {
        None
    }
}

/// A block of declarations ends inside the input, after the place where it
/// starts.
pub proof fn lemma_declarations_advance(input: Seq<char>, pos: int, so_far: Seq<DeclarationView>)
    requires
        0 <= pos <= input.len(),
        declarations_at(input, pos, so_far).is_some(),
    ensures
        pos < declarations_at(input, pos, so_far).unwrap().1 <= input.len(),
    decreases input.len() - pos,
{
    let start = whitespace_end(input, pos);
    lemma_run_end(input, pos, |c: char| is_whitespace(c));
    if input[start] != '}' {
        lemma_declaration_advances(input, start);
        let (declaration, after) = declaration_at(input, start).unwrap();
        lemma_declarations_advance(input, after, so_far.push(declaration));
    }
}

/// A selector list ends inside the input.
pub proof fn lemma_selectors_advance(input: Seq<char>, pos: int, so_far: Seq<SelectorView>)
    requires
        0 <= pos <= input.len(),
        selectors_at(input, pos, so_far).is_some(),
    ensures
        pos <= selectors_at(input, pos, so_far).unwrap().1 < input.len(),
    decreases input.len() - pos,
{
    let (selector, end) = simple_selector_at(input, pos, universal_selector());
    lemma_simple_selector_advances(input, pos, universal_selector());
    let next = whitespace_end(input, end);
    lemma_run_end(input, end, |c: char| is_whitespace(c));
    if input[next] == ',' {
        lemma_run_end(input, next + 1, |c: char| is_whitespace(c));
        lemma_selectors_advance(
            input,
            whitespace_end(input, next + 1),
            so_far.push(SelectorView::Simple(selector)),
        );
    }
}

/// The rule that starts at `pos`: a selector list and a block of
/// declarations.
pub open spec fn rule_at(input: Seq<char>, pos: int) -> Option<(RuleView, int)> {
    match selector_list_at(input, pos) {
        Some((selectors, brace)) => match declaration_block_at(input, brace) {
            Some((declarations, end)) => Some((RuleView { selectors, declarations }, end)),
            None => None,
        },
        None => None,
    }
}

/// The selectors of a rule read from text fall in specificity.
pub proof fn lemma_rule_selectors_fall(input: Seq<char>, pos: int)
    requires
        rule_at(input, pos).is_some(),
    ensures
        falls(rule_at(input, pos).unwrap().0.selectors),
{
    let selectors = selectors_at(input, pos, Seq::empty()).unwrap().0;
    lemma_sorted_selectors_fall(selectors, selectors.len());
}

/// A rule ends inside the input, after the place where it starts.
pub proof fn lemma_rule_advances(input: Seq<char>, pos: int)
    requires
        0 <= pos <= input.len(),
        rule_at(input, pos).is_some(),
    ensures
        pos < rule_at(input, pos).unwrap().1 <= input.len(),
{
    lemma_selectors_advance(input, pos, Seq::empty());
    let brace = selectors_at(input, pos, Seq::empty()).unwrap().1;
    lemma_declarations_advance(input, brace + 1, Seq::empty());
}

/// The rules from `pos` to the end of the input, added to `so_far`.
/// Whitespace may stand before, between and behind them.
pub open spec fn rules_at(input: Seq<char>, pos: int, so_far: Seq<RuleView>) -> Option<
    Seq<RuleView>,
>
    decreases input.len() - pos,
{
    let start = whitespace_end(input, pos);
    if pos < 0 || pos > input.len() {
        None
    } else if start >= input.len() {
        Some(so_far)
    } else {
        match rule_at(input, start) {
            Some((rule, after)) => {
                proof {
                    lemma_run_end(input, pos, |c: char| is_whitespace(c));
                    lemma_rule_advances(input, start);
                }
                rules_at(input, after, so_far.push(rule))
            },
            None => None,
        }
    }
}

/// The stylesheet that a text holds, if it is one.
pub open spec fn stylesheet_of(source: Seq<char>) -> Option<StyleSheetView> {
    match rules_at(source, 0, Seq::empty()) {
        Some(rules) => Some(StyleSheetView { rules }),
        None => None,
    }
}

} // verus!
