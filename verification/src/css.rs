//! Style rules: selectors, declarations and the values they carry.

use vstd::prelude::*;
use vstd::std_specs::cmp::PartialEqSpecImpl;
use crate::grammar::css::{
    by_falling_specificity, color_at, decimal, declaration_at, declaration_block_at,
    declarations_at, hex_pair_at, hex_value, identifier_end, is_digit, is_hex_digit,
    is_identifier_char, lemma_declaration_advances, lemma_rule_advances,
    lemma_simple_selector_advances, length_at, number_at, rule_at, rules_at, selector_inserted,
    selector_list_at, selectors_at, simple_selector_at, stylesheet_of, unit_at,
    universal_selector, value_at,
};
use crate::scan::{
    chars_of, is_whitespace, lemma_run_end, lemma_run_ends_at, stands_here, whitespace,
    whitespace_end,
};

verus! {

/// An ordered list of rules; later rules win ties in the cascade.
#[derive(Debug)]
pub struct StyleSheet {
    pub rules: Vec<Rule>,
}

/// One or more selectors sharing a block of declarations.
#[derive(Debug)]
pub struct Rule {
    pub selectors: Vec<Selector>,
    pub declarations: Vec<Declaration>,
}

/// What a rule applies to. Simple selectors are the only kind.
#[derive(Debug)]
pub enum Selector {
    Simple(SimpleSelector),
}

/// A tag name, an id and any number of class names, each optional.
#[derive(Debug)]
pub struct SimpleSelector {
    pub tag_name: Option<String>,
    pub id: Option<String>,
    pub class: Vec<String>,
}

/// A `name: value;` pair.
#[derive(Debug)]
pub struct Declaration {
    pub name: String,
    pub value: Value,
}

/// A declared value. Lengths are whole pixels.
#[derive(Debug)]
pub enum Value {
    Keyword(String),
    Length(i64, Unit),
    ColorValue(Color),
}

/// The unit of a length. Pixels are the only one.
#[derive(Debug, Clone, Copy, PartialEq, Eq, Structural)]
pub enum Unit {
    Px,
}

/// A colour by its red, green, blue and alpha channels.
#[derive(Debug, Clone, Copy, PartialEq, Eq, Structural)]
pub struct Color {
    pub r: u8,
    pub g: u8,
    pub b: u8,
    pub a: u8,
}

/// A cursor over the characters of a stylesheet.
pub struct Parser {
    pub pos: usize,
    pub input: Vec<char>,
}

/// Id count, class count, tag count; compared left to right.
pub type Specificity = (usize, usize, usize);

impl Clone for Value {
    fn clone(&self) -> (r: Self)
        ensures
            r == *self,
    {
        match self {
            Value::Keyword(s) => Value::Keyword(s.clone()),
            Value::Length(n, u) => Value::Length(*n, *u),
            Value::ColorValue(c) => Value::ColorValue(*c),
        }
    }
}

impl PartialEq for Value {
    fn eq(&self, other: &Value) -> (r: bool) {
        match (self, other) {
            (Value::Keyword(a), Value::Keyword(b)) => *a == *b,
            (Value::Length(n, u), Value::Length(m, v)) => *n == *m && *u == *v,
            (Value::ColorValue(c), Value::ColorValue(d)) => *c == *d,
            _ => false,
        }
    }
}

impl PartialEqSpecImpl for Value {
    open spec fn obeys_eq_spec() -> bool {
        true
    }

    open spec fn eq_spec(&self, other: &Value) -> bool {
        self@ == other@
    }
}

impl ValueView {
    /// The keyword `auto`.
    pub open spec fn is_auto(self) -> bool {
        self == ValueView::Keyword("auto"@)
    }

    /// The pixel amount of a length; every other value counts as zero.
    pub open spec fn px(self) -> i64 {
        match self {
            ValueView::Length(n, Unit::Px) => n,
            _ => 0,
        }
    }
}

impl Value {
    /// The pixel amount of a length; every other value counts as zero.
    pub fn to_px(&self) -> (r: i64)
        ensures
            r == self@.px(),
    {
        match self {
            Value::Length(n, Unit::Px) => *n,
            _ => 0,
        }
    }
}

impl Selector {
    /// How specific the selector is: one for an id, the number of its
    /// classes, and one for a tag name.
    pub fn specificity(&self) -> (r: Specificity)
        ensures
            r == self@.specificity(),
    {
        match self {
            Selector::Simple(simple) => {
                let a: usize = if simple.id.is_some() { 1 } else { 0 };
                let b: usize = simple.class.len();
                let c: usize = if simple.tag_name.is_some() { 1 } else { 0 };
                (a, b, c)
            },
        }
    }
}

/// `a` ranks strictly above `b`: more ids, or as many ids and more classes,
/// or as many of both and more tags.
pub open spec fn outranks(a: Specificity, b: Specificity) -> bool {
    a.0 > b.0 || (a.0 == b.0 && (a.1 > b.1 || (a.1 == b.1 && a.2 > b.2)))
}

/// Whether `a` ranks strictly above `b`.
pub fn ranks_above(a: Specificity, b: Specificity) -> (r: bool)
    ensures
        r == outranks(a, b),
{
    a.0 > b.0 || (a.0 == b.0 && (a.1 > b.1 || (a.1 == b.1 && a.2 > b.2)))
}

/// A selector with an id outranks every selector without one, whatever
/// their classes and tags. With the same id count, the one with more
/// classes outranks; with the same classes too, the one with a tag
/// outranks the one without.
pub proof fn lemma_specificity_order(s1: SelectorView, s2: SelectorView)
    ensures
        s1.specificity().0 > s2.specificity().0 ==> outranks(s1.specificity(), s2.specificity()),
        s1.specificity().0 == s2.specificity().0 && s1.specificity().1 > s2.specificity().1
            ==> outranks(s1.specificity(), s2.specificity()),
        s1.specificity().0 == s2.specificity().0 && s1.specificity().1 == s2.specificity().1 ==> (
        outranks(s1.specificity(), s2.specificity()) <==> s1.specificity().2
            > s2.specificity().2),
        s1.specificity().0 <= 1,
        s1.specificity().2 <= 1,
{
}

/// Ranking is a strict total order on specificities.
pub proof fn lemma_outranks_total(a: Specificity, b: Specificity, c: Specificity)
    ensures
        !outranks(a, a),
        outranks(a, b) && outranks(b, c) ==> outranks(a, c),
        a == b || outranks(a, b) || outranks(b, a),
        !(outranks(a, b) && outranks(b, a)),
{
}

/// A simple selector as plain text.
pub struct SimpleSelectorView {
    pub tag_name: Option<Seq<char>>,
    pub id: Option<Seq<char>>,
    pub class: Seq<Seq<char>>,
}

/// A selector as plain text.
pub enum SelectorView {
    Simple(SimpleSelectorView),
}

/// A value as plain text.
pub enum ValueView {
    Keyword(Seq<char>),
    Length(i64, Unit),
    ColorValue(Color),
}

/// A declaration as plain text.
pub struct DeclarationView {
    pub name: Seq<char>,
    pub value: ValueView,
}

/// A rule as plain text.
pub struct RuleView {
    pub selectors: Seq<SelectorView>,
    pub declarations: Seq<DeclarationView>,
}

/// A stylesheet as plain text.
pub struct StyleSheetView {
    pub rules: Seq<RuleView>,
}

/// The value as plain text, if there is one.
pub open spec fn value_view(v: Option<Value>) -> Option<ValueView> {
    match v {
        Some(v) => Some(v@),
        None => None,
    }
}

/// The characters of a string, if there is one.
pub open spec fn text_of(s: Option<String>) -> Option<Seq<char>> {
    match s {
        Some(s) => Some(s@),
        None => None,
    }
}

impl View for SimpleSelector {
    type V = SimpleSelectorView;

    open spec fn view(&self) -> SimpleSelectorView {
        SimpleSelectorView {
            tag_name: text_of(self.tag_name),
            id: text_of(self.id),
            class: self.class@.map_values(|s: String| s@),
        }
    }
}

impl View for Selector {
    type V = SelectorView;

    open spec fn view(&self) -> SelectorView {
        match self {
            Selector::Simple(simple) => SelectorView::Simple(simple@),
        }
    }
}

impl View for Value {
    type V = ValueView;

    open spec fn view(&self) -> ValueView {
        match self {
            Value::Keyword(s) => ValueView::Keyword(s@),
            Value::Length(n, unit) => ValueView::Length(*n, *unit),
            Value::ColorValue(color) => ValueView::ColorValue(*color),
        }
    }
}

impl View for Declaration {
    type V = DeclarationView;

    open spec fn view(&self) -> DeclarationView {
        DeclarationView { name: self.name@, value: self.value@ }
    }
}

/// The views of selectors, one for one.
pub open spec fn selector_views(selectors: Seq<Selector>) -> Seq<SelectorView> {
    selectors.map_values(|s: Selector| s@)
}

/// The views of declarations, one for one.
pub open spec fn declaration_views(declarations: Seq<Declaration>) -> Seq<DeclarationView> {
    declarations.map_values(|d: Declaration| d@)
}

impl View for Rule {
    type V = RuleView;

    open spec fn view(&self) -> RuleView {
        RuleView {
            selectors: selector_views(self.selectors@),
            declarations: declaration_views(self.declarations@),
        }
    }
}

/// The views of rules, one for one.
pub open spec fn rule_views(rules: Seq<Rule>) -> Seq<RuleView> {
    rules.map_values(|r: Rule| r@)
}

impl View for StyleSheet {
    type V = StyleSheetView;

    open spec fn view(&self) -> StyleSheetView {
        StyleSheetView { rules: rule_views(self.rules@) }
    }
}

impl SelectorView {
    /// Id count, class count and tag count of the selector.
    pub open spec fn specificity(self) -> Specificity {
        match self {
            SelectorView::Simple(simple) => (
                if simple.id is Some { 1usize } else { 0usize },
                simple.class.len() as usize,
                if simple.tag_name is Some { 1usize } else { 0usize },
            ),
        }
    }
}

/// Whether `c` may stand in an identifier: a letter, a digit, `-` or `_`.
pub fn valid_identifier_char(c: char) -> (r: bool)
    ensures
        r == is_identifier_char(c),
{
    ('a' <= c && c <= 'z') || ('A' <= c && c <= 'Z') || ('0' <= c && c <= '9') || c == '-' || c
        == '_'
}

impl Parser {
    /// The cursor stands inside the input or at its end.
    pub open spec fn well_formed(&self) -> bool {
        self.pos <= self.input@.len()
    }

    /// The character at the cursor.
    fn next_char(&self) -> (c: char)
        requires
            self.pos < self.input@.len(),
        ensures
            c == self.input@[self.pos as int],
    {
        self.input[self.pos]
    }

    /// Whether the cursor stands at the end of the input.
    fn eof(&self) -> (r: bool)
        ensures
            r == (self.pos >= self.input@.len()),
    {
        self.pos >= self.input.len()
    }

    /// Moves the cursor over one character, and returns it.
    fn consume_char(&mut self) -> (c: char)
        requires
            old(self).pos < old(self).input.len(),
        ensures
            c == old(self).input@[old(self).pos as int],
            final(self).pos == old(self).pos + 1,
            final(self).input == old(self).input,
    {
        let c = self.input[self.pos];
        self.pos += 1;
        c
    }

    /// Consumes characters for as long as `test` admits them, and returns
    /// them.
    fn consume_while<F: Fn(char) -> bool>(&mut self, test: F) -> (r: String)
        requires
            old(self).well_formed(),
            forall|c: char| call_requires(test, (c,)),
        ensures
            final(self).input == old(self).input,
            old(self).pos <= final(self).pos <= old(self).input@.len(),
            r@ == old(self).input@.subrange(old(self).pos as int, final(self).pos as int),
            forall|k: int|
                old(self).pos <= k < final(self).pos ==> call_ensures(
                    test,
                    (#[trigger] old(self).input@[k],),
                    true,
                ),
            final(self).pos < old(self).input@.len() ==> call_ensures(
                test,
                (old(self).input@[final(self).pos as int],),
                false,
            ),
    {
        let mut result = String::new();
        while !self.eof() && test(self.next_char())
            invariant
                self.input == old(self).input,
                old(self).pos <= self.pos <= self.input@.len(),
                forall|c: char| call_requires(test, (c,)),
                result@ == self.input@.subrange(old(self).pos as int, self.pos as int),
                forall|k: int|
                    old(self).pos <= k < self.pos ==> call_ensures(
                        test,
                        (#[trigger] self.input@[k],),
                        true,
                    ),
            decreases self.input@.len() - self.pos,
        {
            result.push(self.consume_char());
            assert(result@ =~= self.input@.subrange(old(self).pos as int, self.pos as int));
        }
        result
    }

    /// Moves the cursor over whitespace.
    fn consume_whitespace(&mut self)
        requires
            old(self).well_formed(),
        ensures
            final(self).input == old(self).input,
            final(self).pos == whitespace_end(old(self).input@, old(self).pos as int),
            old(self).pos <= final(self).pos,
            final(self).well_formed(),
    {
        self.consume_while(whitespace);
        proof {
            lemma_run_ends_at(
                self.input@,
                old(self).pos as int,
                |c: char| is_whitespace(c),
                self.pos as int,
            );
        }
    }

    /// Parses an identifier. It may be empty.
    fn parse_identifier(&mut self) -> (r: String)
        requires
            old(self).well_formed(),
        ensures
            final(self).input == old(self).input,
            final(self).pos == identifier_end(old(self).input@, old(self).pos as int),
            old(self).pos <= final(self).pos,
            final(self).well_formed(),
            r@ == old(self).input@.subrange(old(self).pos as int, final(self).pos as int),
    {
        let r = self.consume_while(valid_identifier_char);
        proof {
            lemma_run_ends_at(
                self.input@,
                old(self).pos as int,
                |c: char| is_identifier_char(c),
                self.pos as int,
            );
        }
        r
    }
}

/// Putting `selector` at `at` is putting it before the selectors at the
/// end that it outranks, where it outranks every selector from `at` on and
/// not the one before `at`.
proof fn lemma_selector_inserted_at(sorted: Seq<SelectorView>, selector: SelectorView, at: int)
    requires
        0 <= at <= sorted.len(),
        forall|k: int|
            at <= k < sorted.len() ==> outranks(
                selector.specificity(),
                (#[trigger] sorted[k]).specificity(),
            ),
        at > 0 ==> !outranks(selector.specificity(), sorted[at - 1].specificity()),
    ensures
        selector_inserted(sorted, selector) == sorted.insert(at, selector),
    decreases sorted.len() - at,
{
    if at == sorted.len() {
        assert(sorted.insert(at, selector) =~= sorted.push(selector));
    } else {
        lemma_selector_inserted_at(sorted.drop_last(), selector, at);
        assert(sorted.insert(at, selector) =~= sorted.drop_last().insert(at, selector).push(
            sorted.last(),
        ));
    }
}

/// Sorts selectors by falling specificity, keeping the order of selectors
/// of the same specificity.
fn sort_selectors(selectors: Vec<Selector>) -> (r: Vec<Selector>)
    ensures
        selector_views(r@) == by_falling_specificity(
            selector_views(selectors@),
            selectors@.len() as nat,
        ),
{
    let ghost given = selector_views(selectors@);
    let count: usize = selectors.len();
    let mut rest = selectors;
    let mut sorted: Vec<Selector> = Vec::new();
    let mut i: usize = 0;
    while rest.len() > 0
        invariant
            count == given.len(),
            i + rest@.len() == given.len(),
            selector_views(rest@) == given.subrange(i as int, given.len() as int),
            selector_views(sorted@) == by_falling_specificity(given, i as nat),
            sorted@.len() == i,
        decreases rest@.len(),
    {
        let ghost rest_before = rest@;
        let selector = rest.remove(0);
        assert(selector@ == given[i as int]) by {
            assert(selector_views(rest_before)[0] == selector@);
        }
        let rank = selector.specificity();
        let mut at: usize = sorted.len();
        while at > 0 && ranks_above(rank, sorted[at - 1].specificity())
            invariant
                at <= sorted@.len(),
                rank == selector@.specificity(),
                forall|k: int|
                    at <= k < sorted@.len() ==> outranks(
                        rank,
                        (#[trigger] selector_views(sorted@)[k]).specificity(),
                    ),
            decreases at,
        {
            at -= 1;
        }
        proof {
            lemma_selector_inserted_at(selector_views(sorted@), selector@, at as int);
        }
        let ghost sorted_before = sorted@;
        sorted.insert(at, selector);
        assert(selector_views(sorted@) =~= selector_views(sorted_before).insert(
            at as int,
            selector@,
        ));
        assert(selector_views(rest@) =~= given.subrange(i + 1, given.len() as int)) by {
            assert forall|k: int| 0 <= k < rest@.len() implies selector_views(rest@)[k]
                == given.subrange(i + 1, given.len() as int)[k] by {
                assert(selector_views(rest_before)[k + 1] == rest_before[k + 1]@);
            }
        }
        i += 1;
    }
    sorted
}

impl Parser {
    /// Parses a simple selector such as `div#main.note`.
    fn parse_simple_selector(&mut self) -> (r: SimpleSelector)
        requires
            old(self).well_formed(),
        ensures
            final(self).input == old(self).input,
            final(self).well_formed(),
            (r@, final(self).pos as int) == simple_selector_at(
                old(self).input@,
                old(self).pos as int,
                universal_selector(),
            ),
    {
        let mut selector = SimpleSelector { tag_name: None, id: None, class: Vec::new() };
        assert(selector@.class =~= Seq::empty());
        while !self.eof()
            invariant
                self.input == old(self).input,
                self.well_formed(),
                simple_selector_at(old(self).input@, old(self).pos as int, universal_selector())
                    == simple_selector_at(self.input@, self.pos as int, selector@),
            ensures
                self.input == old(self).input,
                self.well_formed(),
                (selector@, self.pos as int) == simple_selector_at(
                    old(self).input@,
                    old(self).pos as int,
                    universal_selector(),
                ),
            decreases self.input@.len() - self.pos,
        {
            let c = self.next_char();
            let ghost before = selector@;
            proof {
                lemma_run_end(self.input@, self.pos as int, |c: char| is_identifier_char(c));
                lemma_run_end(self.input@, self.pos + 1, |c: char| is_identifier_char(c));
            }
            if c == '#' {
                self.consume_char();
                selector.id = Some(self.parse_identifier());
            } else if c == '.' {
                self.consume_char();
                selector.class.push(self.parse_identifier());
                assert(selector@.class =~= before.class.push(selector.class@.last()@));
            } else if c == '*' {
                self.consume_char();
            } else if valid_identifier_char(c) {
                selector.tag_name = Some(self.parse_identifier());
            } else {
                break;
            }
        }
        selector
    }

    /// Parses a list of selectors up to the `{` behind it, and sorts them,
    /// most specific first.
    fn parse_selectors(&mut self) -> (r: Option<Vec<Selector>>)
        requires
            old(self).well_formed(),
        ensures
            final(self).input == old(self).input,
            final(self).well_formed(),
            match r {
                Some(selectors) => selector_list_at(old(self).input@, old(self).pos as int)
                    == Some((selector_views(selectors@), final(self).pos as int)),
                None => selector_list_at(old(self).input@, old(self).pos as int).is_none(),
            },
    {
        let mut selectors: Vec<Selector> = Vec::new();
        assert(selector_views(selectors@) =~= Seq::empty());
        loop
            invariant_except_break
                selectors_at(old(self).input@, old(self).pos as int, Seq::empty()) == selectors_at(
                    self.input@,
                    self.pos as int,
                    selector_views(selectors@),
                ),
            invariant
                self.input == old(self).input,
                self.well_formed(),
            ensures
                self.input == old(self).input,
                self.well_formed(),
                selectors_at(old(self).input@, old(self).pos as int, Seq::empty()) == Some(
                    (selector_views(selectors@), self.pos as int),
                ),
            decreases self.input@.len() - self.pos,
        {
            let ghost start = self.pos as int;
            let ghost before = selector_views(selectors@);
            selectors.push(Selector::Simple(self.parse_simple_selector()));
            assert(selector_views(selectors@) =~= before.push(selectors@.last()@));
            proof {
                lemma_simple_selector_advances(self.input@, start, universal_selector());
            }
            self.consume_whitespace();
            if self.eof() {
                return None;
            }
            proof {
                lemma_run_end(self.input@, self.pos + 1, |c: char| is_whitespace(c));
            }
            let c = self.next_char();
            if c == ',' {
                self.consume_char();
                self.consume_whitespace();
            } else if c == '{' {
                break;
            } else {
                return None;
            }
        }
        Some(sort_selectors(selectors))
    }
}

/// Whether `c` is a decimal digit.
fn digit(c: char) -> (r: bool)
    ensures
        r == is_digit(c),
{
    '0' <= c && c <= '9'
}

/// The number that a hexadecimal digit stands for.
fn hex_digit(c: char) -> (r: Option<u8>)
    ensures
        match r {
            Some(n) => is_hex_digit(c) && n == hex_value(c),
            None => !is_hex_digit(c),
        },
{
    if '0' <= c && c <= '9' {
        Some((c as u32 - '0' as u32) as u8)
    } else if 'a' <= c && c <= 'f' {
        Some((c as u32 - 'a' as u32 + 10) as u8)
    } else if 'A' <= c && c <= 'F' {
        Some((c as u32 - 'A' as u32 + 10) as u8)
    } else {
        None
    }
}

/// The number that a run of digits stands for is not negative, and grows
/// with every digit added.
proof fn lemma_decimal_grows(digits: Seq<char>, n: int)
    requires
        0 <= n <= digits.len(),
        forall|k: int| 0 <= k < digits.len() ==> is_digit(#[trigger] digits[k]),
    ensures
        0 <= decimal(digits.take(n)) <= decimal(digits),
    decreases digits.len() - n,
{
    lemma_decimal_is_natural(digits.take(n));
    if n < digits.len() {
        lemma_decimal_grows(digits, n + 1);
        assert(digits.take(n + 1).drop_last() =~= digits.take(n));
    } else {
        assert(digits.take(n) =~= digits);
    }
}

/// The number that a run of digits stands for is not negative.
proof fn lemma_decimal_is_natural(digits: Seq<char>)
    requires
        forall|k: int| 0 <= k < digits.len() ==> is_digit(#[trigger] digits[k]),
    ensures
        0 <= decimal(digits),
    decreases digits.len(),
{
    if digits.len() > 0 {
        lemma_decimal_is_natural(digits.drop_last());
    }
}

impl Parser {
    /// The number that the digits from `start` up to `end` stand for.
    /// `None` where it is too large to store.
    fn decimal_between(&self, start: usize, end: usize) -> (r: Option<i64>)
        requires
            start <= end <= self.input@.len(),
            forall|k: int| start <= k < end ==> is_digit(#[trigger] self.input@[k]),
        ensures
            match r {
                Some(n) => n == decimal(self.input@.subrange(start as int, end as int)),
                None => decimal(self.input@.subrange(start as int, end as int)) > i64::MAX,
            },
    {
        let ghost digits = self.input@.subrange(start as int, end as int);
        let mut amount: i64 = 0;
        let mut i: usize = start;
        while i < end
            invariant
                start <= i <= end <= self.input@.len(),
                digits == self.input@.subrange(start as int, end as int),
                forall|k: int| 0 <= k < digits.len() ==> is_digit(#[trigger] digits[k]),
                amount == decimal(digits.take(i - start)),
                0 <= amount,
            decreases end - i,
        {
            let c = self.input[i];
            assert(c == digits[i - start]);
            let d: i64 = (c as u32 - '0' as u32) as i64;
            proof {
                assert(digits.take(i - start + 1).drop_last() =~= digits.take(i - start));
                lemma_decimal_grows(digits, i - start + 1);
            }
            if amount > (i64::MAX - d) / 10 {
                return None;
            }
            amount = amount * 10 + d;
            i += 1;
        }
        assert(digits.take(end - start) =~= digits);
        Some(amount)
    }

    /// Parses a number, with or without a fraction, to the nearest whole
    /// number. `None` where there is no number, or one too large to store.
    fn parse_number(&mut self) -> (r: Option<i64>)
        requires
            old(self).well_formed(),
        ensures
            final(self).input == old(self).input,
            final(self).well_formed(),
            match r {
                Some(n) => number_at(old(self).input@, old(self).pos as int) == Some(
                    (n as int, final(self).pos as int),
                ),
                None => match number_at(old(self).input@, old(self).pos as int) {
                    Some((amount, _)) => amount > i64::MAX,
                    None => true,
                },
            },
    {
        let start: usize = self.pos;
        self.consume_while(digit);
        let whole_end: usize = self.pos;
        proof {
            lemma_run_ends_at(self.input@, start as int, |c: char| is_digit(c), self.pos as int);
        }
        let mut half_or_more = false;
        if !self.eof() && self.next_char() == '.' {
            self.consume_char();
            let fraction_start: usize = self.pos;
            self.consume_while(digit);
            proof {
                lemma_run_ends_at(
                    self.input@,
                    fraction_start as int,
                    |c: char| is_digit(c),
                    self.pos as int,
                );
            }
            if !self.eof() && self.next_char() == '.' {
                return None;
            }
            if whole_end == start && self.pos == fraction_start {
                return None;
            }
            half_or_more = self.pos > fraction_start && self.input[fraction_start] >= '5';
        } else if whole_end == start {
            return None;
        }
        let whole = self.decimal_between(start, whole_end)?;
        if half_or_more {
            if whole == i64::MAX {
                return None;
            }
            Some(whole + 1)
        } else {
            Some(whole)
        }
    }

    /// Parses the unit of a length.
    fn parse_unit(&mut self) -> (r: Option<Unit>)
        requires
            old(self).well_formed(),
        ensures
            final(self).input == old(self).input,
            final(self).well_formed(),
            match r {
                Some(unit) => unit_at(old(self).input@, old(self).pos as int) == Some(
                    (unit, final(self).pos as int),
                ),
                None => unit_at(old(self).input@, old(self).pos as int).is_none(),
            },
    {
        let start: usize = self.pos;
        self.parse_identifier();
        if self.pos - start == 2 {
            let p = self.input[start];
            let x = self.input[start + 1];
            if (p == 'p' || p == 'P') && (x == 'x' || x == 'X') {
                return Some(Unit::Px);
            }
        }
        None
    }

    /// Parses two hexadecimal digits.
    fn parse_hex_pair(&mut self) -> (r: Option<u8>)
        requires
            old(self).well_formed(),
        ensures
            final(self).input == old(self).input,
            final(self).well_formed(),
            match r {
                Some(n) => hex_pair_at(old(self).input@, old(self).pos as int) == Some(
                    (n, final(self).pos as int),
                ),
                None => hex_pair_at(old(self).input@, old(self).pos as int).is_none(),
            },
    {
        if self.input.len() - self.pos < 2 {
            return None;
        }
        let high = hex_digit(self.input[self.pos]);
        let low = hex_digit(self.input[self.pos + 1]);
        match (high, low) {
            (Some(high), Some(low)) => {
                self.pos += 2;
                Some(high * 16 + low)
            },
            _ => None,
        }
    }

    /// Parses a colour such as `#cc0000`.
    fn parse_color(&mut self) -> (r: Option<Value>)
        requires
            old(self).well_formed(),
            old(self).pos < old(self).input@.len(),
            old(self).input@[old(self).pos as int] == '#',
        ensures
            final(self).input == old(self).input,
            final(self).well_formed(),
            match r {
                Some(value) => color_at(old(self).input@, old(self).pos as int) == Some(
                    (value@, final(self).pos as int),
                ),
                None => color_at(old(self).input@, old(self).pos as int).is_none(),
            },
    {
        self.consume_char();
        let r = self.parse_hex_pair()?;
        let g = self.parse_hex_pair()?;
        let b = self.parse_hex_pair()?;
        Some(Value::ColorValue(Color { r, g, b, a: 255 }))
    }

    /// Parses a length such as `12px`.
    fn parse_length(&mut self) -> (r: Option<Value>)
        requires
            old(self).well_formed(),
        ensures
            final(self).input == old(self).input,
            final(self).well_formed(),
            match r {
                Some(value) => length_at(old(self).input@, old(self).pos as int) == Some(
                    (value@, final(self).pos as int),
                ),
                None => length_at(old(self).input@, old(self).pos as int).is_none(),
            },
    {
        let amount = self.parse_number()?;
        let unit = self.parse_unit()?;
        Some(Value::Length(amount, unit))
    }

    /// Parses a length, a colour or a keyword.
    fn parse_value(&mut self) -> (r: Option<Value>)
        requires
            old(self).well_formed(),
        ensures
            final(self).input == old(self).input,
            final(self).well_formed(),
            match r {
                Some(value) => value_at(old(self).input@, old(self).pos as int) == Some(
                    (value@, final(self).pos as int),
                ),
                None => value_at(old(self).input@, old(self).pos as int).is_none(),
            },
    {
        if self.eof() {
            return None;
        }
        let c = self.next_char();
        if digit(c) {
            self.parse_length()
        } else if c == '#' {
            self.parse_color()
        } else {
            Some(Value::Keyword(self.parse_identifier()))
        }
    }

    /// Consumes the character `c`, if it stands at the cursor.
    fn expect_char(&mut self, c: char) -> (r: Option<()>)
        requires
            old(self).well_formed(),
        ensures
            final(self).input == old(self).input,
            final(self).well_formed(),
            r.is_some() == stands_here(old(self).input@, old(self).pos as int, c),
            final(self).pos == if r.is_some() {
                old(self).pos + 1
            } else {
                old(self).pos as int
            },
    {
        if self.eof() || self.next_char() != c {
            return None;
        }
        self.consume_char();
        Some(())
    }

    /// Parses a declaration such as `margin: auto;`.
    fn parse_declaration(&mut self) -> (r: Option<Declaration>)
        requires
            old(self).well_formed(),
        ensures
            final(self).input == old(self).input,
            final(self).well_formed(),
            match r {
                Some(declaration) => declaration_at(old(self).input@, old(self).pos as int)
                    == Some((declaration@, final(self).pos as int)),
                None => declaration_at(old(self).input@, old(self).pos as int).is_none(),
            },
    {
        let property_name = self.parse_identifier();
        self.consume_whitespace();
        self.expect_char(':')?;
        self.consume_whitespace();
        let value = self.parse_value()?;
        self.consume_whitespace();
        self.expect_char(';')?;

        Some(Declaration { name: property_name, value: value })
    }

    /// Parses a block of declarations in braces.
    fn parse_declarations(&mut self) -> (r: Option<Vec<Declaration>>)
        requires
            old(self).well_formed(),
        ensures
            final(self).input == old(self).input,
            final(self).well_formed(),
            match r {
                Some(declarations) => declaration_block_at(old(self).input@, old(self).pos as int)
                    == Some((declaration_views(declarations@), final(self).pos as int)),
                None => declaration_block_at(old(self).input@, old(self).pos as int).is_none(),
            },
    {
        self.expect_char('{')?;
        let mut declarations: Vec<Declaration> = Vec::new();
        assert(declaration_views(declarations@) =~= Seq::empty());
        loop
            invariant_except_break
                declaration_block_at(old(self).input@, old(self).pos as int) == declarations_at(
                    self.input@,
                    self.pos as int,
                    declaration_views(declarations@),
                ),
            invariant
                self.input == old(self).input,
                self.well_formed(),
            ensures
                declaration_block_at(old(self).input@, old(self).pos as int) == Some(
                    (declaration_views(declarations@), self.pos as int),
                ),
            decreases self.input@.len() - self.pos,
        {
            self.consume_whitespace();
            if self.eof() {
                return None;
            }
            if self.next_char() == '}' {
                self.consume_char();
                break;
            }
            let ghost start = self.pos as int;
            let ghost before = declaration_views(declarations@);
            let declaration = self.parse_declaration()?;
            proof {
                lemma_declaration_advances(self.input@, start);
            }
            declarations.push(declaration);
            assert(declaration_views(declarations@) =~= before.push(declaration@));
        }
        Some(declarations)
    }

    /// Parses a rule: selectors and a block of declarations.
    fn parse_rule(&mut self) -> (r: Option<Rule>)
        requires
            old(self).well_formed(),
        ensures
            final(self).input == old(self).input,
            final(self).well_formed(),
            match r {
                Some(rule) => rule_at(old(self).input@, old(self).pos as int) == Some(
                    (rule@, final(self).pos as int),
                ),
                None => rule_at(old(self).input@, old(self).pos as int).is_none(),
            },
    {
        let selectors = self.parse_selectors()?;
        let declarations = self.parse_declarations()?;
        Some(Rule { selectors: selectors, declarations: declarations })
    }

    /// Parses rules up to the end of the input.
    fn parse_rules(&mut self) -> (r: Option<Vec<Rule>>)
        requires
            old(self).well_formed(),
        ensures
            final(self).input == old(self).input,
            match r {
                Some(rules) => rules_at(old(self).input@, old(self).pos as int, Seq::empty())
                    == Some(rule_views(rules@)),
                None => rules_at(old(self).input@, old(self).pos as int, Seq::empty()).is_none(),
            },
    {
        let mut rules: Vec<Rule> = Vec::new();
        assert(rule_views(rules@) =~= Seq::empty());
        loop
            invariant_except_break
                rules_at(old(self).input@, old(self).pos as int, Seq::empty()) == rules_at(
                    self.input@,
                    self.pos as int,
                    rule_views(rules@),
                ),
            invariant
                self.input == old(self).input,
                self.well_formed(),
            ensures
                rules_at(old(self).input@, old(self).pos as int, Seq::empty()) == Some(
                    rule_views(rules@),
                ),
            decreases self.input@.len() - self.pos,
        {
            self.consume_whitespace();
            if self.eof() {
                break;
            }
            let ghost start = self.pos as int;
            let ghost before = rule_views(rules@);
            let rule = self.parse_rule()?;
            proof {
                lemma_rule_advances(self.input@, start);
            }
            rules.push(rule);
            assert(rule_views(rules@) =~= before.push(rule@));
        }
        Some(rules)
    }
}

/// Parses a stylesheet. `None` where the text is not one.
pub fn parse(source: String) -> (r: Option<StyleSheet>)
    ensures
        match r {
            Some(stylesheet) => stylesheet_of(source@) == Some(stylesheet@),
            None => stylesheet_of(source@).is_none(),
        },
{
    let mut parser = Parser { pos: 0, input: chars_of(source.as_str()) };
    let rules = parser.parse_rules()?;
    Some(StyleSheet { rules: rules })
}

} // verus!
