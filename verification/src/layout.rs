//! Block layout: the tree of boxes for a styled tree, and the geometry of
//! each box inside its containing block.

use vstd::prelude::*;
use crate::css::{Unit, Value, ValueView};
use crate::style::{Display, StyledNode, StyledNodeView};

verus! {

/// A rectangle in whole pixels.
#[derive(Clone, Copy, Debug, PartialEq, Eq, Structural)]
pub struct Rect {
    pub x: i64,
    pub y: i64,
    pub width: i64,
    pub height: i64,
}

/// The four sides of a padding, border or margin, in whole pixels.
#[derive(Clone, Copy, Debug, PartialEq, Eq, Structural)]
pub struct EdgeSizes {
    pub left: i64,
    pub right: i64,
    pub top: i64,
    pub bottom: i64,
}

/// The content rectangle of a box and the edges around it.
#[derive(Clone, Copy, Debug, PartialEq, Eq, Structural)]
pub struct Dimensions {
    pub content: Rect,
    pub padding: EdgeSizes,
    pub border: EdgeSizes,
    pub margin: EdgeSizes,
}

/// Why a document could not be laid out.
#[derive(Clone, Copy, Debug, PartialEq, Eq, Structural)]
pub enum LayoutError {
    /// The root of the document is `display: none`: there is nothing to show.
    RootDisplayNone,
    /// An anonymous block was asked for the styled node it stands for.
    AnonymousBlockHasNoStyle,
    /// A coordinate or size does not fit in 64 bits.
    Overflow,
}

impl Default for Rect {
    fn default() -> (r: Self)
        ensures
            r == (Rect { x: 0, y: 0, width: 0, height: 0 }),
    {
        Rect { x: 0, y: 0, width: 0, height: 0 }
    }
}

impl Default for EdgeSizes {
    fn default() -> (r: Self)
        ensures
            r == (EdgeSizes { left: 0, right: 0, top: 0, bottom: 0 }),
    {
        EdgeSizes { left: 0, right: 0, top: 0, bottom: 0 }
    }
}

impl Default for Dimensions {
    fn default() -> (r: Self)
        ensures
            r == Dimensions::zero(),
    {
        Dimensions {
            content: Rect::default(),
            padding: EdgeSizes::default(),
            border: EdgeSizes::default(),
            margin: EdgeSizes::default(),
        }
    }
}

/// Whether an amount of pixels can be stored.
pub open spec fn in_range(v: int) -> bool {
    i64::MIN <= v <= i64::MAX
}

/// The stored form of an amount, where it has one.
pub open spec fn stored(v: int) -> Option<i64> {
    if in_range(v) {
        Some(v as i64)
    } else {
        None
    }
}

/// The stored form of an amount, where it has one.
pub(crate) fn narrow(v: i128) -> (r: Option<i64>)
    ensures
        r == stored(v as int),
{
    if v < -0x8000_0000_0000_0000i128 || v > 0x7fff_ffff_ffff_ffffi128 {
        None
    } else {
        Some(v as i64)
    }
}

impl Rect {
    /// The rectangle grown by `edge` on each side: the origin moves up and
    /// left, the size grows by both sides. `None` where a result cannot be
    /// stored.
    pub open spec fn spec_expanded_by(self, edge: EdgeSizes) -> Option<Rect> {
        let x = self.x - edge.left;
        let y = self.y - edge.top;
        let width = self.width + edge.left + edge.right;
        let height = self.height + edge.top + edge.bottom;
        if in_range(x) && in_range(y) && in_range(width) && in_range(height) {
            Some(Rect { x: x as i64, y: y as i64, width: width as i64, height: height as i64 })
        } else {
            None
        }
    }

    /// The rectangle grown by `edge` on each side. `None` where the result
    /// cannot be stored.
    pub fn expanded_by(self, edge: EdgeSizes) -> (r: Option<Rect>)
        ensures
            r == self.spec_expanded_by(edge),
    {
        let x = narrow(self.x as i128 - edge.left as i128);
        let y = narrow(self.y as i128 - edge.top as i128);
        let width = narrow(self.width as i128 + edge.left as i128 + edge.right as i128);
        let height = narrow(self.height as i128 + edge.top as i128 + edge.bottom as i128);
        match (x, y, width, height) {
            (Some(x), Some(y), Some(width), Some(height)) => Some(Rect { x, y, width, height }),
            _ => None,
        }
    }
}

impl Dimensions {
    /// All coordinates, sizes and edges zero.
    pub open spec fn zero() -> Dimensions {
        Dimensions {
            content: Rect { x: 0, y: 0, width: 0, height: 0 },
            padding: EdgeSizes { left: 0, right: 0, top: 0, bottom: 0 },
            border: EdgeSizes { left: 0, right: 0, top: 0, bottom: 0 },
            margin: EdgeSizes { left: 0, right: 0, top: 0, bottom: 0 },
        }
    }

    /// The content area plus padding.
    pub open spec fn spec_padding_box(self) -> Option<Rect> {
        self.content.spec_expanded_by(self.padding)
    }

    /// The padding box plus border.
    pub open spec fn spec_border_box(self) -> Option<Rect> {
        match self.spec_padding_box() {
            Some(r) => r.spec_expanded_by(self.border),
            None => None,
        }
    }

    /// The border box plus margin.
    pub open spec fn spec_margin_box(self) -> Option<Rect> {
        match self.spec_border_box() {
            Some(r) => r.spec_expanded_by(self.margin),
            None => None,
        }
    }

    /// The content area plus padding.
    pub fn padding_box(self) -> (r: Option<Rect>)
        ensures
            r == self.spec_padding_box(),
    {
        self.content.expanded_by(self.padding)
    }

    /// The padding box plus border.
    pub fn border_box(self) -> (r: Option<Rect>)
        ensures
            r == self.spec_border_box(),
    {
        match self.padding_box() {
            Some(r) => r.expanded_by(self.border),
            None => None,
        }
    }

    /// The border box plus margin.
    pub fn margin_box(self) -> (r: Option<Rect>)
        ensures
            r == self.spec_margin_box(),
    {
        match self.border_box() {
            Some(r) => r.expanded_by(self.margin),
            None => None,
        }
    }
}

/// Each box is the one inside it grown by its own edges: where the margin
/// box can be stored, it is wider and higher than the content by all the
/// edges, and starts left of and above it by the left and the top edges.
pub proof fn lemma_margin_box(d: Dimensions)
    requires
        d.spec_margin_box().is_some(),
    ensures
        ({
            let r = d.spec_margin_box().unwrap();
            &&& r.x == d.content.x - d.padding.left - d.border.left - d.margin.left
            &&& r.y == d.content.y - d.padding.top - d.border.top - d.margin.top
            &&& r.width == d.content.width + d.padding.left + d.padding.right + d.border.left
                + d.border.right + d.margin.left + d.margin.right
            &&& r.height == d.content.height + d.padding.top + d.padding.bottom + d.border.top
                + d.border.bottom + d.margin.top + d.margin.bottom
        }),
        d.spec_padding_box() == d.content.spec_expanded_by(d.padding),
        d.spec_border_box() == d.spec_padding_box().unwrap().spec_expanded_by(d.border),
        d.spec_margin_box() == d.spec_border_box().unwrap().spec_expanded_by(d.margin),
{
}

/// What a box declares of its horizontal extent, in pixels. `None` stands
/// for `auto`.
#[derive(Clone, Copy, Debug, PartialEq, Eq, Structural)]
pub struct HorizontalStyle {
    pub width: Option<i64>,
    pub margin_left: Option<i64>,
    pub margin_right: Option<i64>,
    pub border_left: i64,
    pub border_right: i64,
    pub padding_left: i64,
    pub padding_right: i64,
}

/// The horizontal extent of a box once resolved.
pub struct Horizontal {
    pub width: int,
    pub margin_left: int,
    pub margin_right: int,
    pub border_left: int,
    pub border_right: int,
    pub padding_left: int,
    pub padding_right: int,
}

/// An amount, with `auto` counted as zero.
pub open spec fn amount(v: Option<i64>) -> int {
    match v {
        Some(n) => n as int,
        None => 0,
    }
}

impl HorizontalStyle {
    /// The sum of the seven declared amounts, `auto` counted as zero.
    pub open spec fn total(self) -> int {
        amount(self.margin_left) + amount(self.margin_right) + self.border_left
            + self.border_right + self.padding_left + self.padding_right + amount(self.width)
    }

    /// A declared width that leaves no room: auto margins then count as zero.
    pub open spec fn overfull(self, containing_width: int) -> bool {
        self.width is Some && self.total() > containing_width
    }

    /// Both margins take up the free space between them.
    pub open spec fn centred(self, containing_width: int) -> bool {
        &&& self.width is Some
        &&& self.margin_left is None
        &&& self.margin_right is None
        &&& !self.overfull(containing_width)
    }

    /// The width and margins that make the box fill its containing block.
    ///
    /// With everything declared, the right margin takes up the difference.
    /// One auto margin takes it up alone. Two share it: the left margin
    /// takes half of it, rounded down, and the right margin the rest, so
    /// that nothing is left over. An auto width takes it up where it is not
    /// negative; a negative difference goes to the right margin and the
    /// width is zero.
    pub open spec fn spec_resolve(self, containing_width: int) -> Horizontal {
        let underflow = containing_width - self.total();
        let left_auto = self.margin_left is None && !self.overfull(containing_width);
        let right_auto = self.margin_right is None && !self.overfull(containing_width);
        let left = amount(self.margin_left);
        let right = amount(self.margin_right);
        let (width, margin_left, margin_right) = match self.width {
            None => if underflow >= 0 {
                (underflow, left, right)
            } else {
                (0int, left, right + underflow)
            },
            Some(w) => if left_auto && right_auto {
                (w as int, underflow / 2, underflow - underflow / 2)
            } else if left_auto {
                (w as int, underflow, right)
            } else if right_auto {
                (w as int, left, underflow)
            } else {
                (w as int, left, right + underflow)
            },
        };
        Horizontal {
            width,
            margin_left,
            margin_right,
            border_left: self.border_left as int,
            border_right: self.border_right as int,
            padding_left: self.padding_left as int,
            padding_right: self.padding_right as int,
        }
    }

    /// The width, the left margin and the right margin that make the box
    /// fill a containing block of the width `containing_width`. `None`
    /// where one of them cannot be stored.
    pub fn resolve(self, containing_width: i64) -> (r: Option<(i64, i64, i64)>)
        ensures
            match r {
                Some((width, margin_left, margin_right)) => {
                    &&& self.spec_resolve(containing_width as int).in_range()
                    &&& width == self.spec_resolve(containing_width as int).width
                    &&& margin_left == self.spec_resolve(containing_width as int).margin_left
                    &&& margin_right == self.spec_resolve(containing_width as int).margin_right
                    &&& margin_left + self.border_left + self.padding_left + width
                        + self.padding_right + self.border_right + margin_right
                        == containing_width
                },
                None => !self.spec_resolve(containing_width as int).in_range(),
            },
    {
        let width: i128 = match self.width {
            Some(n) => n as i128,
            None => 0,
        };
        let margin_left: i128 = match self.margin_left {
            Some(n) => n as i128,
            None => 0,
        };
        let margin_right: i128 = match self.margin_right {
            Some(n) => n as i128,
            None => 0,
        };
        let total: i128 = margin_left + margin_right + self.border_left as i128
            + self.border_right as i128 + self.padding_left as i128 + self.padding_right as i128
            + width;

        // A declared width that leaves no room turns auto margins to zero.
        let overfull = self.width.is_some() && total > containing_width as i128;
        let left_auto = self.margin_left.is_none() && !overfull;
        let right_auto = self.margin_right.is_none() && !overfull;

        let underflow: i128 = containing_width as i128 - total;

        let (width, margin_left, margin_right) = match (
            self.width.is_none(),
            left_auto,
            right_auto,
        ) {
            // Everything is declared: the right margin takes up the difference.
            (false, false, false) => (width, margin_left, margin_right + underflow),
            // One margin is auto: it takes up the difference.
            (false, false, true) => (width, margin_left, underflow),
            (false, true, false) => (width, underflow, margin_right),
            // The width is auto: auto margins are zero, and the width takes
            // up the difference, unless that is negative.
            (true, _, _) => {
                if underflow >= 0 {
                    (underflow, margin_left, margin_right)
                } else {
                    (0, margin_left, margin_right + underflow)
                }
            },
            // Both margins are auto: the left one takes up half of the
            // difference, the right one the rest.
            (false, true, true) => (width, underflow / 2, underflow - underflow / 2),
        };
        match (narrow(width), narrow(margin_left), narrow(margin_right)) {
            (Some(width), Some(margin_left), Some(margin_right)) => Some(
                (width, margin_left, margin_right),
            ),
            _ => None,
        }
    }
}

impl Horizontal {
    /// The width of the margin box.
    pub open spec fn total(self) -> int {
        self.margin_left + self.border_left + self.padding_left + self.width + self.padding_right
            + self.border_right + self.margin_right
    }

    /// Whether all seven amounts can be stored.
    pub open spec fn in_range(self) -> bool {
        &&& in_range(self.width)
        &&& in_range(self.margin_left)
        &&& in_range(self.margin_right)
        &&& in_range(self.border_left)
        &&& in_range(self.border_right)
        &&& in_range(self.padding_left)
        &&& in_range(self.padding_right)
    }
}

/// A resolved box is exactly as wide as its containing block: margins,
/// borders, paddings and width add up to the width of that block, whatever
/// is declared and whatever the width of the block.
pub proof fn lemma_resolved_box_fills_containing_block(s: HorizontalStyle, containing_width: int)
    ensures
        s.spec_resolve(containing_width).total() == containing_width,
{
}

/// The margins of a centred box are equal, or the right one is wider by the
/// one pixel that an odd free space leaves.
pub proof fn lemma_centred_box_margins(s: HorizontalStyle, containing_width: int)
    requires
        s.centred(containing_width),
    ensures
        ({
            let resolved = s.spec_resolve(containing_width);
            let free = containing_width - s.total();
            &&& resolved.width == s.width.unwrap()
            &&& 0 <= resolved.margin_left
            &&& resolved.margin_left + resolved.margin_right == free
            &&& resolved.margin_right == resolved.margin_left + free % 2
        }),
{
}

/// What a box stands for.
#[derive(Clone, Copy)]
pub enum BoxType<'a> {
    BlockNode(&'a StyledNode<'a>),
    InlineNode(&'a StyledNode<'a>),
    /// A block made up to hold a run of inline children of a block.
    AnonymousBlock,
}

/// A box of the layout tree, with its children in document order.
pub struct LayoutBox<'a> {
    pub dimensions: Dimensions,
    pub box_type: BoxType<'a>,
    pub children: Vec<LayoutBox<'a>>,
}

/// What a box stands for, with the styled node as plain text.
pub enum BoxTypeView {
    BlockNode(StyledNodeView),
    InlineNode(StyledNodeView),
    AnonymousBlock,
}

/// A layout box as a value: its geometry, what it stands for, and its
/// children as a sequence.
pub struct BoxModel {
    pub dimensions: Dimensions,
    pub box_type: BoxTypeView,
    pub children: Seq<BoxModel>,
}

impl<'a> View for BoxType<'a> {
    type V = BoxTypeView;

    open spec fn view(&self) -> BoxTypeView {
        match self {
            BoxType::BlockNode(node) => BoxTypeView::BlockNode(node@),
            BoxType::InlineNode(node) => BoxTypeView::InlineNode(node@),
            BoxType::AnonymousBlock => BoxTypeView::AnonymousBlock,
        }
    }
}

/// The box as a value, children and all.
pub open spec fn box_model<'a>(b: LayoutBox<'a>) -> BoxModel
    decreases b,
{
    BoxModel {
        dimensions: b.dimensions,
        box_type: b.box_type@,
        children: Seq::new(
            b.children@.len(),
            |i: int|
                if 0 <= i < b.children@.len() {
                    box_model(b.children@[i])
                } else {
                    arbitrary()
                },
        ),
    }
}

impl<'a> View for LayoutBox<'a> {
    type V = BoxModel;

    open spec fn view(&self) -> BoxModel {
        box_model(*self)
    }
}

impl<'a> BoxType<'a> {
    /// The styled node behind a block or inline box.
    pub open spec fn styled_node(self) -> Option<&'a StyledNode<'a>> {
        match self {
            BoxType::BlockNode(node) => Some(node),
            BoxType::InlineNode(node) => Some(node),
            BoxType::AnonymousBlock => None,
        }
    }
}

impl BoxTypeView {
    /// The styled node behind a block or inline box.
    pub open spec fn styled_node(self) -> Option<StyledNodeView> {
        match self {
            BoxTypeView::BlockNode(node) => Some(node),
            BoxTypeView::InlineNode(node) => Some(node),
            BoxTypeView::AnonymousBlock => None,
        }
    }
}

/// An amount that is `auto` or a number of pixels.
pub open spec fn length_or_auto(v: ValueView) -> Option<i64> {
    if v.is_auto() {
        None
    } else {
        Some(v.px())
    }
}

/// The horizontal declarations of a styled node. Each side is read from
/// its own property, else from the shorthand for all sides, else is zero;
/// the width is `auto` unless declared.
pub open spec fn horizontal_style(style: StyledNodeView) -> HorizontalStyle {
    let zero = ValueView::Length(0, Unit::Px);
    HorizontalStyle {
        width: match style.value("width"@) {
            Some(v) => length_or_auto(v),
            None => None,
        },
        margin_left: length_or_auto(style.lookup("margin-left"@, "margin"@, zero)),
        margin_right: length_or_auto(style.lookup("margin-right"@, "margin"@, zero)),
        border_left: style.lookup("border-left-width"@, "border-width"@, zero).px(),
        border_right: style.lookup("border-right-width"@, "border-width"@, zero).px(),
        padding_left: style.lookup("padding-left"@, "padding"@, zero).px(),
        padding_right: style.lookup("padding-right"@, "padding"@, zero).px(),
    }
}

/// The width of the margin box: margins, borders, paddings and the width
/// of the content, added up.
pub open spec fn horizontal_extent(d: Dimensions) -> int {
    d.margin.left + d.border.left + d.padding.left + d.content.width + d.padding.right
        + d.border.right + d.margin.right
}

/// `d` with the width, and the left and right edges, that `style` resolves
/// to inside `containing`. `None` where one of them cannot be stored.
pub open spec fn with_width(d: Dimensions, style: StyledNodeView, containing: Dimensions) -> Option<
    Dimensions,
> {
    let h = horizontal_style(style).spec_resolve(containing.content.width as int);
    if h.in_range() {
        Some(
            Dimensions {
                content: Rect { width: h.width as i64, ..d.content },
                padding: EdgeSizes {
                    left: h.padding_left as i64,
                    right: h.padding_right as i64,
                    ..d.padding
                },
                border: EdgeSizes {
                    left: h.border_left as i64,
                    right: h.border_right as i64,
                    ..d.border
                },
                margin: EdgeSizes {
                    left: h.margin_left as i64,
                    right: h.margin_right as i64,
                    ..d.margin
                },
            },
        )
    } else {
        None
    }
}

/// Once its width is resolved, the margin box of a box is exactly as wide
/// as the content of its containing block: margins, borders, paddings and
/// width add up to it.
pub proof fn lemma_box_fills_containing_block(
    d: Dimensions,
    style: StyledNodeView,
    containing: Dimensions,
)
    requires
        with_width(d, style, containing).is_some(),
    ensures
        horizontal_extent(with_width(d, style, containing).unwrap())
            == containing.content.width,
{
    lemma_resolved_box_fills_containing_block(
        horizontal_style(style),
        containing.content.width as int,
    );
}

/// `d` with the top and bottom edges that `style` declares, and with its
/// content placed inside `containing`: right of the containing block's left
/// side by the left edges, and below everything laid out in it so far by
/// the top edges. `None` where a coordinate cannot be stored.
pub open spec fn with_position(
    d: Dimensions,
    style: StyledNodeView,
    containing: Dimensions,
) -> Option<Dimensions> {
    let zero = ValueView::Length(0, Unit::Px);
    let margin_top = style.lookup("margin-top"@, "margin"@, zero).px();
    let margin_bottom = style.lookup("margin-bottom"@, "margin"@, zero).px();
    let border_top = style.lookup("border-top-width"@, "border-width"@, zero).px();
    let border_bottom = style.lookup("border-bottom-width"@, "border-width"@, zero).px();
    let padding_top = style.lookup("padding-top"@, "padding"@, zero).px();
    let padding_bottom = style.lookup("padding-bottom"@, "padding"@, zero).px();
    let x = containing.content.x + d.margin.left + d.border.left + d.padding.left;
    let y = containing.content.height + containing.content.y + margin_top + border_top
        + padding_top;
    if in_range(x) && in_range(y) {
        Some(
            Dimensions {
                content: Rect { x: x as i64, y: y as i64, ..d.content },
                padding: EdgeSizes { top: padding_top, bottom: padding_bottom, ..d.padding },
                border: EdgeSizes { top: border_top, bottom: border_bottom, ..d.border },
                margin: EdgeSizes { top: margin_top, bottom: margin_bottom, ..d.margin },
            },
        )
    } else {
        None
    }
}

/// `d` with the height that `style` declares in pixels, if it declares one.
pub open spec fn with_height(d: Dimensions, style: StyledNodeView) -> Dimensions {
    match style.value("height"@) {
        Some(ValueView::Length(h, Unit::Px)) => Dimensions {
            content: Rect { height: h, ..d.content },
            ..d
        },
        _ => d,
    }
}

/// What a value declares: nothing for `auto`, else its amount in pixels.
fn declared_amount(value: &Value) -> (r: Option<i64>)
    ensures
        r == length_or_auto(value@),
{
    let auto = Value::Keyword("auto".to_string());
    if *value == auto {
        None
    } else {
        Some(value.to_px())
    }
}

/// Reads what a styled node declares of its horizontal extent.
fn declared_horizontal(style: &StyledNode) -> (r: HorizontalStyle)
    ensures
        r == horizontal_style(style@),
{
    // The width is auto unless declared.
    let auto = Value::Keyword("auto".to_string());
    let width = match style.value("width") {
        Some(v) => v,
        None => auto,
    };

    // Margins, borders and paddings are zero unless declared.
    let zero = Value::Length(0, Unit::Px);
    let margin_left = style.lookup("margin-left", "margin", &zero);
    let margin_right = style.lookup("margin-right", "margin", &zero);

    let border_left = style.lookup("border-left-width", "border-width", &zero);
    let border_right = style.lookup("border-right-width", "border-width", &zero);

    let padding_left = style.lookup("padding-left", "padding", &zero);
    let padding_right = style.lookup("padding-right", "padding", &zero);

    HorizontalStyle {
        width: declared_amount(&width),
        margin_left: declared_amount(&margin_left),
        margin_right: declared_amount(&margin_right),
        border_left: border_left.to_px(),
        border_right: border_right.to_px(),
        padding_left: padding_left.to_px(),
        padding_right: padding_right.to_px(),
    }
}

impl<'a> LayoutBox<'a> {
    /// A box without children, all of its geometry zero.
    pub fn new(box_type: BoxType<'a>) -> (r: LayoutBox<'a>)
        ensures
            r@ == (BoxModel {
                dimensions: Dimensions::zero(),
                box_type: box_type@,
                children: Seq::empty(),
            }),
    {
        let r = LayoutBox {
            box_type: box_type,
            dimensions: Dimensions::default(),
            children: Vec::new(),
        };
        assert(r@.children =~= Seq::empty());
        r
    }

    /// The styled node this box stands for. An anonymous block has none.
    pub fn get_style_node(&self) -> (r: Result<&'a StyledNode<'a>, LayoutError>)
        ensures
            match r {
                Ok(node) => self.box_type.styled_node() == Some(node),
                Err(e) => self.box_type.styled_node().is_none() && e
                    == LayoutError::AnonymousBlockHasNoStyle,
            },
    {
        match self.box_type {
            BoxType::BlockNode(node) => Ok(node),
            BoxType::InlineNode(node) => Ok(node),
            BoxType::AnonymousBlock => Err(LayoutError::AnonymousBlockHasNoStyle),
        }
    }

    /// Resolves the width and the left and right edges of this box inside
    /// `containing_block`. On an error the box is left as it was.
    pub fn calculate_block_width(&mut self, containing_block: Dimensions) -> (r: Result<
        (),
        LayoutError,
    >)
        ensures
            final(self).box_type == old(self).box_type,
            final(self).children == old(self).children,
            r.is_ok() ==> horizontal_extent(final(self).dimensions)
                == containing_block.content.width,
            match old(self)@.box_type.styled_node() {
                None => r == Err::<(), LayoutError>(LayoutError::AnonymousBlockHasNoStyle)
                    && final(self).dimensions == old(self).dimensions,
                Some(style) => match with_width(old(self).dimensions, style, containing_block) {
                    Some(d) => r.is_ok() && final(self).dimensions == d,
                    None => r == Err::<(), LayoutError>(LayoutError::Overflow)
                        && final(self).dimensions == old(self).dimensions,
                },
            },
    {
        let style = self.get_style_node()?;
        let declared = declared_horizontal(style);
        match declared.resolve(containing_block.content.width) {
            Some((width, margin_left, margin_right)) => {
                self.dimensions.content.width = width;
                self.dimensions.padding.left = declared.padding_left;
                self.dimensions.padding.right = declared.padding_right;
                self.dimensions.border.left = declared.border_left;
                self.dimensions.border.right = declared.border_right;
                self.dimensions.margin.left = margin_left;
                self.dimensions.margin.right = margin_right;
                Ok(())
            },
            None => Err(LayoutError::Overflow),
        }
    }

    /// Reads the top and bottom edges of this box and places its content
    /// inside `containing_block`, below what that block already holds. On
    /// an error the box is left as it was.
    pub fn calculate_block_position(&mut self, containing_block: Dimensions) -> (r: Result<
        (),
        LayoutError,
    >)
        ensures
            final(self).box_type == old(self).box_type,
            final(self).children == old(self).children,
            match old(self)@.box_type.styled_node() {
                None => r == Err::<(), LayoutError>(LayoutError::AnonymousBlockHasNoStyle)
                    && final(self).dimensions == old(self).dimensions,
                Some(style) => match with_position(old(self).dimensions, style, containing_block) {
                    Some(d) => r.is_ok() && final(self).dimensions == d,
                    None => r == Err::<(), LayoutError>(LayoutError::Overflow)
                        && final(self).dimensions == old(self).dimensions,
                },
            },
    {
        let style = self.get_style_node()?;
        let zero = Value::Length(0, Unit::Px);

        let margin_top = style.lookup("margin-top", "margin", &zero).to_px();
        let margin_bottom = style.lookup("margin-bottom", "margin", &zero).to_px();

        let border_top = style.lookup("border-top-width", "border-width", &zero).to_px();
        let border_bottom = style.lookup("border-bottom-width", "border-width", &zero).to_px();

        let padding_top = style.lookup("padding-top", "padding", &zero).to_px();
        let padding_bottom = style.lookup("padding-bottom", "padding", &zero).to_px();

        let x = narrow(
            containing_block.content.x as i128 + self.dimensions.margin.left as i128
                + self.dimensions.border.left as i128 + self.dimensions.padding.left as i128,
        );
        let y = narrow(
            containing_block.content.height as i128 + containing_block.content.y as i128
                + margin_top as i128 + border_top as i128 + padding_top as i128,
        );
        match (x, y) {
            (Some(x), Some(y)) => {
                self.dimensions.margin.top = margin_top;
                self.dimensions.margin.bottom = margin_bottom;
                self.dimensions.border.top = border_top;
                self.dimensions.border.bottom = border_bottom;
                self.dimensions.padding.top = padding_top;
                self.dimensions.padding.bottom = padding_bottom;
                self.dimensions.content.x = x;
                self.dimensions.content.y = y;
                Ok(())
            },
            _ => Err(LayoutError::Overflow),
        }
    }

    /// A height declared in pixels replaces the height that the children
    /// added up to.
    pub fn calculate_block_height(&mut self) -> (r: Result<(), LayoutError>)
        ensures
            final(self).box_type == old(self).box_type,
            final(self).children == old(self).children,
            match old(self)@.box_type.styled_node() {
                None => r == Err::<(), LayoutError>(LayoutError::AnonymousBlockHasNoStyle)
                    && final(self).dimensions == old(self).dimensions,
                Some(style) => r.is_ok() && final(self).dimensions == with_height(
                    old(self).dimensions,
                    style,
                ),
            },
    {
        let style = self.get_style_node()?;
        match style.value("height") {
            Some(Value::Length(h, Unit::Px)) => {
                self.dimensions.content.height = h;
            },
            _ => {},
        }
        Ok(())
    }
}

/// A new anonymous block holding nothing.
pub open spec fn empty_anonymous_block() -> BoxModel {
    BoxModel {
        dimensions: Dimensions::zero(),
        box_type: BoxTypeView::AnonymousBlock,
        children: Seq::empty(),
    }
}

/// Whether the next inline child of the block `parent` goes into the last
/// child of `parent`: true where `parent` has children and the last of them
/// is an anonymous block, false where a new anonymous block has to be added
/// for it.
pub open spec fn reuses_last_child(parent: BoxModel) -> bool {
    parent.children.len() > 0 && parent.children.last().box_type is AnonymousBlock
}

/// The unpositioned layout tree of a styled node that is not `display:
/// none`: a block or inline box for the node, holding the boxes of its
/// children.
pub open spec fn tree_of(node: StyledNodeView) -> BoxModel
    decreases node,
{
    BoxModel {
        dimensions: Dimensions::zero(),
        box_type: if node.display() == Display::Block {
            BoxTypeView::BlockNode(node)
        } else {
            BoxTypeView::InlineNode(node)
        },
        children: placed(node.children, node.display() == Display::Block, node.children.len()),
    }
}

/// The boxes that the first `n` of `kids` make under their parent.
///
/// A child with `display: none` makes none. A block child makes its own
/// box. An inline child of a block goes into an anonymous block: the one
/// before it if the last box so far is one, else a new one. An inline
/// child of any other parent makes its own box.
pub open spec fn placed(kids: Seq<StyledNodeView>, in_block: bool, n: nat) -> Seq<BoxModel>
    decreases kids, n,
{
    if n == 0 || n > kids.len() {
        Seq::empty()
    } else {
        let before = placed(kids, in_block, (n - 1) as nat);
        let child = kids[n - 1];
        match child.display() {
            Display::DisplayNone => before,
            Display::Block => before.push(tree_of(child)),
            Display::Inline => if !in_block {
                before.push(tree_of(child))
            } else if before.len() > 0 && before.last().box_type is AnonymousBlock {
                before.update(
                    before.len() - 1,
                    BoxModel {
                        children: before.last().children.push(tree_of(child)),
                        ..before.last()
                    },
                )
            } else {
                before.push(
                    BoxModel { children: seq![tree_of(child)], ..empty_anonymous_block() },
                )
            },
        }
    }
}

/// The boxes of the first `n` children depend on those children alone.
proof fn lemma_placed_prefix(
    kids: Seq<StyledNodeView>,
    others: Seq<StyledNodeView>,
    in_block: bool,
    n: nat,
)
    requires
        n <= kids.len(),
        n <= others.len(),
        forall|i: int| 0 <= i < n ==> kids[i] == others[i],
    ensures
        placed(kids, in_block, n) == placed(others, in_block, n),
    decreases n,
{
    if n > 0 {
        lemma_placed_prefix(kids, others, in_block, (n - 1) as nat);
    }
}

/// The boxes of the first `n` children are those of the same children
/// without the hidden child `k`.
proof fn lemma_placed_without(kids: Seq<StyledNodeView>, in_block: bool, k: int, n: nat)
    requires
        0 <= k < n <= kids.len(),
        kids[k].display() == Display::DisplayNone,
    ensures
        placed(kids, in_block, n) == placed(kids.remove(k), in_block, (n - 1) as nat),
    decreases n,
{
    if n == k + 1 {
        lemma_placed_prefix(kids, kids.remove(k), in_block, k as nat);
    } else {
        lemma_placed_without(kids, in_block, k, (n - 1) as nat);
        assert(kids.remove(k)[n - 2] == kids[n - 1]);
    }
}

/// A child with `display: none` makes no box, whatever stands below it: the
/// boxes under its parent are those that the other children make.
pub proof fn lemma_hidden_child_makes_no_box(
    kids: Seq<StyledNodeView>,
    in_block: bool,
    k: int,
)
    requires
        0 <= k < kids.len(),
        kids[k].display() == Display::DisplayNone,
    ensures
        placed(kids, in_block, kids.len()) == placed(
            kids.remove(k),
            in_block,
            kids.remove(k).len(),
        ),
{
    lemma_placed_without(kids, in_block, k, kids.len());
}

/// The box holds at least one box, and boxes of inline nodes only.
pub open spec fn holds_inline_boxes(b: BoxModel) -> bool {
    &&& b.children.len() > 0
    &&& forall|m: int|
        0 <= m < b.children.len() ==> (#[trigger] b.children[m]).box_type is InlineNode
}

/// Box `k` of `boxes` is the box of a block node, or an anonymous block
/// that holds inline boxes and is not followed by another anonymous block.
pub open spec fn block_or_inline_run(boxes: Seq<BoxModel>, k: int) -> bool {
    match boxes[k].box_type {
        BoxTypeView::BlockNode(_) => true,
        BoxTypeView::InlineNode(_) => false,
        BoxTypeView::AnonymousBlock => {
            &&& holds_inline_boxes(boxes[k])
            &&& k + 1 < boxes.len() ==> !(boxes[k + 1].box_type is AnonymousBlock)
        },
    }
}

/// The boxes under a block are blocks and anonymous blocks in turn: every
/// box that is not anonymous is the box of a block child; an anonymous
/// block holds at least one box, all of them boxes of inline children; and
/// no anonymous block follows another, so that a run of inline children
/// shares one.
pub proof fn lemma_inline_runs_share_a_block(kids: Seq<StyledNodeView>, n: nat)
    requires
        n <= kids.len(),
    ensures
        forall|k: int|
            0 <= k < placed(kids, true, n).len() ==> #[trigger] block_or_inline_run(
                placed(kids, true, n),
                k,
            ),
    decreases n,
{
    if n > 0 {
        lemma_inline_runs_share_a_block(kids, (n - 1) as nat);
        let before = placed(kids, true, (n - 1) as nat);
        let after = placed(kids, true, n);
        let child = kids[n - 1];
        let last = before.len() - 1;
        if before.len() > 0 {
            assert(block_or_inline_run(before, last));
        }
        match child.display() {
            Display::DisplayNone => {},
            Display::Block => {
                assert(after == before.push(tree_of(child)));
                assert forall|k: int| 0 <= k < after.len() implies #[trigger] block_or_inline_run(
                    after,
                    k,
                ) by {
                    if k < before.len() {
                        assert(block_or_inline_run(before, k));
                    }
                }
            },
            Display::Inline => {
                if before.len() > 0 && before.last().box_type is AnonymousBlock {
                    let grown = BoxModel {
                        children: before.last().children.push(tree_of(child)),
                        ..before.last()
                    };
                    assert(after == before.update(last, grown));
                    assert(holds_inline_boxes(grown)) by {
                        assert forall|m: int| 0 <= m < grown.children.len() implies (
                        #[trigger] grown.children[m]).box_type is InlineNode by {
                            if m < before.last().children.len() {
                                assert(grown.children[m] == before.last().children[m]);
                            }
                        }
                    }
                    assert forall|k: int|
                        0 <= k < after.len() implies #[trigger] block_or_inline_run(after, k) by {
                        if k < last {
                            assert(block_or_inline_run(before, k));
                        }
                    }
                } else {
                    let added = BoxModel {
                        children: seq![tree_of(child)],
                        ..empty_anonymous_block()
                    };
                    assert(after == before.push(added));
                    assert(holds_inline_boxes(added));
                    assert forall|k: int|
                        0 <= k < after.len() implies #[trigger] block_or_inline_run(after, k) by {
                        if k < before.len() {
                            assert(block_or_inline_run(before, k));
                        }
                    }
                }
            },
        }
    }
}

/// In every block of the tree, at whatever depth, the boxes are blocks and
/// anonymous blocks in turn, each anonymous block holding one run of inline
/// boxes.
pub open spec fn grouped(b: BoxModel) -> bool
    decreases b,
{
    &&& b.box_type is BlockNode ==> forall|k: int|
        0 <= k < b.children.len() ==> #[trigger] block_or_inline_run(b.children, k)
    &&& forall|k: int| 0 <= k < b.children.len() ==> grouped(#[trigger] b.children[k])
}

/// The layout tree of a styled node groups the inline children of every
/// block in it, at whatever depth, into anonymous blocks, one for each run.
pub proof fn lemma_tree_is_grouped(node: StyledNodeView)
    ensures
        grouped(tree_of(node)),
    decreases node,
{
    let in_block = node.display() == Display::Block;
    let tree = tree_of(node);
    let boxes = placed(node.children, in_block, node.children.len());
    lemma_placed_are_grouped(node.children, in_block, node.children.len());
    assert(tree.children == boxes);
    assert forall|k: int| 0 <= k < tree.children.len() implies grouped(
        #[trigger] tree.children[k],
    ) by {
        assert(grouped(boxes[k]));
    }
    if in_block {
        lemma_inline_runs_share_a_block(node.children, node.children.len());
        assert forall|k: int| 0 <= k < tree.children.len() implies #[trigger] block_or_inline_run(
            tree.children,
            k,
        ) by {
            assert(block_or_inline_run(boxes, k));
        }
    }
}

/// The boxes that children make are grouped, each in itself.
proof fn lemma_placed_are_grouped(kids: Seq<StyledNodeView>, in_block: bool, n: nat)
    requires
        n <= kids.len(),
    ensures
        forall|k: int|
            0 <= k < placed(kids, in_block, n).len() ==> grouped(
                #[trigger] placed(kids, in_block, n)[k],
            ),
    decreases kids, n,
{
    if n > 0 {
        lemma_placed_are_grouped(kids, in_block, (n - 1) as nat);
        let before = placed(kids, in_block, (n - 1) as nat);
        let after = placed(kids, in_block, n);
        let child = kids[n - 1];
        if child.display() != Display::DisplayNone {
            let made = tree_of(child);
            lemma_tree_is_grouped(child);
            if child.display() == Display::Block || !in_block {
                assert(after == before.push(made));
                assert forall|k: int| 0 <= k < after.len() implies grouped(#[trigger] after[k]) by {
                    if k < before.len() {
                        assert(after[k] == before[k]);
                    }
                }
            } else if before.len() > 0 && before.last().box_type is AnonymousBlock {
                let last = before.len() - 1;
                let grown = BoxModel {
                    children: before.last().children.push(made),
                    ..before.last()
                };
                assert(after == before.update(last, grown));
                assert(grouped(before[last]));
                assert(grouped(grown)) by {
                    assert forall|m: int| 0 <= m < grown.children.len() implies grouped(
                        #[trigger] grown.children[m],
                    ) by {
                        if m < before.last().children.len() {
                            assert(grown.children[m] == before[last].children[m]);
                        }
                    }
                }
                assert forall|k: int| 0 <= k < after.len() implies grouped(#[trigger] after[k]) by {
                    if k < last {
                        assert(after[k] == before[k]);
                    }
                }
            } else {
                let added = BoxModel { children: seq![made], ..empty_anonymous_block() };
                assert(after == before.push(added));
                assert(grouped(added)) by {
                    assert forall|m: int| 0 <= m < added.children.len() implies grouped(
                        #[trigger] added.children[m],
                    ) by {
                        assert(added.children[m] == made);
                    }
                }
                assert forall|k: int| 0 <= k < after.len() implies grouped(#[trigger] after[k]) by {
                    if k < before.len() {
                        assert(after[k] == before[k]);
                    }
                }
            }
        }
    }
}

/// The styled nodes that a box and the boxes in it stand for, in the order
/// of the tree. An anonymous block stands for none itself.
pub open spec fn stands_for(b: BoxModel) -> Seq<StyledNodeView>
    decreases b,
{
    let own = match b.box_type.styled_node() {
        Some(node) => seq![node],
        None => Seq::empty(),
    };
    own + stand_for(b.children, b.children.len())
}

/// The styled nodes that the first `n` of `boxes` stand for, box after box.
pub open spec fn stand_for(boxes: Seq<BoxModel>, n: nat) -> Seq<StyledNodeView>
    decreases boxes, n,
{
    if n == 0 || n > boxes.len() {
        Seq::empty()
    } else {
        stand_for(boxes, (n - 1) as nat) + stands_for(boxes[n - 1])
    }
}

/// A styled node and the nodes below it that are shown: those that are
/// reached from it without passing a node with `display: none`, in the
/// order of the document.
pub open spec fn shown(node: StyledNodeView) -> Seq<StyledNodeView>
    decreases node,
{
    seq![node] + shown_among(node.children, node.children.len())
}

/// The nodes that are shown among the first `n` of `kids` and below them.
/// A child with `display: none` is not shown, nor is anything below it.
pub open spec fn shown_among(kids: Seq<StyledNodeView>, n: nat) -> Seq<StyledNodeView>
    decreases kids, n,
{
    if n == 0 || n > kids.len() {
        Seq::empty()
    } else if kids[n - 1].display() == Display::DisplayNone {
        shown_among(kids, (n - 1) as nat)
    } else {
        shown_among(kids, (n - 1) as nat) + shown(kids[n - 1])
    }
}

/// The boxes of a layout tree stand for the nodes that are shown, each
/// once and in the order of the document, and for no others: a node with
/// `display: none` has no box, at whatever depth it stands, and neither has
/// any node below it.
pub proof fn lemma_boxes_stand_for_shown_nodes(node: StyledNodeView)
    ensures
        stands_for(tree_of(node)) == shown(node),
    decreases node,
{
    lemma_placed_stand_for_shown_nodes(
        node.children,
        node.display() == Display::Block,
        node.children.len(),
    );
}

/// What the first `n` boxes stand for depends on those boxes alone.
proof fn lemma_stand_for_prefix(boxes: Seq<BoxModel>, others: Seq<BoxModel>, n: nat)
    requires
        n <= boxes.len(),
        n <= others.len(),
        forall|k: int| 0 <= k < n ==> boxes[k] == others[k],
    ensures
        stand_for(boxes, n) == stand_for(others, n),
    decreases n,
{
    if n > 0 {
        lemma_stand_for_prefix(boxes, others, (n - 1) as nat);
    }
}

/// The boxes that children make stand for the nodes that are shown among
/// the children and below them.
proof fn lemma_placed_stand_for_shown_nodes(kids: Seq<StyledNodeView>, in_block: bool, n: nat)
    requires
        n <= kids.len(),
    ensures
        stand_for(placed(kids, in_block, n), placed(kids, in_block, n).len()) == shown_among(
            kids,
            n,
        ),
    decreases kids, n,
{
    if n > 0 {
        lemma_placed_stand_for_shown_nodes(kids, in_block, (n - 1) as nat);
        let before = placed(kids, in_block, (n - 1) as nat);
        let after = placed(kids, in_block, n);
        let child = kids[n - 1];
        let so_far = stand_for(before, before.len());
        if child.display() != Display::DisplayNone {
            let made = tree_of(child);
            lemma_boxes_stand_for_shown_nodes(child);
            if child.display() == Display::Block || !in_block {
                assert(after == before.push(made));
                lemma_stand_for_prefix(after, before, before.len());
            } else if before.len() > 0 && before.last().box_type is AnonymousBlock {
                let last = (before.len() - 1) as nat;
                let held = before.last().children;
                let grown = BoxModel { children: held.push(made), ..before.last() };
                assert(after == before.update(last as int, grown));
                lemma_stand_for_prefix(after, before, last);
                lemma_stand_for_prefix(grown.children, held, held.len());
                assert(stands_for(before[last as int]) =~= stand_for(held, held.len()));
                assert(stands_for(grown) =~= stand_for(held, held.len()) + shown(child));
                assert(stand_for(after, after.len()) =~= so_far + shown(child));
            } else {
                let added = BoxModel { children: seq![made], ..empty_anonymous_block() };
                assert(after == before.push(added));
                lemma_stand_for_prefix(after, before, before.len());
                assert(stand_for(added.children, 0) =~= Seq::empty());
                assert(stand_for(added.children, 1) =~= stands_for(made));
                assert(stands_for(added) =~= shown(child));
            }
        }
    }
}

/// The children of a box's view are the views of its children.
pub proof fn lemma_view_children(b: LayoutBox)
    ensures
        b@.dimensions == b.dimensions,
        b@.box_type == b.box_type@,
        b@.children.len() == b.children@.len(),
        forall|i: int|
            0 <= i < b.children@.len() ==> b@.children[i] == (#[trigger] b.children@[i])@,
{
}

impl<'a> LayoutBox<'a> {
    /// The box that takes the next inline child: this box unless it is a
    /// block; in a block, its last child if that is an anonymous block,
    /// else a new anonymous block added at the end.
    pub fn get_inline_container(&mut self) -> (r: &mut LayoutBox<'a>)
        ensures
            old(self).box_type is BlockNode ==> {
                &&& final(self).dimensions == old(self).dimensions
                &&& final(self).box_type == old(self).box_type
                &&& (*r)@ == if reuses_last_child(old(self)@) {
                    old(self)@.children.last()
                } else {
                    empty_anonymous_block()
                }
                &&& final(self)@.children == if reuses_last_child(old(self)@) {
                    old(self)@.children.update(old(self)@.children.len() - 1, (*final(r))@)
                } else {
                    old(self)@.children.push((*final(r))@)
                }
            },
            !(old(self).box_type is BlockNode) ==> *r == *old(self) && *final(self) == *final(r),
    {
        match self.box_type {
            BoxType::InlineNode(_) | BoxType::AnonymousBlock => self,
            BoxType::BlockNode(_) => {
                proof {
                    lemma_view_children(*self);
                }
                let len: usize = self.children.len();
                let reuse = len > 0 && match self.children[len - 1].box_type {
                    BoxType::AnonymousBlock => true,
                    _ => false,
                };
                if !reuse {
                    self.children.push(LayoutBox::new(BoxType::AnonymousBlock));
                }
                let last: usize = self.children.len() - 1;
                &mut self.children[last]
            },
        }
    }
}

/// Builds the unpositioned layout tree of a styled node. A node that is
/// `display: none` has none. The boxes of the tree stand for the nodes that
/// are shown and for no others, and the inline children of each block are
/// grouped into anonymous blocks.
pub fn build_layout_tree<'a>(style_node: &'a StyledNode<'a>) -> (r: Result<
    LayoutBox<'a>,
    LayoutError,
>)
    ensures
        match r {
            Ok(root) => {
                &&& style_node@.display() != Display::DisplayNone
                &&& root@ == tree_of(style_node@)
                &&& stands_for(root@) == shown(style_node@)
                &&& grouped(root@)
            },
            Err(e) => style_node@.display() == Display::DisplayNone && e
                == LayoutError::RootDisplayNone,
        },
    decreases style_node,
{
    let display = style_node.display();
    let in_block = display == Display::Block;
    let mut root = LayoutBox::new(
        match display {
            Display::Block => BoxType::BlockNode(style_node),
            Display::Inline => BoxType::InlineNode(style_node),
            Display::DisplayNone => {
                return Err(LayoutError::RootDisplayNone);
            },
        },
    );

    let mut i: usize = 0;
    while i < style_node.children.len()
        invariant
            i <= style_node.children@.len(),
            in_block == (style_node@.display() == Display::Block),
            root.dimensions == Dimensions::zero(),
            root.box_type@ == tree_of(style_node@).box_type,
            root@.children == placed(style_node@.children, in_block, i as nat),
        decreases style_node.children@.len() - i,
    {
        let child = &style_node.children[i];
        let ghost before = root@.children;
        proof {
            lemma_view_children(root);
        }
        match child.display() {
            Display::Block => {
                let b = build_layout_tree(child)?;
                root.children.push(b);
                proof {
                    lemma_view_children(root);
                    assert(root@.children =~= before.push(b@));
                }
            },
            Display::Inline => {
                let b = build_layout_tree(child)?;
                let container = root.get_inline_container();
                let ghost held = container@.children;
                proof {
                    lemma_view_children(*container);
                }
                container.children.push(b);
                proof {
                    lemma_view_children(*container);
                    assert(container@.children =~= held.push(b@));
                    assert(held.len() == 0 ==> held.push(b@) =~= seq![b@]);
                }
            },
            Display::DisplayNone => {},
        }
        i += 1;
    }
    proof {
        lemma_boxes_stand_for_shown_nodes(style_node@);
        lemma_tree_is_grouped(style_node@);
    }
    Ok(root)
}

/// `d` with its content height grown by `extra`.
pub open spec fn grown_by(d: Dimensions, extra: int) -> Option<Dimensions> {
    match stored(d.content.height + extra) {
        Some(height) => Some(Dimensions { content: Rect { height, ..d.content }, ..d }),
        None => None,
    }
}

/// The box laid out inside `containing`.
///
/// Only a block is given geometry: inline boxes and anonymous blocks stay
/// as they are. `None` where a coordinate or size cannot be stored.
pub open spec fn laid_out(b: BoxModel, containing: Dimensions) -> Option<BoxModel>
    decreases b.children, b.children.len() + 2,
{
    match b.box_type {
        BoxTypeView::BlockNode(style) => laid_out_as_block(b, style, containing),
        _ => Some(b),
    }
}

/// A box with the style `style` laid out as a block inside `containing`:
/// first its width, then its position, then its children, each against the
/// box as it stands by then, and last its height.
pub open spec fn laid_out_as_block(
    b: BoxModel,
    style: StyledNodeView,
    containing: Dimensions,
) -> Option<BoxModel>
    decreases b.children, b.children.len() + 1,
{
    match with_width(b.dimensions, style, containing) {
        None => None,
        Some(sized) => match with_position(sized, style, containing) {
            None => None,
            Some(positioned) => match stacked(b.children, positioned, b.children.len()) {
                None => None,
                Some((children, filled)) => Some(
                    BoxModel {
                        dimensions: with_height(filled, style),
                        box_type: b.box_type,
                        children,
                    },
                ),
            },
        },
    }
}

/// The first `n` of `kids` laid out one below the other inside a box with
/// the geometry `d`, and that geometry afterwards. Each child is laid out
/// against the box as the children before it left it; the height of its
/// margin box is then added to the content height of the box.
pub open spec fn stacked(kids: Seq<BoxModel>, d: Dimensions, n: nat) -> Option<
    (Seq<BoxModel>, Dimensions),
>
    decreases kids, n,
{
    if n == 0 || n > kids.len() {
        Some((Seq::empty(), d))
    } else {
        match stacked(kids, d, (n - 1) as nat) {
            None => None,
            Some((before, so_far)) => match laid_out(kids[n - 1], so_far) {
                None => None,
                Some(child) => match child.dimensions.spec_margin_box() {
                    None => None,
                    Some(margin_box) => match grown_by(so_far, margin_box.height as int) {
                        None => None,
                        Some(grown) => Some((before.push(child), grown)),
                    },
                },
            },
        }
    }
}

/// The heights of the margin boxes of the first `n` of `boxes`, added up.
pub open spec fn stacked_height(boxes: Seq<BoxModel>, n: nat) -> int
    decreases n,
{
    if n == 0 || n > boxes.len() {
        0
    } else {
        stacked_height(boxes, (n - 1) as nat) + boxes[n
            - 1].dimensions.spec_margin_box().unwrap().height
    }
}

/// Laying out its children changes nothing of a box but the height of its
/// content, which grows by the heights of their margin boxes.
pub proof fn lemma_children_add_their_heights(kids: Seq<BoxModel>, d: Dimensions, n: nat)
    requires
        n <= kids.len(),
        stacked(kids, d, n).is_some(),
    ensures
        ({
            let (children, filled) = stacked(kids, d, n).unwrap();
            &&& children.len() == n
            &&& filled.content.height == d.content.height + stacked_height(children, n)
            &&& filled == Dimensions {
                content: Rect { height: filled.content.height, ..d.content },
                ..d
            }
        }),
    decreases n,
{
    if n > 0 {
        lemma_children_add_their_heights(kids, d, (n - 1) as nat);
        let (before, so_far) = stacked(kids, d, (n - 1) as nat).unwrap();
        let (children, filled) = stacked(kids, d, n).unwrap();
        lemma_stacked_height_prefix(children, before, (n - 1) as nat);
    }
}

/// The height of the first `n` boxes depends on those boxes alone.
proof fn lemma_stacked_height_prefix(boxes: Seq<BoxModel>, others: Seq<BoxModel>, n: nat)
    requires
        n <= boxes.len(),
        n <= others.len(),
        forall|k: int| 0 <= k < n ==> boxes[k] == others[k],
    ensures
        stacked_height(boxes, n) == stacked_height(others, n),
    decreases n,
{
    if n > 0 {
        lemma_stacked_height_prefix(boxes, others, (n - 1) as nat);
    }
}

/// Each child is laid out against its parent as the children before it
/// left it, so that it comes to stand below them.
pub proof fn lemma_children_stack(kids: Seq<BoxModel>, d: Dimensions, n: nat, k: int)
    requires
        0 <= k < n <= kids.len(),
        stacked(kids, d, n).is_some(),
    ensures
        stacked(kids, d, k as nat).is_some(),
        stacked(kids, d, n).unwrap().0[k] == laid_out(
            kids[k],
            stacked(kids, d, k as nat).unwrap().1,
        ).unwrap(),
    decreases n,
{
    lemma_children_add_their_heights(kids, d, (n - 1) as nat);
    if k < n - 1 {
        lemma_children_stack(kids, d, (n - 1) as nat, k);
    }
}

/// Every block that is reached through blocks alone is exactly as wide as
/// the content of the block around it, or as `width` where it is the
/// outermost: its margins, borders, paddings and width add up to that.
pub open spec fn fills(b: BoxModel, width: int) -> bool
    decreases b,
{
    b.box_type is BlockNode ==> {
        &&& horizontal_extent(b.dimensions) == width
        &&& forall|k: int|
            0 <= k < b.children.len() ==> fills(
                #[trigger] b.children[k],
                b.dimensions.content.width as int,
            )
    }
}

/// Laid out, a box and every block below it that is reached through blocks
/// alone fill the width of the block around them. The width of a box is
/// settled before its children are laid out: it is the width that each of
/// them is laid out against, and nothing after that changes it.
pub proof fn lemma_laid_out_boxes_fill(b: BoxModel, containing: Dimensions)
    requires
        laid_out(b, containing).is_some(),
    ensures
        fills(laid_out(b, containing).unwrap(), containing.content.width as int),
    decreases b.children, b.children.len() + 1,
{
    match b.box_type {
        BoxTypeView::BlockNode(style) => {
            let sized = with_width(b.dimensions, style, containing).unwrap();
            let positioned = with_position(sized, style, containing).unwrap();
            let (children, filled) = stacked(b.children, positioned, b.children.len()).unwrap();
            let r = laid_out(b, containing).unwrap();
            lemma_box_fills_containing_block(b.dimensions, style, containing);
            lemma_children_add_their_heights(b.children, positioned, b.children.len());
            lemma_stacked_boxes_fill(b.children, positioned, b.children.len());
            assert(horizontal_extent(r.dimensions) == horizontal_extent(sized));
            assert(r.dimensions.content.width == positioned.content.width);
        },
        _ => {},
    }
}

/// Laid out one below the other, children fill the width of the box that
/// holds them.
proof fn lemma_stacked_boxes_fill(kids: Seq<BoxModel>, d: Dimensions, n: nat)
    requires
        n <= kids.len(),
        stacked(kids, d, n).is_some(),
    ensures
        forall|k: int|
            0 <= k < n ==> fills(
                #[trigger] stacked(kids, d, n).unwrap().0[k],
                d.content.width as int,
            ),
    decreases kids, n,
{
    if n > 0 {
        let (before, so_far) = stacked(kids, d, (n - 1) as nat).unwrap();
        let after = stacked(kids, d, n).unwrap().0;
        lemma_stacked_boxes_fill(kids, d, (n - 1) as nat);
        lemma_children_add_their_heights(kids, d, (n - 1) as nat);
        lemma_laid_out_boxes_fill(kids[n - 1], so_far);
        assert forall|k: int| 0 <= k < n implies fills(
            #[trigger] after[k],
            d.content.width as int,
        ) by {
            if k < n - 1 {
                assert(after[k] == before[k]);
            }
        }
    }
}

/// The two trees hold the same boxes in the same places: they differ in
/// geometry at most.
pub open spec fn same_boxes(a: BoxModel, b: BoxModel) -> bool
    decreases a,
{
    &&& a.box_type == b.box_type
    &&& a.children.len() == b.children.len()
    &&& forall|k: int|
        0 <= k < a.children.len() ==> same_boxes(#[trigger] a.children[k], b.children[k])
}

/// Laying out gives boxes their geometry and changes nothing else: no box
/// is added, taken away or moved, and each stands for what it stood for.
pub proof fn lemma_laid_out_keeps_the_boxes(b: BoxModel, containing: Dimensions)
    requires
        laid_out(b, containing).is_some(),
    ensures
        same_boxes(b, laid_out(b, containing).unwrap()),
    decreases b.children, b.children.len() + 1,
{
    match b.box_type {
        BoxTypeView::BlockNode(style) => {
            let sized = with_width(b.dimensions, style, containing).unwrap();
            let positioned = with_position(sized, style, containing).unwrap();
            lemma_stacked_keeps_the_boxes(b.children, positioned, b.children.len());
            lemma_children_add_their_heights(b.children, positioned, b.children.len());
        },
        _ => {
            lemma_same_boxes_as_itself(b);
        },
    }
}

proof fn lemma_same_boxes_as_itself(b: BoxModel)
    ensures
        same_boxes(b, b),
    decreases b,
{
    assert forall|k: int| 0 <= k < b.children.len() implies same_boxes(
        #[trigger] b.children[k],
        b.children[k],
    ) by {
        lemma_same_boxes_as_itself(b.children[k]);
    }
}

proof fn lemma_stacked_keeps_the_boxes(kids: Seq<BoxModel>, d: Dimensions, n: nat)
    requires
        n <= kids.len(),
        stacked(kids, d, n).is_some(),
    ensures
        stacked(kids, d, n).unwrap().0.len() == n,
        forall|k: int|
            0 <= k < n ==> same_boxes(#[trigger] kids[k], stacked(kids, d, n).unwrap().0[k]),
    decreases kids, n,
{
    if n > 0 {
        let (before, so_far) = stacked(kids, d, (n - 1) as nat).unwrap();
        let after = stacked(kids, d, n).unwrap().0;
        lemma_stacked_keeps_the_boxes(kids, d, (n - 1) as nat);
        lemma_laid_out_keeps_the_boxes(kids[n - 1], so_far);
        assert forall|k: int| 0 <= k < n implies same_boxes(#[trigger] kids[k], after[k]) by {
            if k < n - 1 {
                assert(after[k] == before[k]);
            }
        }
    }
}

/// Trees of the same boxes stand for the same nodes, and one groups the
/// inline children of its blocks where the other does.
pub proof fn lemma_same_boxes(a: BoxModel, b: BoxModel)
    requires
        same_boxes(a, b),
    ensures
        stands_for(a) == stands_for(b),
        grouped(a) == grouped(b),
    decreases a,
{
    lemma_same_boxes_stand_for(a.children, b.children, a.children.len());
    assert forall|k: int| 0 <= k < a.children.len() implies grouped(#[trigger] a.children[k])
        == grouped(b.children[k]) by {
        lemma_same_boxes(a.children[k], b.children[k]);
    }
    assert forall|k: int| 0 <= k < a.children.len() implies #[trigger] block_or_inline_run(
        a.children,
        k,
    ) == block_or_inline_run(b.children, k) by {
        let x = a.children[k];
        let y = b.children[k];
        assert(same_boxes(x, y));
        assert(holds_inline_boxes(x) == holds_inline_boxes(y)) by {
            if holds_inline_boxes(x) {
                assert forall|m: int| 0 <= m < y.children.len() implies (
                #[trigger] y.children[m]).box_type is InlineNode by {
                    assert(same_boxes(x.children[m], y.children[m]));
                }
            }
            if holds_inline_boxes(y) {
                assert forall|m: int| 0 <= m < x.children.len() implies (
                #[trigger] x.children[m]).box_type is InlineNode by {
                    assert(same_boxes(x.children[m], y.children[m]));
                    assert(y.children[m].box_type is InlineNode);
                }
            }
        }
        if k + 1 < a.children.len() {
            assert(same_boxes(a.children[k + 1], b.children[k + 1]));
        }
    }
    if grouped(a) {
        assert forall|k: int| 0 <= k < b.children.len() implies grouped(
            #[trigger] b.children[k],
        ) by {
            assert(grouped(a.children[k]));
        }
        if b.box_type is BlockNode {
            assert forall|k: int| 0 <= k < b.children.len() implies #[trigger] block_or_inline_run(
                b.children,
                k,
            ) by {
                assert(block_or_inline_run(a.children, k));
            }
        }
    }
    if grouped(b) {
        assert forall|k: int| 0 <= k < a.children.len() implies grouped(
            #[trigger] a.children[k],
        ) by {
            assert(grouped(b.children[k]));
        }
        if a.box_type is BlockNode {
            assert forall|k: int| 0 <= k < a.children.len() implies #[trigger] block_or_inline_run(
                a.children,
                k,
            ) by {
                assert(block_or_inline_run(b.children, k));
            }
        }
    }
}

proof fn lemma_same_boxes_stand_for(boxes: Seq<BoxModel>, others: Seq<BoxModel>, n: nat)
    requires
        n <= boxes.len(),
        boxes.len() == others.len(),
        forall|k: int| 0 <= k < boxes.len() ==> same_boxes(#[trigger] boxes[k], others[k]),
    ensures
        stand_for(boxes, n) == stand_for(others, n),
    decreases boxes, n,
{
    if n > 0 {
        lemma_same_boxes_stand_for(boxes, others, (n - 1) as nat);
        lemma_same_boxes(boxes[n - 1], others[n - 1]);
    }
}

/// Once a child cannot be laid out, no longer run of children can.
pub proof fn lemma_stacked_fails_on(kids: Seq<BoxModel>, d: Dimensions, n: nat, m: nat)
    requires
        stacked(kids, d, n).is_none(),
        n <= m <= kids.len(),
    ensures
        stacked(kids, d, m).is_none(),
    decreases m,
{
    if n < m {
        lemma_stacked_fails_on(kids, d, n, (m - 1) as nat);
    }
}

/// The containing block of a document: the viewport, with nothing laid out
/// in it yet.
pub open spec fn initial_containing_block(viewport: Dimensions) -> Dimensions {
    Dimensions { content: Rect { height: 0, ..viewport.content }, ..viewport }
}

impl<'a> LayoutBox<'a> {
    /// Lays out this box and its descendants inside `containing_block`.
    fn layout(&mut self, containing_block: Dimensions) -> (r: Result<(), LayoutError>)
        ensures
            match laid_out(old(self)@, containing_block) {
                Some(m) => r.is_ok() && final(self)@ == m,
                None => r == Err::<(), LayoutError>(LayoutError::Overflow),
            },
        decreases old(self)@.children, 3nat,
    {
        match self.box_type {
            BoxType::BlockNode(_) => self.layout_block(containing_block),
            BoxType::InlineNode(_) | BoxType::AnonymousBlock => Ok(()),
        }
    }

    /// Lays out this box as a block: its width, its position, its children
    /// and its height, in this order.
    fn layout_block(&mut self, containing_block: Dimensions) -> (r: Result<(), LayoutError>)
        ensures
            match old(self)@.box_type.styled_node() {
                None => r == Err::<(), LayoutError>(LayoutError::AnonymousBlockHasNoStyle),
                Some(style) => match laid_out_as_block(old(self)@, style, containing_block) {
                    Some(m) => r.is_ok() && final(self)@ == m,
                    None => r == Err::<(), LayoutError>(LayoutError::Overflow),
                },
            },
        decreases old(self)@.children, 2nat,
    {
        proof {
            lemma_view_children(*self);
        }
        self.calculate_block_width(containing_block)?;
        self.calculate_block_position(containing_block)?;
        proof {
            lemma_view_children(*self);
            assert(self@.children =~= old(self)@.children);
        }
        self.layout_block_children()?;
        let ghost children = self@.children;
        proof {
            lemma_view_children(*self);
        }
        self.calculate_block_height()?;
        proof {
            lemma_view_children(*self);
            assert(self@.children =~= children);
        }
        Ok(())
    }

    /// Lays out the children one below the other, each against this box as
    /// the children before it left it, and adds the height of each to the
    /// height of this box.
    fn layout_block_children(&mut self) -> (r: Result<(), LayoutError>)
        ensures
            final(self).box_type == old(self).box_type,
            match stacked(old(self)@.children, old(self).dimensions, old(self)@.children.len()) {
                Some((children, d)) => r.is_ok() && final(self)@.children == children
                    && final(self).dimensions == d,
                None => r == Err::<(), LayoutError>(LayoutError::Overflow),
            },
        decreases old(self)@.children, 1nat,
    {
        let ghost kids = self@.children;
        let ghost start = self.dimensions;
        proof {
            lemma_view_children(*self);
        }
        let mut i: usize = 0;
        while i < self.children.len()
            invariant
                kids == old(self)@.children,
                start == old(self).dimensions,
                i <= self.children@.len(),
                self.children@.len() == kids.len(),
                self.box_type == old(self).box_type,
                forall|j: int| i <= j < kids.len() ==> (#[trigger] self.children@[j])@ == kids[j],
                stacked(kids, start, i as nat) matches Some((done, d)) && d == self.dimensions
                    && done.len() == i && forall|j: int|
                    0 <= j < i ==> done[j] == (#[trigger] self.children@[j])@,
            decreases self.children@.len() - i,
        {
            let d = self.dimensions;
            let ghost done = stacked(kids, start, i as nat).unwrap().0;
            let child = &mut self.children[i];
            match child.layout(d) {
                Ok(()) => {},
                Err(e) => {
                    proof {
                        lemma_stacked_fails_on(kids, start, (i + 1) as nat, kids.len());
                    }
                    return Err(e);
                },
            }
            let grown = match self.children[i].dimensions.margin_box() {
                Some(margin_box) => narrow(d.content.height as i128 + margin_box.height as i128),
                None => None,
            };
            match grown {
                Some(height) => {
                    self.dimensions.content.height = height;
                },
                None => {
                    proof {
                        lemma_view_children(self.children@[i as int]);
                        lemma_stacked_fails_on(kids, start, (i + 1) as nat, kids.len());
                    }
                    return Err(LayoutError::Overflow);
                },
            }
            proof {
                lemma_view_children(self.children@[i as int]);
                assert(stacked(kids, start, (i + 1) as nat).unwrap().0 == done.push(
                    self.children@[i as int]@,
                ));
            }
            i += 1;
        }
        proof {
            lemma_view_children(*self);
            assert(self@.children =~= stacked(kids, start, kids.len()).unwrap().0);
        }
        Ok(())
    }
}

/// Lays out the document under `node` in a viewport: builds its layout tree
/// and gives every block its geometry, the root against the viewport with
/// nothing in it yet. Every block that is reached through blocks alone is
/// exactly as wide as the content of the block around it.
pub fn layout_tree<'a>(node: &'a StyledNode<'a>, containing_block: Dimensions) -> (r: Result<
    LayoutBox<'a>,
    LayoutError,
>)
    ensures
        match r {
            Ok(root) => {
                &&& node@.display() != Display::DisplayNone
                &&& laid_out(tree_of(node@), initial_containing_block(containing_block)) == Some(
                    root@,
                )
                &&& fills(root@, containing_block.content.width as int)
                &&& stands_for(root@) == shown(node@)
                &&& grouped(root@)
            },
            Err(e) => if node@.display() == Display::DisplayNone {
                e == LayoutError::RootDisplayNone
            } else {
                e == LayoutError::Overflow && laid_out(
                    tree_of(node@),
                    initial_containing_block(containing_block),
                ).is_none()
            },
        },
{
    let mut containing = containing_block;
    containing.content.height = 0;
    let mut root_box = build_layout_tree(node)?;
    proof {
        if laid_out(root_box@, containing).is_some() {
            lemma_laid_out_boxes_fill(root_box@, containing);
            lemma_laid_out_keeps_the_boxes(root_box@, containing);
            lemma_same_boxes(root_box@, laid_out(root_box@, containing).unwrap());
        }
    }
    root_box.layout(containing)?;
    Ok(root_box)
}

} // verus!
