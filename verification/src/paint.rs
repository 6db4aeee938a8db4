//! Painting: the colour of each pixel of a canvas under a laid-out tree of
//! boxes. Backgrounds and borders are painted; text is not.

use vstd::prelude::*;
use vstd::arithmetic::div_mod::{lemma_fundamental_div_mod, lemma_fundamental_div_mod_converse};
use crate::css::{Color, Value, ValueView};
use crate::layout::{lemma_view_children, narrow, stored, BoxModel, BoxType, LayoutBox, Rect};

verus! {

/// Something to paint: a rectangle in one colour.
#[derive(Clone, Copy, Debug, PartialEq, Eq, Structural)]
pub enum DisplayCommand {
    SolidColor(Color, Rect),
}

/// Commands in the order in which they are painted.
pub type DisplayList = Vec<DisplayCommand>;

/// The pixels of an image, row by row from the top.
pub struct Canvas {
    pub pixels: Vec<Color>,
    pub width: usize,
    pub height: usize,
}

/// The colour of a canvas before anything is painted.
pub open spec fn white() -> Color {
    Color { r: 255, g: 255, b: 255, a: 255 }
}

/// Whether the pixel in column `x` and row `y` lies inside `rect`.
pub open spec fn covers(rect: Rect, x: int, y: int) -> bool {
    rect.x <= x < rect.x + rect.width && rect.y <= y < rect.y + rect.height
}

impl DisplayCommand {
    /// The colour of the pixel in column `x` and row `y` once the command
    /// is carried out, where it had the colour `under` before.
    pub open spec fn over(self, under: Color, x: int, y: int) -> Color {
        match self {
            DisplayCommand::SolidColor(color, rect) => if covers(rect, x, y) {
                color
            } else {
                under
            },
        }
    }
}

/// The colour of a pixel after the first `n` of `commands`: that of the
/// last of them that covers it, and white where none does.
pub open spec fn painted(commands: Seq<DisplayCommand>, n: nat, x: int, y: int) -> Color
    decreases n,
{
    if n == 0 || n > commands.len() {
        white()
    } else {
        commands[n - 1].over(painted(commands, (n - 1) as nat, x, y), x, y)
    }
}

/// The colour that a box declares under `name`. An anonymous block
/// declares none.
pub open spec fn color_of(b: BoxModel, name: Seq<char>) -> Option<Color> {
    match b.box_type.styled_node() {
        Some(style) => match style.value(name) {
            Some(ValueView::ColorValue(color)) => Some(color),
            _ => None,
        },
        None => None,
    }
}

/// The background of a box: its border box in its `background` colour.
pub open spec fn background_of(b: BoxModel) -> Seq<DisplayCommand> {
    match (color_of(b, "background"@), b.dimensions.spec_border_box()) {
        (Some(color), Some(border_box)) => seq![DisplayCommand::SolidColor(color, border_box)],
        _ => Seq::empty(),
    }
}

/// The strip of `width` along the left side of `outer`.
pub open spec fn left_strip(outer: Rect, width: i64) -> Rect {
    Rect { width, ..outer }
}

/// The strip of `width` along the right side of `outer`, where it can be
/// stored.
pub open spec fn right_strip(outer: Rect, width: i64) -> Option<Rect> {
    match stored(outer.x + outer.width - width) {
        Some(x) => Some(Rect { x, width, ..outer }),
        None => None,
    }
}

/// The strip of `height` along the top of `outer`.
pub open spec fn top_strip(outer: Rect, height: i64) -> Rect {
    Rect { height, ..outer }
}

/// The strip of `height` along the bottom of `outer`, where it can be
/// stored.
pub open spec fn bottom_strip(outer: Rect, height: i64) -> Option<Rect> {
    match stored(outer.y + outer.height - height) {
        Some(y) => Some(Rect { y, height, ..outer }),
        None => None,
    }
}

/// One command for `rect` in `color`, if there is a rectangle.
pub open spec fn solid(color: Color, rect: Option<Rect>) -> Seq<DisplayCommand> {
    match rect {
        Some(rect) => seq![DisplayCommand::SolidColor(color, rect)],
        None => Seq::empty(),
    }
}

/// The borders of a box: the left, right, top and bottom strips of its
/// border box, as wide as the borders, in its `border-color`.
pub open spec fn borders_of(b: BoxModel) -> Seq<DisplayCommand> {
    match (color_of(b, "border-color"@), b.dimensions.spec_border_box()) {
        (Some(color), Some(outer)) => {
            let border = b.dimensions.border;
            solid(color, Some(left_strip(outer, border.left))) + solid(
                color,
                right_strip(outer, border.right),
            ) + solid(color, Some(top_strip(outer, border.top))) + solid(
                color,
                bottom_strip(outer, border.bottom),
            )
        },
        _ => Seq::empty(),
    }
}

/// The commands that paint a box and what it holds: its background, its
/// borders, then its children in order.
pub open spec fn commands_of(b: BoxModel) -> Seq<DisplayCommand>
    decreases b,
{
    background_of(b) + borders_of(b) + commands_of_all(b.children, b.children.len())
}

/// The commands that paint the first `n` of `boxes`, one box after the
/// other.
pub open spec fn commands_of_all(boxes: Seq<BoxModel>, n: nat) -> Seq<DisplayCommand>
    decreases boxes, n,
{
    if n == 0 || n > boxes.len() {
        Seq::empty()
    } else {
        commands_of_all(boxes, (n - 1) as nat) + commands_of(boxes[n - 1])
    }
}

/// The colour that a box declares under `name`.
fn get_color(layout_box: &LayoutBox, name: &str) -> (r: Option<Color>)
    ensures
        r == color_of(layout_box@, name@),
{
    match layout_box.box_type {
        BoxType::BlockNode(style) | BoxType::InlineNode(style) => match style.value(name) {
            Some(Value::ColorValue(color)) => Some(color),
            _ => None,
        },
        BoxType::AnonymousBlock => None,
    }
}

/// Adds the background of a box to the list.
fn render_background(list: &mut DisplayList, layout_box: &LayoutBox)
    ensures
        final(list)@ == old(list)@ + background_of(layout_box@),
{
    match (get_color(layout_box, "background"), layout_box.dimensions.border_box()) {
        (Some(color), Some(border_box)) => {
            list.push(DisplayCommand::SolidColor(color, border_box));
            assert(list@ =~= old(list)@ + background_of(layout_box@));
        },
        _ => {
            assert(list@ =~= old(list)@ + background_of(layout_box@));
        },
    }
}

/// Adds the borders of a box to the list.
fn render_borders(list: &mut DisplayList, layout_box: &LayoutBox)
    ensures
        final(list)@ == old(list)@ + borders_of(layout_box@),
{
    let color = match get_color(layout_box, "border-color") {
        Some(color) => color,
        _ => {
            assert(list@ =~= old(list)@ + borders_of(layout_box@));
            return ;
        },
    };
    let d = layout_box.dimensions;
    let border_box = match d.border_box() {
        Some(border_box) => border_box,
        None => {
            assert(list@ =~= old(list)@ + borders_of(layout_box@));
            return ;
        },
    };

    // Left border
    list.push(
        DisplayCommand::SolidColor(
            color,
            Rect {
                x: border_box.x,
                y: border_box.y,
                width: d.border.left,
                height: border_box.height,
            },
        ),
    );

    // Right border
    match narrow(border_box.x as i128 + border_box.width as i128 - d.border.right as i128) {
        Some(x) => list.push(
            DisplayCommand::SolidColor(
                color,
                Rect { x, y: border_box.y, width: d.border.right, height: border_box.height },
            ),
        ),
        None => {},
    }

    // Top border
    list.push(
        DisplayCommand::SolidColor(
            color,
            Rect {
                x: border_box.x,
                y: border_box.y,
                width: border_box.width,
                height: d.border.top,
            },
        ),
    );

    // Bottom border
    match narrow(border_box.y as i128 + border_box.height as i128 - d.border.bottom as i128) {
        Some(y) => list.push(
            DisplayCommand::SolidColor(
                color,
                Rect { x: border_box.x, y, width: border_box.width, height: d.border.bottom },
            ),
        ),
        None => {},
    }
    assert(list@ =~= old(list)@ + borders_of(layout_box@));
}

/// Adds what paints a box and the boxes in it to the list.
fn render_layout_box(list: &mut DisplayList, layout_box: &LayoutBox)
    ensures
        final(list)@ == old(list)@ + commands_of(layout_box@),
    decreases layout_box,
{
    render_background(list, layout_box);
    render_borders(list, layout_box);
    let ghost own = list@;
    proof {
        lemma_view_children(*layout_box);
    }
    let mut i: usize = 0;
    while i < layout_box.children.len()
        invariant
            i <= layout_box.children@.len(),
            layout_box@.children.len() == layout_box.children@.len(),
            forall|k: int|
                0 <= k < layout_box.children@.len() ==> layout_box@.children[k] == (
                #[trigger] layout_box.children@[k])@,
            list@ == own + commands_of_all(layout_box@.children, i as nat),
        decreases layout_box.children@.len() - i,
    {
        let ghost before = list@;
        render_layout_box(list, &layout_box.children[i]);
        assert(list@ =~= own + commands_of_all(layout_box@.children, (i + 1) as nat));
        i += 1;
    }
    assert(list@ =~= old(list)@ + commands_of(layout_box@));
}

/// The commands that paint a tree of boxes, in the order in which they are
/// painted.
pub fn build_display_list(layout_root: &LayoutBox) -> (r: DisplayList)
    ensures
        r@ == commands_of(layout_root@),
{
    let mut list: DisplayList = Vec::new();
    render_layout_box(&mut list, layout_root);
    assert(list@ =~= commands_of(layout_root@));
    list
}

/// `v` pushed into the range from zero to `limit`.
fn clip(v: i128, limit: usize) -> (r: usize)
    ensures
        r == if v < 0 {
            0
        } else if v > limit {
            limit as int
        } else {
            v as int
        },
{
    if v < 0 {
        0
    } else if v > limit as i128 {
        limit
    } else {
        v as usize
    }
}

/// A side of a canvas for a side of a rectangle, where it can be counted.
fn side(v: i64) -> (r: Option<usize>)
    ensures
        match r {
            Some(n) => n == side_of(v),
            None => side_of(v) > usize::MAX,
        },
{
    if v < 0 {
        Some(0)
    } else if v as u64 <= usize::MAX as u64 {
        Some(v as usize)
    } else {
        None
    }
}

impl Canvas {
    /// There is one pixel for each column of each row.
    pub open spec fn well_formed(&self) -> bool {
        self.pixels@.len() == self.width * self.height
    }

    /// The pixel in column `x` of row `y`.
    pub open spec fn spec_pixel(&self, x: int, y: int) -> Color {
        self.pixels@[y * self.width + x]
    }

    /// A white canvas. `None` where it would hold more pixels than can be
    /// counted.
    fn new(width: usize, height: usize) -> (r: Option<Canvas>)
        ensures
            match r {
                Some(canvas) => {
                    &&& canvas.well_formed()
                    &&& canvas.width == width
                    &&& canvas.height == height
                    &&& width * height <= usize::MAX
                    &&& forall|i: int|
                        0 <= i < canvas.pixels@.len() ==> #[trigger] canvas.pixels@[i] == white()
                },
                None => width * height > usize::MAX,
            },
    {
        let white = Color { r: 255, g: 255, b: 255, a: 255 };
        match width.checked_mul(height) {
            Some(count) => Some(Canvas { pixels: vec![white; count], width, height }),
            None => None,
        }
    }

    /// Paints a rectangle, as far as it lies on the canvas.
    fn paint_item(&mut self, item: &DisplayCommand)
        requires
            old(self).well_formed(),
        ensures
            final(self).well_formed(),
            final(self).width == old(self).width,
            final(self).height == old(self).height,
            forall|x: int, y: int|
                0 <= x < old(self).width && 0 <= y < old(self).height
                    ==> #[trigger] final(self).spec_pixel(x, y) == item.over(
                    old(self).spec_pixel(x, y),
                    x,
                    y,
                ),
    {
        match *item {
            DisplayCommand::SolidColor(color, rect) => {
                // Clip the rectangle to the canvas.
                let x0 = clip(rect.x as i128, self.width);
                let y0 = clip(rect.y as i128, self.height);
                let x1 = clip(rect.x as i128 + rect.width as i128, self.width);
                let y1 = clip(rect.y as i128 + rect.height as i128, self.height);
                let width = self.width;
                let height = self.height;
                let ghost given = self.pixels@;

                let mut y: usize = y0;
                while y < y1
                    invariant
                        self.width == width,
                        self.height == height,
                        self.pixels.len() == given.len(),
                        given.len() == width * height,
                        x1 <= width,
                        y1 <= height,
                        y0 <= y,
                        y <= y1 || y == y0,
                        forall|i: int|
                            0 <= i < given.len() ==> #[trigger] self.pixels@[i] == if y0 <= i
                                / (width as int) < y && x0 <= i % (width as int) < x1 {
                                color
                            } else {
                                given[i]
                            },
                    decreases y1 - y,
                {
                    let mut x: usize = x0;
                    while x < x1
                        invariant
                            self.width == width,
                            self.height == height,
                            self.pixels.len() == given.len(),
                            given.len() == width * height,
                            x1 <= width,
                            y1 <= height,
                            y0 <= y < y1,
                            x0 <= x,
                            forall|i: int|
                                0 <= i < given.len() ==> #[trigger] self.pixels@[i] == if x0 <= i
                                    % (width as int) < x1 && (y0 <= i / (width as int) < y || (i / (
                                width as int) == y && i % (width as int) < x)) {
                                    color
                                } else {
                                    given[i]
                                },
                        decreases x1 - x,
                    {
                        proof {
                            lemma_pixel_index(x as int, y as int, width as int, height as int);
                        }
                        let ghost before = self.pixels@;
                        let index: usize = y * width + x;
                        self.pixels[index] = color;
                        assert forall|i: int| 0 <= i < given.len() implies (
                        #[trigger] self.pixels@[i]) == if x0 <= i % (width as int) < x1 && (y0 <= i
                            / (width as int) < y || (i / (width as int) == y && i % (width as int)
                            < x + 1)) {
                            color
                        } else {
                            given[i]
                        } by {
                            let w = width as int;
                            lemma_fundamental_div_mod(i, w);
                            assert(w * (i / w) == (i / w) * w) by (nonlinear_arith);
                            assert(i / w == y && i % w == x <==> i == index);
                            if i != index {
                                assert(self.pixels@[i] == before[i]);
                            }
                        }
                        x += 1;
                    }
                    y += 1;
                }
                assert forall|x: int, y: int| 0 <= x < width && 0 <= y < height implies (
                #[trigger] self.spec_pixel(x, y)) == if covers(rect, x, y) {
                    color
                } else {
                    old(self).spec_pixel(x, y)
                } by {
                    lemma_pixel_index(x, y, width as int, height as int);
                }
            },
        }
    }
}

/// The pixel in column `x` of row `y` stands at `y * width + x`, inside the
/// canvas, and no other pixel stands there.
proof fn lemma_pixel_index(x: int, y: int, width: int, height: int)
    requires
        0 <= x < width,
        0 <= y < height,
    ensures
        0 <= y * width + x < width * height,
        (y * width + x) / width == y,
        (y * width + x) % width == x,
{
    assert(0 <= y * width) by (nonlinear_arith)
        requires
            0 <= y,
            0 <= width,
    ;
    assert(y * width + width <= width * height) by (nonlinear_arith)
        requires
            0 <= y < height,
            0 <= width,
    ;
    lemma_fundamental_div_mod_converse(y * width + x, width, y, x);
}

/// A side of a canvas for a side of a rectangle: nothing for a negative
/// one.
pub open spec fn side_of(v: i64) -> int {
    if v < 0 {
        0
    } else {
        v as int
    }
}

/// Whether a canvas as large as `bounds` has sides and a number of pixels
/// that can be counted.
pub open spec fn countable(bounds: Rect) -> bool {
    &&& side_of(bounds.width) <= usize::MAX
    &&& side_of(bounds.height) <= usize::MAX
    &&& side_of(bounds.width) * side_of(bounds.height) <= usize::MAX
}

/// Paints a tree of boxes on a white canvas as large as `bounds`: each
/// pixel gets the colour of the last command that covers it. `None` where
/// the pixels of such a canvas cannot be counted.
pub fn paint(layout_root: &LayoutBox, bounds: Rect) -> (r: Option<Canvas>)
    ensures
        match r {
            Some(canvas) => {
                &&& countable(bounds)
                &&& canvas.well_formed()
                &&& canvas.width == side_of(bounds.width)
                &&& canvas.height == side_of(bounds.height)
                &&& forall|x: int, y: int|
                    0 <= x < canvas.width && 0 <= y < canvas.height
                        ==> #[trigger] canvas.spec_pixel(x, y) == painted(
                        commands_of(layout_root@),
                        commands_of(layout_root@).len(),
                        x,
                        y,
                    )
            },
            None => !countable(bounds),
        },
{
    let display_list = build_display_list(layout_root);
    let width = side(bounds.width)?;
    let height = side(bounds.height)?;
    let mut canvas = Canvas::new(width, height)?;
    assert forall|x: int, y: int| 0 <= x < width && 0 <= y < height implies (
    #[trigger] canvas.spec_pixel(x, y)) == white() by {
        lemma_pixel_index(x, y, width as int, height as int);
    }
    let mut i: usize = 0;
    while i < display_list.len()
        invariant
            i <= display_list@.len(),
            canvas.well_formed(),
            canvas.width == width,
            canvas.height == height,
            forall|x: int, y: int|
                0 <= x < width && 0 <= y < height ==> #[trigger] canvas.spec_pixel(x, y)
                    == painted(display_list@, i as nat, x, y),
        decreases display_list@.len() - i,
    {
        canvas.paint_item(&display_list[i]);
        i += 1;
    }
    Some(canvas)
}

} // verus!
