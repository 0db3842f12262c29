use vstd::prelude::*;

verus! {

/// Where a text stands relative to its x coordinate.
#[derive(Debug, Clone, Copy, PartialEq, Eq)]
pub enum Anchor {
    /// text starts at x
    Start,
    /// text is centered on x
    Middle,
    /// text runs right to left and ends at x
    RightToLeft,
}

/// A drawing primitive on the canvas; y grows downward.
#[derive(Debug)]
pub enum Shape {
    Rect { x: i64, y: i64, width: i64, height: i64, fill: String, stroke: Option<String> },
    Line { x1: i64, y1: i64, x2: i64, y2: i64, stroke: String },
    Text {
        x: i64,
        y: i64,
        content: String,
        anchor: Anchor,
        bold: bool,
        font_size: Option<u32>,
        fill: Option<String>,
    },
}

pub open spec fn opt_chars(o: Option<String>) -> Option<Seq<char>> {
    match o {
        Some(s) => Some(s@),
        None => None,
    }
}

pub open spec fn is_rect(
    s: Shape,
    x: int,
    y: int,
    w: int,
    h: int,
    fill: Seq<char>,
    stroke: Option<Seq<char>>,
) -> bool {
    match s {
        Shape::Rect { x: a, y: b, width, height, fill: f, stroke: st } => a == x && b == y && width == w
            && height == h && f@ == fill && opt_chars(st) == stroke,
        _ => false,
    }
}

pub open spec fn is_line(s: Shape, x1: int, y1: int, x2: int, y2: int, stroke: Seq<char>) -> bool {
    match s {
        Shape::Line { x1: a, y1: b, x2: c, y2: d, stroke: st } => a == x1 && b == y1 && c == x2 && d == y2
            && st@ == stroke,
        _ => false,
    }
}

pub open spec fn is_text(
    s: Shape,
    x: int,
    y: int,
    content: Seq<char>,
    anchor: Anchor,
    bold: bool,
    font_size: Option<u32>,
    fill: Option<Seq<char>>,
) -> bool {
    match s {
        Shape::Text { x: a, y: b, content: c, anchor: an, bold: bo, font_size: fs, fill: f } => a == x && b
            == y && c@ == content && an == anchor && bo == bold && fs == font_size && opt_chars(f) == fill,
        _ => false,
    }
}

fn copy_opt(o: &Option<String>) -> (r: Option<String>)
    ensures
        opt_chars(r) == opt_chars(*o),
{
    match o {
        Some(s) => Some(s.clone()),
        None => None,
    }
}

pub fn rect(x: i64, y: i64, width: i64, height: i64, fill: &str, stroke: Option<&str>) -> (r: Shape)
    ensures
        is_rect(r, x as int, y as int, width as int, height as int, fill@, match stroke {
            Some(s) => Some(s@),
            None => None,
        }),
{
    let st = match stroke {
        Some(s) => Some(String::from_str(s)),
        None => None,
    };
    Shape::Rect { x, y, width, height, fill: String::from_str(fill), stroke: st }
}

pub fn line(x1: i64, y1: i64, x2: i64, y2: i64, stroke: &str) -> (r: Shape)
    ensures
        is_line(r, x1 as int, y1 as int, x2 as int, y2 as int, stroke@),
{
    Shape::Line { x1, y1, x2, y2, stroke: String::from_str(stroke) }
}

pub fn text(
    x: i64,
    y: i64,
    content: String,
    anchor: Anchor,
    bold: bool,
    font_size: Option<u32>,
    fill: &Option<String>,
) -> (r: Shape)
    ensures
        is_text(r, x as int, y as int, content@, anchor, bold, font_size, opt_chars(*fill)),
{
    Shape::Text { x, y, content, anchor, bold, font_size, fill: copy_opt(fill) }
}

} // verus!
