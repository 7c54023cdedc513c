//! The sizing properties a component can be wrapped in: a margin on one of its sides, and a lower
//! or an upper limit on its width or height. Each changes the size the component asks for, and
//! the part of its region that the wrapped component is drawn in. Amounts are in pixels.
use crate::geometry::{saturating_sum, smaller, Dimensions, Position};
use vstd::prelude::*;

verus! {

/// A side of a component.
#[derive(Clone, Copy, Debug, PartialEq, Eq, Structural)]
pub enum Side {
    Top,
    Bottom,
    Left,
    Right,
}

/// A limit on one of a component's sizes.
#[derive(Clone, Copy, Debug, PartialEq, Eq, Structural)]
pub enum Limit {
    MaximumHeight,
    MinimumHeight,
    MaximumWidth,
    MinimumWidth,
}

/// The larger of two sizes.
pub open spec fn larger(a: u32, b: u32) -> u32 {
    if a >= b {
        a
    } else {
        b
    }
}

/// What is left of a size once an amount is taken from it, 0 when the amount is larger.
pub open spec fn shrunk(size: u32, amount: u32) -> u32 {
    if size >= amount {
        (size - amount) as u32
    } else {
        0
    }
}

/// The size a component asks for with a margin on one side: its own, grown by the margin across
/// that side (capped at `u32::MAX`).
pub open spec fn margined_size(side: Side, amount: u32, child: Dimensions) -> Dimensions {
    match side {
        Side::Top | Side::Bottom => Dimensions {
            width: child.width,
            height: saturating_sum(child.height, amount),
        },
        Side::Left | Side::Right => Dimensions {
            width: saturating_sum(child.width, amount),
            height: child.height,
        },
    }
}

/// Where, within the region of a component with a margin on one side, the wrapped component is
/// drawn: the offset past the margin and the region that the margin leaves.
pub open spec fn margin_request(side: Side, amount: u32, region: Dimensions) -> (
    Position,
    Dimensions,
) {
    match side {
        Side::Top => (
            Position { horizontal: 0, vertical: amount },
            Dimensions { width: region.width, height: shrunk(region.height, amount) },
        ),
        Side::Bottom => (
            Position { horizontal: 0, vertical: 0 },
            Dimensions { width: region.width, height: shrunk(region.height, amount) },
        ),
        Side::Left => (
            Position { horizontal: amount, vertical: 0 },
            Dimensions { width: shrunk(region.width, amount), height: region.height },
        ),
        Side::Right => (
            Position { horizontal: 0, vertical: 0 },
            Dimensions { width: shrunk(region.width, amount), height: region.height },
        ),
    }
}

/// The size a component asks for under a limit: the limited size raised to, or cut down to, the
/// amount; the other size as it is.
pub open spec fn limited_size(limit: Limit, amount: u32, child: Dimensions) -> Dimensions {
    match limit {
        Limit::MaximumHeight => Dimensions {
            width: child.width,
            height: smaller(child.height, amount),
        },
        Limit::MinimumHeight => Dimensions {
            width: child.width,
            height: larger(child.height, amount),
        },
        Limit::MaximumWidth => Dimensions {
            width: smaller(child.width, amount),
            height: child.height,
        },
        Limit::MinimumWidth => Dimensions {
            width: larger(child.width, amount),
            height: child.height,
        },
    }
}

/// Where, within the region of a component under a limit, the wrapped component is drawn: an
/// upper limit draws it at the start of a region of the limited size, a lower limit draws it in
/// the region as it is (`None`).
pub open spec fn limit_request(limit: Limit, amount: u32, region: Dimensions) -> Option<
    (Position, Dimensions),
> {
    match limit {
        Limit::MaximumHeight => Some(
            (
                Position { horizontal: 0, vertical: 0 },
                Dimensions { width: region.width, height: amount },
            ),
        ),
        Limit::MaximumWidth => Some(
            (
                Position { horizontal: 0, vertical: 0 },
                Dimensions { width: amount, height: region.height },
            ),
        ),
        Limit::MinimumHeight | Limit::MinimumWidth => None,
    }
}

/// The size a component asks for with a margin of `amount` pixels on one side.
pub fn margin_measure(side: Side, amount: u32, child: Dimensions) -> (r: Dimensions)
    ensures
        r == margined_size(side, amount, child),
{
    let margin = match side {
        Side::Top | Side::Bottom => Dimensions::new(0, amount),
        Side::Left | Side::Right => Dimensions::new(amount, 0),
    };
    margin.saturating_add(child)
}

/// The offset and region, within `region`, in which a component with a margin of `amount` pixels
/// on one side draws the component it wraps.
pub fn margin_region(side: Side, amount: u32, region: Dimensions) -> (r: (Position, Dimensions))
    ensures
        r == margin_request(side, amount, region),
{
    match side {
        Side::Top => (
            Position::new(0, amount),
            Dimensions::new(region.width, region.height.saturating_sub(amount)),
        ),
        Side::Bottom => (
            Position::zero(),
            Dimensions::new(region.width, region.height.saturating_sub(amount)),
        ),
        Side::Left => (
            Position::new(amount, 0),
            Dimensions::new(region.width.saturating_sub(amount), region.height),
        ),
        Side::Right => (
            Position::zero(),
            Dimensions::new(region.width.saturating_sub(amount), region.height),
        ),
    }
}

/// The size a component asks for under a limit of `amount` pixels.
pub fn limit_measure(limit: Limit, amount: u32, child: Dimensions) -> (r: Dimensions)
    ensures
        r == limited_size(limit, amount, child),
{
    match limit {
        Limit::MaximumHeight => Dimensions::new(
            child.width,
            if child.height <= amount {
                child.height
            } else {
                amount
            },
        ),
        Limit::MinimumHeight => Dimensions::new(
            child.width,
            if child.height >= amount {
                child.height
            } else {
                amount
            },
        ),
        Limit::MaximumWidth => Dimensions::new(
            if child.width <= amount {
                child.width
            } else {
                amount
            },
            child.height,
        ),
        Limit::MinimumWidth => Dimensions::new(
            if child.width >= amount {
                child.width
            } else {
                amount
            },
            child.height,
        ),
    }
}

/// The offset and region, within `region`, in which a component under a limit of `amount` pixels
/// draws the component it wraps; `None` where that is the region itself.
pub fn limit_region(limit: Limit, amount: u32, region: Dimensions) -> (r: Option<
    (Position, Dimensions),
>)
    ensures
        r == limit_request(limit, amount, region),
{
    match limit {
        Limit::MaximumHeight => Some((Position::zero(), Dimensions::new(region.width, amount))),
        Limit::MaximumWidth => Some((Position::zero(), Dimensions::new(amount, region.height))),
        Limit::MinimumHeight | Limit::MinimumWidth => None,
    }
}

/// A fixed height, an upper limit around a lower limit of the same amount, asks for exactly that
/// height whatever the wrapped component asks for, and leaves its width alone.
pub proof fn lemma_fixed_height(amount: u32, child: Dimensions)
    ensures
        limited_size(
            Limit::MaximumHeight,
            amount,
            limited_size(Limit::MinimumHeight, amount, child),
        ) == (Dimensions { width: child.width, height: amount }),
{
}

/// A fixed width, an upper limit around a lower limit of the same amount, asks for exactly that
/// width whatever the wrapped component asks for, and leaves its height alone.
pub proof fn lemma_fixed_width(amount: u32, child: Dimensions)
    ensures
        limited_size(
            Limit::MaximumWidth,
            amount,
            limited_size(Limit::MinimumWidth, amount, child),
        ) == (Dimensions { width: amount, height: child.height }),
{
}

/// A margin never makes a component ask for less: it grows the size across its side by the
/// amount, up to `u32::MAX`, and leaves the other size alone.
pub proof fn lemma_margin_grows(side: Side, amount: u32, child: Dimensions)
    ensures
        ({
            let m = margined_size(side, amount, child);
            &&& child.width <= m.width
            &&& child.height <= m.height
            &&& (side is Top || side is Bottom) ==> m.width == child.width && (child.height
                + amount <= u32::MAX ==> m.height == child.height + amount)
            &&& (side is Left || side is Right) ==> m.height == child.height && (child.width
                + amount <= u32::MAX ==> m.width == child.width + amount)
        }),
{
}

/// The wrapped component and its margin together take up no more of the region than the region
/// holds, on the margin's axis, whenever the margin fits in the region.
pub proof fn lemma_margin_region_fits(side: Side, amount: u32, region: Dimensions)
    ensures
        ({
            let (offset, inner) = margin_request(side, amount, region);
            &&& (side is Top || side is Bottom) && amount <= region.height ==> inner.height
                + amount == region.height && offset.vertical + inner.height <= region.height
            &&& (side is Left || side is Right) && amount <= region.width ==> inner.width + amount
                == region.width && offset.horizontal + inner.width <= region.width
        }),
{
}

} // verus!
