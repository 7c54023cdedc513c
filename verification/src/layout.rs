//! Placing things on screen: the window within the screen, a region within its parent, and the
//! extent of a column or a row of children.
use crate::geometry::{saturating_sum, smaller, Dimensions, Position};
use vstd::prelude::*;

verus! {

/// Where something sits along one axis of the space it is placed in.
#[derive(Clone, Copy, Debug, PartialEq, Eq, Structural)]
pub enum Alignment {
    Beginning,
    Center,
    End,
}

/// The offset at which a size sits within a larger one, under an alignment.
pub open spec fn aligned_offset(alignment: Alignment, size: u32, max_size: u32) -> u32 {
    match alignment {
        Alignment::Beginning => 0,
        Alignment::Center => ((max_size - size) / 2) as u32,
        Alignment::End => (max_size - size) as u32,
    }
}

/// The offset at which a size sits within a larger one, under an alignment.
pub fn align_position(alignment: Alignment, size: u32, max_size: u32) -> (r: u32)
    requires
        size <= max_size,
    ensures
        r == aligned_offset(alignment, size, max_size),
{
    match alignment {
        Alignment::Beginning => 0,
        Alignment::Center => (max_size - size) / 2,
        Alignment::End => max_size - size,
    }
}

/// The window's size and position on the screen: the requested size, cut down to the screen,
/// placed on each axis as the alignments say.
pub fn window_geometry(
    screen: Dimensions,
    requested: Dimensions,
    horizontal: Alignment,
    vertical: Alignment,
) -> (r: (Dimensions, Position))
    ensures
        r.0.width == smaller(screen.width, requested.width),
        r.0.height == smaller(screen.height, requested.height),
        r.1.horizontal == aligned_offset(horizontal, r.0.width, screen.width),
        r.1.vertical == aligned_offset(vertical, r.0.height, screen.height),
{
    let size = screen.intersect(requested);
    let position = Position::new(
        align_position(horizontal, size.width, screen.width),
        align_position(vertical, size.height, screen.height),
    );
    (size, position)
}

/// The window always fits on the screen: its far edge is never past the screen's on either axis.
pub proof fn lemma_window_fits(
    screen: Dimensions,
    requested: Dimensions,
    horizontal: Alignment,
    vertical: Alignment,
)
    ensures
        ({
            let w = smaller(screen.width, requested.width);
            let h = smaller(screen.height, requested.height);
            &&& aligned_offset(horizontal, w, screen.width) + w <= screen.width
            &&& aligned_offset(vertical, h, screen.height) + h <= screen.height
        }),
{
}

/// The offset and region of a subregion placed at `offset` within a region at `parent_offset` of
/// size `parent_region`, or `None` when nothing of it is left to draw in: its size is cut down to
/// what remains of the parent past the offset.
pub open spec fn subregion_of(
    parent_offset: Position,
    parent_region: Dimensions,
    offset: Position,
    region: Dimensions,
) -> Option<(Position, Dimensions)> {
    let remaining_width = if parent_region.width >= offset.horizontal {
        (parent_region.width - offset.horizontal) as u32
    } else {
        0
    };
    let remaining_height = if parent_region.height >= offset.vertical {
        (parent_region.height - offset.vertical) as u32
    } else {
        0
    };
    let width = smaller(region.width, remaining_width);
    let height = smaller(region.height, remaining_height);
    if width == 0 || height == 0 {
        None
    } else {
        Some(
            (
                Position {
                    horizontal: saturating_sum(parent_offset.horizontal, offset.horizontal),
                    vertical: saturating_sum(parent_offset.vertical, offset.vertical),
                },
                Dimensions { width, height },
            ),
        )
    }
}

/// Places a subregion within its parent region.
pub fn subregion(
    parent_offset: Position,
    parent_region: Dimensions,
    offset: Position,
    region: Dimensions,
) -> (r: Option<(Position, Dimensions)>)
    ensures
        r == subregion_of(parent_offset, parent_region, offset, region),
{
    let final_offset = parent_offset.saturating_add(offset);
    let final_region = region.intersect(
        Dimensions::new(
            parent_region.width.saturating_sub(offset.horizontal),
            parent_region.height.saturating_sub(offset.vertical),
        ),
    );
    if final_region.width == 0 || final_region.height == 0 {
        None
    } else {
        Some((final_offset, final_region))
    }
}

/// A subregion never reaches past its parent: its size plus its offset within the parent is at
/// most the parent's size on each axis.
pub proof fn lemma_subregion_fits(
    parent_offset: Position,
    parent_region: Dimensions,
    offset: Position,
    region: Dimensions,
)
    ensures
        subregion_of(parent_offset, parent_region, offset, region) matches Some((_, d)) ==> d.width
            + offset.horizontal <= parent_region.width && d.height + offset.vertical
            <= parent_region.height && d.width <= region.width && d.height <= region.height,
{
}

/// The sum of the sizes.
pub open spec fn total(sizes: Seq<u32>) -> int
    decreases sizes.len(),
{
    if sizes.len() == 0 {
        0
    } else {
        total(sizes.drop_last()) + sizes.last()
    }
}

/// The largest of the sizes, 0 for none.
pub open spec fn largest(sizes: Seq<u32>) -> u32
    decreases sizes.len(),
{
    if sizes.len() == 0 {
        0
    } else {
        let rest = largest(sizes.drop_last());
        if sizes.last() > rest {
            sizes.last()
        } else {
            rest
        }
    }
}

/// The widths of the children.
pub open spec fn widths(children: Seq<Dimensions>) -> Seq<u32> {
    children.map_values(|d: Dimensions| d.width)
}

/// The heights of the children.
pub open spec fn heights(children: Seq<Dimensions>) -> Seq<u32> {
    children.map_values(|d: Dimensions| d.height)
}

/// The extent of children stacked along one axis: the sum of their sizes along it and the
/// largest of their sizes across it.
fn stacked_extent(along: &Vec<u32>, across: &Vec<u32>) -> (r: (u32, u32))
    requires
        along@.len() == across@.len(),
        total(along@) <= u32::MAX,
    ensures
        r.0 == total(along@),
        r.1 == largest(across@),
{
    let mut sum: u32 = 0;
    let mut max: u32 = 0;
    let mut i: usize = 0;
    while i < along.len()
        invariant
            i <= along@.len(),
            along@.len() == across@.len(),
            total(along@) <= u32::MAX,
            sum == total(along@.take(i as int)),
            max == largest(across@.take(i as int)),
        decreases along@.len() - i,
    {
        proof {
            assert(along@.take(i + 1).drop_last() =~= along@.take(i as int));
            assert(across@.take(i + 1).drop_last() =~= across@.take(i as int));
            lemma_total_prefix(along@, i + 1);
        }
        sum = sum + along[i];
        if across[i] > max {
            max = across[i];
        }
        i += 1;
    }
    proof {
        assert(along@.take(i as int) =~= along@);
        assert(across@.take(i as int) =~= across@);
    }
    (sum, max)
}

/// A prefix of non-negative sizes sums to no more than all of them.
proof fn lemma_total_prefix(sizes: Seq<u32>, n: int)
    requires
        0 <= n <= sizes.len(),
    ensures
        total(sizes.take(n)) <= total(sizes),
    decreases sizes.len() - n,
{
    if n < sizes.len() {
        lemma_total_prefix(sizes, n + 1);
        assert(sizes.take(n + 1).drop_last() =~= sizes.take(n));
    } else {
        assert(sizes.take(n) =~= sizes);
    }
}

/// Sizes never add up to less than nothing.
proof fn lemma_total_nonnegative(sizes: Seq<u32>)
    ensures
        total(sizes) >= 0,
    decreases sizes.len(),
{
    if sizes.len() > 0 {
        lemma_total_nonnegative(sizes.drop_last());
    }
}

/// The sizes of the children along one axis.
fn sides(children: &Vec<Dimensions>, horizontal: bool) -> (r: Vec<u32>)
    ensures
        r@ == (if horizontal {
            widths(children@)
        } else {
            heights(children@)
        }),
{
    let mut r: Vec<u32> = Vec::new();
    let mut i: usize = 0;
    while i < children.len()
        invariant
            i <= children@.len(),
            r@ == (if horizontal {
                widths(children@)
            } else {
                heights(children@)
            }).take(i as int),
        decreases children@.len() - i,
    {
        let d = children[i];
        r.push(
            if horizontal {
                d.width
            } else {
                d.height
            },
        );
        proof {
            assert(r@ =~= (if horizontal {
                widths(children@)
            } else {
                heights(children@)
            }).take(i + 1));
        }
        i += 1;
    }
    proof {
        assert((if horizontal {
            widths(children@)
        } else {
            heights(children@)
        }).take(i as int) =~= (if horizontal {
            widths(children@)
        } else {
            heights(children@)
        }));
    }
    r
}

/// The extent of a column of children: as wide as the widest child, as high as all children
/// together.
pub fn column_extent(children: &Vec<Dimensions>) -> (r: Dimensions)
    requires
        total(heights(children@)) <= u32::MAX,
    ensures
        r.width == largest(widths(children@)),
        r.height == total(heights(children@)),
{
    let w = sides(children, true);
    let h = sides(children, false);
    let (height, width) = stacked_extent(&h, &w);
    Dimensions::new(width, height)
}

/// The extent of a row of children: as wide as all children together, as high as the highest
/// child.
pub fn row_extent(children: &Vec<Dimensions>) -> (r: Dimensions)
    requires
        total(widths(children@)) <= u32::MAX,
    ensures
        r.width == total(widths(children@)),
        r.height == largest(heights(children@)),
{
    let w = sides(children, true);
    let h = sides(children, false);
    let (width, height) = stacked_extent(&w, &h);
    Dimensions::new(width, height)
}

/// The place of child `i` in a column within `region`: below all children before it, as wide as
/// the column, as high as the child.
pub open spec fn column_slot(region: Dimensions, heights: Seq<u32>, i: int) -> (Position, Dimensions) {
    (
        Position { horizontal: 0, vertical: total(heights.take(i)) as u32 },
        Dimensions { width: region.width, height: heights[i] },
    )
}

/// The place of child `i` in a row within `region`: right of all children before it, as wide as
/// the child, as high as the row.
pub open spec fn row_slot(region: Dimensions, widths: Seq<u32>, i: int) -> (Position, Dimensions) {
    (
        Position { horizontal: total(widths.take(i)) as u32, vertical: 0 },
        Dimensions { width: widths[i], height: region.height },
    )
}

/// The running sums of the sizes: entry `i` is the sum of the sizes before `i`.
fn offsets(sizes: &Vec<u32>) -> (r: Vec<u32>)
    requires
        total(sizes@) <= u32::MAX,
    ensures
        r@.len() == sizes@.len(),
        forall|i: int| 0 <= i < r@.len() ==> r@[i] == total(#[trigger] sizes@.take(i)),
{
    let mut r: Vec<u32> = Vec::new();
    let mut sum: u32 = 0;
    let mut i: usize = 0;
    while i < sizes.len()
        invariant
            i <= sizes@.len(),
            total(sizes@) <= u32::MAX,
            r@.len() == i,
            sum == total(sizes@.take(i as int)),
            forall|k: int| 0 <= k < i ==> r@[k] == total(#[trigger] sizes@.take(k)),
        decreases sizes@.len() - i,
    {
        r.push(sum);
        proof {
            assert(sizes@.take(i + 1).drop_last() =~= sizes@.take(i as int));
            lemma_total_prefix(sizes@, i + 1);
        }
        sum = sum + sizes[i];
        i += 1;
    }
    r
}

/// Where a column within `region` draws its children, given their heights: each below the ones
/// before it, as wide as the column.
pub fn column_placements(region: Dimensions, heights: &Vec<u32>) -> (r: Vec<(Position, Dimensions)>)
    requires
        total(heights@) <= u32::MAX,
    ensures
        r@.len() == heights@.len(),
        forall|i: int| 0 <= i < r@.len() ==> r@[i] == column_slot(region, heights@, i),
{
    let starts = offsets(heights);
    let mut r: Vec<(Position, Dimensions)> = Vec::new();
    let mut i: usize = 0;
    while i < heights.len()
        invariant
            i <= heights@.len(),
            starts@.len() == heights@.len(),
            forall|k: int| 0 <= k < starts@.len() ==> starts@[k] == total(#[trigger] heights@.take(k)),
            r@.len() == i,
            forall|k: int| 0 <= k < i ==> r@[k] == column_slot(region, heights@, k),
        decreases heights@.len() - i,
    {
        let start = starts[i];
        proof {
            assert(starts@[i as int] == total(heights@.take(i as int)));
        }
        r.push((Position::new(0, start), Dimensions::new(region.width, heights[i])));
        i += 1;
    }
    r
}

/// Where a row within `region` draws its children, given their widths: each right of the ones
/// before it, as high as the row.
pub fn row_placements(region: Dimensions, widths: &Vec<u32>) -> (r: Vec<(Position, Dimensions)>)
    requires
        total(widths@) <= u32::MAX,
    ensures
        r@.len() == widths@.len(),
        forall|i: int| 0 <= i < r@.len() ==> r@[i] == row_slot(region, widths@, i),
{
    let starts = offsets(widths);
    let mut r: Vec<(Position, Dimensions)> = Vec::new();
    let mut i: usize = 0;
    while i < widths.len()
        invariant
            i <= widths@.len(),
            starts@.len() == widths@.len(),
            forall|k: int| 0 <= k < starts@.len() ==> starts@[k] == total(#[trigger] widths@.take(k)),
            r@.len() == i,
            forall|k: int| 0 <= k < i ==> r@[k] == row_slot(region, widths@, k),
        decreases widths@.len() - i,
    {
        let start = starts[i];
        proof {
            assert(starts@[i as int] == total(widths@.take(i as int)));
        }
        r.push((Position::new(start, 0), Dimensions::new(widths[i], region.height)));
        i += 1;
    }
    r
}

/// The children of a column follow one another with no gap and no overlap: each starts where the
/// one before it ends, and the last ends at the column's measured height.
pub proof fn lemma_column_children_adjacent(region: Dimensions, heights: Seq<u32>, i: int)
    requires
        total(heights) <= u32::MAX,
        0 <= i < heights.len(),
    ensures
        i + 1 < heights.len() ==> column_slot(region, heights, i + 1).0.vertical == column_slot(
            region,
            heights,
            i,
        ).0.vertical + column_slot(region, heights, i).1.height,
        i + 1 == heights.len() ==> column_slot(region, heights, i).0.vertical + column_slot(
            region,
            heights,
            i,
        ).1.height == total(heights),
{
    assert(heights.take(i + 1).drop_last() =~= heights.take(i));
    assert(total(heights.take(i + 1)) == total(heights.take(i)) + heights[i]);
    lemma_total_nonnegative(heights.take(i));
    lemma_total_prefix(heights, i + 1);
    lemma_total_prefix(heights, i);
    if i + 1 < heights.len() {
        assert(column_slot(region, heights, i + 1).0.vertical == total(heights.take(i + 1)));
    } else {
        assert(heights.take(i + 1) =~= heights);
    }
}

/// The number of columns of a table of the given width: as many columns of `column_width` as the
/// width holds, and at least one.
pub open spec fn column_count(width: u32, column_width: u32) -> u32 {
    if width / column_width == 0 {
        1
    } else {
        (width / column_width) as u32
    }
}

/// The sum of the heights of a table's rows, where the cells of the given heights fill the rows
/// `n` at a time in order, and each row is as high as its highest cell.
pub open spec fn rows_total(heights: Seq<u32>, n: nat) -> int
    decreases heights.len(),
{
    if heights.len() == 0 || n == 0 {
        0
    } else if heights.len() <= n {
        largest(heights) as int
    } else {
        largest(heights.take(n as int)) + rows_total(heights.skip(n as int), n)
    }
}

/// A size, capped at `u32::MAX`.
pub open spec fn capped(size: int) -> u32 {
    if size > u32::MAX {
        u32::MAX
    } else if size < 0 {
        0
    } else {
        size as u32
    }
}

/// The number of columns of a table of the given width.
pub fn table_columns(width: u32, column_width: u32) -> (r: u32)
    requires
        column_width > 0,
    ensures
        r == column_count(width, column_width),
        r >= 1,
{
    let count = width / column_width;
    if count == 0 {
        1
    } else {
        count
    }
}

/// The width of each cell of a table of the given width: the width shared out evenly among its
/// columns.
pub fn table_cell_width(width: u32, column_width: u32) -> (r: u32)
    requires
        column_width > 0,
    ensures
        r == width / column_count(width, column_width),
{
    width / table_columns(width, column_width)
}

/// The largest of the sizes from `start` up to `end`.
fn largest_between(sizes: &Vec<u32>, start: usize, end: usize) -> (r: u32)
    requires
        start <= end <= sizes@.len(),
    ensures
        r == largest(sizes@.subrange(start as int, end as int)),
{
    let mut m: u32 = 0;
    let mut j: usize = start;
    while j < end
        invariant
            start <= j <= end <= sizes@.len(),
            m == largest(sizes@.subrange(start as int, j as int)),
        decreases end - j,
    {
        proof {
            assert(sizes@.subrange(start as int, j + 1).drop_last() =~= sizes@.subrange(
                start as int,
                j as int,
            ));
        }
        if sizes[j] > m {
            m = sizes[j];
        }
        j += 1;
    }
    m
}

/// The size a table within `region` asks for, given the heights its cells ask for: the region's
/// width, and the heights of its rows added up (capped at `u32::MAX`).
pub fn table_measure(region: Dimensions, column_width: u32, cell_heights: &Vec<u32>) -> (r:
    Dimensions)
    requires
        column_width > 0,
    ensures
        r.width == region.width,
        r.height == capped(
            rows_total(cell_heights@, column_count(region.width, column_width) as nat),
        ),
{
    let n = table_columns(region.width, column_width) as usize;
    let ghost count: nat = column_count(region.width, column_width) as nat;
    let len = cell_heights.len();
    let mut start: usize = 0;
    let mut acc: u32 = 0;
    let ghost mut sum: int = 0;
    proof {
        assert(cell_heights@.skip(0) =~= cell_heights@);
    }
    while start < len
        invariant
            len == cell_heights@.len(),
            start <= len,
            n == count,
            n >= 1,
            sum >= 0,
            sum + rows_total(cell_heights@.skip(start as int), count) == rows_total(
                cell_heights@,
                count,
            ),
            acc == capped(sum),
        decreases len - start,
    {
        let end = if len - start <= n {
            len
        } else {
            start + n
        };
        let m = largest_between(cell_heights, start, end);
        proof {
            let rest = cell_heights@.skip(start as int);
            if rest.len() <= count {
                assert(cell_heights@.subrange(start as int, end as int) =~= rest);
                assert(cell_heights@.skip(end as int).len() == 0);
            } else {
                assert(cell_heights@.subrange(start as int, end as int) =~= rest.take(
                    count as int,
                ));
                assert(rest.skip(count as int) =~= cell_heights@.skip(end as int));
            }
            sum = sum + m;
        }
        acc = acc.saturating_add(m);
        start = end;
    }
    Dimensions::new(region.width, acc)
}

/// The sum of sizes is the first size plus the sum of the rest.
proof fn lemma_total_first(sizes: Seq<u32>)
    requires
        sizes.len() > 0,
    ensures
        total(sizes) == sizes[0] + total(sizes.skip(1)),
    decreases sizes.len(),
{
    if sizes.len() == 1 {
        assert(total(sizes.drop_last()) == 0);
        assert(total(sizes.skip(1)) == 0);
        assert(total(sizes) == total(sizes.drop_last()) + sizes.last());
    } else {
        let front = sizes.drop_last();
        let rest = sizes.skip(1);
        lemma_total_first(front);
        assert(rest.drop_last() =~= front.skip(1));
        assert(total(rest) == total(rest.drop_last()) + rest.last());
        assert(total(sizes) == total(front) + sizes.last());
    }
}

/// With one cell to a row, the rows of a table add up to all its cells' heights.
proof fn lemma_one_per_row(heights: Seq<u32>)
    ensures
        rows_total(heights, 1) == total(heights),
    decreases heights.len(),
{
    if heights.len() == 1 {
        assert(largest(heights.drop_last()) == 0);
        assert(largest(heights) == heights[0]);
        lemma_total_first(heights);
        assert(total(heights.skip(1)) == 0);
    } else if heights.len() > 1 {
        lemma_one_per_row(heights.skip(1));
        lemma_total_first(heights);
        let first = heights.take(1);
        assert(largest(first.drop_last()) == 0);
        assert(largest(first) == heights[0]);
    }
}

/// A table whose region is narrower than two columns has one column: it asks for the height of
/// all its cells stacked, as a column of them would (capped at `u32::MAX`).
pub proof fn lemma_narrow_table_stacks(width: u32, column_width: u32, heights: Seq<u32>)
    requires
        column_width > 0,
        width < 2 * column_width,
    ensures
        column_count(width, column_width) == 1,
        capped(rows_total(heights, column_count(width, column_width) as nat)) == capped(
            total(heights),
        ),
{
    assert(width / column_width <= 1) by (nonlinear_arith)
        requires
            column_width > 0,
            width < 2 * column_width,
    ;
    lemma_one_per_row(heights);
}

} // verus!
