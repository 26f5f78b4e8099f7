//! Lines of latitude and longitude.

use crate::content::{contents_view, Content, ContentView};
use crate::geometry::{parts_view, Rect, SerializablePoint};
use crate::number::Number;
use vstd::prelude::*;

verus! {

/// a mesh of lines of latitude and longitude over a region
#[derive(Clone, Copy, Debug, PartialEq, Eq, Structural)]
pub struct Grid {
    pub region: Rect,
    pub parallel_spacing: Number,
    pub meridian_spacing: Number,
}

/// the arithmetic that it takes to find where the lines of a grid are
pub struct Ruler<F, L, M> {
    /// find the first whole number of spacings that is not short of a coordinate
    pub first: F,
    /// find the last whole number of spacings that is not past a coordinate
    pub last: L,
    /// find the coordinate that is so many spacings from the origin
    pub multiple: M,
}

/// the coordinate that is so many spacings from the origin
pub type Multiple = spec_fn(i32, Number) -> Number;

/// what the arithmetic comes to
pub struct Rule {
    pub first: spec_fn(Number, Number) -> i32,
    pub last: spec_fn(Number, Number) -> i32,
    pub multiple: Multiple,
}

/// whether the function finds these coordinates
pub open spec fn multiplies<M: Fn(i32, Number) -> Number>(function: M, multiple: Multiple) -> bool {
    forall|i: i32, spacing: Number, coordinate: Number| #[trigger]
        call_ensures(function, (i, spacing), coordinate) ==> coordinate == multiple(i, spacing)
}

/// whether the arithmetic can be done for any grid
pub open spec fn can_rule<F, L, M>(ruler: Ruler<F, L, M>) -> bool where
    F: Fn(Number, Number) -> i32,
    L: Fn(Number, Number) -> i32,
    M: Fn(i32, Number) -> Number,
 {
    &&& forall|coordinate: Number, spacing: Number| #[trigger]
        call_requires(ruler.first, (coordinate, spacing))
    &&& forall|coordinate: Number, spacing: Number| #[trigger]
        call_requires(ruler.last, (coordinate, spacing))
    &&& forall|i: i32, spacing: Number| #[trigger] call_requires(ruler.multiple, (i, spacing))
}

/// whether this is what the arithmetic comes to
pub open spec fn rules<F, L, M>(ruler: Ruler<F, L, M>, rule: Rule) -> bool where
    F: Fn(Number, Number) -> i32,
    L: Fn(Number, Number) -> i32,
    M: Fn(i32, Number) -> Number,
 {
    &&& forall|coordinate: Number, spacing: Number, i: i32| #[trigger]
        call_ensures(ruler.first, (coordinate, spacing), i) ==> i == (rule.first)(
            coordinate,
            spacing,
        )
    &&& forall|coordinate: Number, spacing: Number, i: i32| #[trigger]
        call_ensures(ruler.last, (coordinate, spacing), i) ==> i == (rule.last)(
            coordinate,
            spacing,
        )
    &&& multiplies(ruler.multiple, rule.multiple)
}

/// a line from one point to another as a path
pub open spec fn segment(start: SerializablePoint, end: SerializablePoint) -> ContentView {
    ContentView::Path {
        parts: seq![seq![start, end]],
        closed: false,
        self_clip: false,
        decimation: None,
        class: None,
    }
}

/// the line across a region at some latitude
pub open spec fn parallel(region: Rect, latitude: Number) -> ContentView {
    segment(
        SerializablePoint { x: region.left, y: latitude },
        SerializablePoint { x: region.right, y: latitude },
    )
}

/// the line up a region at some longitude
pub open spec fn meridian(region: Rect, longitude: Number) -> ContentView {
    segment(
        SerializablePoint { x: longitude, y: region.bottom },
        SerializablePoint { x: longitude, y: region.top },
    )
}

/// how many whole numbers there are from one to another
pub open spec fn count(first: int, last: int) -> nat {
    if first <= last {
        (last - first + 1) as nat
    } else {
        0
    }
}

/// one parallel for each of these multiples of the spacing, from south to north
pub open spec fn parallels(grid: Grid, south: int, north: int, multiple: Multiple) -> Seq<
    ContentView,
> {
    Seq::new(
        count(south, north),
        |k: int| parallel(grid.region, multiple((south + k) as i32, grid.parallel_spacing)),
    )
}

/// one meridian for each of these multiples of the spacing, from west to east
pub open spec fn meridians(grid: Grid, west: int, east: int, multiple: Multiple) -> Seq<
    ContentView,
> {
    Seq::new(
        count(west, east),
        |k: int| meridian(grid.region, multiple((west + k) as i32, grid.meridian_spacing)),
    )
}

/// the lines over a region: first all the parallels, then all the meridians
pub open spec fn ruled(
    grid: Grid,
    south: int,
    north: int,
    west: int,
    east: int,
    multiple: Multiple,
) -> Seq<ContentView> {
    parallels(grid, south, north, multiple) + meridians(grid, west, east, multiple)
}

/// the lines of a grid: those at the multiples of the spacings that are in its region
pub open spec fn grid_lines(grid: Grid, rule: Rule) -> Seq<ContentView> {
    ruled(
        grid,
        (rule.first)(grid.region.bottom, grid.parallel_spacing) as int,
        (rule.last)(grid.region.top, grid.parallel_spacing) as int,
        (rule.first)(grid.region.left, grid.meridian_spacing) as int,
        (rule.last)(grid.region.right, grid.meridian_spacing) as int,
        rule.multiple,
    )
}

/// make a line from one point to another into a path
fn make_segment(start: SerializablePoint, end: SerializablePoint) -> (r: Content)
    ensures
        r@ == segment(start, end),
{
    let mut part: Vec<SerializablePoint> = Vec::new();
    part.push(start);
    part.push(end);
    let mut parts: Vec<Vec<SerializablePoint>> = Vec::new();
    parts.push(part);
    assert(part@ =~= seq![start, end]);
    assert(parts_view(parts@) =~= seq![seq![start, end]]);
    Content::Path { parts, closed: false, self_clip: false, decimation: None, class: None }
}

/// draw the parallels from south to north and the meridians from west to east, all given as
/// multiples of their spacing
pub fn draw_lines<M: Fn(i32, Number) -> Number>(
    grid: Grid,
    south: i32,
    north: i32,
    west: i32,
    east: i32,
    multiple: &M,
) -> (lines: Vec<Content>)
    requires
        forall|i: i32, spacing: Number| #[trigger] call_requires(*multiple, (i, spacing)),
    ensures
        lines@.len() == count(south as int, north as int) + count(west as int, east as int),
        forall|m: Multiple| #[trigger]
            multiplies(*multiple, m) ==> contents_view(lines@) == ruled(
                grid,
                south as int,
                north as int,
                west as int,
                east as int,
                m,
            ),
{
    let region = grid.region;
    let mut lines: Vec<Content> = Vec::new();
    assert forall|m: Multiple| #[trigger] multiplies(*multiple, m) implies contents_view(lines@)
        == parallels(grid, south as int, south - 1, m) by {
        assert(contents_view(lines@) =~= parallels(grid, south as int, south - 1, m));
    }
    let mut i: i64 = south as i64;
    while i <= north as i64
        invariant
            south <= i,
            i == south || i <= north + 1,
            region == grid.region,
            forall|i: i32, spacing: Number| #[trigger] call_requires(*multiple, (i, spacing)),
            lines@.len() == i - south,
            forall|m: Multiple| #[trigger]
                multiplies(*multiple, m) ==> contents_view(lines@) == parallels(
                    grid,
                    south as int,
                    i - 1,
                    m,
                ),
        decreases north + 1 - i,
    {
        let latitude = multiple(i as i32, grid.parallel_spacing);
        let start = SerializablePoint { x: region.left, y: latitude };
        let end = SerializablePoint { x: region.right, y: latitude };
        let ghost before = lines@;
        lines.push(make_segment(start, end));
        assert(lines@.drop_last() =~= before);
        assert forall|m: Multiple| #[trigger] multiplies(*multiple, m) implies contents_view(lines@)
            == parallels(grid, south as int, i as int, m) by {
            assert(contents_view(lines@) =~= parallels(grid, south as int, i - 1, m).push(
                parallel(region, latitude),
            ));
            assert(contents_view(lines@) =~= parallels(grid, south as int, i as int, m));
        }
        i = i + 1;
    }
    let ghost n = count(south as int, north as int);
    assert forall|m: Multiple| #[trigger] multiplies(*multiple, m) implies contents_view(lines@)
        == parallels(grid, south as int, north as int, m) + meridians(
        grid,
        west as int,
        west - 1,
        m,
    ) by {
        assert(contents_view(lines@) =~= parallels(grid, south as int, north as int, m) + meridians(
            grid,
            west as int,
            west - 1,
            m,
        ));
    }
    let mut j: i64 = west as i64;
    while j <= east as i64
        invariant
            west <= j,
            j == west || j <= east + 1,
            region == grid.region,
            n == count(south as int, north as int),
            forall|i: i32, spacing: Number| #[trigger] call_requires(*multiple, (i, spacing)),
            lines@.len() == n + j - west,
            forall|m: Multiple| #[trigger]
                multiplies(*multiple, m) ==> contents_view(lines@) == parallels(
                    grid,
                    south as int,
                    north as int,
                    m,
                ) + meridians(grid, west as int, j - 1, m),
        decreases east + 1 - j,
    {
        let longitude = multiple(j as i32, grid.meridian_spacing);
        let start = SerializablePoint { x: longitude, y: region.bottom };
        let end = SerializablePoint { x: longitude, y: region.top };
        let ghost before = lines@;
        lines.push(make_segment(start, end));
        assert(lines@.drop_last() =~= before);
        assert forall|m: Multiple| #[trigger] multiplies(*multiple, m) implies contents_view(lines@)
            == parallels(grid, south as int, north as int, m) + meridians(
            grid,
            west as int,
            j as int,
            m,
        ) by {
            let head = parallels(grid, south as int, north as int, m);
            assert(contents_view(lines@) =~= (head + meridians(grid, west as int, j - 1, m)).push(
                meridian(region, longitude),
            ));
            assert(contents_view(lines@) =~= head + meridians(grid, west as int, j as int, m));
        }
        j = j + 1;
    }
    assert forall|m: Multiple| #[trigger] multiplies(*multiple, m) implies contents_view(lines@)
        == ruled(grid, south as int, north as int, west as int, east as int, m) by {
        assert(contents_view(lines@) =~= ruled(
            grid,
            south as int,
            north as int,
            west as int,
            east as int,
            m,
        ));
    }
    lines
}

/// draw the lines of a grid
pub fn draw_grid<F, L, M>(grid: Grid, ruler: &Ruler<F, L, M>) -> (lines: Vec<Content>) where
    F: Fn(Number, Number) -> i32,
    L: Fn(Number, Number) -> i32,
    M: Fn(i32, Number) -> Number,

    requires
        can_rule(*ruler),
    ensures
        forall|rule: Rule| #[trigger]
            rules(*ruler, rule) ==> contents_view(lines@) == grid_lines(grid, rule),
{
    let first = &ruler.first;
    let last = &ruler.last;
    let south = first(grid.region.bottom, grid.parallel_spacing);
    let north = last(grid.region.top, grid.parallel_spacing);
    let west = first(grid.region.left, grid.meridian_spacing);
    let east = last(grid.region.right, grid.meridian_spacing);
    let lines = draw_lines(grid, south, north, west, east, &ruler.multiple);
    assert forall|rule: Rule| #[trigger] rules(*ruler, rule) implies contents_view(lines@)
        == grid_lines(grid, rule) by {
        assert(multiplies(ruler.multiple, rule.multiple));
    }
    lines
}

/// each multiple from south to north has its parallel, and each from west to east its meridian;
/// they are in ascending order, and there are no other lines
pub proof fn law_each_multiple_has_one_line(
    grid: Grid,
    south: i32,
    north: i32,
    west: i32,
    east: i32,
    multiple: Multiple,
)
    ensures
        ({
            let lines = ruled(
                grid,
                south as int,
                north as int,
                west as int,
                east as int,
                multiple,
            );
            let n = count(south as int, north as int);
            &&& lines.len() == n + count(west as int, east as int)
            &&& forall|i: i32|
                south <= i <= north ==> lines[i - south] == parallel(
                    grid.region,
                    #[trigger] multiple(i, grid.parallel_spacing),
                )
            &&& forall|j: i32|
                west <= j <= east ==> lines[n + j - west] == meridian(
                    grid.region,
                    #[trigger] multiple(j, grid.meridian_spacing),
                )
        }),
{
}

/// no two parallels are the same, nor are two meridians, if no two multiples of a spacing are
pub proof fn law_no_line_comes_twice(
    grid: Grid,
    south: i32,
    north: i32,
    west: i32,
    east: i32,
    multiple: Multiple,
)
    requires
        forall|i: i32, j: i32, spacing: Number|
            #[trigger] multiple(i, spacing) == #[trigger] multiple(j, spacing) ==> i == j,
    ensures
        parallels(grid, south as int, north as int, multiple).no_duplicates(),
        meridians(grid, west as int, east as int, multiple).no_duplicates(),
{
    let rows = parallels(grid, south as int, north as int, multiple);
    assert forall|k: int, l: int| 0 <= k < l < rows.len() implies rows[k] != rows[l] by {
        let (a, b) = (
            multiple((south + k) as i32, grid.parallel_spacing),
            multiple((south + l) as i32, grid.parallel_spacing),
        );
        lemma_segments_differ(
            SerializablePoint { x: grid.region.left, y: a },
            SerializablePoint { x: grid.region.right, y: a },
            SerializablePoint { x: grid.region.left, y: b },
            SerializablePoint { x: grid.region.right, y: b },
        );
    }
    let columns = meridians(grid, west as int, east as int, multiple);
    assert forall|k: int, l: int| 0 <= k < l < columns.len() implies columns[k] != columns[l] by {
        let (a, b) = (
            multiple((west + k) as i32, grid.meridian_spacing),
            multiple((west + l) as i32, grid.meridian_spacing),
        );
        lemma_segments_differ(
            SerializablePoint { x: a, y: grid.region.bottom },
            SerializablePoint { x: a, y: grid.region.top },
            SerializablePoint { x: b, y: grid.region.bottom },
            SerializablePoint { x: b, y: grid.region.top },
        );
    }
}

proof fn lemma_segments_differ(
    start: SerializablePoint,
    end: SerializablePoint,
    other_start: SerializablePoint,
    other_end: SerializablePoint,
)
    requires
        start != other_start,
    ensures
        segment(start, end) != segment(other_start, other_end),
{
    let (one, other) = (segment(start, end), segment(other_start, other_end));
    if one == other {
        assert(one->parts[0][0] == start);
        assert(other->parts[0][0] == other_start);
    }
}

/// whether a coordinate is neither short of one end nor past the other
pub open spec fn is_within(low: Number, coordinate: Number, high: Number) -> bool {
    !coordinate.below(low) && !high.below(coordinate)
}

/// whether the first and the last multiple are where they should be
pub open spec fn is_true(rule: Rule, low: Number, high: Number, spacing: Number) -> bool {
    &&& forall|i: i32|
        (rule.first)(low, spacing) <= i <==> !(#[trigger] (rule.multiple)(i, spacing)).below(low)
    &&& forall|i: i32|
        i <= (rule.last)(high, spacing) <==> !high.below(#[trigger] (rule.multiple)(i, spacing))
}

/// the lines of a grid are those at the multiples of its spacings that are within its region, if the
/// first and the last of them are found truly
pub proof fn law_grids_hold_what_is_within(grid: Grid, rule: Rule)
    requires
        is_true(rule, grid.region.bottom, grid.region.top, grid.parallel_spacing),
        is_true(rule, grid.region.left, grid.region.right, grid.meridian_spacing),
    ensures
        ({
            let lines = grid_lines(grid, rule);
            let region = grid.region;
            &&& forall|i: i32|
                {
                    let latitude = #[trigger] (rule.multiple)(i, grid.parallel_spacing);
                    is_within(region.bottom, latitude, region.top) ==> lines.contains(
                        parallel(region, latitude),
                    )
                }
            &&& forall|j: i32|
                {
                    let longitude = #[trigger] (rule.multiple)(j, grid.meridian_spacing);
                    is_within(region.left, longitude, region.right) ==> lines.contains(
                        meridian(region, longitude),
                    )
                }
            &&& forall|k: int|
                0 <= k < lines.len() ==> {
                    ||| exists|i: i32|
                        {
                            let latitude = #[trigger] (rule.multiple)(i, grid.parallel_spacing);
                            &&& is_within(region.bottom, latitude, region.top)
                            &&& #[trigger] lines[k] == parallel(region, latitude)
                        }
                    ||| exists|j: i32|
                        {
                            let longitude = #[trigger] (rule.multiple)(j, grid.meridian_spacing);
                            &&& is_within(region.left, longitude, region.right)
                            &&& lines[k] == meridian(region, longitude)
                        }
                }
        }),
{
    let lines = grid_lines(grid, rule);
    let region = grid.region;
    let south = (rule.first)(region.bottom, grid.parallel_spacing);
    let north = (rule.last)(region.top, grid.parallel_spacing);
    let west = (rule.first)(region.left, grid.meridian_spacing);
    let east = (rule.last)(region.right, grid.meridian_spacing);
    let n = count(south as int, north as int);
    law_each_multiple_has_one_line(grid, south, north, west, east, rule.multiple);
    assert forall|i: i32|
        is_within(
            region.bottom,
            #[trigger] (rule.multiple)(i, grid.parallel_spacing),
            region.top,
        ) implies lines.contains(
        parallel(region, (rule.multiple)(i, grid.parallel_spacing)),
    ) by {
        assert(lines[i - south] == parallel(region, (rule.multiple)(i, grid.parallel_spacing)));
    }
    assert forall|j: i32|
        is_within(
            region.left,
            #[trigger] (rule.multiple)(j, grid.meridian_spacing),
            region.right,
        ) implies lines.contains(
        meridian(region, (rule.multiple)(j, grid.meridian_spacing)),
    ) by {
        assert(lines[n + j - west] == meridian(
            region,
            (rule.multiple)(j, grid.meridian_spacing),
        ));
    }
    assert forall|k: int| 0 <= k < lines.len() implies {
        ||| exists|i: i32|
            {
                let latitude = #[trigger] (rule.multiple)(i, grid.parallel_spacing);
                &&& is_within(region.bottom, latitude, region.top)
                &&& #[trigger] lines[k] == parallel(region, latitude)
            }
        ||| exists|j: i32|
            {
                let longitude = #[trigger] (rule.multiple)(j, grid.meridian_spacing);
                &&& is_within(region.left, longitude, region.right)
                &&& lines[k] == meridian(region, longitude)
            }
    } by {
        if k < n {
            let latitude = (rule.multiple)((south + k) as i32, grid.parallel_spacing);
            assert(is_within(region.bottom, latitude, region.top));
            assert(lines[k] == parallel(region, latitude));
        } else {
            let longitude = (rule.multiple)((west + k - n) as i32, grid.meridian_spacing);
            assert(is_within(region.left, longitude, region.right));
            assert(lines[k] == meridian(region, longitude));
        }
    }
}

/// a parallel goes from the left of the region to its right at one latitude, and a meridian from the
/// bottom to the top at one longitude.  both are open paths of two points, without a class.
pub proof fn law_lines_go_across_the_region(region: Rect, coordinate: Number)
    ensures
        ({
            let (row, column) = (parallel(region, coordinate), meridian(region, coordinate));
            &&& row is Path && column is Path
            &&& row->parts.len() == 1 && row->parts[0].len() == 2
            &&& row->parts[0][0].x == region.left && row->parts[0][0].y == coordinate
            &&& row->parts[0][1].x == region.right && row->parts[0][1].y == coordinate
            &&& column->parts.len() == 1 && column->parts[0].len() == 2
            &&& column->parts[0][0].x == coordinate && column->parts[0][0].y == region.bottom
            &&& column->parts[0][1].x == coordinate && column->parts[0][1].y == region.top
            &&& !row->closed && !row->self_clip && row->decimation is None && row->Path_class is None
            &&& !column->closed && !column->self_clip && column->decimation is None
                && column->Path_class is None
        }),
{
}

} // verus!
