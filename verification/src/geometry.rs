//! Points, boxes, shapes, and the transforms that put them on the map.

use crate::errors::{Failure, MapError};
use crate::number::Number;
use vstd::prelude::*;

verus! {

/// a pair of Cartesian coordinates
#[derive(Clone, Copy, Debug, PartialEq, Eq, Structural)]
pub struct SerializablePoint {
    pub x: Number,
    pub y: Number,
}

/// a set of four coordinates that defines a Cartesian rectangle
#[derive(Clone, Copy, Debug, PartialEq, Eq, Structural)]
pub struct Rect {
    pub left: Number,
    pub right: Number,
    pub top: Number,
    pub bottom: Number,
}

/// what kind of geometry a shape has
#[derive(Clone, Copy, Debug, PartialEq, Eq, Structural)]
pub enum ShapeType {
    NullShape,
    Point,
    Polyline,
    Polygon,
    Multipoint,
    PointZ,
    PolylineZ,
    PolygonZ,
    MultipointZ,
    PointM,
    PolylineM,
    PolygonM,
    MultipointM,
    Multipatch,
}

impl ShapeType {
    /// what the kind of geometry is called
    pub open spec fn title(self) -> Seq<char> {
        match self {
            ShapeType::NullShape => "NullShape"@,
            ShapeType::Point => "Point"@,
            ShapeType::Polyline => "Polyline"@,
            ShapeType::Polygon => "Polygon"@,
            ShapeType::Multipoint => "Multipoint"@,
            ShapeType::PointZ => "PointZ"@,
            ShapeType::PolylineZ => "PolylineZ"@,
            ShapeType::PolygonZ => "PolygonZ"@,
            ShapeType::MultipointZ => "MultipointZ"@,
            ShapeType::PointM => "PointM"@,
            ShapeType::PolylineM => "PolylineM"@,
            ShapeType::PolygonM => "PolygonM"@,
            ShapeType::MultipointM => "MultipointM"@,
            ShapeType::Multipatch => "Multipatch"@,
        }
    }

    /// what the kind of geometry is called
    pub fn name(self) -> (s: String)
        ensures
            s@ == self.title(),
    {
        let s = match self {
            ShapeType::NullShape => "NullShape",
            ShapeType::Point => "Point",
            ShapeType::Polyline => "Polyline",
            ShapeType::Polygon => "Polygon",
            ShapeType::Multipoint => "Multipoint",
            ShapeType::PointZ => "PointZ",
            ShapeType::PolylineZ => "PolylineZ",
            ShapeType::PolygonZ => "PolygonZ",
            ShapeType::MultipointZ => "MultipointZ",
            ShapeType::PointM => "PointM",
            ShapeType::PolylineM => "PolylineM",
            ShapeType::PolygonM => "PolygonM",
            ShapeType::MultipointM => "MultipointM",
            ShapeType::Multipatch => "Multipatch",
        };
        s.to_owned()
    }
}

/// one shape from a shapefile
#[derive(Debug)]
pub struct Shape {
    /// what kind of geometry it has
    pub kind: ShapeType,
    /// the least and the greatest x-coordinate (of no meaning if there is no geometry)
    pub x_range: (Number, Number),
    /// the least and the greatest y-coordinate (of no meaning if there is no geometry)
    pub y_range: (Number, Number),
    /// the point halfway along both ranges (of no meaning if there is no geometry)
    pub center: SerializablePoint,
    /// the rings of a polygon or the parts of a polyline
    pub parts: Vec<Vec<SerializablePoint>>,
}

/// what a shape holds
#[verifier::ext_equal]
pub struct ShapeView {
    pub kind: ShapeType,
    pub x_range: (Number, Number),
    pub y_range: (Number, Number),
    pub center: SerializablePoint,
    pub parts: Seq<Seq<SerializablePoint>>,
}

/// what a list of polylines holds
pub open spec fn parts_view(parts: Seq<Vec<SerializablePoint>>) -> Seq<Seq<SerializablePoint>> {
    parts.map_values(|part: Vec<SerializablePoint>| part@)
}

impl View for Shape {
    type V = ShapeView;

    open spec fn view(&self) -> ShapeView {
        ShapeView {
            kind: self.kind,
            x_range: self.x_range,
            y_range: self.y_range,
            center: self.center,
            parts: parts_view(self.parts@),
        }
    }
}

impl ShapeView {
    /// the ranges of the coordinates, if the shape has any geometry
    pub open spec fn bounds(self) -> Result<((Number, Number), (Number, Number)), ()> {
        if self.kind == ShapeType::NullShape {
            Err(())
        } else {
            Ok((self.x_range, self.y_range))
        }
    }

    /// the center of the shape, if it has any geometry
    pub open spec fn middle(self) -> Result<SerializablePoint, MapError<Seq<char>>> {
        if self.bounds() is Ok {
            Ok(self.center)
        } else {
            Err(MapError::NoGeometry)
        }
    }

    /// whether the box around the shape has an inner point in common with the given box.  the
    /// corners of the given box may come in either order.
    pub open spec fn meets(self, boks: Rect) -> bool {
        match self.bounds() {
            Ok((x_range, y_range)) => {
                &&& x_range.0.below(boks.left.greater_of(boks.right))
                &&& boks.left.lesser_of(boks.right).below(x_range.1)
                &&& y_range.0.below(boks.bottom.greater_of(boks.top))
                &&& boks.bottom.lesser_of(boks.top).below(y_range.1)
            },
            Err(_) => false,
        }
    }
}

/// extract the bounding box of this shape, or return Err(()) if the shape has no geometry
pub fn bounds_of(shape: &Shape) -> (r: Result<((Number, Number), (Number, Number)), ()>)
    ensures
        r == shape@.bounds(),
{
    match shape.kind {
        ShapeType::NullShape => Err(()),
        _ => Ok((shape.x_range, shape.y_range)),
    }
}

/// the center of this shape
pub fn center_of(shape: &Shape) -> (r: Result<SerializablePoint, Failure>)
    ensures
        match r {
            Ok(point) => shape@.middle() == Ok::<_, MapError<Seq<char>>>(point),
            Err(e) => shape@.middle() == Err::<SerializablePoint, _>(e@),
        },
{
    match bounds_of(shape) {
        Ok(_) => Ok(shape.center),
        Err(_) => Err(MapError::NoGeometry),
    }
}

/// whether any of the box around this shape is inside the given box
pub fn any_of_shape_is_in_box(shape: &Shape, boks: &Rect) -> (b: bool)
    ensures
        b == shape@.meets(*boks),
{
    match bounds_of(shape) {
        Ok((x_range, y_range)) => {
            x_range.0.less_than(boks.left.max(boks.right)) && boks.left.min(boks.right).less_than(
                x_range.1,
            ) && y_range.0.less_than(boks.bottom.max(boks.top)) && boks.bottom.min(
                boks.top,
            ).less_than(y_range.1)
        },
        Err(_) => false,
    }
}

/// it makes no difference in which order the corners of a box come, nor whether it is given upside
/// down
pub proof fn law_orientation_is_irrelevant(shape: ShapeView, boks: Rect)
    ensures
        shape.meets(boks) == shape.meets(Rect { left: boks.right, right: boks.left, ..boks }),
        shape.meets(boks) == shape.meets(Rect { top: boks.bottom, bottom: boks.top, ..boks }),
{
}

/// a shape that is on the map at all has a center
pub proof fn law_what_is_shown_has_a_center(shape: ShapeView, boks: Rect)
    requires
        shape.meets(boks),
    ensures
        shape.middle() == Ok::<_, MapError<Seq<char>>>(shape.center),
{
}

/// the box with its bottom at the lesser of the two y-coordinates
pub open spec fn upright_box(boks: Rect) -> Rect {
    if boks.top.below(boks.bottom) {
        Rect { top: boks.bottom, bottom: boks.top, ..boks }
    } else {
        boks
    }
}

/// turn the box so that its bottom is at the lesser of the two y-coordinates
pub fn upright(boks: &Rect) -> (r: Rect)
    ensures
        r == upright_box(*boks),
{
    if boks.top.less_than(boks.bottom) {
        Rect { left: boks.left, right: boks.right, top: boks.bottom, bottom: boks.top }
    } else {
        *boks
    }
}

/// the point of the box that is nearest to the given one
pub open spec fn nearest_in(point: SerializablePoint, boks: Rect) -> SerializablePoint {
    SerializablePoint {
        x: boks.left.greater_of(boks.right.lesser_of(point.x)),
        y: boks.bottom.greater_of(boks.top.lesser_of(point.y)),
    }
}

/// whether a number lies between two others
pub open spec fn between(low: Number, x: Number, high: Number) -> bool {
    !x.is_nan() && low.value() <= x.value() <= high.value()
}

/// whether a box is made of numbers, with its left before its right and its bottom below its top
pub open spec fn is_proper(boks: Rect) -> bool {
    &&& !boks.left.is_nan() && !boks.right.is_nan() && !boks.top.is_nan() && !boks.bottom.is_nan()
    &&& boks.left.value() <= boks.right.value()
    &&& boks.bottom.value() <= boks.top.value()
}

/// a point that is coerced into a box ends up in it, and one that was in it stays where it was
pub proof fn law_coerced_points_are_inside(point: SerializablePoint, boks: Rect)
    requires
        is_proper(boks),
    ensures
        between(boks.left, nearest_in(point, boks).x, boks.right),
        between(boks.bottom, nearest_in(point, boks).y, boks.top),
        between(boks.left, point.x, boks.right) ==> nearest_in(point, boks).x.same(point.x),
        between(boks.bottom, point.y, boks.top) ==> nearest_in(point, boks).y.same(point.y),
{
}

/// a coordinate that is too small goes to the lower end of its range and one that is too great to
/// the upper end, so that each goes to the end that is nearer to it
pub proof fn law_coerced_points_go_to_the_nearer_end(point: SerializablePoint, boks: Rect)
    requires
        is_proper(boks),
    ensures
        point.x.below(boks.left) ==> nearest_in(point, boks).x.same(boks.left),
        boks.right.below(point.x) ==> nearest_in(point, boks).x.same(boks.right),
        point.y.below(boks.bottom) ==> nearest_in(point, boks).y.same(boks.bottom),
        boks.top.below(point.y) ==> nearest_in(point, boks).y.same(boks.top),
{
}

/// to coerce a point a second time changes nothing
pub proof fn law_coercing_again_changes_nothing(point: SerializablePoint, boks: Rect)
    ensures
        nearest_in(nearest_in(point, boks), boks) == nearest_in(point, boks),
{
}

/// whether the two can't be told apart but for the sign of a zero
pub open spec fn is_alike(one: Number, other: Number) -> bool {
    one == other || one.same(other)
}

/// whether the boxes can't be told apart but for the signs of zeros
pub open spec fn are_alike(one: Rect, other: Rect) -> bool {
    &&& is_alike(one.left, other.left)
    &&& is_alike(one.right, other.right)
    &&& is_alike(one.top, other.top)
    &&& is_alike(one.bottom, other.bottom)
}

/// it makes no difference to where a point goes whether a box is given upside down.  only where its
/// top and its bottom are zeros of opposite signs may the place differ, and then in nothing but the
/// sign of a zero, as long as the space that is taken off does not depend on such a sign.
pub proof fn law_boxes_may_be_upside_down(point: SerializablePoint, boks: Rect, inset: Inset)
    requires
        !boks.top.is_nan(),
        !boks.bottom.is_nan(),
    ensures
        ({
            let turned = Rect { top: boks.bottom, bottom: boks.top, ..boks };
            let one = nearest_in(point, inset(upright_box(boks)));
            let other = nearest_in(point, inset(upright_box(turned)));
            &&& (boks.top.same(boks.bottom) ==> boks.top == boks.bottom) ==> one == other
            &&& (forall|a: Rect, b: Rect|
                are_alike(a, b) ==> are_alike(#[trigger] inset(a), #[trigger] inset(b)))
                ==> is_alike(one.x, other.x) && is_alike(one.y, other.y)
        }),
{
    let turned = Rect { top: boks.bottom, bottom: boks.top, ..boks };
    assert(are_alike(upright_box(boks), upright_box(turned)));
    if forall|a: Rect, b: Rect|
        are_alike(a, b) ==> are_alike(#[trigger] inset(a), #[trigger] inset(b)) {
        assert(are_alike(inset(upright_box(boks)), inset(upright_box(turned))));
    }
}

/// what is left of a box, the right way up, when some space is taken off along each edge
pub type Inset = spec_fn(Rect) -> Rect;

/// whether the function takes off that much space
pub open spec fn takes_off<F: Fn(Rect) -> Rect>(shrink: F, inset: Inset) -> bool {
    &&& forall|boks: Rect| #[trigger] call_requires(shrink, (boks,))
    &&& forall|boks: Rect, inner: Rect| #[trigger]
        call_ensures(shrink, (boks,), inner) ==> inner == inset(boks)
}

/// move the point into the box and away from its edges
pub fn coerce_in_box<F: Fn(Rect) -> Rect>(
    point: &SerializablePoint,
    boks: &Rect,
    shrink: &F,
) -> (r: SerializablePoint)
    requires
        forall|boks: Rect| #[trigger] call_requires(*shrink, (boks,)),
    ensures
        forall|inset: Inset| #[trigger]
            takes_off(*shrink, inset) ==> r == nearest_in(*point, inset(upright_box(*boks))),
{
    let inner = shrink(upright(boks));
    SerializablePoint {
        x: inner.left.max(inner.right.min(point.x)),
        y: inner.bottom.max(inner.top.min(point.y)),
    }
}

/// a mapping from geographical coordinates to those of the map
#[derive(Debug)]
pub enum Transform {
    /// a linear translation, scaling, and rotation from map to map
    Affine {
        /// the scale in the x-direction (m per shapefile units)
        longitudinal_scale: Number,
        /// the x-coordinate of the point to put at the map origin (shapefile units)
        false_easting: Number,
        /// the scale in the y-direction (m per shapefile units, should be negative)
        latitudinal_scale: Number,
        /// the y-coordinate of the point to put at the map origin (shapefile units)
        false_northing: Number,
        /// the amount to rotate the data widdershins about the map origin (degrees)
        rotation: Number,
    },
    /// a cylindrical conformal mapping from spherical coordinates in degrees to a plane
    Mercator {
        /// the central meridian (°)
        central_meridian: Number,
        /// the scale of the map at the equator (mm per real-life mm)
        scale: Number,
    },
    /// a 3D rotation that gets applied before some other transformation
    Oblique {
        /// the latitude of the point that will appear at the top of the map (°)
        pole_latitude: Number,
        /// the longitude of the point that will appear at the top of the map (°)
        pole_longitude: Number,
        /// the transform to apply after rotating
        projection: Box<Transform>,
    },
}

impl Transform {
    /// another of the same
    pub fn copy(&self) -> (r: Transform)
        ensures
            r == *self,
        decreases self,
    {
        match self {
            Transform::Affine {
                longitudinal_scale,
                false_easting,
                latitudinal_scale,
                false_northing,
                rotation,
            } => Transform::Affine {
                longitudinal_scale: *longitudinal_scale,
                false_easting: *false_easting,
                latitudinal_scale: *latitudinal_scale,
                false_northing: *false_northing,
                rotation: *rotation,
            },
            Transform::Mercator { central_meridian, scale } => Transform::Mercator {
                central_meridian: *central_meridian,
                scale: *scale,
            },
            Transform::Oblique { pole_latitude, pole_longitude, projection } => Transform::Oblique {
                pole_latitude: *pole_latitude,
                pole_longitude: *pole_longitude,
                projection: Box::new(projection.copy()),
            },
        }
    }

    /// whether straight lines stay straight
    pub fn is_affine(&self) -> (b: bool)
        ensures
            b == (self is Affine),
    {
        match self {
            Transform::Affine { .. } => true,
            Transform::Mercator { .. } => false,
            Transform::Oblique { .. } => false,
        }
    }
}

/// how the points of an element get onto the map
#[derive(Debug)]
pub enum Projection {
    /// by a transform that the configuration states
    Stated(Transform),
    /// by the transform without rotation that takes a region to a bounding box
    Fitted { region: Rect, bounding_box: Rect },
}

impl Projection {
    /// another of the same
    pub fn copy(&self) -> (r: Projection)
        ensures
            r == *self,
    {
        match self {
            Projection::Stated(transform) => Projection::Stated(transform.copy()),
            Projection::Fitted { region, bounding_box } => Projection::Fitted {
                region: *region,
                bounding_box: *bounding_box,
            },
        }
    }

    /// whether straight lines stay straight
    pub open spec fn keeps_lines(self) -> bool {
        self matches Projection::Stated(transform) ==> transform is Affine
    }

    /// whether straight lines stay straight
    pub fn is_affine(&self) -> (b: bool)
        ensures
            b == self.keeps_lines(),
    {
        match self {
            Projection::Stated(transform) => transform.is_affine(),
            Projection::Fitted { .. } => true,
        }
    }

    /// why a rectangle can't be put on the map in this way, if it can't
    pub open spec fn objection_to_boxes(self) -> Option<MapError<Seq<char>>> {
        match self {
            Projection::Stated(Transform::Affine { rotation, .. }) => if rotation.same(
                Number { bits: 0 },
            ) {
                None
            } else {
                Some(MapError::RotatedRectangle)
            },
            Projection::Stated(Transform::Mercator { .. }) => None,
            Projection::Stated(Transform::Oblique { .. }) => Some(MapError::ObliqueRectangle),
            Projection::Fitted { .. } => None,
        }
    }

    /// check that a rectangle can be put on the map in this way
    pub fn check_box(&self) -> (r: Result<(), Failure>)
        ensures
            match r {
                Ok(_) => self.objection_to_boxes() is None,
                Err(e) => self.objection_to_boxes() == Some(e@),
            },
    {
        match self {
            Projection::Stated(Transform::Affine { rotation, .. }) => if rotation.equals(
                Number { bits: 0 },
            ) {
                Ok(())
            } else {
                Err(MapError::RotatedRectangle)
            },
            Projection::Stated(Transform::Mercator { .. }) => Ok(()),
            Projection::Stated(Transform::Oblique { .. }) => Err(MapError::ObliqueRectangle),
            Projection::Fitted { .. } => Ok(()),
        }
    }
}

/// a shape meets a box just if its ranges overlap those of the box, more than in an edge.  a shape
/// without geometry meets none.
pub proof fn law_shapes_meet_what_they_overlap(shape: ShapeView, boks: Rect)
    requires
        is_proper(boks),
        !shape.x_range.0.is_nan() && !shape.x_range.1.is_nan(),
        !shape.y_range.0.is_nan() && !shape.y_range.1.is_nan(),
    ensures
        shape.meets(boks) <==> {
            &&& shape.kind != ShapeType::NullShape
            &&& shape.x_range.0.value() < boks.right.value()
            &&& shape.x_range.1.value() > boks.left.value()
            &&& shape.y_range.0.value() < boks.top.value()
            &&& shape.y_range.1.value() > boks.bottom.value()
        },
{
}

/// only a shape without geometry has no ranges and no center
pub proof fn law_shapes_with_geometry_have_a_center(shape: ShapeView)
    ensures
        shape.kind == ShapeType::NullShape ==> shape.bounds() is Err && shape.middle() == Err::<
            SerializablePoint,
            _,
        >(MapError::<Seq<char>>::NoGeometry),
        shape.kind != ShapeType::NullShape ==> shape.bounds() == Ok::<_, ()>(
            (shape.x_range, shape.y_range),
        ) && shape.middle() == Ok::<_, MapError<Seq<char>>>(shape.center),
{
}

/// a box is turned the right way up by exchanging its top and its bottom, if that is needed
pub proof fn law_upright_boxes_are_the_same_boxes(boks: Rect)
    ensures
        upright_box(boks).left == boks.left,
        upright_box(boks).right == boks.right,
        !upright_box(boks).top.below(upright_box(boks).bottom),
        !boks.top.below(boks.bottom) ==> upright_box(boks) == boks,
        boks.top.below(boks.bottom) ==> upright_box(boks).top == boks.bottom && upright_box(
            boks,
        ).bottom == boks.top,
{
}

/// lines stay straight under an affine transform, as is any that fits one box to another, and under
/// no other
pub proof fn law_affine_transforms_keep_lines(transform: Transform, region: Rect, boks: Rect)
    ensures
        Projection::Stated(transform).keeps_lines() <==> transform is Affine,
        (Projection::Fitted { region, bounding_box: boks }).keeps_lines(),
{
}

/// where a box is too small to have an inside, its left and bottom edges are what a point goes to, and a
/// coordinate that isn't a number becomes that of the right or top edge
pub proof fn law_left_and_bottom_edges_come_first(point: SerializablePoint, boks: Rect)
    requires
        !boks.left.is_nan() && !boks.right.is_nan() && !boks.top.is_nan() && !boks.bottom.is_nan(),
    ensures
        ({
            let inside = nearest_in(point, boks);
            &&& boks.right.value() <= boks.left.value() ==> inside.x.value() == boks.left.value()
            &&& boks.top.value() <= boks.bottom.value() ==> inside.y.value() == boks.bottom.value()
            &&& point.x.is_nan() && boks.left.value() <= boks.right.value() ==> inside.x.value()
                == boks.right.value()
            &&& point.y.is_nan() && boks.bottom.value() <= boks.top.value() ==> inside.y.value()
                == boks.top.value()
        }),
{
}

} // verus!
