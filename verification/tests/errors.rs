use mapmaker::errors::MapError;

fn s(text: &str) -> String {
    text.to_string()
}

#[test]
fn errors_are_put_in_words() {
    let cases = vec![
        (MapError::NoTopLevelBox, "the top level must have a bounding box"),
        (MapError::NoRegion, "every layer must have a region defined somewhere in its hierarchy."),
        (
            MapError::LabelAndMarker,
            "you may not use both `label_column` and `marker_name` in a single Layer.",
        ),
        (
            MapError::CaseWithoutLabel,
            "you may not use the `case` option without the `label_column` option.",
        ),
        (
            MapError::AbbrWithoutLabel,
            "you may not use the `abbr` option without the `label_column` option.",
        ),
        (
            MapError::SizeWithoutMarker,
            "you may not use the `size` option without the `marker_name` option.",
        ),
        (
            MapError::SelfClipWithMarker,
            "the `self_clip` option is incompatible with the `marker_name` option.",
        ),
        (
            MapError::NoMarkerSize { filename: s("towns") },
            "the `towns.shp` layer has a marker, but no marker size is given.",
        ),
        (MapError::MarkerUnreadable { filename: s("dot") }, "couldn't read `markers/dot.svg`"),
        (MapError::MarkerMalformed { filename: s("dot") }, "markers/dot.svg was malformed somehow."),
        (
            MapError::MarkerWithoutTag { filename: s("dot") },
            "markers/dot.svg didn't seem to start with a tag.",
        ),
        (MapError::ShapefileNotFound { filename: s("towns") }, "could not find `data/towns.dbf`"),
        (
            MapError::FilterFieldMissing { key: s("NAME") },
            "you can't filter on the field 'NAME' because it doesn't exist.",
        ),
        (
            MapError::FilterFieldType,
            "you can only filter on numerical and character fields right now.",
        ),
        (
            MapError::FilterNotNumeric { key: s("NAME"), field_type: s("dbase::Character") },
            "GreaterThan filters must act on numeric or float32 fields, but 'NAME' is a dbase::Character.",
        ),
        (MapError::ClassFieldType, "I don't know how to print this field type."),
        (
            MapError::ClassColumnMissing { column: s("NAME"), filename: s("towns") },
            "there doesn't seem to be a 'NAME' collum in 'towns.shp'.",
        ),
        (
            MapError::NoGeometry,
            "I cannot calculate the center of this shape because it has no geometry.",
        ),
        (
            MapError::PointWithoutMarker { filename: s("towns") },
            "data/towns.shp is a POINT shapefile.  POINT layers must always have a `marker`.",
        ),
        (
            MapError::UnsupportedShape { shape_type: s("PolygonZ") },
            "we don't support PolygonZ shapefiles right now.",
        ),
        (
            MapError::LabelNotText { column: s("SIZE"), field_type: s("dbase::Numeric") },
            "you can only label by string columns, but 'SIZE' is a dbase::Numeric column.",
        ),
        (
            MapError::LabelColumnMissing { column: s("NAME") },
            "you can't label by the column 'NAME' because it doesn't seem to exist.",
        ),
        (
            MapError::DetailAndFilename,
            "you shouldn't specify both a detail and a filename for a Marker.",
        ),
        (
            MapError::NeitherDetailNorFilename,
            "you should specify one of a detail or a filename for a Marker.",
        ),
        (MapError::LayerNotLoaded, "Layers should have been purged by now"),
        (MapError::GraticuleNotLoaded, "Graticules should have been purged by now"),
        (MapError::RotatedRectangle, "rotation is not supported with rectangles"),
        (
            MapError::ObliqueRectangle,
            "oblique map projections are not generally cylindrical and so I don't support projecting rectangles in them.",
        ),
        (MapError::MarkerNotLoaded, "this marker should have had its detail filled in by now."),
        (MapError::GraticuleNotDrawn, "the graticules should have all been purged by now."),
        (MapError::LayerNotDrawn, "the Layers should have all been purged by now."),
        (
            MapError::NoTopLevelTag { element: s("text") },
            "I couldn't find any top-level tags in the string 'text'",
        ),
        (
            MapError::ColumnNotText { column: s("NAME"), found: s("dbase::Numeric") },
            "the NAME column must be strings, but I found dbase::Numeric",
        ),
        (
            MapError::ColumnNotNumeric { column: s("POPULATION"), found: s("dbase::Character") },
            "the POPULATION column must be numeric, but I found dbase::Character",
        ),
        (
            MapError::ColumnNotFlag { column: s("CAPITAL"), found: s("dbase::Numeric") },
            "I expected the CAPITAL column to be strings, but I found dbase::Numeric",
        ),
        (MapError::ColumnMissing { column: s("NAME") }, "I couldn't find the NAME column."),
        (
            MapError::NotPoints { found: s("Polygon") },
            "the shapefile must be a POINT shapefile, but I found Polygon",
        ),
    ];
    for (error, words) in cases {
        assert_eq!(error.message(), words);
    }
}
