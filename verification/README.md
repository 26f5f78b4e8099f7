# mapmaker

Makes maps: takes a configuration file, shapefiles and markers, and writes an SVG document.

- `src/` is the library, with what each function does stated in its contract and proved.  It loads
  layers and graticules, puts each element in its place, downsamples and refines curves, and writes
  the document.  It also chooses which cities to show.
- `app/` is the program around it: configuration files, shapefiles, floating-point arithmetic, and
  the digits of the numbers that are written.  It is one executable with three names:
  `choose_cities`, `convert_oblique_coordinates`, and anything else for the map maker itself, which
  takes the name of a file in `configurations/` and looks for the rest in `data/` and `markers/`.
- `tests/` runs the library.

Floating-point numbers go through the library as their bits (`number::Number`), which it compares,
sorts and truncates.  Where it takes arithmetic to go on, the library asks for it: `make_map`, which
does everything from the content of a map to its code, takes a set of functions, and so does
`apply_to_curve`, which refines curves; `choose_cities` takes one.

Where there is no way to go on at all (a shape that can't be read, a label without a first letter to
raise, a polyline that can't be downsampled to its tolerance, more elements than can be counted),
`make_map` returns nothing.
