# tectonic

A time-evolved plate-tectonics engine on a sphere. Crust is carried as parcels on rigid plates
moved by a force balance; crust is created at gaps, consumed at trenches, thickened in
collisions, accreted and rifted.

The crate is split in two:

- `src/` is the library, written in Verus and verified: the integer bookkeeping and decision
  rules around the floating-point physics.
  - `kind`, `contact`, `polarity`, `boundary`: crust kinds, the contact rules (subduct, absorb,
    accrete, dock, lose a sliver), subduction polarity that is never flipped, boundary classes.
  - `remap`, `census`, `pairs`, `transfer`, `flood`: welding plates, per-plate and per-pair
    censuses, handing parcels to a new plate, and the flood fill that finds connected blocks.
  - `cells`: the bucket grid behind the neighbour search.
  - `raster`, `pixels`, `glyph`, `slices`, `gplates`, `route`, `hashing`: map rasterisation rules,
    plate-map statistics, the bitmap font of the labels, choice of montage slices, GPlates ids and
    lifetimes, the viewer's request routing, and the per-parcel hash behind reproducible runs.
- Collections: `CellGrid` keeps its buckets in a std `HashMap` keyed by an `i32` cell key, and the
  polarity table keeps its entries in a std `HashMap` keyed by the 64-bit code of the ordered plate
  pair (smaller plate in the high half), viewed as a `Map` from plate pairs. The per-pair boundary
  census returns a sorted vector, since its callers walk the pairs in order.
- `app/` is the program around it: command-line handling, file and network I/O, and the
  floating-point physics (forces, advection, crust evolution, rifting, elevation, colours).

Binaries are selected by program name: `montage`, `plateinfo`, `viewer`, and the engine
itself for any other name.
