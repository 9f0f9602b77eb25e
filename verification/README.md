# visioncortex clusters, verified

Clustering of binary images, written in Verus and proved against its contracts.

- `point`, `bound`: integer points and half-open bounding rectangles.
- `image`: `BinaryImage` (with its text form) and the `MonoImage` label map.
- `connect`: neighbours, paths and the `linked` relation that clusters are made of.
- `clusters`: `Cluster` and `Clusters`, drawing a cluster, moving it.
- `opening`: which pixel names each cluster while an image is scanned, when two meeting
  clusters merge into the larger one; both scans below keep their clusters this way.
- `scan`: `BinaryImage::to_clusters`, one pass over the image with a label map; its result
  holds exactly the connected components of the set pixels, in the order of their first
  points, each first point the name of its cluster and each cluster's points in the order
  the scan lists them, so the contract fixes the result. It asks only that the scan's
  count of live cluster slots stays within its label type. Laws here: every cluster of
  edge neighbours lies in one cluster of edge-and-corner neighbours, and a cluster drawn
  on its own clusters again into itself.
- `breaking`: `Cluster::break_cluster`, which cuts a cluster at thin waists, stated exactly
  as a recursive relation between a cluster and its pieces.
- `background`: clustering the unset pixels with a union-find (`Scan`), the laws that this
  gives the clusters of the negative image, with the same rects and sizes, listed in the
  order of their top left pixels, and `image_boundaries`, the image with its holes filled
  followed by each hole, holes in the same order.

The tests under `tests/` run the library on concrete images.
