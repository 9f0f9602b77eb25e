use visioncortex::background::{cluster_background, image_boundaries, Scan};
use visioncortex::bound::BoundingRect;
use visioncortex::breaking::find_break;
use visioncortex::clusters::{Cluster, Clusters};
use visioncortex::image::{BinaryImage, MonoImage};
use visioncortex::point::PointI32;
use visioncortex::scan::combine_cluster;

fn rect(left: i32, top: i32, right: i32, bottom: i32) -> BoundingRect {
    BoundingRect { left, top, right, bottom }
}

#[test]
fn rect_add_x_y_grows_from_empty() {
    let mut r = BoundingRect::default();
    assert!(r.is_empty());
    r.add_x_y(2, 3);
    assert_eq!(r, rect(2, 3, 3, 4));
    assert_eq!(r.width(), 1);
    assert_eq!(r.height(), 1);
    r.add_x_y(-1, 5);
    assert_eq!(r, rect(-1, 3, 3, 6));
    assert_eq!(r.width(), 4);
    assert_eq!(r.height(), 3);
    assert!(!r.is_empty());
}

#[test]
fn rect_merge_and_translate() {
    let mut r = BoundingRect::default();
    r.merge(rect(1, 1, 4, 2));
    assert_eq!(r, rect(1, 1, 4, 2));
    r.merge(rect(0, 5, 2, 7));
    assert_eq!(r, rect(0, 1, 4, 7));
    r.merge(BoundingRect::default());
    assert_eq!(r, rect(0, 1, 4, 7));
    r.translate(PointI32::new(3, -2));
    assert_eq!(r, rect(3, -1, 7, 5));
}

#[test]
fn image_text_round_trip() {
    let text = "*-*\n---\n-**\n";
    let image = BinaryImage::from_string(text);
    assert_eq!(image.width, 3);
    assert_eq!(image.height, 3);
    assert!(image.get_pixel(0, 0));
    assert!(!image.get_pixel(1, 0));
    assert!(image.get_pixel(2, 2));
    assert!(!image.get_pixel(0, 2));
    assert_eq!(image.to_string(), text);
    assert!(!image.get_pixel_safe(-1, 0));
    assert!(!image.get_pixel_safe(0, 3));
    assert!(image.get_pixel_safe(2, 0));
}

#[test]
fn image_from_string_cuts_long_lines() {
    let image = BinaryImage::from_string("*-\n***\n*\n");
    assert_eq!(image.width, 2);
    assert_eq!(image.height, 3);
    assert_eq!(image.to_string(), "*-\n**\n*-\n");
    let empty = BinaryImage::from_string("");
    assert_eq!(empty.width, 0);
    assert_eq!(empty.height, 0);
    assert_eq!(empty.to_string(), "");
}

#[test]
fn mono_image_set_and_get() {
    let mut map = MonoImage::new_w_h(3, 2);
    assert_eq!(map.get_pixel(2, 1), 0);
    map.set_pixel(2, 1, 7);
    assert_eq!(map.get_pixel(2, 1), 7);
    assert_eq!(map.get_pixel(1, 1), 0);
}

#[test]
fn cluster_add_offset_and_back() {
    let mut c = Cluster::default();
    c.add(PointI32::new(2, 3));
    c.add(PointI32::new(4, 3));
    assert_eq!(c.size(), 2);
    assert_eq!(c.rect, rect(2, 3, 5, 4));
    c.offset(PointI32::new(3, -1));
    assert_eq!(c.points, vec![PointI32::new(5, 2), PointI32::new(7, 2)]);
    assert_eq!(c.rect, rect(5, 2, 8, 3));
    c.offset(PointI32::new(-3, 1));
    assert_eq!(c.points, vec![PointI32::new(2, 3), PointI32::new(4, 3)]);
    assert_eq!(c.rect, rect(2, 3, 5, 4));
    let seen: Vec<PointI32> = c.iter().copied().collect();
    assert_eq!(seen, c.points);
}

#[test]
fn cluster_draws_itself() {
    let mut c = Cluster::default();
    c.add(PointI32::new(5, 7));
    c.add(PointI32::new(7, 8));
    let image = c.to_binary_image();
    assert_eq!(image.width, 3);
    assert_eq!(image.height, 2);
    assert_eq!(image.to_string(), "*--\n--*\n");
}

#[test]
fn clusters_collection_accessors() {
    let mut all = Clusters::default();
    assert!(all.is_empty());
    assert_eq!(all.len(), 0);
    let mut a = Cluster::default();
    a.add(PointI32::new(1, 1));
    let mut b = Cluster::default();
    b.add(PointI32::new(4, 0));
    b.add(PointI32::new(4, 2));
    all.add_cluster(a);
    all.add_cluster(b);
    assert!(!all.is_empty());
    assert_eq!(all.len(), 2);
    assert_eq!(all.rect, rect(1, 0, 5, 3));
    assert_eq!(all.get_cluster(1).size(), 2);
    let sizes: Vec<usize> = all.iter().map(|c| c.size()).collect();
    assert_eq!(sizes, vec![1, 2]);
    let owned: Vec<Cluster> = all.into_iter().collect();
    assert_eq!(owned.len(), 2);
    assert_eq!(owned[0].points, vec![PointI32::new(1, 1)]);
}

#[test]
fn to_clusters_of_empty_image() {
    let image = BinaryImage::new_w_h(4, 3);
    let clusters = image.to_clusters(false);
    assert!(clusters.is_empty());
    assert_eq!(clusters.rect, BoundingRect::default());
}

#[test]
fn to_clusters_merges_late_joins() {
    // The two arms of the U meet only on the last row, after both got their own label.
    let image = BinaryImage::from_string(&("*--*\n".to_owned() + "*--*\n" + "****\n" + "----\n" + "-**-\n"));
    let clusters = image.to_clusters(false);
    assert_eq!(clusters.len(), 2);
    assert_eq!(clusters.rect, rect(0, 0, 4, 5));
    let sizes: Vec<usize> = clusters.iter().map(|c| c.size()).collect();
    assert_eq!(sizes, vec![8, 2]);
    assert_eq!(clusters.get_cluster(0).points[0], PointI32::new(0, 0));
    assert_eq!(clusters.get_cluster(1).points, vec![PointI32::new(1, 4), PointI32::new(2, 4)]);
    for c in clusters.iter() {
        for p in c.iter() {
            assert!(image.get_pixel(p.x as usize, p.y as usize));
        }
        if c.size() == 8 {
            assert_eq!(c.rect, rect(0, 0, 4, 3));
        } else {
            assert_eq!(c.rect, rect(1, 4, 3, 5));
        }
    }
}

#[test]
fn to_clusters_diagonal_joins_corners() {
    let image = BinaryImage::from_string(&("*-\n".to_owned() + "-*\n" + "*-\n"));
    assert_eq!(image.to_clusters(false).len(), 3);
    let joined = image.to_clusters(true);
    assert_eq!(joined.len(), 1);
    assert_eq!(joined.get_cluster(0).size(), 3);
    assert_eq!(joined.get_cluster(0).rect, rect(0, 0, 2, 3));
}

#[test]
fn combine_cluster_moves_points_and_labels() {
    let mut a = Cluster::default();
    a.add(PointI32::new(0, 0));
    a.add(PointI32::new(1, 0));
    let mut b = Cluster::default();
    b.add(PointI32::new(1, 2));
    let mut clusters = vec![a, b];
    let mut map = MonoImage::new_w_h(2, 3);
    map.set_pixel(1, 2, 1);
    combine_cluster(&mut clusters, &mut map, 0, 1);
    assert_eq!(clusters[0].size(), 0);
    assert_eq!(clusters[1].points, vec![PointI32::new(1, 2), PointI32::new(0, 0), PointI32::new(1, 0)]);
    assert_eq!(clusters[1].rect, rect(0, 0, 2, 3));
    assert_eq!(map.get_pixel(0, 0), 1);
    assert_eq!(map.get_pixel(1, 0), 1);
    assert_eq!(map.get_pixel(1, 2), 1);
    assert_eq!(map.get_pixel(0, 1), 0);
}

#[test]
fn find_break_first_waist() {
    let image = BinaryImage::from_string(&("***---\n".to_owned() + "******\n" + "---***\n"));
    assert_eq!(find_break(&image), Some((3, 1)));
    let left = BinaryImage::from_string(&("--*\n".to_owned() + "***\n" + "-*-\n"));
    assert_eq!(find_break(&left), Some((1, 1)));
    let short = BinaryImage::from_string(&("***\n".to_owned() + "***\n"));
    assert_eq!(find_break(&short), None);
    let plain = BinaryImage::from_string(&("***\n".to_owned() + "***\n" + "***\n"));
    assert_eq!(find_break(&plain), None);
}

#[test]
fn break_cluster_keeps_small_pieces_whole() {
    let image = BinaryImage::from_string(&("**--\n".to_owned() + "****\n" + "--**\n"));
    let cluster = image.to_clusters(false).clusters.remove(0);
    let points = cluster.points.clone();
    let pieces = Cluster::break_cluster(cluster);
    assert_eq!(pieces.len(), 1);
    assert_eq!(pieces.get_cluster(0).points, points);
    assert_eq!(pieces.rect, rect(0, 0, 4, 3));
}

#[test]
fn break_cluster_recursive_appends_to_output() {
    let image = BinaryImage::from_string(&("***---\n".to_owned() + "******\n" + "---***\n"));
    let mut output = Clusters::default();
    let mut first = Cluster::default();
    first.add(PointI32::new(20, 20));
    output.add_cluster(first);
    Cluster::break_cluster_recursive(image.to_clusters(false).clusters.remove(0), &mut output);
    assert_eq!(output.len(), 3);
    assert_eq!(output.get_cluster(0).points, vec![PointI32::new(20, 20)]);
    assert_eq!(output.get_cluster(1).size() + output.get_cluster(2).size(), 11);
    assert_eq!(output.rect, rect(0, 0, 21, 21));
}

#[test]
fn scan_union_find() {
    let mut scan = Scan::new();
    let a = scan.new_cluster();
    let b = scan.new_cluster();
    let c = scan.new_cluster();
    assert_eq!((a, b, c), (0, 1, 2));
    scan.add(a, 0, 0);
    scan.add(b, 3, 1);
    scan.add(b, 3, 2);
    scan.add(c, 5, 5);
    scan.combine(a, b);
    assert_eq!(scan.find(a), b);
    assert_eq!(scan.size, vec![0, 3, 1]);
    scan.combine(b, c);
    assert_eq!(scan.find(a), c);
    assert_eq!(scan.find(b), c);
    assert_eq!(scan.size, vec![0, 0, 4]);
    let roots = scan.clusters();
    assert_eq!(roots, vec![(2, rect(0, 0, 6, 6))]);
}

#[test]
fn cluster_background_merges_arms() {
    let image = BinaryImage::from_string(&("-*-\n".to_owned() + "---\n"));
    let (mut scan, map) = cluster_background(&image);
    assert_eq!(map, vec![1, 0, 2, 1, 1, 1]);
    assert_eq!(scan.clusters(), vec![(0, rect(0, 0, 3, 2))]);
    assert_eq!(scan.find(1), 0);
    assert_eq!(scan.size[0], 5);
}

#[test]
fn cluster_background_split_columns() {
    let image = BinaryImage::from_string(&("-*-\n".to_owned() + "-*-\n"));
    let (scan, map) = cluster_background(&image);
    assert_eq!(map, vec![1, 0, 2, 1, 0, 2]);
    assert_eq!(scan.clusters(), vec![(0, rect(0, 0, 1, 2)), (1, rect(2, 0, 3, 2))]);
}

fn negative_of(image: &BinaryImage) -> BinaryImage {
    let mut negative = BinaryImage::new_w_h(image.width, image.height);
    for y in 0..image.height {
        for x in 0..image.width {
            negative.set_pixel(x, y, !image.get_pixel(x, y));
        }
    }
    negative
}

#[test]
fn cluster_background_matches_negative_clusters() {
    let text = "*-**-\n".to_owned() + "*-*--\n" + "***-*\n" + "--*-*\n";
    let image = BinaryImage::from_string(&text);
    let negative = negative_of(&image);
    let (scan, _) = cluster_background(&image);
    let mut from_scan: Vec<(i32, i32, i32, i32, usize)> = scan
        .clusters()
        .iter()
        .map(|(l, r)| (r.left, r.top, r.right, r.bottom, scan.size[*l as usize]))
        .collect();
    let mut from_negative: Vec<(i32, i32, i32, i32, usize)> = negative
        .to_clusters(false)
        .iter()
        .map(|c| (c.rect.left, c.rect.top, c.rect.right, c.rect.bottom, c.size()))
        .collect();
    assert_eq!(from_scan.len(), 3);
    from_scan.sort();
    from_negative.sort();
    assert_eq!(from_scan, from_negative);
}

/// The top left unset pixel of the background cluster of root `label`.
fn top_left_of(image: &BinaryImage, scan: &mut Scan, map: &[u32], label: u32) -> (usize, usize) {
    for y in 0..image.height {
        for x in 0..image.width {
            let l = map[y * image.width + x];
            if l != 0 && scan.find(l - 1) == label {
                return (y, x);
            }
        }
    }
    panic!("a root with no pixel");
}

#[test]
fn cluster_background_top_left_order() {
    let (w, h) = (13, 11);
    let mut image = BinaryImage::new_w_h(w, h);
    for y in 0..h {
        for x in 0..w {
            image.set_pixel(x, y, (x * 7 + y * 3 + x * y) % 5 < 2);
        }
    }
    let negative = negative_of(&image);
    let (mut scan, map) = cluster_background(&image);
    let roots = scan.clusters();
    let clusters = negative.to_clusters(false);
    assert!(roots.len() > 1);
    assert_eq!(roots.len(), clusters.len());
    let mut last = None;
    for (label, r) in roots.iter() {
        let first = top_left_of(&image, &mut scan, &map, *label);
        assert!(last < Some(first));
        last = Some(first);
        let matching = clusters
            .iter()
            .filter(|c| c.rect == *r && c.size() == scan.size[*label as usize])
            .count();
        assert!(matching >= 1);
    }
}

#[test]
fn scan_clusters_come_by_top_left_pixel() {
    let text = "*********\n".to_owned() + "*-*-*---*\n" + "*-***---*\n" + "*-------*\n" + "*********\n";
    let image = BinaryImage::from_string(&text);
    let (scan, _) = cluster_background(&image);
    assert_eq!(scan.clusters(), vec![(2, rect(1, 1, 8, 4)), (1, rect(3, 1, 4, 2))]);
    assert_eq!(scan.size[2], 15);
    assert_eq!(scan.size[1], 1);
    let boundaries = image_boundaries(&image);
    assert_eq!(boundaries.len(), 3);
    assert_eq!(boundaries[1].1, PointI32 { x: 1, y: 1 });
    assert_eq!(boundaries[2].1, PointI32 { x: 3, y: 1 });
}

#[test]
fn image_boundaries_without_holes() {
    let image = BinaryImage::from_string(&("-*-\n".to_owned() + "***\n"));
    let boundaries = image_boundaries(&image);
    assert_eq!(boundaries.len(), 1);
    assert_eq!(boundaries[0].0.to_string(), image.to_string());
    assert_eq!(boundaries[0].1, PointI32::new(0, 0));
}

#[test]
fn image_boundaries_fills_a_hole() {
    let image = BinaryImage::from_string(&("*****\n".to_owned() + "*---*\n" + "*****\n"));
    let boundaries = image_boundaries(&image);
    assert_eq!(boundaries.len(), 2);
    assert_eq!(boundaries[0].0.to_string(), "*****\n*****\n*****\n");
    assert_eq!(boundaries[0].1, PointI32::new(0, 0));
    assert_eq!(boundaries[1].0.to_string(), "***\n");
    assert_eq!(boundaries[1].1, PointI32::new(1, 1));
}

#[test]
fn image_boundaries_nested_holes() {
    let image = BinaryImage::from_string(
        &("*******\n".to_owned()
            + "*-----*\n"
            + "*-***-*\n"
            + "*-*-*-*\n"
            + "*-***-*\n"
            + "*-----*\n"
            + "*******\n"),
    );
    let boundaries = image_boundaries(&image);
    assert_eq!(boundaries.len(), 3);
    assert_eq!(boundaries[0].0.to_string(), "*******\n".repeat(7));
    assert_eq!(boundaries[1].0.to_string(), "*****\n*---*\n*---*\n*---*\n*****\n");
    assert_eq!(boundaries[1].1, PointI32::new(1, 1));
    assert_eq!(boundaries[2].0.to_string(), "*\n");
    assert_eq!(boundaries[2].1, PointI32::new(3, 3));
}

#[test]
fn image_boundaries_ignore_border_background() {
    let image = BinaryImage::from_string(&("-***\n".to_owned() + "-*-*\n" + "-***\n"));
    let boundaries = image_boundaries(&image);
    assert_eq!(boundaries.len(), 2);
    assert_eq!(boundaries[0].0.to_string(), "-***\n-***\n-***\n");
    assert_eq!(boundaries[1].0.to_string(), "*\n");
    assert_eq!(boundaries[1].1, PointI32::new(2, 1));
}

/// Blocks `-*-`, `**-`, `***` side by side: every block opens two clusters, but the newer
/// one merges upward at once and frees its slot, so the slot counter stays low.
fn many_openings_image(blocks: usize) -> BinaryImage {
    let mut image = BinaryImage::new_w_h(3 * blocks, 3);
    for b in 0..blocks {
        let x = 3 * b;
        image.set_pixel(x + 1, 0, true);
        image.set_pixel(x, 1, true);
        image.set_pixel(x + 1, 1, true);
        image.set_pixel(x, 2, true);
        image.set_pixel(x + 1, 2, true);
        image.set_pixel(x + 2, 2, true);
    }
    image
}

#[test]
fn to_clusters_many_openings_few_slots() {
    let image = many_openings_image(40000);
    let clusters = image.to_clusters(false);
    assert_eq!(clusters.len(), 1);
    assert_eq!(clusters.get_cluster(0).size(), 240000);
    assert_eq!(clusters.get_cluster(0).rect, rect(0, 0, 120000, 3));
}

#[test]
fn break_cluster_many_openings_no_waist() {
    let image = many_openings_image(40000);
    let cluster = image.to_clusters(false).clusters.remove(0);
    let points = cluster.points.clone();
    let pieces = Cluster::break_cluster(cluster);
    assert_eq!(pieces.len(), 1);
    assert_eq!(pieces.get_cluster(0).points, points);
    assert_eq!(pieces.rect, rect(0, 0, 120000, 3));
}

#[test]
fn corner_clusters_join_edge_clusters() {
    let image = BinaryImage::from_string(&("*-*-\n".to_owned() + "-*--\n" + "--**\n" + "*---\n"));
    let edges = image.to_clusters(false);
    let corners = image.to_clusters(true);
    assert_eq!(edges.len(), 5);
    assert_eq!(corners.len(), 2);
    for e in edges.iter() {
        let home = corners.iter().filter(|c| e.points.iter().all(|p| c.points.contains(p))).count();
        assert_eq!(home, 1);
    }
}

#[test]
fn edge_clusters_recluster_alone() {
    let image = BinaryImage::from_string(&("**-*\n".to_owned() + "-*-*\n" + "-***\n" + "*---\n"));
    let edges = image.to_clusters(false);
    assert_eq!(edges.len(), 2);
    for c in edges.iter() {
        let drawing = c.to_binary_image();
        let again = drawing.to_clusters(false);
        assert_eq!(again.len(), 1);
        assert_eq!(again.clusters[0].size(), c.size());
        assert_eq!(again.clusters[0].rect, rect(0, 0, drawing.width as i32, drawing.height as i32));
    }
}

#[test]
fn single_cluster_draws_its_image() {
    let text = "*--\n**-\n-**\n".to_owned();
    let image = BinaryImage::from_string(&text);
    let clusters = image.to_clusters(false);
    assert_eq!(clusters.len(), 1);
    assert_eq!(clusters.clusters[0].to_binary_image().to_string(), text);
    let framed = BinaryImage::from_string(&("----\n".to_owned() + "-**-\n" + "--*-\n"));
    let inner = framed.to_clusters(false);
    assert_eq!(inner.len(), 1);
    assert_eq!(inner.clusters[0].rect, rect(1, 1, 3, 3));
    assert_eq!(inner.clusters[0].to_binary_image().to_string(), "**\n-*\n");
}
