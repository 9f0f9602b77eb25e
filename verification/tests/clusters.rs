use visioncortex::bound::BoundingRect;
use visioncortex::clusters::Cluster;
use visioncortex::image::BinaryImage;
use visioncortex::point::PointI32;

#[test]
fn clusters_3x3() {
    let size = 3;
    let mut image = BinaryImage::new_w_h(size, size);
    image.set_pixel(0, 0, true);
    image.set_pixel(1, 1, true);
    image.set_pixel(2, 2, true);
    let clusters = image.to_clusters(false);
    assert_eq!(clusters.len(), 3);
    assert_eq!(clusters.clusters[0].size(), 1);
    assert_eq!(clusters.clusters[0].points[0], PointI32 { x: 0, y: 0 });
    assert_eq!(clusters.clusters[1].size(), 1);
    assert_eq!(clusters.clusters[1].points[0], PointI32 { x: 1, y: 1 });
    assert_eq!(clusters.clusters[2].size(), 1);
    assert_eq!(clusters.clusters[2].points[0], PointI32 { x: 2, y: 2 });
    let mut rect = BoundingRect::default();
    rect.add_x_y(2, 2);
    assert_eq!(clusters.clusters[2].rect, rect);
    let bin = clusters.clusters[0].to_binary_image();
    assert_eq!(bin.width, 1);
    assert_eq!(bin.height, 1);
    assert_eq!(bin.get_pixel(0, 0), true);
}

#[test]
fn clusters_3x3_diagonal() {
    let size = 3;
    let mut image = BinaryImage::new_w_h(size, size);
    image.set_pixel(0, 0, true);
    image.set_pixel(1, 1, true);
    image.set_pixel(2, 2, true);
    let clusters = image.to_clusters(true);
    assert_eq!(clusters.len(), 1);
    assert_eq!(clusters.clusters[0].size(), 3);
    assert_eq!(clusters.clusters[0].points[0], PointI32 { x: 0, y: 0 });
    assert_eq!(clusters.clusters[0].points[1], PointI32 { x: 1, y: 1 });
    assert_eq!(clusters.clusters[0].points[2], PointI32 { x: 2, y: 2 });
}

#[test]
fn clusters_4x4() {
    let size = 4;
    let mut image = BinaryImage::new_w_h(size, size);
    image.set_pixel(1, 1, true);
    image.set_pixel(1, 2, true);
    image.set_pixel(2, 1, true);
    image.set_pixel(2, 2, true);
    let clusters = image.to_clusters(false);
    assert_eq!(clusters.len(), 1);
    assert_eq!(clusters.clusters[0].size(), 4);
    assert_eq!(clusters.clusters[0].rect.left, 1);
    assert_eq!(clusters.clusters[0].rect.top, 1);
    assert_eq!(clusters.clusters[0].rect.right, 3);
    assert_eq!(clusters.clusters[0].rect.bottom, 3);
    assert_eq!(clusters.clusters[0].rect.width(), 2);
    assert_eq!(clusters.clusters[0].rect.height(), 2);
    let bin = clusters.clusters[0].to_binary_image();
    assert_eq!(bin.width, 2);
    assert_eq!(bin.height, 2);
    assert_eq!(bin.get_pixel(0, 0), true);
    assert_eq!(bin.get_pixel(0, 1), true);
    assert_eq!(bin.get_pixel(1, 0), true);
    assert_eq!(bin.get_pixel(1, 1), true);
}

#[test]
fn break_cluster_noop() {
    let image_string =
        "***\n".to_owned()+
        "***\n"+
        "-*-\n";
    let image = BinaryImage::from_string(&image_string);
    let clusters = Cluster::break_cluster(image.to_clusters(false).clusters.remove(0));
    assert_eq!(clusters.len(), 1);
    assert_eq!(clusters.get_cluster(0).to_binary_image().to_string(), image_string);
}

#[test]
fn break_cluster() {
    let image = BinaryImage::from_string(&(
        "***---\n".to_owned()+
        "******\n"+
        "---***\n"));
    let clusters = Cluster::break_cluster(image.to_clusters(false).clusters.remove(0));
    assert_eq!(clusters.len(), 2);
    assert_eq!(clusters.get_cluster(0).to_binary_image().to_string(),
        "***\n".to_owned()+
        "***\n");
    assert_eq!(clusters.get_cluster(0).rect.left, 0);
    assert_eq!(clusters.get_cluster(0).rect.top, 0);
    assert_eq!(clusters.get_cluster(1).to_binary_image().to_string(),
        "-**\n".to_owned()+
        "***\n");
    assert_eq!(clusters.get_cluster(1).rect.left, 3);
    assert_eq!(clusters.get_cluster(1).rect.top, 1);
}

#[test]
fn break_cluster_alt() {
    let image = BinaryImage::from_string(&(
        "---***\n".to_owned()+
        "******\n"+
        "***---\n"));
    let clusters = Cluster::break_cluster(image.to_clusters(false).clusters.remove(0));
    for c in clusters.iter() {
        println!("{}", c.to_binary_image().to_string());
    }
    assert_eq!(clusters.len(), 2);
    assert_eq!(clusters.get_cluster(0).to_binary_image().to_string(),
        "***\n".to_owned()+
        "-**\n");
    assert_eq!(clusters.get_cluster(0).rect.left, 3);
    assert_eq!(clusters.get_cluster(0).rect.top, 0);
    assert_eq!(clusters.get_cluster(1).to_binary_image().to_string(),
        "***\n".to_owned()+
        "***\n");
    assert_eq!(clusters.get_cluster(1).rect.left, 0);
    assert_eq!(clusters.get_cluster(1).rect.top, 1);
}

#[test]
fn break_cluster_cant_break() {
    let image_string =
        "*--\n".to_owned()+
        "**-\n"+
        "-**\n";
    let image = BinaryImage::from_string(&image_string);
    let clusters = Cluster::break_cluster(image.to_clusters(false).clusters.remove(0));
    assert_eq!(clusters.len(), 1);
    assert_eq!(clusters.get_cluster(0).to_binary_image().to_string(), image_string);
}

#[test]
fn break_cluster_cant_break_2() {
    let image_string =
        "*---\n".to_owned()+
        "****\n"+
        "--**\n";
    let image = BinaryImage::from_string(&image_string);
    let clusters = Cluster::break_cluster(image.to_clusters(false).clusters.remove(0));
    assert_eq!(clusters.len(), 1);
    assert_eq!(clusters.get_cluster(0).to_binary_image().to_string(), image_string);
}

#[test]
fn break_cluster_big() {
    let image = BinaryImage::from_string(&(
        "***---***\n".to_owned()+
        "*********\n"+
        "---***---\n"));
    let clusters = Cluster::break_cluster(image.to_clusters(false).clusters.remove(0));
    assert_eq!(clusters.len(), 3);

    assert_eq!(clusters.get_cluster(0).to_binary_image().to_string(),
        "***\n".to_owned()+
        "***\n");
    assert_eq!(clusters.get_cluster(0).rect.left, 0);
    assert_eq!(clusters.get_cluster(0).rect.top, 0);

    assert_eq!(clusters.get_cluster(1).to_binary_image().to_string(),
        "***\n".to_owned()+
        "-**\n");
    assert_eq!(clusters.get_cluster(1).rect.left, 6);
    assert_eq!(clusters.get_cluster(1).rect.top, 0);

    assert_eq!(clusters.get_cluster(2).to_binary_image().to_string(),
        "-**\n".to_owned()+
        "***\n");
    assert_eq!(clusters.get_cluster(2).rect.left, 3);
    assert_eq!(clusters.get_cluster(2).rect.top, 1);
}
