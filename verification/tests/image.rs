use cellcast::labeling::image::LabelImage;
use cellcast::labeling::polygon_label::label_polygons_2d;

#[test]
fn background_is_all_zero() {
    let image = LabelImage::background((3, 4)).unwrap();
    assert_eq!(image.shape(), (3, 4));
    assert_eq!(image.to_rows(), vec![vec![0u16; 4]; 3]);
    for r in 0..3 {
        for c in 0..4 {
            assert_eq!(image.label_at(r, c), Some(0));
        }
    }
}

#[test]
fn a_label_lands_on_its_pixels_only() {
    let unit = 1024;
    let square = vec![(unit, 2 * unit), (unit, 3 * unit), (3 * unit, 3 * unit), (3 * unit, 2 * unit)];
    let image = label_polygons_2d(&vec![square], &vec![1], &vec![6], (3, 4)).unwrap();
    assert_eq!(
        image.to_rows(),
        vec![vec![0, 0, 0, 0], vec![0, 0, 7, 0], vec![0, 0, 7, 0]]
    );
    assert_eq!(image.label_at(1, 2), Some(7));
    assert_eq!(image.label_at(2, 2), Some(7));
    assert_eq!(image.label_at(2, 1), Some(0));
    assert_eq!(image.shape(), (3, 4));
}

#[test]
fn outside_the_image_there_is_no_label() {
    let image = LabelImage::background((3, 4)).unwrap();
    assert_eq!(image.label_at(3, 0), None);
    assert_eq!(image.label_at(0, 4), None);
    assert_eq!(image.label_at(usize::MAX, usize::MAX), None);
}

#[test]
fn empty_images_are_allowed() {
    let image = LabelImage::background((0, 5)).unwrap();
    assert_eq!(image.shape(), (0, 5));
    assert_eq!(image.to_rows(), Vec::<Vec<u16>>::new());
    assert_eq!(image.label_at(0, 0), None);
    let image = LabelImage::background((5, 0)).unwrap();
    assert_eq!(image.shape(), (5, 0));
    assert_eq!(image.to_rows(), vec![Vec::<u16>::new(); 5]);
    let image = LabelImage::background((0, 0)).unwrap();
    assert_eq!(image.shape(), (0, 0));
}

#[test]
fn a_shape_too_large_is_refused() {
    assert!(LabelImage::background((usize::MAX, 2)).is_none());
    assert!(LabelImage::background((usize::MAX, usize::MAX)).is_none());
    assert!(LabelImage::background((usize::MAX, 0)).is_none());
    assert!(LabelImage::background((0, usize::MAX)).is_none());
    assert!(LabelImage::background((isize::MAX as usize / 2 + 1, 1)).is_none());
    assert!(LabelImage::background((1 << (usize::BITS / 2), 1 << (usize::BITS / 2 - 1))).is_none());
}
