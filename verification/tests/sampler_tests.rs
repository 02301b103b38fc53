use visioncortex::sampler::is_pow_of_four;
use visioncortex::sampler::pow_of_four;
use visioncortex::{BinaryImage, BoundingRect, Sampler};

#[test]
fn sampler_2() {
    let size = 2;
    let mut image = BinaryImage::new_w_h(size, size);
    image.set_pixel(0, 0, true);
    image.set_pixel(1, 1, true);
    let sampler = Sampler::new_with_size(&image, size);
    assert_eq!(sampler.sample(0, 0, 1, 1), 1);
    assert_eq!(sampler.sample(0, 1, 1, 2), 0);
    assert_eq!(sampler.sample(1, 0, 2, 1), 0);
    assert_eq!(sampler.sample(1, 1, 2, 2), 1);
}

#[test]
/// cropping a 4x4 image to a 2x2 image same as above
fn sampler_crop() {
    let size = 4;
    let mut image = BinaryImage::new_w_h(size,size);
    image.set_pixel(1,1,true);
    image.set_pixel(2,2,true);
    let sampler = Sampler::new_with_size_crop(&image, 2, BoundingRect {
        left: 1, top: 1, right: 3, bottom: 3
    });
    assert_eq!(sampler.image.width, 2);
    assert_eq!(sampler.size(), 2);
    assert_eq!(sampler.sample(0, 0, 1, 1), 1);
    assert_eq!(sampler.sample(0, 1, 1, 2), 0);
    assert_eq!(sampler.sample(1, 0, 2, 1), 0);
    assert_eq!(sampler.sample(1, 1, 2, 2), 1);
}

#[test]
fn sampler_4() {
    let size = 4;
    let mut image = BinaryImage::new_w_h(size, size);
    image.set_pixel(0, 0, true);
    image.set_pixel(1, 1, true);
    let sampler = Sampler::new_with_size(&image, size);
    assert_eq!(sampler.sample(0, 0, size, size), 2); // whole
    assert_eq!(sampler.sample(0, 0, size / 2, size / 2), 2);
    assert_eq!(sampler.sample(size / 2, size / 2, size, size), 0);
    assert_eq!(sampler.sample(0,0,1,1), 1);
    assert_eq!(sampler.sample(1,1,size/2,size/2), 1);
    let rect = sampler.bounding_rect();
    assert_eq!(rect, BoundingRect { left: 0, right: 2, top: 0, bottom: 2 });
    assert_eq!(rect.width(), 2);
    assert_eq!(rect.height(), 2);
}

#[test]
fn sampler_upsize() {
    let mut image = BinaryImage::new_w_h(4, 4);
    image.set_pixel(1, 1, true);
    let sampler = Sampler::new_with_size(&image, 8);
    assert_eq!(sampler.image.width, 8);
    assert_eq!(sampler.sample(2, 2, 4, 4), 4);
    assert_eq!(sampler.sample(0, 0, 8, 8), 4);
    assert_eq!(sampler.sample(4, 4, 8, 8), 0);
}

#[test]
fn sampler_crop_upsize() {
    let mut image = BinaryImage::new_w_h(8,8);
    image.set_pixel(2,2,true);
    let sampler = Sampler::new_with_size_crop(&image, 8, BoundingRect {
        left: 1, top: 1, right: 5, bottom: 5
    });
    assert_eq!(sampler.image.width, 8);
    assert_eq!(sampler.sample(2, 2, 4, 4), 4);
    assert_eq!(sampler.sample(0, 0, 8, 8), 4);
    assert_eq!(sampler.sample(4, 4, 8, 8), 0);
}

#[test]
fn sampler_upsize_non_exact() {
    let mut image = BinaryImage::new_w_h(6, 6);
    image.set_pixel(1, 1, true);
    let sampler = Sampler::new_with_size(&image, 8);
    assert_eq!(sampler.sample(0, 0, 8, 8), 1);
}

#[test]
fn resample_image_2x2_to_4x2() {
    let image = BinaryImage::from_string(&(
        "*-\n".to_owned()+
        "-*\n"));
    assert_eq!(
        Sampler::resample_image(&image, 4, 2).to_string(),
        BinaryImage::from_string(&(
            "**--\n".to_owned()+
            "--**\n")).to_string()
    );
}

#[test]
fn resample_image_2x2_to_4x2_crop() {
    let image = BinaryImage::from_string(&(
        "--\n".to_owned()+
        "*-\n"+
        "-*\n"));
    let mut new_image = BinaryImage::new_w_h(4, 4);
    Sampler::resample_image_with_crop_to_image(
        &image, BoundingRect::new_x_y_w_h(0, 1, 2, 2),
        &mut new_image, BoundingRect::new_x_y_w_h(0, 1, 4, 2),
    );
    assert_eq!(
        new_image.to_string(),
        BinaryImage::from_string(&(
            "----\n".to_owned()+
            "**--\n"+
            "--**\n"+
            "----\n")).to_string()
    );
}

#[test]
fn resample_image_2x2_to_3x2() {
    let image = BinaryImage::from_string(&(
        "*-\n".to_owned()+
        "-*\n"));
    assert_eq!(
        Sampler::resample_image(&image, 3, 2).to_string(),
        BinaryImage::from_string(&(
            "**-\n".to_owned()+
            "--*\n")).to_string()
    )
}

#[test]
fn resample_image_3x3_to_2x2() {
    let mut image = BinaryImage::new_w_h(3, 3);
    image.set_pixel(1, 1, true);
    image.set_pixel(2, 1, true);
    image.set_pixel(1, 2, true);
    image.set_pixel(2, 2, true);
    let new_image = Sampler::resample_image(&image, 2, 2);
    assert_eq!(new_image.width, 2);
    assert_eq!(new_image.height, 2);
    assert_eq!(new_image.get_pixel(0, 0), false);
    assert_eq!(new_image.get_pixel(0, 1), false);
    assert_eq!(new_image.get_pixel(1, 0), false);
    assert_eq!(new_image.get_pixel(1, 1), true);
}

#[test]
fn powers_of_four() {
    assert_eq!(pow_of_four(0), 0);
    assert_eq!(pow_of_four(3), 0);
    assert_eq!(pow_of_four(4), 1);
    assert_eq!(pow_of_four(15), 1);
    assert_eq!(pow_of_four(16), 2);
    assert_eq!(pow_of_four(usize::MAX), 31);
    assert!(is_pow_of_four(1));
    assert!(is_pow_of_four(4));
    assert!(is_pow_of_four(16));
    assert!(!is_pow_of_four(0));
    assert!(!is_pow_of_four(5));
    assert!(!is_pow_of_four(8));
}

#[test]
fn an_overlay_writes_only_the_set_pixels() {
    let src = BinaryImage::from_string(&("*-\n".to_owned() + "-*\n"));
    let mut dst = BinaryImage::from_string(&("-*\n".to_owned() + "-*\n"));
    Sampler::resample_image_with_crop_to_image_overlay(
        &src,
        BoundingRect::default(),
        &mut dst,
        BoundingRect::new_x_y_w_h(0, 0, 2, 2),
        true,
    );
    assert_eq!(dst.to_string(), "**\n".to_owned() + "-*\n");
}
