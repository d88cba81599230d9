use moss_model::image::{Image, PixelDepth};

#[test]
fn an_image_holds_what_it_was_made_of() {
    let data: Vec<u8> = (0..24).collect();
    let img = Image::new(4, 2, 3, PixelDepth::Unsigned8, data.clone()).unwrap();
    assert_eq!((img.width(), img.height(), img.channels()), (4, 2, 3));
    assert_eq!(img.depth(), PixelDepth::Unsigned8);
    assert_eq!(img.data(), &data);
    assert_eq!(img.into_data(), data);
}

#[test]
fn the_bytes_must_match_the_size() {
    assert!(Image::new(4, 2, 3, PixelDepth::Unsigned8, vec![0; 23]).is_none());
    assert!(Image::new(4, 2, 3, PixelDepth::Unsigned8, vec![0; 25]).is_none());
    assert!(Image::new(4, 2, 3, PixelDepth::Unsigned16, vec![0; 24]).is_none());
    assert!(Image::new(4, 2, 3, PixelDepth::Unsigned16, vec![0; 48]).is_some());
    assert!(Image::new(4, 2, 1, PixelDepth::Real32, vec![0; 32]).is_some());
    assert!(Image::new(4, 2, 1, PixelDepth::Real64, vec![0; 64]).is_some());
    assert!(Image::new(0, 0, 0, PixelDepth::Unsigned8, Vec::new()).is_some());
    assert!(Image::new(0, 9, 3, PixelDepth::Signed32, Vec::new()).is_some());
    assert!(Image::new(u32::MAX, u32::MAX, u32::MAX, PixelDepth::Real64, Vec::new()).is_none());
    assert!(Image::new(u32::MAX, u32::MAX, u32::MAX, PixelDepth::Real64, vec![0; 8]).is_none());
}

#[test]
fn each_depth_has_its_width_in_bytes() {
    assert_eq!(PixelDepth::Unsigned8.bytes(), 1);
    assert_eq!(PixelDepth::Signed8.bytes(), 1);
    assert_eq!(PixelDepth::Unsigned16.bytes(), 2);
    assert_eq!(PixelDepth::Signed16.bytes(), 2);
    assert_eq!(PixelDepth::Signed32.bytes(), 4);
    assert_eq!(PixelDepth::Real32.bytes(), 4);
    assert_eq!(PixelDepth::Real64.bytes(), 8);
}
