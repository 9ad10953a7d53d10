use gtk_rlottie::frame::Frame;

#[test]
fn frame_accepts_a_buffer_of_matching_length() {
    let frame = Frame::new(2, 3, vec![7u8; 24]).expect("2 x 3 pixels take 24 bytes");
    assert_eq!(frame.width(), 2);
    assert_eq!(frame.height(), 3);
    assert_eq!(frame.stride(), 8);
    assert_eq!(frame.pixels(), &[7u8; 24][..]);
}

#[test]
fn frame_keeps_the_bytes_in_order() {
    let bytes: Vec<u8> = (0u8..16).collect();
    let frame = Frame::new(2, 2, bytes.clone()).expect("2 x 2 pixels take 16 bytes");
    assert_eq!(frame.pixels(), &bytes[..]);
}

#[test]
fn frame_refuses_a_zero_width() {
    assert!(Frame::new(0, 3, Vec::new()).is_none());
}

#[test]
fn frame_refuses_a_zero_height() {
    assert!(Frame::new(3, 0, Vec::new()).is_none());
}

#[test]
fn frame_refuses_a_buffer_that_is_too_short() {
    assert!(Frame::new(2, 3, vec![0u8; 23]).is_none());
}

#[test]
fn frame_refuses_a_buffer_that_is_too_long() {
    assert!(Frame::new(2, 3, vec![0u8; 25]).is_none());
}

#[test]
fn frame_refuses_dimensions_whose_product_overflows() {
    assert!(Frame::new(usize::MAX, 2, vec![0u8; 8]).is_none());
    assert!(Frame::new(usize::MAX / 4 + 1, 1, vec![0u8; 4]).is_none());
}

#[test]
fn frame_clone_is_the_same_frame() {
    let frame = Frame::new(1, 2, vec![1, 2, 3, 4, 5, 6, 7, 8]).expect("1 x 2 pixels take 8 bytes");
    let copy = frame.clone();
    assert_eq!(copy, frame);
    assert_eq!(copy.width(), 1);
    assert_eq!(copy.height(), 2);
    assert_eq!(copy.pixels(), &[1, 2, 3, 4, 5, 6, 7, 8][..]);
}

#[test]
fn frame_clone_shares_the_buffer() {
    let frame = Frame::new(1, 1, vec![9, 9, 9, 9]).expect("1 pixel takes 4 bytes");
    let copy = frame.clone();
    assert_eq!(copy.pixels().as_ptr(), frame.pixels().as_ptr());
}
