use fluid_renderer::{FrameBuffer, HeadlessBuffer};

#[test]
fn test_headless_buffer_creation() {
    let buffer = HeadlessBuffer::new(100, 100);
    assert_eq!(buffer.width(), 100);
    assert_eq!(buffer.height(), 100);
    assert_eq!(buffer.buffer().len(), 10000);
}

#[test]
fn test_pixel_operations() {
    let mut buffer = HeadlessBuffer::new(10, 10);

    buffer.clear(0xFFFFFFFF);
    assert_eq!(buffer.get_pixel(5, 5), Some(0xFFFFFFFF));

    buffer.set_pixel(5, 5, 0xFF00FF00);
    assert_eq!(buffer.get_pixel(5, 5), Some(0xFF00FF00));

    buffer.set_pixel(10, 10, 0xFF000000);
    assert_eq!(buffer.get_pixel(10, 10), None);
}

#[test]
fn new_buffer_is_opaque_black() {
    let buffer = HeadlessBuffer::new(7, 3);
    assert_eq!(buffer.buffer().len(), 21);
    assert!(buffer.buffer().iter().all(|&p| p == 0xFF000000));
    assert_eq!(buffer.get_pixel(6, 2), Some(0xFF000000));
    assert_eq!(buffer.get_pixel(7, 2), None);
    assert_eq!(buffer.get_pixel(6, 3), None);
}

#[test]
fn set_pixel_is_row_major_and_touches_one_pixel() {
    let mut buffer = HeadlessBuffer::new(4, 3);
    buffer.set_pixel(1, 2, 0xFF123456);
    for (k, &p) in buffer.buffer().iter().enumerate() {
        if k == 2 * 4 + 1 {
            assert_eq!(p, 0xFF123456);
        } else {
            assert_eq!(p, 0xFF000000);
        }
    }
    assert_eq!(buffer.get_pixel(1, 2), Some(0xFF123456));
    assert_eq!(buffer.get_pixel(2, 1), Some(0xFF000000));
}

#[test]
fn set_pixel_outside_changes_nothing() {
    let mut buffer = HeadlessBuffer::new(4, 3);
    buffer.clear(0xFF0000FF);
    buffer.set_pixel(4, 0, 0xFFFFFFFF);
    buffer.set_pixel(0, 3, 0xFFFFFFFF);
    buffer.set_pixel(usize::MAX, 1, 0xFFFFFFFF);
    assert!(buffer.buffer().iter().all(|&p| p == 0xFF0000FF));
}

#[test]
fn clear_after_writes_resets_every_pixel() {
    let mut buffer = HeadlessBuffer::new(5, 5);
    buffer.set_pixel(0, 0, 1);
    buffer.set_pixel(4, 4, 2);
    buffer.clear(0xFFABCDEF);
    for y in 0..5 {
        for x in 0..5 {
            assert_eq!(buffer.get_pixel(x, y), Some(0xFFABCDEF));
        }
    }
    assert_eq!(buffer.width(), 5);
    assert_eq!(buffer.height(), 5);
}

#[test]
fn buffer_mut_writes_show_through_get_pixel() {
    let mut buffer = HeadlessBuffer::new(3, 2);
    {
        let pixels = buffer.buffer_mut();
        assert_eq!(pixels.len(), 6);
        pixels[3 + 2] = 0xFF010203;
    }
    assert_eq!(buffer.get_pixel(2, 1), Some(0xFF010203));
    assert_eq!(buffer.get_pixel(2, 0), Some(0xFF000000));
}
