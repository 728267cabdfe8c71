use fluid_renderer::{rgb, FrameBuffer, HeadlessBuffer, RendererCore};

#[test]
fn test_renderer_core_creation() {
    let renderer = RendererCore::new(4);
    assert_eq!(renderer.scale, 4);
}

#[test]
fn test_gradient_rendering() {
    let renderer = RendererCore::new(1);
    let mut buffer = HeadlessBuffer::new(100, 100);

    buffer.clear(0xFF000000);
    renderer.draw_gradient(&mut buffer);

    assert_eq!(buffer.get_pixel(0, 0), Some(rgb(0, 0, 128)));
    assert_eq!(buffer.get_pixel(99, 99), Some(rgb(252, 252, 128)));
    assert_eq!(buffer.get_pixel(50, 50), Some(rgb(127, 127, 128)));
}

#[test]
fn test_rgb_conversion() {
    assert_eq!(rgb(0, 0, 0), 0xFF000000);
    assert_eq!(rgb(255, 255, 255), 0xFFFFFFFF);
    assert_eq!(rgb(255, 0, 0), 0xFFFF0000);
    assert_eq!(rgb(0, 255, 0), 0xFF00FF00);
    assert_eq!(rgb(0, 0, 255), 0xFF0000FF);
}

#[test]
fn rgb_channels_read_back() {
    let p = rgb(0x12, 0x34, 0x56);
    assert_eq!(p, 0xFF123456);
    assert_eq!(p >> 24, 0xFF);
    assert_eq!((p >> 16) & 0xFF, 0x12);
    assert_eq!((p >> 8) & 0xFF, 0x34);
    assert_eq!(p & 0xFF, 0x56);
}

#[test]
fn gradient_covers_every_pixel_with_formula() {
    let renderer = RendererCore::new(3);
    let mut buffer = HeadlessBuffer::new(7, 5);
    buffer.clear(0xFFFFFFFF);
    renderer.draw_gradient(&mut buffer);
    for y in 0..5usize {
        for x in 0..7usize {
            let r = (x * 255 / 7) as u8;
            let g = (y * 255 / 5) as u8;
            assert_eq!(buffer.get_pixel(x, y), Some(rgb(r, g, 128)));
        }
    }
    assert_eq!(buffer.get_pixel(6, 4), Some(0xFFDACC80));
}

#[test]
fn grayscale_blocks_are_scaled() {
    // 2 x 2 grid, scale 3, on a 6 x 6 frame: each cell fills a 3 x 3 block.
    let renderer = RendererCore::new(3);
    let mut buffer = HeadlessBuffer::new(6, 6);
    buffer.clear(0xFF00FF00);
    renderer.draw_grayscale(&mut buffer, 2, 2, &[0, 64, 128, 255]);
    for y in 0..6usize {
        for x in 0..6usize {
            let level = [0u8, 64, 128, 255][(y / 3) * 2 + x / 3];
            assert_eq!(buffer.get_pixel(x, y), Some(rgb(level, level, level)));
        }
    }
    assert_eq!(buffer.get_pixel(4, 1), Some(0xFF404040));
}

#[test]
fn grayscale_clips_at_frame_edges_and_clears_the_rest() {
    // 3 x 1 grid of scale 2 on a 5 x 3 frame: the last block is cut to one column,
    // the bottom row lies below the grid and is cleared to black.
    let renderer = RendererCore::new(2);
    let mut buffer = HeadlessBuffer::new(5, 3);
    buffer.clear(0xFFFFFFFF);
    renderer.draw_grayscale(&mut buffer, 3, 1, &[10, 20, 30]);
    let gray = |l: u8| Some(rgb(l, l, l));
    assert_eq!(buffer.get_pixel(0, 0), gray(10));
    assert_eq!(buffer.get_pixel(1, 1), gray(10));
    assert_eq!(buffer.get_pixel(2, 0), gray(20));
    assert_eq!(buffer.get_pixel(3, 1), gray(20));
    assert_eq!(buffer.get_pixel(4, 0), gray(30));
    assert_eq!(buffer.get_pixel(4, 1), gray(30));
    for x in 0..5 {
        assert_eq!(buffer.get_pixel(x, 2), Some(0xFF000000));
    }
}

#[test]
fn grayscale_grid_larger_than_frame() {
    let renderer = RendererCore::new(2);
    let mut buffer = HeadlessBuffer::new(3, 3);
    let levels: Vec<u8> = (0..100u8).collect();
    renderer.draw_grayscale(&mut buffer, 10, 10, &levels);
    assert_eq!(buffer.get_pixel(0, 0), Some(rgb(0, 0, 0)));
    assert_eq!(buffer.get_pixel(2, 0), Some(rgb(1, 1, 1)));
    assert_eq!(buffer.get_pixel(2, 2), Some(rgb(11, 11, 11)));
    assert_eq!(buffer.get_pixel(0, 2), Some(rgb(10, 10, 10)));
}

#[test]
fn grayscale_with_zero_scale_leaves_black_frame() {
    let renderer = RendererCore { scale: 0 };
    let mut buffer = HeadlessBuffer::new(4, 4);
    buffer.clear(0xFF112233);
    renderer.draw_grayscale(&mut buffer, 2, 2, &[255, 255, 255, 255]);
    assert!(buffer.buffer().iter().all(|&p| p == 0xFF000000));
}

#[test]
fn grayscale_pixels_are_gray_and_opaque() {
    let renderer = RendererCore::new(3);
    let mut buffer = HeadlessBuffer::new(24, 16);
    let levels: Vec<u8> = (0..8u32 * 6).map(|k| (k * 37 % 256) as u8).collect();
    renderer.draw_grayscale(&mut buffer, 8, 6, &levels);
    for &p in buffer.buffer() {
        assert_eq!(p >> 24, 0xFF);
        assert_eq!((p >> 16) & 0xFF, (p >> 8) & 0xFF);
        assert_eq!((p >> 8) & 0xFF, p & 0xFF);
    }
}

#[test]
fn cell_centers_are_painted_at_block_centers() {
    // scale 5: the center of cell (i, j) is (5 * i + 2, 5 * j + 2).
    let renderer = RendererCore::new(5);
    let mut buffer = HeadlessBuffer::new(20, 10);
    buffer.clear(0xFF333333);
    let colors = vec![Some(0xFFFF0000), None, Some(0xFF00FF00), None, None, None, None, Some(0xFF0000FF)];
    renderer.draw_cell_centers(&mut buffer, 4, 2, &colors);
    assert_eq!(buffer.get_pixel(2, 2), Some(0xFFFF0000));
    assert_eq!(buffer.get_pixel(12, 2), Some(0xFF00FF00));
    assert_eq!(buffer.get_pixel(17, 7), Some(0xFF0000FF));
    assert_eq!(buffer.get_pixel(7, 2), Some(0xFF333333));
    let changed = buffer.buffer().iter().filter(|&&p| p != 0xFF333333).count();
    assert_eq!(changed, 3);
}

#[test]
fn cell_centers_outside_the_frame_are_skipped() {
    let renderer = RendererCore::new(4);
    let mut buffer = HeadlessBuffer::new(6, 6);
    let colors = vec![Some(0xFFFFFFFF); 9];
    renderer.draw_cell_centers(&mut buffer, 3, 3, &colors);
    // Centers lie at 2, 6 and 10 along each axis: only cell (0, 0) is visible.
    assert_eq!(buffer.get_pixel(2, 2), Some(0xFFFFFFFF));
    let changed = buffer.buffer().iter().filter(|&&p| p != 0xFF000000).count();
    assert_eq!(changed, 1);
}

#[test]
fn cell_centers_with_zero_scale_keep_last_color() {
    let renderer = RendererCore { scale: 0 };
    let mut buffer = HeadlessBuffer::new(3, 3);
    let colors = vec![Some(0xFF000001), Some(0xFF000002), None, Some(0xFF000003), None, None];
    renderer.draw_cell_centers(&mut buffer, 3, 2, &colors);
    assert_eq!(buffer.get_pixel(0, 0), Some(0xFF000003));
    let changed = buffer.buffer().iter().filter(|&&p| p != 0xFF000000).count();
    assert_eq!(changed, 1);
}

#[test]
fn cell_centers_keep_density_underneath() {
    let renderer = RendererCore::new(4);
    let mut buffer = HeadlessBuffer::new(8, 8);
    renderer.draw_grayscale(&mut buffer, 2, 2, &[200, 200, 200, 200]);
    renderer.draw_cell_centers(&mut buffer, 2, 2, &[None, Some(0xFFFF0000), None, None]);
    assert_eq!(buffer.get_pixel(6, 2), Some(0xFFFF0000));
    assert_eq!(buffer.get_pixel(2, 2), Some(rgb(200, 200, 200)));
    assert_eq!(buffer.get_pixel(5, 2), Some(rgb(200, 200, 200)));
}
