use raytracer::batch::{pack_color, PixelBatch, BATCH_AMOUNT};
use raytracer::display::{apply_scanline, init_pixels};
use raytracer::worker::{process_messages, MainMessage, Pixel, ScanlineProgress, WorkerMessage};

#[test]
fn messages_stop_at_first_close() {
    let messages = vec![MainMessage::Config(1), MainMessage::Config(2), MainMessage::Close, MainMessage::Config(3)];
    assert_eq!(process_messages(messages), (vec![1, 2], true));
}

#[test]
fn messages_without_close_start_every_config() {
    let messages = vec![MainMessage::Config("a"), MainMessage::Config("b")];
    assert_eq!(process_messages(messages), (vec!["a", "b"], false));
    assert_eq!(process_messages(Vec::<MainMessage<u8>>::new()), (vec![], false));
    assert_eq!(process_messages(vec![MainMessage::<u8>::Close]), (vec![], true));
}

#[test]
fn progress_sweeps_rows_then_passes() {
    let mut progress = ScanlineProgress::new(3, 2);
    assert_eq!((progress.scanline(), progress.iterations()), (0, 0));
    let pixels = progress.render_scanline(vec![[1, 2, 3], [4, 5, 6], [7, 8, 9]]);
    assert_eq!(pixels.len(), 3);
    for (k, p) in pixels.iter().enumerate() {
        assert_eq!((p.i, p.j), (k, 0));
    }
    assert_eq!(pixels[1].rgb, [4, 5, 6]);
    assert_eq!((progress.scanline(), progress.iterations()), (1, 0));
    let pixels = progress.render_scanline(vec![[0; 3]; 3]);
    assert_eq!(pixels[2].j, 1);
    assert_eq!((progress.scanline(), progress.iterations()), (0, 1));
}

#[test]
fn display_buffer_starts_black() {
    let pixels = init_pixels(4, 3);
    assert_eq!(pixels, vec![0u8; 36]);
}

#[test]
fn display_buffer_reads_back_written_row() {
    let mut buffer = init_pixels(2, 2);
    let row = vec![Pixel { i: 0, j: 1, rgb: [1, 2, 3] }, Pixel { i: 1, j: 1, rgb: [4, 5, 6] }];
    apply_scanline(&mut buffer, 2, &row);
    assert_eq!(buffer, vec![0, 0, 0, 0, 0, 0, 1, 2, 3, 4, 5, 6]);
    let again = vec![Pixel { i: 1, j: 0, rgb: [9, 9, 9] }, Pixel { i: 1, j: 0, rgb: [7, 7, 7] }];
    apply_scanline(&mut buffer, 2, &again);
    assert_eq!(&buffer[3..6], &[7, 7, 7]);
}

#[test]
fn worker_message_carries_image_size() {
    let message = WorkerMessage::Init { image_width: 400, image_height: 225 };
    match message {
        WorkerMessage::Init { image_width, image_height } => assert_eq!((image_width, image_height), (400, 225)),
        WorkerMessage::Scanline { .. } => unreachable!(),
    }
}

#[test]
fn pack_color_puts_alpha_blue_green_red() {
    assert_eq!(pack_color([0x11, 0x22, 0x33]), 0xff33_2211);
    assert_eq!(pack_color([0, 0, 0]), 0xff00_0000);
    assert_eq!(pack_color([255, 255, 255]), 0xffff_ffff);
}

#[test]
fn batch_is_sent_when_full() {
    let mut batch = PixelBatch::new(2);
    assert_eq!(batch.push(1, 2, [3, 4, 5]), None);
    let full = batch.push(6, 7, [8, 9, 10]).expect("second pixel fills the batch");
    assert_eq!(full, vec![1, 2, pack_color([3, 4, 5]), 6, 7, pack_color([8, 9, 10])]);
    assert_eq!(batch.push(0, 0, [0, 0, 0]), None);
}

#[test]
fn default_batch_holds_hundred_pixels() {
    let mut batch = PixelBatch::new(BATCH_AMOUNT);
    for k in 0..BATCH_AMOUNT - 1 {
        assert_eq!(batch.push(k, 0, [0, 0, 0]), None);
    }
    let full = batch.push(0, 1, [0, 0, 0]).unwrap();
    assert_eq!(full.len(), 3 * BATCH_AMOUNT);
}

#[test]
fn batch_truncates_large_coordinates() {
    let mut batch = PixelBatch::new(1);
    let full = batch.push((1usize << 32) + 5, 7, [0, 0, 0]).unwrap();
    assert_eq!(full[0], 5);
}

#[test]
fn scanline_fits_checks_every_pixel() {
    let row = vec![Pixel { i: 0, j: 1, rgb: [1, 2, 3] }, Pixel { i: 1, j: 1, rgb: [4, 5, 6] }];
    assert!(raytracer::display::scanline_fits(12, 2, &row));
    assert!(!raytracer::display::scanline_fits(11, 2, &row));
    let far = vec![Pixel { i: 0, j: usize::MAX, rgb: [0, 0, 0] }];
    assert!(!raytracer::display::scanline_fits(12, 2, &far));
    assert!(raytracer::display::scanline_fits(0, 2, &Vec::new()));
}
