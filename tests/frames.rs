use perspecta::frames::{
    fold_color_sample, min_max, parse_worker_setting, preload_worker_count, worker_frames,
    FrameSlots,
};

#[test]
fn five_frames_fill_once_and_read_back() {
    let mut store = FrameSlots::new(5, vec![10i32, 11]);
    assert_eq!(store.frame_count(), 5);
    assert_eq!(store.frame(0), Some(vec![10, 11]));
    assert_eq!(store.frame(4), None);
    assert!(store.begin_preload());
    assert!(!store.begin_preload());
    for worker in 0..2 {
        for index in worker_frames(worker, 2, 5) {
            store.store_if_empty(index, vec![index as i32 * 10, 1]);
        }
    }
    for index in 0..5 {
        assert!(store.is_filled(index));
    }
    assert_eq!(store.frame(0), Some(vec![10, 11]));
    assert_eq!(store.frame(4), Some(vec![40, 1]));
    assert!(!store.store_if_empty(4, vec![0, 0]));
    assert_eq!(store.frame(4), Some(vec![40, 1]));
    assert_eq!(store.frame(9), None);
    store.preload_failed();
    assert!(store.begin_preload());
}

#[test]
fn shards_are_round_robin() {
    assert_eq!(worker_frames(0, 2, 5), vec![0, 2, 4]);
    assert_eq!(worker_frames(1, 2, 5), vec![1, 3]);
    assert_eq!(worker_frames(3, 4, 3), Vec::<usize>::new());
}

#[test]
fn worker_count_clamps() {
    assert_eq!(preload_worker_count(None, None, 10), 2);
    assert_eq!(preload_worker_count(None, Some(16), 10), 4);
    assert_eq!(preload_worker_count(Some(100), Some(1), 1000), 32);
    assert_eq!(preload_worker_count(Some(8), None, 3), 3);
    assert_eq!(preload_worker_count(None, Some(0), 0), 1);
}

#[test]
fn worker_setting_text() {
    assert_eq!(parse_worker_setting(" 6 "), Some(6));
    assert_eq!(parse_worker_setting("0"), None);
    assert_eq!(parse_worker_setting("many"), None);
}

#[test]
fn color_samples_fold_to_eight_bits() {
    assert_eq!(fold_color_sample(0x0FFF, 12), 0xFF);
    assert_eq!(fold_color_sample(0x0180, 12), 0x18);
    assert_eq!(fold_color_sample(200, 8), 200);
    assert_eq!(fold_color_sample(0x1234, 16), 0x12);
    assert_eq!(fold_color_sample(0xFFFF, 40), 0);
}

#[test]
fn min_max_of_samples() {
    assert_eq!(min_max(&[3, -2, 7, 0]), Some((-2, 7)));
    assert_eq!(min_max(&[]), None);
}

use perspecta::frames::{color_mode_for, frame_count_from, frame_sample_count, supported_bits_allocated, ImageColorMode};

#[test]
fn frame_layout_decisions() {
    assert_eq!(frame_count_from(None), Ok(1));
    assert_eq!(frame_count_from(Some(5)), Ok(5));
    assert!(frame_count_from(Some(0)).is_err());
    assert_eq!(color_mode_for(1), Some(ImageColorMode::Monochrome));
    assert_eq!(color_mode_for(3), Some(ImageColorMode::Rgb));
    assert_eq!(color_mode_for(2), None);
    assert!(supported_bits_allocated(16));
    assert!(!supported_bits_allocated(12));
    assert_eq!(frame_sample_count(4, 3, 3), Some(36));
    assert_eq!(frame_sample_count(usize::MAX, 2, 1), None);
}

use perspecta::frames::{decoded_dimensions_match, sample_layout};

#[test]
fn frame_checks_name_their_values() {
    assert_eq!(frame_count_from(Some(-3)), Err("Invalid NumberOfFrames=-3 (must be >= 1)".to_string()));
    assert_eq!(frame_count_from(Some(0)), Err("Invalid NumberOfFrames=0 (must be >= 1)".to_string()));
    assert_eq!(
        sample_layout(2, 12),
        Err("Unsupported SamplesPerPixel=2 (currently supports 1 for monochrome and >=3 for color)".to_string())
    );
    assert_eq!(sample_layout(1, 12), Err("BitsAllocated=12 is not supported (only 8/16)".to_string()));
    assert_eq!(sample_layout(3, 8), Ok(ImageColorMode::Rgb));
    assert_eq!(sample_layout(1, 16), Ok(ImageColorMode::Monochrome));
    assert!(decoded_dimensions_match(4, 3, 4, 3));
    assert!(!decoded_dimensions_match(4, 3, 3, 4));
}
