use rikky_modoki::audiobuffer::{read_pcm, read_window, BakedAudio, Capture, CaptureError, Finish, Format, Store};
use rikky_modoki::progress::{ProgressState, Status};
use std::sync::Arc;

fn format() -> Format {
    Format { fps_numer: 30, fps_denom: 1, sample_rate: 120 }
}

fn baked(generation: u64, start: u32, frames: Vec<[Vec<f32>; 2]>) -> Arc<BakedAudio<f32>> {
    Arc::new(BakedAudio { scene: 1, revision: 0, generation, format: format(), start, frames })
}

#[test]
fn combines_ranges_without_mixing_and_uses_actual_sample_counts() {
    let old = baked(1, 10, vec![[vec![0.25; 4], vec![0.5; 4]]; 2]);
    let recent = baked(2, 11, vec![[vec![0.0, 0.25, 0.5, 0.75, 1.0], vec![1.0; 5]]]);
    let separate = baked(3, 13, vec![[vec![-0.5; 4], vec![0.5; 4]]]);
    let snapshots = [recent, old, separate];
    assert_eq!(read_pcm(&snapshots, format(), 10, None, 0.0).unwrap(), (vec![0.25; 4], vec![0.5; 4]));
    assert_eq!(read_pcm(&snapshots, format(), 11, Some(2), 0.0).unwrap(), (vec![0.0, 0.5], vec![1.0; 2]));
    assert_eq!(read_pcm(&snapshots, format(), 11, None, 0.0).unwrap().0.len(), 5);
    assert_eq!(read_pcm(&snapshots, format(), 13, None, 0.0).unwrap().0, vec![-0.5; 4]);
    for frame in [-1, 0, 9, 12, 14] {
        assert_eq!(read_pcm(&snapshots, format(), frame, None, 0.0).unwrap(), (vec![0.0; 4], vec![0.0; 4]));
    }
    assert!(read_pcm(&snapshots, format(), 11, Some(0), 0.0).is_err());
    assert!(read_pcm(&snapshots, format(), 11, Some(6), 0.0).is_err());
    let changed = Format { sample_rate: 240, ..format() };
    assert!(read_pcm(&snapshots, changed, 11, None, 0.0).is_err());
    let fractional = Format { fps_numer: 30_000, fps_denom: 1_001, sample_rate: 48_000 };
    assert_eq!((fractional.sample_count(0), fractional.sample_count(1)), (1602, 1601));
    assert_eq!(
        (101..201).map(|frame| fractional.sample_count(frame)).sum::<usize>(),
        (fractional.sample_at(201) - fractional.sample_at(101)) as usize
    );
    let none: [Arc<BakedAudio<f32>>; 0] = [];
    assert_eq!(read_pcm(&none, fractional, -1, None, 0.0).unwrap().0.len(), 1602);
}

#[test]
fn isolates_scenes_and_tracks_userdata_lifetime_and_discard_settings() {
    let mut store: Store<f32> = Store::new();
    let sound = baked(1, 0, vec![[vec![0.25; 4], vec![0.5; 4]]]);
    store.configure(7, false);
    store.keep(7, Arc::clone(&sound));
    store.scenes.push((1, 7));
    assert!(store.snapshots(2).is_empty());
    // Filing the same buffer under another scene does not mix up the audio of the earlier one.
    store.scenes.push((2, 7));
    assert!(store.snapshots(2).is_empty());
    assert_eq!(store.snapshots(1).len(), 1);
    store.invalidate();
    // Kept across an edit by default.
    assert_eq!(store.snapshots(1).len(), 1);
    store.configure(7, true);
    assert!(store.snapshots(1).is_empty());
    store.configure(7, false);
    store.keep(7, sound);
    store.reset_revision = store.revision;
    assert!(store.snapshots(1).is_empty());
    store.forget(7);
    assert!(store.snapshots(1).is_empty());
    assert!(!store.scenes.iter().any(|&(scene, _)| scene == 1));
}

#[test]
fn each_scene_reads_the_buffers_filed_under_it() {
    let mut store: Store<f32> = Store::new();
    let in_scene = |scene: i32, generation: u64| {
        Arc::new(BakedAudio { scene, revision: 0, generation, format: format(), start: 0, frames: vec![[vec![0.25; 4], vec![0.5; 4]]] })
    };
    // A capture files its target's buffer under the capture's scene.
    let id = store.begin(1, 7, 0, 0, format());
    assert_eq!(store.attach(7), Some(1));
    assert_eq!(store.attach(7), Some(1));
    assert_eq!(store.scenes, vec![(1, 7)]);
    store.cancel(id);
    store.scenes.extend([(2, 8), (1, 9)]);
    store.configure(7, false);
    store.configure(8, true);
    store.keep(7, in_scene(1, 1));
    store.keep(8, in_scene(2, 2));
    store.keep(9, in_scene(1, 3));
    store.keep(10, in_scene(1, 4));
    let generations = |v: Vec<Arc<BakedAudio<f32>>>| v.iter().map(|a| a.generation).collect::<Vec<_>>();
    // Buffer 10 is filed nowhere, so no scene reads it.
    assert_eq!(generations(store.snapshots(1)), vec![1, 3]);
    assert_eq!(generations(store.snapshots(2)), vec![2]);
    store.forget(9);
    assert!(!store.registered(9));
    assert_eq!(store.scenes, vec![(1, 7), (2, 8)]);
    assert_eq!(generations(store.snapshots(1)), vec![1]);
    store.invalidate();
    assert_eq!(generations(store.snapshots(1)), vec![1]);
    assert!(store.snapshots(2).is_empty());
    store.reset();
    assert!(store.scenes.is_empty());
    assert!(store.snapshots(1).is_empty());
    assert!(store.registered(7) && store.registered(8));
}

#[test]
fn a_read_does_not_depend_on_the_order_of_the_buffers() {
    let old = baked(1, 10, vec![[vec![0.25; 4], vec![0.5; 4]]; 2]);
    let recent = baked(2, 11, vec![[vec![0.0, 0.25, 0.5, 0.75, 1.0], vec![1.0; 5]]]);
    let separate = baked(3, 13, vec![[vec![-0.5; 4], vec![0.5; 4]]]);
    let orders = [
        [Arc::clone(&old), Arc::clone(&recent), Arc::clone(&separate)],
        [Arc::clone(&recent), Arc::clone(&separate), Arc::clone(&old)],
        [Arc::clone(&separate), Arc::clone(&old), Arc::clone(&recent)],
    ];
    for frame in 9..15 {
        let first = read_pcm(&orders[0], format(), frame, None, 0.0).unwrap();
        for order in &orders[1..] {
            assert_eq!(read_pcm(order, format(), frame, None, 0.0).unwrap(), first);
        }
    }
    assert_eq!(read_pcm(&orders[1], format(), 11, None, 0.0).unwrap().0, vec![0.0, 0.25, 0.5, 0.75, 1.0]);
}

fn capture(id: u64) -> Capture<f32> {
    Capture {
        id,
        scene: 1,
        effect: 7,
        frame: 10,
        end: 11,
        audio: BakedAudio { scene: 1, revision: 0, generation: id, format: format(), start: 10, frames: Vec::new() },
        attached: true,
        progress: ProgressState::new(),
    }
}

#[test]
fn commits_only_complete_jobs_and_ignores_late_callbacks() {
    let previous = baked(1, 10, vec![[vec![0.25; 4], vec![0.5; 4]]; 2]);
    let mut destination: Option<Arc<BakedAudio<f32>>> = Some(Arc::clone(&previous));
    let mut store: Store<f32> = Store::new();
    store.capture = Some(capture(2));
    assert!(store.busy());
    assert!(matches!(store.finish_frame(2, 10, &[0.5; 4], &[0.75; 4], true), Ok(Finish::Next(11))));
    assert!(Arc::ptr_eq(destination.as_ref().unwrap(), &previous));
    assert!(matches!(store.finish_frame(1, 11, &[1.0; 4], &[1.0; 4], true), Ok(Finish::Ignored)));
    assert!(store.cancel(1).is_none());
    assert!(store.busy());
    store.capture.as_mut().unwrap().progress.cancel();
    // Held until the host's next callback, though cancelled.
    assert!(store.busy());
    assert!(matches!(store.finish_frame(2, 11, &[], &[], true), Ok(Finish::Cancelled)));
    assert!(!store.busy());
    assert!(Arc::ptr_eq(destination.as_ref().unwrap(), &previous));

    store.capture = Some(capture(3));
    assert!(matches!(store.finish_frame(3, 10, &[], &[], true), Err(CaptureError::RenderFailed)));
    store.cancel(3);
    assert!(Arc::ptr_eq(destination.as_ref().unwrap(), &previous));

    store.capture = Some(capture(4));
    assert!(matches!(store.finish_frame(4, 10, &[0.5; 4], &[0.75; 4], true), Ok(Finish::Next(11))));
    match store.finish_frame(4, 11, &[1.0; 5], &[-1.0; 5], true) {
        Ok(Finish::Done(audio)) => destination = Some(Arc::new(audio)),
        _ => panic!("the last frame completes the capture"),
    }
    assert!(!store.busy());
    let saved = destination.clone().unwrap();
    assert_eq!(saved.generation, 4);
    assert_eq!(saved.frames, vec![[vec![0.5; 4], vec![0.75; 4]], [vec![1.0; 5], vec![-1.0; 5]]]);

    store.capture = Some(capture(5));
    store.invalidate();
    assert!(matches!(store.finish_frame(5, 10, &[1.0; 4], &[1.0; 4], true), Ok(Finish::Cancelled)));
    assert!(!store.busy());
    assert!(Arc::ptr_eq(destination.as_ref().unwrap(), &saved));

    store.keep(7, Arc::clone(&saved));
    store.scenes.push((1, 7));
    store.capture = Some(capture(6));
    assert_eq!(store.snapshots(1).len(), 1);
    let revision = store.revision;
    store.reset();
    assert!(store.saved.iter().all(|e| e.audio.is_none()));
    assert!(store.scenes.is_empty());
    assert!(store.snapshots(1).is_empty());
    // The capture stays until its callback arrives, cancelled; every saved audio is discarded.
    let reset_capture = store.capture.as_ref().unwrap();
    assert_eq!((reset_capture.id, reset_capture.frame, reset_capture.attached), (6, 10, true));
    assert_eq!(reset_capture.progress.status, Status::Cancelled);
    assert_eq!(store.revision, revision + 1);
    assert_eq!(store.reset_revision, store.revision);
    assert!(store.discards(saved.revision, false));
    assert!(matches!(store.finish_frame(6, 10, &[1.0; 4], &[1.0; 4], true), Ok(Finish::Cancelled)));
    assert!(!store.busy());

    store.capture = Some(capture(7));
    assert!(matches!(store.finish_frame(7, 10, &[1.0; 4], &[1.0; 4], false), Err(CaptureError::NoDestination)));
    store.cancel(7);
    assert!(!store.busy());
}

#[test]
fn reads_contiguous_audio_across_overlaps_gaps_and_scene_edges() {
    let format = format();
    let buffer = |generation, start, frames| {
        Arc::new(BakedAudio { scene: 1, revision: 0, generation, format, start, frames })
    };
    let snapshots = [
        buffer(1, 1, vec![[vec![0.25f32; 4], vec![-0.25; 4]]; 2]),
        buffer(2, 2, vec![[vec![0.5; 3], vec![-0.5; 3]]]),
        buffer(3, 4, vec![[vec![1.0; 4], vec![-1.0; 4]]]),
    ];
    let result = read_window(&snapshots, format, 0, 4, 24, 0.0).unwrap();
    let expected = [vec![0.0; 4], vec![0.25; 4], vec![0.5; 3], vec![0.0; 4], vec![1.0; 4], vec![0.0; 5]].concat();
    assert_eq!(result[0], expected);
    assert_eq!(result[1], expected.iter().map(|value| -value).collect::<Vec<_>>());
    assert_eq!(read_window(&snapshots, format, -1, 4, 8, 0.0).unwrap(), [vec![0.0; 8], vec![0.0; 8]]);
    assert_eq!(read_window(&snapshots, format, 5, 4, 8, 0.0).unwrap(), [vec![0.0; 8], vec![0.0; 8]]);
    assert_eq!(read_window(&snapshots, format, 2, 4, 2, 0.0).unwrap(), [vec![0.5; 2], vec![-0.5; 2]]);
    assert!(read_window(&snapshots, Format { sample_rate: 240, ..format }, 0, 4, 16, 0.0).is_err());
}

#[test]
fn sample_positions_round_to_the_nearest_sample() {
    let format = Format { fps_numer: 30_000, fps_denom: 1_001, sample_rate: 48_000 };
    assert_eq!(format.sample_at(0), 0);
    assert_eq!(format.sample_at(1), 1602);
    assert_eq!(format.sample_at(-1), -1602);
    assert_eq!(format.sample_count(2), 1602);
    assert_eq!(rikky_modoki::audiobuffer::info(44_100), (2, 44_100));
}

#[test]
fn pcm_refuses_frames_beyond_the_host_range() {
    let none: [Arc<BakedAudio<f32>>; 0] = [];
    assert!(rikky_modoki::audiobuffer::pcm(&none, format(), i64::from(i32::MAX), None, 0.0).is_err());
    assert_eq!(rikky_modoki::audiobuffer::pcm(&none, format(), 3, Some(2), 0.0).unwrap(), (vec![0.0; 2], vec![0.0; 2]));
}

#[test]
fn a_capture_attaches_its_buffer_and_asks_for_frames_of_its_scene() {
    let mut store: Store<f32> = Store::new();
    let id = store.begin(3, 9, 5, 6, format());
    assert_eq!(id, 1);
    assert_eq!(store.attach(8), None);
    assert_eq!(store.attach(9), Some(3));
    assert!(matches!(store.request_frame(id, 3), rikky_modoki::audiobuffer::Request::Render(3)));
    assert!(matches!(store.request_frame(id + 1, 3), rikky_modoki::audiobuffer::Request::Ignore));
    assert!(matches!(store.request_frame(id, 4), rikky_modoki::audiobuffer::Request::Cancelled));
    assert!(!store.busy());
    assert!(store.shutdown().is_none());
}

#[test]
fn channels_of_unequal_length_are_kept_and_read_by_the_left_count() {
    let mut store: Store<f32> = Store::new();
    store.capture = Some(capture(8));
    assert!(matches!(store.finish_frame(8, 10, &[0.5; 2], &[0.75; 3], true), Ok(Finish::Next(11))));
    let audio = match store.finish_frame(8, 11, &[1.0; 4], &[-1.0, -0.5, 0.0, 0.5, 1.0, 1.5], true) {
        Ok(Finish::Done(audio)) => Arc::new(audio),
        _ => panic!("the last frame completes the capture"),
    };
    assert_eq!(audio.frames[0], [vec![0.5; 2], vec![0.75; 3]]);
    let snapshots = [audio];
    assert_eq!(read_pcm(&snapshots, format(), 10, None, 0.0).unwrap(), (vec![0.5; 2], vec![0.75; 2]));
    assert_eq!(read_pcm(&snapshots, format(), 11, None, 0.0).unwrap(), (vec![1.0; 4], vec![-1.0, -0.5, 0.0, 0.5]));
    assert_eq!(read_pcm(&snapshots, format(), 11, Some(2), 0.0).unwrap(), (vec![1.0; 2], vec![-1.0, 0.0]));
    assert_eq!(read_window(&snapshots, format(), 10, 11, 5, 0.0).unwrap(), [vec![0.5, 0.5, 1.0, 1.0, 1.0], vec![0.75, 0.75, -1.0, -0.5, 0.0]]);
}
