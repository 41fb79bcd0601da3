use rikky_modoki::progress::ProgressState;
use rikky_modoki::sound::{play, BakedSound, Capture, Finish, Format, SoundStore, Target};

fn capture(id: u64, end: u32, frame: u32, format: Format, samples: [Vec<f32>; 2], requests: Vec<&'static str>) -> Capture<f32, &'static str> {
    Capture {
        id,
        target: Target { scene: 0, layer: 0, start: 10, end },
        frame,
        accepting: true,
        requests,
        sound: BakedSound { revision: 0, format, samples },
        attached: true,
        progress: ProgressState::new(),
    }
}

#[test]
fn mixes_frames_and_discards_only_when_requested() {
    let format = Format { fps_numer: 30_000, fps_denom: 1_001, sample_rate: 48_000 };
    assert_eq!((format.sample_at(1), format.sample_at(2), format.sample_at(5)), (1602, 3203, 8008));
    let frames: usize = (101..201).map(|frame| format.sample_at(frame + 1) - format.sample_at(frame)).sum();
    assert_eq!(frames, format.sample_at(201) - format.sample_at(101));

    let mut store: SoundStore<f32, &'static str> = SoundStore::new();
    let baked = BakedSound { revision: 0, format, samples: [vec![0.0f32; 4], vec![0.0; 4]] };
    assert!(!store.discards(baked.revision, true));
    store.capture = Some(capture(1, 11, 10, format, [Vec::new(), Vec::new()], Vec::new()));
    assert!(store.receiving(10));
    assert!(!store.receiving(11));
    store.invalidate();
    assert!(!store.receiving(10));
    assert!(!store.discards(baked.revision, false));
    assert!(store.discards(baked.revision, true));
    store.reset_revision = store.revision;
    assert!(store.discards(baked.revision, false));

    // A late callback of a cancelled job neither commits nor cancels a new one.
    let mut store: SoundStore<f32, &'static str> = SoundStore::new();
    store.capture = Some(capture(2, 10, 10, format, [Vec::new(), Vec::new()], Vec::new()));
    let count = format.sample_at(11) - format.sample_at(10);
    assert!(matches!(store.commit_frame(1, 10, [vec![0.0; count], vec![0.0; count]]), Finish::Ignored));
    assert!(store.cancel(1).is_none());
    assert!(store.receiving(10));
    let requests = store.take_requests(2, 10).unwrap();
    assert!(requests.1.is_empty());
    let saved = match store.commit_frame(2, 10, [vec![0.0; count], vec![0.0; count]]) {
        Finish::Done(sound) => sound,
        _ => panic!("the last frame completes the capture"),
    };
    assert!(!store.receiving(10));
    assert_eq!(saved.samples[0], vec![0.0; format.sample_at(11) - format.sample_at(10)]);

    store.capture = Some(capture(3, 11, 11, format, [vec![0.5; 100], vec![0.5; 100]], vec!["読み込んではいけない.wav"]));
    store.capture.as_mut().unwrap().progress.cancel();
    // Held until the host's callback after the close button.
    assert!(!store.receiving(11));
    assert!(store.capture.is_some());
    assert!(matches!(store.commit_frame(2, 11, [Vec::new(), Vec::new()]), Finish::Ignored));
    assert!(store.capture.is_some());
    assert!(matches!(store.commit_frame(3, 11, [Vec::new(), Vec::new()]), Finish::Cancelled));
    assert!(store.capture.is_none());
}

#[test]
fn registration_and_captures_follow_the_store_state() {
    let format = Format { fps_numer: 30, fps_denom: 1, sample_rate: 120 };
    let mut store: SoundStore<f32, u32> = SoundStore::new();
    assert!(!store.busy());
    let target = Target { scene: 1, layer: 2, start: 3, end: 4 };
    let id = store.begin(target, format, [Vec::new(), Vec::new()]).unwrap();
    assert!(store.busy());
    assert!(store.begin(target, format, [Vec::new(), Vec::new()]).is_err());
    assert!(store.attach(target));
    assert_eq!(store.begin_capture(id).unwrap(), Some(3));
    assert!(store.receiving(3));
    assert!(store.register(3, 7, true));
    assert!(!store.register(4, 8, true));
    let (_, requests) = store.take_requests(id, 3).unwrap();
    assert_eq!(requests, vec![7]);
    assert!(matches!(store.commit_frame(id, 3, [vec![1.0; 4], vec![2.0; 4]]), Finish::Next(4)));
    assert!(store.running(id));
    store.take_requests(id, 4);
    match store.commit_frame(id, 4, [vec![3.0; 4], vec![4.0; 4]]) {
        Finish::Done(sound) => assert_eq!(sound.samples, [vec![1.0, 1.0, 1.0, 1.0, 3.0, 3.0, 3.0, 3.0], vec![2.0, 2.0, 2.0, 2.0, 4.0, 4.0, 4.0, 4.0]]),
        _ => panic!("the last frame completes the capture"),
    }
    assert!(!store.busy());
    assert_eq!(play(&vec![1.0f32, 2.0, 3.0], 1, 4, 0.0), vec![2.0, 3.0, 0.0, 0.0]);
}
