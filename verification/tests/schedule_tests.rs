use std::sync::atomic::{AtomicUsize, Ordering};
use std::sync::mpsc::TryRecvError;
use std::sync::Arc;
use std::time::{Duration, Instant};

use symbios_texture::async_gen::{
    classify_poll, spawn_task, PollStatus, TexturePool, MAX_GENERATION_THREADS,
};
use symbios_texture::normal::{height_to_normal, BoundaryMode, HEIGHT_ONE, STRENGTH_ONE};
use symbios_texture::srgb::{linear_to_srgb, LINEAR_ONE};
use symbios_texture::{TextureError, TextureMap};

fn tiny_map(width: u32, height: u32) -> TextureMap {
    let n = (width * height * 4) as usize;
    TextureMap {
        albedo: vec![1; n],
        normal: vec![2; n],
        roughness: vec![3; n],
        width,
        height,
    }
}

fn busy_wait(d: Duration) {
    let start = Instant::now();
    while start.elapsed() < d {
        std::hint::spin_loop();
    }
}

fn poll_until_settled(
    pending: &symbios_texture::async_gen::PendingTexture,
    timeout: Duration,
) -> PollStatus {
    let start = Instant::now();
    loop {
        match pending.poll() {
            PollStatus::NotReady => {
                if start.elapsed() > timeout {
                    panic!("request did not settle in time");
                }
                busy_wait(Duration::from_millis(1));
            }
            settled => return settled,
        }
    }
}

#[test]
fn classify_poll_maps_all_outcomes() {
    let map = tiny_map(1, 1);
    assert!(matches!(
        classify_poll(Ok(Ok(map))),
        PollStatus::Ready(m) if m.width == 1 && m.albedo.len() == 4
    ));
    let err = TextureError::ZeroDimension { width: 0, height: 1 };
    assert!(matches!(
        classify_poll(Ok(Err(err))),
        PollStatus::Failed(TextureError::ZeroDimension { width: 0, height: 1 })
    ));
    assert!(matches!(
        classify_poll(Err(TryRecvError::Disconnected)),
        PollStatus::Dead
    ));
    assert!(matches!(
        classify_poll(Err(TryRecvError::Empty)),
        PollStatus::NotReady
    ));
}

#[test]
fn spawned_job_delivers_its_map() {
    let pool = TexturePool::new(MAX_GENERATION_THREADS).expect("pool should start");
    let pending = spawn_task(&pool, || Ok(tiny_map(2, 3)), false);
    assert!(!pending.is_card());
    match poll_until_settled(&pending, Duration::from_secs(10)) {
        PollStatus::Ready(map) => {
            assert_eq!(map.width, 2);
            assert_eq!(map.height, 3);
            assert_eq!(map.albedo.len(), 2 * 3 * 4);
            assert_eq!(map.normal.len(), 2 * 3 * 4);
            assert_eq!(map.roughness.len(), 2 * 3 * 4);
        }
        other => panic!("expected Ready, got {}", status_name(&other)),
    }
}

#[test]
fn spawned_job_delivers_its_error() {
    let pool = TexturePool::new(2).expect("pool should start");
    let pending = spawn_task(
        &pool,
        || Err(TextureError::ZeroDimension { width: 0, height: 9 }),
        true,
    );
    assert!(pending.is_card());
    match poll_until_settled(&pending, Duration::from_secs(10)) {
        PollStatus::Failed(TextureError::ZeroDimension { width: 0, height: 9 }) => {}
        other => panic!("expected Failed, got {}", status_name(&other)),
    }
}

#[test]
fn cancelled_before_start_never_delivers() {
    // A one-thread pool whose only worker is busy: the second request is
    // still queued when it is cancelled, so its worker skips it and the
    // poll reports a dead channel, never a value.
    let pool = TexturePool::new(1).expect("pool should start");
    let blocker = spawn_task(
        &pool,
        || {
            busy_wait(Duration::from_millis(300));
            Ok(tiny_map(1, 1))
        },
        false,
    );
    let victim = spawn_task(&pool, || Ok(tiny_map(1, 1)), false);
    victim.cancel();
    match poll_until_settled(&victim, Duration::from_secs(10)) {
        PollStatus::Dead => {}
        PollStatus::Ready(_) => panic!("cancelled request delivered a value"),
        other => panic!("expected Dead, got {}", status_name(&other)),
    }
    drop(blocker);
}

#[test]
fn dropped_before_start_never_runs() {
    // Same setup, but the handle is dropped instead of cancelled; the
    // job closure records whether it ever ran.
    let pool = TexturePool::new(1).expect("pool should start");
    let blocker = spawn_task(
        &pool,
        || {
            busy_wait(Duration::from_millis(300));
            Ok(tiny_map(1, 1))
        },
        false,
    );
    let ran = Arc::new(AtomicUsize::new(0));
    let ran_in_job = Arc::clone(&ran);
    let victim = spawn_task(
        &pool,
        move || {
            ran_in_job.fetch_add(1, Ordering::SeqCst);
            Ok(tiny_map(1, 1))
        },
        false,
    );
    drop(victim);
    // Wait for the blocker to finish and the queue to drain.
    match poll_until_settled(&blocker, Duration::from_secs(10)) {
        PollStatus::Ready(_) => {}
        other => panic!("blocker should finish, got {}", status_name(&other)),
    }
    busy_wait(Duration::from_millis(100));
    assert_eq!(ran.load(Ordering::SeqCst), 0, "dropped request still ran");
}

#[test]
fn at_most_pool_size_jobs_run_concurrently() {
    let threads = MAX_GENERATION_THREADS;
    let pool = TexturePool::new(threads).expect("pool should start");
    let active = Arc::new(AtomicUsize::new(0));
    let peak = Arc::new(AtomicUsize::new(0));
    let mut handles = Vec::new();
    for _ in 0..(threads * 4) {
        let active = Arc::clone(&active);
        let peak = Arc::clone(&peak);
        handles.push(spawn_task(
            &pool,
            move || {
                let now = active.fetch_add(1, Ordering::SeqCst) + 1;
                peak.fetch_max(now, Ordering::SeqCst);
                busy_wait(Duration::from_millis(20));
                active.fetch_sub(1, Ordering::SeqCst);
                Ok(tiny_map(1, 1))
            },
            false,
        ));
    }
    for h in &handles {
        match poll_until_settled(h, Duration::from_secs(30)) {
            PollStatus::Ready(_) => {}
            other => panic!("job should finish, got {}", status_name(&other)),
        }
    }
    let observed = peak.load(Ordering::SeqCst);
    assert!(observed >= 1);
    assert!(
        observed <= threads,
        "{observed} jobs ran at once on a pool of {threads}"
    );
}

fn status_name(s: &PollStatus) -> &'static str {
    match s {
        PollStatus::Ready(_) => "Ready",
        PollStatus::Failed(_) => "Failed",
        PollStatus::Dead => "Dead",
        PollStatus::NotReady => "NotReady",
    }
}

#[test]
fn pipeline_through_pool_yields_well_shaped_buffers() {
    // A miniature synthesis job built from the library's own pieces: a
    // deterministic height field, its derived normal map, and sRGB-encoded
    // albedo, submitted to the pool and collected through poll.
    let w = 16u32;
    let h = 8u32;
    let pool = TexturePool::new(MAX_GENERATION_THREADS).expect("pool should start");
    let pending = spawn_task(
        &pool,
        move || {
            symbios_texture::validate_dimensions(w, h)?;
            let n = (w * h) as usize;
            let mut heights = Vec::with_capacity(n);
            let mut albedo = Vec::with_capacity(n * 4);
            let mut orm = Vec::with_capacity(n * 4);
            for i in 0..n {
                let t = (i as u32 * HEIGHT_ONE) / n as u32;
                heights.push(t);
                let lin = (t as u64 * LINEAR_ONE as u64 / HEIGHT_ONE as u64) as u32;
                albedo.extend_from_slice(&[linear_to_srgb(lin), 0, 0, 255]);
                orm.extend_from_slice(&[255, 200, 0, 255]);
            }
            let normal = height_to_normal(&heights, w, h, 3 * STRENGTH_ONE, BoundaryMode::Wrap);
            Ok(symbios_texture::TextureMap::new(albedo, normal, orm, w, h)
                .expect("buffers match the dimensions"))
        },
        false,
    );
    match poll_until_settled(&pending, Duration::from_secs(10)) {
        PollStatus::Ready(map) => {
            let n = (w * h * 4) as usize;
            assert_eq!(map.albedo.len(), n);
            assert_eq!(map.normal.len(), n);
            assert_eq!(map.roughness.len(), n);
            // The ramp must produce at least one albedo byte strictly
            // between the darkest and brightest encoded values.
            assert!(map
                .albedo
                .chunks(4)
                .any(|px| px[0] > 0 && px[0] < map.albedo[map.albedo.len() - 4]));
        }
        other => panic!("expected Ready, got {}", status_name(&other)),
    }
}
