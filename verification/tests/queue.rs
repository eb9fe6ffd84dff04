use lumen::queue::{
    info_failure_message, is_playlist, media_label, output_file_name, playlist_id_from_url,
    push_job, subtitles_for, job_step, JobAction, JobEvent, JobStatus, MediaType, Queue, QueueJob,
};

fn add(q: &mut Queue, url: &str) {
    q.add(
        url.to_string(),
        url.to_string(),
        MediaType::Video,
        "mp4".to_string(),
        "best".to_string(),
        std::path::PathBuf::from("/tmp"),
    );
}

fn ids(q: &Queue) -> Vec<u64> {
    q.jobs.iter().map(|j| j.id).collect()
}

fn status(q: &Queue, id: u64) -> JobStatus {
    q.find(id).unwrap().status.clone()
}

#[test]
fn new_queue_is_empty() {
    let q = Queue::new();
    assert!(q.jobs.is_empty());
    assert_eq!(q.next_id, 1);
    assert_eq!(q.max_concurrent, 3);
    assert!(!q.has_active());
}

#[test]
fn add_gives_increasing_ids() {
    let mut q = Queue::new();
    add(&mut q, "a");
    add(&mut q, "b");
    add(&mut q, "c");
    assert_eq!(ids(&q), vec![1, 2, 3]);
    assert_eq!(q.next_id, 4);
    assert!(matches!(status(&q, 2), JobStatus::Queued));
    assert!(q.has_active());
}

#[test]
fn push_job_advances_counter() {
    let mut jobs: Vec<QueueJob> = Vec::new();
    let mut next = 7;
    push_job(
        &mut jobs,
        &mut next,
        "u".into(),
        "t".into(),
        MediaType::Music,
        "mp3".into(),
        "320".into(),
        "/m".into(),
    );
    assert_eq!(next, 8);
    assert_eq!(jobs.len(), 1);
    assert_eq!(jobs[0].id, 7);
    assert_eq!(jobs[0].media_type, MediaType::Music);
}

#[test]
fn move_up_and_down() {
    let mut q = Queue::new();
    add(&mut q, "a");
    add(&mut q, "b");
    add(&mut q, "c");
    q.move_up(3);
    assert_eq!(ids(&q), vec![1, 3, 2]);
    q.move_up(1);
    assert_eq!(ids(&q), vec![1, 3, 2]);
    q.move_down(2);
    assert_eq!(ids(&q), vec![1, 3, 2]);
    q.move_down(1);
    assert_eq!(ids(&q), vec![3, 1, 2]);
    q.move_up(99);
    assert_eq!(ids(&q), vec![3, 1, 2]);
}

#[test]
fn move_up_then_down_restores() {
    let mut q = Queue::new();
    for u in ["a", "b", "c", "d"] {
        add(&mut q, u);
    }
    q.move_up(3);
    q.move_down(3);
    assert_eq!(ids(&q), vec![1, 2, 3, 4]);
    q.move_down(2);
    q.move_up(2);
    assert_eq!(ids(&q), vec![1, 2, 3, 4]);
}

#[test]
fn pump_starts_up_to_the_limit() {
    let mut q = Queue::new();
    for u in ["a", "b", "c", "d", "e"] {
        add(&mut q, u);
    }
    let started = q.pump();
    assert_eq!(started, vec![1, 2, 3]);
    assert!(matches!(status(&q, 3), JobStatus::Running));
    assert!(matches!(status(&q, 4), JobStatus::Queued));
    assert_eq!(q.pump(), Vec::<u64>::new());
    q.set_status(2, JobStatus::Completed("/tmp/b.mp4".into()));
    assert_eq!(q.pump(), vec![4]);
}

#[test]
fn pump_skips_paused_jobs() {
    let mut q = Queue::new();
    for u in ["a", "b", "c"] {
        add(&mut q, u);
    }
    q.max_concurrent = 1;
    q.pause(1);
    assert_eq!(q.pump(), vec![2]);
    assert!(matches!(status(&q, 1), JobStatus::Paused));
}

#[test]
fn pause_and_resume() {
    let mut q = Queue::new();
    add(&mut q, "a");
    q.pump();
    q.pause(1);
    assert!(matches!(status(&q, 1), JobStatus::Paused));
    q.resume(1);
    assert!(matches!(status(&q, 1), JobStatus::Queued));
    q.resume(1);
    assert!(matches!(status(&q, 1), JobStatus::Queued));
}

#[test]
fn cancel_only_active_jobs() {
    let mut q = Queue::new();
    add(&mut q, "a");
    add(&mut q, "b");
    q.set_status(1, JobStatus::Failed("erro".into()));
    q.cancel(1);
    assert!(matches!(status(&q, 1), JobStatus::Failed(ref e) if e == "erro"));
    q.cancel(2);
    assert!(matches!(status(&q, 2), JobStatus::Cancelled));
    q.pause(2);
    q.resume(2);
    assert!(matches!(status(&q, 2), JobStatus::Cancelled));
}

#[test]
fn clear_finished_keeps_unfinished() {
    let mut q = Queue::new();
    for u in ["a", "b", "c", "d"] {
        add(&mut q, u);
    }
    q.set_status(1, JobStatus::Completed("x".into()));
    q.pause(2);
    q.set_status(3, JobStatus::Running);
    q.clear_finished();
    assert_eq!(ids(&q), vec![2, 3, 4]);
    q.clear_finished();
    assert_eq!(ids(&q), vec![2, 3, 4]);
    q.cancel(3);
    q.cancel(4);
    q.clear_finished();
    assert_eq!(ids(&q), vec![2]);
    assert!(!q.has_active());
    q.resume(2);
    assert!(q.has_active());
}

#[test]
fn set_title_records_title() {
    let mut q = Queue::new();
    add(&mut q, "a");
    q.set_title(1, "Real title".into());
    assert_eq!(q.find(1).unwrap().title, "Real title");
    q.set_title(5, "nothing".into());
    assert!(q.find(5).is_none());
}

#[test]
fn playlist_ids() {
    assert_eq!(
        playlist_id_from_url("https://www.youtube.com/watch?v=abc&list=PL123&index=2"),
        Some("PL123".to_string())
    );
    assert_eq!(
        playlist_id_from_url("https://www.youtube.com/playlist?list=PLxyz"),
        Some("PLxyz".to_string())
    );
    assert_eq!(playlist_id_from_url("https://www.youtube.com/watch?v=abc"), None);
    assert_eq!(playlist_id_from_url("list=first&list=second"), Some("first".to_string()));
    assert_eq!(playlist_id_from_url("https://x/?list="), Some(String::new()));
    assert!(is_playlist("https://y/?a=1&list=L"));
    assert!(!is_playlist("https://y/?blist=L"));
}

#[test]
fn job_helpers() {
    assert_eq!(media_label(MediaType::Music), "music");
    assert_eq!(media_label(MediaType::Video), "video");
    assert_eq!(subtitles_for(MediaType::Music, Some("pt".into())), None);
    assert_eq!(subtitles_for(MediaType::Video, Some("pt".into())), Some("pt".to_string()));
    assert_eq!(output_file_name("A/B: C", "mp3"), "AB C.mp3");
    assert_eq!(info_failure_message("timeout"), "Falha ao obter info: timeout");
}

#[test]
fn push_job_counter_wraps() {
    let mut jobs: Vec<QueueJob> = Vec::new();
    let mut next = u64::MAX;
    push_job(
        &mut jobs,
        &mut next,
        "u".into(),
        "t".into(),
        MediaType::Video,
        "mp4".into(),
        "best".into(),
        "/v".into(),
    );
    assert_eq!(jobs[0].id, u64::MAX);
    assert_eq!(next, 0);
}

#[test]
fn job_steps() {
    match job_step(JobEvent::InfoFetched(Err("timeout".into())), true) {
        JobAction::Finish(JobStatus::Failed(m)) => assert_eq!(m, "Falha ao obter info: timeout"),
        _ => panic!("expected a failure"),
    }
    match job_step(JobEvent::InfoFetched(Ok("Song".into())), false) {
        JobAction::Download(t) => assert_eq!(t, "Song"),
        _ => panic!("expected a download"),
    }
    match job_step(JobEvent::Downloaded(Ok("/m/Song.mp3".into())), true) {
        JobAction::Complete { status: JobStatus::Completed(p), notify } => {
            assert_eq!(p, "/m/Song.mp3");
            assert!(notify);
        }
        _ => panic!("expected completion"),
    }
    match job_step(JobEvent::Downloaded(Err("disk full".into())), true) {
        JobAction::Finish(JobStatus::Failed(m)) => assert_eq!(m, "disk full"),
        _ => panic!("expected a failure"),
    }
}
