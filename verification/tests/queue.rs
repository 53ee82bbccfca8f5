use descargador::download::DownloadJob;
use descargador::queue::{batch_state, DownloadState, JobTurn};

fn jobs(ids: &[&str]) -> Vec<DownloadJob> {
    ids.iter()
        .map(|id| DownloadJob {
            id: id.to_string(),
            title: None,
            url: "https://e.com".to_string(),
            max_height: None,
        })
        .collect()
}

#[test]
fn an_empty_batch_is_refused() {
    let mut state = DownloadState::new();
    assert_eq!(state.start_download(&jobs(&[])).unwrap_err(), "La cola está vacía.");
    assert!(state.start_download(&jobs(&["a"])).is_ok());
}

#[test]
fn one_batch_runs_at_a_time() {
    let mut state = DownloadState::new();
    let batch = jobs(&["a"]);
    assert!(state.start_download(&batch).is_ok());
    assert_eq!(state.start_download(&batch).unwrap_err(), "Ya hay una descarga activa.");
    state.release();
    assert!(state.start_download(&batch).is_ok());
}

#[test]
fn registered_jobs_have_their_turns() {
    let mut state = DownloadState::new();
    let batch = jobs(&["a", "b", "c", "a"]);
    state.start_download(&batch).unwrap();
    assert_eq!(state.turn("a"), JobTurn::Skip);
    state.register_jobs(&batch);
    assert_eq!(state.turn("a"), JobTurn::Run);
    assert!(state.cancel_download("b"));
    assert!(!state.cancel_download("z"));
    assert_eq!(state.turn("b"), JobTurn::Cancelled);
    assert!(state.is_cancelled("b"));
    assert!(!state.is_cancelled("a"));
    assert!(!state.is_cancelled("z"));
    state.end_job("a");
    assert_eq!(state.turn("a"), JobTurn::Skip);
    assert!(!state.cancel_download("a"));
    assert_eq!(state.turn("c"), JobTurn::Run);
}

#[test]
fn a_job_that_is_registered_anew_is_not_cancelled() {
    let mut state = DownloadState::new();
    let batch = jobs(&["a"]);
    state.register_jobs(&batch);
    state.cancel_download("a");
    state.register_jobs(&batch);
    assert_eq!(state.turn("a"), JobTurn::Run);
}

#[test]
fn a_batch_is_announced() {
    let begun = batch_state(true);
    assert!(begun.active);
    assert_eq!(begun.message.as_deref(), Some("Cola iniciada."));
    let over = batch_state(false);
    assert!(!over.active);
    assert_eq!(over.message.as_deref(), Some("Cola finalizada."));
}

#[test]
fn a_start_without_the_downloader_frees_the_queue() {
    let mut state = DownloadState::new();
    let batch = jobs(&["a"]);
    state.start_download(&batch).unwrap();
    assert_eq!(state.check_located(Ok::<u8, String>(7)), Ok(7));
    assert!(state.start_download(&batch).is_err());
    assert_eq!(state.check_located(Err::<u8, String>("x".to_string())), Err("x".to_string()));
    assert!(state.start_download(&batch).is_ok());
}

#[test]
fn a_start_without_the_folder_is_explained() {
    let mut state = DownloadState::new();
    let batch = jobs(&["a"]);
    state.start_download(&batch).unwrap();
    assert_eq!(
        state.enqueue(&batch, Err("denied".to_string())).unwrap_err(),
        "No pude crear la carpeta de salida: denied"
    );
    assert_eq!(state.turn("a"), JobTurn::Skip);
    assert!(state.start_download(&batch).is_err());
    assert!(state.enqueue(&batch, Ok(())).is_ok());
    assert_eq!(state.turn("a"), JobTurn::Run);
}

#[test]
fn a_batch_goes_through_its_jobs_in_order() {
    let mut state = DownloadState::new();
    let batch = jobs(&["a", "b", "a", "c"]);
    state.start_download(&batch).unwrap();
    state.enqueue(&batch, Ok(())).unwrap();
    assert!(state.cancel_download("b"));
    assert_eq!(state.next_job(&batch, 0), Some(JobTurn::Run));
    assert_eq!(state.next_job(&batch, 1), Some(JobTurn::Cancelled));
    assert!(!state.cancel_download("a"));
    assert_eq!(state.next_job(&batch, 2), Some(JobTurn::Skip));
    assert_eq!(state.next_job(&batch, 3), Some(JobTurn::Run));
    assert!(state.start_download(&batch).is_err());
    assert_eq!(state.next_job(&batch, 4), None);
    for id in ["a", "b", "c"] {
        assert_eq!(state.turn(id), JobTurn::Skip);
    }
    assert!(state.start_download(&batch).is_ok());
}
