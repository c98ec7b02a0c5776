use std::path::PathBuf;
use std::time::Duration;

use jupiter_search::downloader::{
    audio_file_name, plan_downloads, retain_title_containing, sort_latest_first, str_contains, transcript_file_name,
    transcription_outcome, DownloadParams, ModelData, TranscriptionResult,
};
use jupiter_search::feed::Enclosure;
use jupiter_search::jupiter_common::{Episode, PubDate};
use jupiter_search::metadata::Metadata;
use jupiter_search::search::{has_index, podcast_index_settings};
use jupiter_search::stt::{transcript_from_segments, ModelInfo, SttError, Utternace};
use jupiter_search::workers::{validate_worker_params, WorkerParamsError};

fn episode(title: &str, timestamp: i64) -> Episode {
    Episode {
        title: title.to_string(),
        description: None,
        content: None,
        link: format!("https://example.com/{}", title),
        enclosure: Enclosure {
            url: format!("https://example.com/{}.mp3", title),
            length: "1".to_string(),
            mime_type: "audio/mpeg".to_string(),
        },
        pub_date: PubDate { timestamp, nanos: 0, offset_seconds: 0 },
    }
}

fn titles(episodes: &[Episode]) -> Vec<&str> {
    episodes.iter().map(|e| e.title.as_str()).collect()
}

#[test]
fn sort_is_latest_first_and_stable() {
    let sorted = sort_latest_first(vec![
        episode("old", 10),
        episode("new", 30),
        episode("mid-a", 20),
        episode("mid-b", 20),
        episode("newest", 40),
    ]);
    assert_eq!(titles(&sorted), vec!["newest", "new", "mid-a", "mid-b", "old"]);
}

#[test]
fn sort_compares_nanoseconds() {
    let mut a = episode("a", 5);
    a.pub_date.nanos = 1;
    let b = episode("b", 5);
    let sorted = sort_latest_first(vec![b, a]);
    assert_eq!(titles(&sorted), vec!["a", "b"]);
}

#[test]
fn filter_uses_lowercased_titles() {
    let kept = retain_title_containing(
        vec![episode("Linux Action News", 1), episode("Coder Radio", 2), episode("LINUX Unplugged", 3)],
        "linux",
    );
    assert_eq!(titles(&kept), vec!["Linux Action News", "LINUX Unplugged"]);
    let none = retain_title_containing(vec![episode("Coder Radio", 2)], "Coder");
    assert!(none.is_empty());
}

fn params<'a>(dir: &'a PathBuf, n: Option<usize>, filter: Option<&'a str>, workers: usize) -> DownloadParams<'a> {
    DownloadParams {
        rss_url: "https://example.com/rss",
        worker_count: workers,
        model_file_path: dir,
        output_dir: dir,
        n_elements: n,
        debug: false,
        download_directory: dir,
        threads_per_worker: 2,
        name_filter: filter,
    }
}

#[test]
fn plan_takes_latest_matching() {
    let dir = PathBuf::from("/tmp");
    let feed = vec![episode("linux 1", 1), episode("coder 2", 2), episode("linux 3", 3), episode("linux 4", 4)];
    let plan = plan_downloads(feed, &params(&dir, Some(2), Some("linux"), 6));
    assert_eq!(titles(&plan.episodes), vec!["linux 4", "linux 3"]);
    assert_eq!(plan.workers, 2);
}

#[test]
fn plan_without_count_takes_all() {
    let dir = PathBuf::from("/tmp");
    let plan = plan_downloads(vec![episode("a", 1), episode("b", 2)], &params(&dir, None, None, 4));
    assert_eq!(titles(&plan.episodes), vec!["b", "a"]);
    assert_eq!(plan.workers, 2);
    let feed = vec![episode("linux 1", 1), episode("coder 2", 2), episode("linux 3", 3)];
    let plan = plan_downloads(feed, &params(&dir, None, Some("linux"), 1));
    assert_eq!(titles(&plan.episodes), vec!["linux 3", "linux 1"]);
    assert_eq!(plan.workers, 1);
}

#[test]
fn plan_count_zero_takes_nothing() {
    let dir = PathBuf::from("/tmp");
    let plan = plan_downloads(vec![episode("a", 1)], &params(&dir, Some(0), None, 4));
    assert!(plan.episodes.is_empty());
    assert_eq!(plan.workers, 0);
}

#[test]
fn contains_searches_characters() {
    assert!(str_contains("linux action news", "action"));
    assert!(str_contains("zażółć", "żó"));
    assert!(str_contains("abc", ""));
    assert!(str_contains("", ""));
    assert!(!str_contains("ab", "abc"));
    assert!(!str_contains("linux", "unix "));
    assert!(str_contains("aaab", "aab"));
}

#[test]
fn plan_workers_capped_by_request() {
    let dir = PathBuf::from("/tmp");
    let feed = vec![episode("a", 1), episode("b", 2), episode("c", 3)];
    let plan = plan_downloads(feed, &params(&dir, Some(10), None, 2));
    assert_eq!(titles(&plan.episodes), vec!["c", "b", "a"]);
    assert_eq!(plan.workers, 2);
}

#[test]
fn outcome_skips_existing_transcripts() {
    match transcription_outcome("t".to_string(), true) {
        TranscriptionResult::Skipped { title } => assert_eq!(title, "t"),
        other => panic!("unexpected {:?}", other),
    }
    match transcription_outcome("t".to_string(), false) {
        TranscriptionResult::Downloaded { title } => assert_eq!(title, "t"),
        other => panic!("unexpected {:?}", other),
    }
}

#[test]
fn file_names() {
    assert_eq!(transcript_file_name("Episode 1"), "Episode 1.json");
    assert_eq!(audio_file_name("Episode 1"), "Episode 1.mp3");
}

#[test]
fn model_data_from_info() {
    let data = ModelData::from(ModelInfo { file_name: "ggml-tiny.en.bin".to_string(), size: 42, sha256: "abc".to_string() });
    assert_eq!(data.model_file_name, "ggml-tiny.en.bin");
    assert_eq!(data.model_size, 42);
    assert_eq!(data.model_sha256, "abc");
}

#[test]
fn worker_params() {
    assert_eq!(validate_worker_params(12, 6, None), Ok((6, 2)));
    assert_eq!(validate_worker_params(12, 5, None), Ok((5, 2)));
    assert_eq!(validate_worker_params(12, 4, Some(3)), Ok((4, 3)));
    assert_eq!(
        validate_worker_params(12, 4, Some(4)),
        Err(WorkerParamsError { workers: 4, threads_per_worker: 4, available: 12 })
    );
    assert_eq!(
        validate_worker_params(12, usize::MAX, Some(2)),
        Err(WorkerParamsError { workers: 2, threads_per_worker: usize::MAX, available: 12 })
    );
    assert_eq!(validate_worker_params(4, 8, None), Ok((8, 0)));
}

#[test]
fn metadata_joins_ids() {
    let ids = vec!["http://linuxactionnews.com/264/".to_string()];
    let meta = Metadata::from_tag("Linux Action News: Linux Action News 264".to_string(), &ids);
    assert_eq!(meta.title, "Linux Action News: Linux Action News 264");
    assert_eq!(meta.unique_id, "http://linuxactionnews.com/264/");
    assert!(meta.pictures.is_empty());
    let ids = vec!["a".to_string(), "b".to_string(), "c".to_string()];
    assert_eq!(Metadata::from_tag(String::new(), &ids).unique_id, "a/b/c");
    assert_eq!(Metadata::from_tag(String::new(), &vec![]).unique_id, "");
}

#[test]
fn transcript_needs_segments() {
    let t = transcript_from_segments(
        vec![Utternace { start: 0, stop: 150, text: "hello".to_string() }],
        Duration::from_millis(7),
    )
    .unwrap();
    assert_eq!(t.utterances.len(), 1);
    assert_eq!(t.utterances[0].text, "hello");
    assert_eq!(t.processing_time, Duration::from_millis(7));
    let e = transcript_from_segments(vec![], Duration::from_millis(7)).unwrap_err();
    assert_eq!(e, SttError::NoSegments);
    assert_eq!(e.message(), "failed to get any segments");
}

#[test]
fn search_index_settings() {
    let s = podcast_index_settings();
    assert_eq!(
        s.ranking_rules,
        vec!["words", "typo", "proximity", "attribute", "sort", "exactness", "pub_date:desc"]
    );
    assert_eq!(s.searchable_attributes, vec!["title", "description"]);
    assert_eq!(s.displayed_attributes, vec!["title", "description", "link", "pub_date"]);
    assert_eq!(s.sortable_attributes, vec!["title", "pub_date"]);
    let uids = vec!["movies".to_string(), "podcasts".to_string()];
    assert!(has_index(&uids, "podcasts"));
    assert!(!has_index(&uids, "podcasts2"));
    assert!(!has_index(&vec![], "podcasts"));
}
