use wallflower::mirror::{
    destination_filename, page_arguments, item_action, plan_page, page_report, is_photo_filename,
    ItemAction, ItemOutcome,
};
use wallflower::{FlickrError, WallflowerError};

#[test]
fn filename_is_the_last_path_segment() {
    let name = destination_filename("https://live.example.com/65535/123_abc_k.jpg").unwrap();
    assert_eq!(name, "123_abc_k.jpg");
}

#[test]
fn filename_is_percent_decoded() {
    let name = destination_filename("https://x.example/photos/my%20photo.jpg").unwrap();
    assert_eq!(name, "my photo.jpg");
    let name = destination_filename("https://x.example/caf%C3%A9.jpg").unwrap();
    assert_eq!(name, "café.jpg");
}

#[test]
fn filename_stops_at_query_and_fragment() {
    let name = destination_filename("https://x.example/a/b.jpg?size=k#frag").unwrap();
    assert_eq!(name, "b.jpg");
}

#[test]
fn url_without_file_name_is_an_io_error() {
    assert!(matches!(
        destination_filename("https://x.example/photos/"),
        Err(WallflowerError::IoError(_))
    ));
    assert!(matches!(
        destination_filename("https://x.example"),
        Err(WallflowerError::IoError(_))
    ));
}

#[test]
fn url_without_scheme_is_rejected() {
    assert!(matches!(
        destination_filename("photos/a.jpg"),
        Err(WallflowerError::FlickrError(FlickrError::UrlError(_)))
    ));
}

#[test]
fn undecodable_path_is_an_encoding_error() {
    assert!(matches!(
        destination_filename("https://x.example/%FF.jpg"),
        Err(WallflowerError::ParseError(_))
    ));
}

#[test]
fn page_arguments_request_large_photos_only() {
    let args = page_arguments(2);
    assert_eq!(
        args,
        vec![
            ("min_taken_date".to_string(), "1388494800".to_string()),
            ("content_type".to_string(), "1".to_string()),
            ("per_page".to_string(), "100".to_string()),
            ("page".to_string(), "2".to_string()),
            ("extras".to_string(), "url_k".to_string()),
        ]
    );
}

#[test]
fn present_photos_are_skipped() {
    assert_eq!(item_action(true), ItemAction::Skip);
    assert_eq!(item_action(false), ItemAction::Download);
}

#[test]
fn second_run_against_unchanged_listing_downloads_nothing() {
    // Every file is already present, as after a completed first run.
    let plan = plan_page(&vec![true, true, true, true]);
    assert!(plan.iter().all(|a| *a == ItemAction::Skip));
}

#[test]
fn first_run_downloads_the_missing_photos() {
    let plan = plan_page(&vec![false, true, false]);
    assert_eq!(plan, vec![ItemAction::Download, ItemAction::Skip, ItemAction::Download]);
}

#[test]
fn one_failure_leaves_the_rest_of_the_batch_counted() {
    let outcomes = vec![
        ItemOutcome::Downloaded,
        ItemOutcome::Failed,
        ItemOutcome::AlreadyPresent,
        ItemOutcome::Downloaded,
    ];
    let report = page_report(&outcomes);
    assert_eq!(report.total, 4);
    assert_eq!(report.downloaded, 2);
    assert_eq!(report.already_present, 1);
    assert_eq!(report.failed, 1);
}

#[test]
fn empty_batch_reports_zero_everything() {
    let report = page_report(&vec![]);
    assert_eq!(report.total, 0);
    assert_eq!(report.downloaded + report.already_present + report.failed, 0);
}

#[test]
fn photo_store_recognizes_jpg_names() {
    assert!(is_photo_filename("a.jpg"));
    assert!(is_photo_filename("123_abc_k.jpg"));
    assert!(!is_photo_filename(".jpg"));
    assert!(!is_photo_filename("a.jpeg"));
    assert!(!is_photo_filename("a.JPG"));
    assert!(!is_photo_filename("photo"));
}
