use dltrack::codec::{encode_snapshot, parse_snapshot};
use dltrack::job::{Download, Status};
use dltrack::registry::{Outcome, Registry};

#[test]
fn empty_snapshot_is_an_empty_object() {
    let reg = Registry::new();
    assert_eq!(reg.snapshot(), "{}");
}

#[test]
fn snapshot_has_the_documented_shape() {
    let mut reg = Registry::new();
    reg.insert_new("job-1".to_string(), "http://example.com/a.mp4".to_string())
        .expect("fresh id");
    let text = reg.snapshot();
    assert_eq!(
        text,
        "{\n  \"job-1\": {\"id\": \"job-1\", \"url\": \"http://example.com/a.mp4\", \
         \"status\": \"pending\", \"progress\": 0, \"file_name\": null}\n}"
    );
}

#[test]
fn snapshot_renders_terminal_records() {
    let mut reg = Registry::new();
    reg.insert_new("j1".to_string(), "u1".to_string()).expect("fresh id");
    reg.insert_new("j2".to_string(), "u2".to_string()).expect("fresh id");
    assert!(reg.finish(&"j1".to_string(), Outcome::Success("f.bin".to_string())));
    assert!(reg.finish(&"j2".to_string(), Outcome::Failure));
    assert_eq!(
        reg.snapshot(),
        "{\n  \"j1\": {\"id\": \"j1\", \"url\": \"u1\", \"status\": \"completed\", \
         \"progress\": 100, \"file_name\": \"f.bin\"},\n  \"j2\": {\"id\": \"j2\", \
         \"url\": \"u2\", \"status\": \"failed\", \"progress\": 0, \"file_name\": null}\n}"
    );
}

#[test]
fn snapshot_escapes_quotes_and_backslashes() {
    let jobs = vec![Download {
        id: "j1".to_string(),
        url: "http://example.com/a\"b\\c".to_string(),
        status: Status::Pending,
        progress: 0,
        file_name: None,
    }];
    let text = encode_snapshot(&jobs);
    assert!(text.contains("a\\\"b\\\\c"));
    let back = parse_snapshot(&text).expect("snapshot parses");
    assert_eq!(back.len(), 1);
    assert_eq!(back[0].url, "http://example.com/a\"b\\c");
}

#[test]
fn parser_accepts_standard_escapes() {
    let text = "{\"j1\": {\"id\": \"j1\", \"url\": \"a\\nb\\tc\\rd\\/e\\bf\\fg\", \
                \"status\": \"pending\", \"progress\": 0, \"file_name\": null}}";
    let jobs = parse_snapshot(text).expect("parses");
    assert_eq!(jobs.len(), 1);
    assert_eq!(jobs[0].url, "a\nb\tc\rd/e\u{0008}f\u{000C}g");
}

#[test]
fn parser_rejects_unknown_escapes() {
    let text = "{\"j1\": {\"id\": \"j\\q1\", \"url\": \"u\", \
                \"status\": \"pending\", \"progress\": 0, \"file_name\": null}}";
    assert!(parse_snapshot(text).is_none());
}

#[test]
fn round_trip_restores_the_collection() {
    let mut reg = Registry::new();
    let d1 = reg.create("http://example.com/a.mp4".to_string()).unwrap();
    let d2 = reg.create("http://example.com/b.mp4".to_string()).unwrap();
    let d3 = reg.create("http://example.com/c.mp4".to_string()).unwrap();
    assert!(reg.finish(&d1.id, Outcome::Success("a.mp4".to_string())));
    assert!(reg.finish(&d2.id, Outcome::Failure));
    let text = reg.snapshot();

    let reloaded = Registry::load_snapshot(&text);
    let before = reg.list();
    let after = reloaded.list();
    assert_eq!(before.len(), after.len());
    for (b, a) in before.iter().zip(after.iter()) {
        assert_eq!(b.id, a.id);
        assert_eq!(b.url, a.url);
        assert_eq!(b.status, a.status);
        assert_eq!(b.progress, a.progress);
        assert_eq!(b.file_name, a.file_name);
    }
    assert_eq!(after.iter().filter(|d| d.id == d3.id).count(), 1);
}

#[test]
fn parser_accepts_other_whitespace() {
    let text = "{ \"j1\" : { \"id\" : \"j1\" , \"url\" : \"http://e/x\" , \
                \"status\" : \"completed\" , \"progress\" : 100 , \
                \"file_name\" : \"x.mp4\" } }";
    let jobs = parse_snapshot(text).expect("parses");
    assert_eq!(jobs.len(), 1);
    assert_eq!(jobs[0].id, "j1");
    assert_eq!(jobs[0].status, Status::Completed);
    assert_eq!(jobs[0].progress, 100);
    assert_eq!(jobs[0].file_name.as_deref(), Some("x.mp4"));
}

#[test]
fn damaged_snapshots_are_rejected() {
    assert!(parse_snapshot("").is_none());
    assert!(parse_snapshot("not json").is_none());
    assert!(parse_snapshot("{\"j1\": {\"id\": \"j1\"}}").is_none());
    assert!(parse_snapshot("{\"j1\": {\"id\": \"j1\", \"url\": \"u\", \"status\": \"odd\", \"progress\": 0, \"file_name\": null}}").is_none());
    assert!(parse_snapshot("{\"j1\": {\"id\": \"j1\", \"url\": \"u\", \"status\": \"pending\", \"progress\": 999, \"file_name\": null}}").is_none());
}

#[test]
fn loading_a_damaged_snapshot_starts_empty() {
    let reg = Registry::load_snapshot("not json");
    assert!(reg.list().is_empty());
}

#[test]
fn loading_a_snapshot_with_duplicate_ids_starts_empty() {
    let text = "{\n  \"a\": {\"id\": \"j1\", \"url\": \"u1\", \"status\": \"pending\", \
                \"progress\": 0, \"file_name\": null},\n  \"b\": {\"id\": \"j1\", \
                \"url\": \"u2\", \"status\": \"pending\", \"progress\": 0, \
                \"file_name\": null}\n}";
    assert!(parse_snapshot(text).is_some());
    let reg = Registry::load_snapshot(text);
    assert!(reg.list().is_empty());
}

#[test]
fn loading_an_ill_formed_record_starts_empty() {
    // a completed record without a file name breaks the record invariant
    let text = "{\n  \"j1\": {\"id\": \"j1\", \"url\": \"u\", \"status\": \"completed\", \
                \"progress\": 100, \"file_name\": null}\n}";
    assert!(parse_snapshot(text).is_some());
    let reg = Registry::load_snapshot(text);
    assert!(reg.list().is_empty());
}
