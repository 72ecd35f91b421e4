use dltrack::job::{Download, Status};
use dltrack::registry::{Outcome, Registry};

fn create(reg: &mut Registry, url: &str) -> Download {
    reg.create(url.to_string()).expect("fresh id collided")
}

#[test]
fn create_makes_pending_record() {
    let mut reg = Registry::new();
    let d = create(&mut reg, "http://example.com/a.mp4");
    assert_eq!(d.url, "http://example.com/a.mp4");
    assert_eq!(d.status, Status::Pending);
    assert_eq!(d.progress, 0);
    assert!(d.file_name.is_none());
    let all = reg.list();
    assert_eq!(all.len(), 1);
    assert_eq!(all[0].id, d.id);
    assert_eq!(all[0].url, d.url);
    assert_eq!(all[0].status, Status::Pending);
}

#[test]
fn created_ids_are_distinct() {
    let mut reg = Registry::new();
    let mut ids: Vec<String> = Vec::new();
    for i in 0..10 {
        let d = create(&mut reg, &format!("http://example.com/{}", i));
        ids.push(d.id);
    }
    for i in 0..ids.len() {
        for j in 0..ids.len() {
            if i != j {
                assert_ne!(ids[i], ids[j]);
            }
        }
    }
    // nothing lost, nothing duplicated
    let all = reg.list();
    assert_eq!(all.len(), 10);
    for id in &ids {
        assert_eq!(all.iter().filter(|d| &d.id == id).count(), 1);
    }
}

#[test]
fn insert_new_rejects_duplicate_id() {
    let mut reg = Registry::new();
    let d = reg.insert_new("job-1".to_string(), "http://example.com/a".to_string());
    assert!(d.is_some());
    let again = reg.insert_new("job-1".to_string(), "http://example.com/b".to_string());
    assert!(again.is_none());
    assert_eq!(reg.list().len(), 1);
}

#[test]
fn delete_removes_record() {
    let mut reg = Registry::new();
    let d1 = create(&mut reg, "http://example.com/a");
    let d2 = create(&mut reg, "http://example.com/b");
    let removed = reg.delete(&d1.id);
    assert!(removed.is_some());
    assert_eq!(removed.unwrap().id, d1.id);
    let all = reg.list();
    assert_eq!(all.len(), 1);
    assert_eq!(all[0].id, d2.id);
    // already deleted
    assert!(reg.delete(&d1.id).is_none());
    // never issued
    assert!(reg.delete(&"no-such-id".to_string()).is_none());
}

#[test]
fn finish_success_completes_record() {
    let mut reg = Registry::new();
    let d = create(&mut reg, "http://example.com/a.mp4");
    let applied = reg.finish(&d.id, Outcome::Success("a.mp4".to_string()));
    assert!(applied);
    let all = reg.list();
    assert_eq!(all.len(), 1);
    assert_eq!(all[0].status, Status::Completed);
    assert_eq!(all[0].progress, 100);
    assert_eq!(all[0].file_name.as_deref(), Some("a.mp4"));
    assert_eq!(all[0].url, "http://example.com/a.mp4");
}

#[test]
fn finish_failure_fails_record() {
    let mut reg = Registry::new();
    let d = create(&mut reg, "http://example.com/a.mp4");
    let applied = reg.finish(&d.id, Outcome::Failure);
    assert!(applied);
    let all = reg.list();
    assert_eq!(all.len(), 1);
    assert_eq!(all[0].status, Status::Failed);
    assert_eq!(all[0].progress, 0);
    assert!(all[0].file_name.is_none());
}

#[test]
fn finish_unknown_id_is_a_no_op() {
    let mut reg = Registry::new();
    let d = create(&mut reg, "http://example.com/a");
    let applied = reg.finish(&"no-such-id".to_string(), Outcome::Failure);
    assert!(!applied);
    let all = reg.list();
    assert_eq!(all.len(), 1);
    assert_eq!(all[0].id, d.id);
    assert_eq!(all[0].status, Status::Pending);
}

#[test]
fn delete_before_completion_scenario() {
    // POST, then DELETE before the job finishes, then GET.
    let mut reg = Registry::new();
    let d = create(&mut reg, "http://example.com/a.mp4");
    assert_eq!(d.status, Status::Pending);
    assert_eq!(d.progress, 0);
    assert!(d.file_name.is_none());
    let removed = reg.delete(&d.id);
    assert!(removed.is_some());
    assert!(reg.list().is_empty());
    // the still-running job later reports back; the record stays gone
    let applied = reg.finish(&d.id, Outcome::Success("a.mp4".to_string()));
    assert!(!applied);
    assert!(reg.list().is_empty());
}
