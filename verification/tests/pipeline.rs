use webarchiver::pipeline::{Pipeline, SubmissionResult};

fn urls(names: &[&str]) -> Vec<String> {
    names.iter().map(|s| s.to_string()).collect()
}

#[test]
fn pipeline_drives_every_url_once() {
    let mut p = Pipeline::new(urls(&["a", "b", "c", "d", "e"]), 2);
    let mut started: Vec<(usize, String)> = Vec::new();
    let mut in_flight: Vec<usize> = Vec::new();
    let mut completed = 0usize;
    loop {
        while let Some((idx, url)) = p.start_next() {
            started.push((idx, url));
            in_flight.push(idx);
            assert!(in_flight.len() <= 2, "concurrency bound exceeded");
        }
        match in_flight.pop() {
            Some(idx) => {
                let report = p.complete(idx, SubmissionResult::Status(200)).unwrap();
                assert_eq!(report.url, started[idx].1);
                completed += 1;
            }
            None => break,
        }
    }
    assert!(p.is_done());
    assert_eq!(completed, 5);
    // every URL admitted exactly once, in list order
    let indices: Vec<usize> = started.iter().map(|(i, _)| *i).collect();
    assert_eq!(indices, vec![0, 1, 2, 3, 4]);
    let names: Vec<String> = started.into_iter().map(|(_, u)| u).collect();
    assert_eq!(names, urls(&["a", "b", "c", "d", "e"]));
    // one report per input URL, paired in list order
    let reports = p.reports();
    assert_eq!(reports.len(), 5);
    for (i, r) in reports.iter().enumerate() {
        assert_eq!(r.url, ["a", "b", "c", "d", "e"][i]);
        assert!(matches!(r.result, SubmissionResult::Status(200)));
    }
}

#[test]
fn pipeline_empty_list_completes_without_requests() {
    let mut p = Pipeline::new(Vec::new(), 3);
    assert!(p.is_done());
    assert!(p.start_next().is_none());
    assert!(p.reports().is_empty());
}

#[test]
fn pipeline_respects_concurrency_bound() {
    let mut p = Pipeline::new(urls(&["a", "b", "c"]), 1);
    let first = p.start_next();
    assert!(first.is_some());
    // the single slot is taken: nothing else may start
    assert!(p.start_next().is_none());
    p.complete(0, SubmissionResult::Status(200)).unwrap();
    let second = p.start_next().unwrap();
    assert_eq!(second.0, 1);
}

#[test]
fn transport_failure_does_not_stop_the_rest() {
    let mut p = Pipeline::new(urls(&["a", "b", "c"]), 2);
    while let Some((idx, _url)) = p.start_next() {
        let result = if idx == 0 {
            SubmissionResult::TransportError("connection refused".to_string())
        } else {
            SubmissionResult::Status(200)
        };
        p.complete(idx, result).unwrap();
    }
    assert!(p.is_done());
    let reports = p.reports();
    assert_eq!(reports.len(), 3);
    assert!(matches!(&reports[0].result, SubmissionResult::TransportError(e) if e == "connection refused"));
    assert!(matches!(reports[1].result, SubmissionResult::Status(200)));
    assert!(matches!(reports[2].result, SubmissionResult::Status(200)));
}

#[test]
fn complete_rejects_slots_not_in_flight() {
    let mut p = Pipeline::new(urls(&["a", "b"]), 2);
    // not yet started
    assert!(p.complete(0, SubmissionResult::Status(200)).is_none());
    let (idx, _) = p.start_next().unwrap();
    assert!(p.complete(idx, SubmissionResult::Status(200)).is_some());
    // already completed
    assert!(p.complete(idx, SubmissionResult::Status(200)).is_none());
    // out of range
    assert!(p.complete(7, SubmissionResult::Status(200)).is_none());
}

#[test]
fn url_count_reports_list_length() {
    let p = Pipeline::new(urls(&["a", "b", "c"]), 4);
    assert_eq!(p.url_count(), 3);
}
