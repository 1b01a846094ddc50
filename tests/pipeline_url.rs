use gitlab_failed_jobs::pipeline_url::{encode_project_path, PipelineUrl, PIPELINE};
use gitlab_failed_jobs::traversal::{bridges_url, failed_job_urls, jobs_url, Job};

fn parts(line: &str) -> Option<(String, String, String)> {
    PipelineUrl::parse(&line.to_string()).map(|p| (p.gitlab, p.project, p.id))
}

fn expect(line: &str, gitlab: &str, project: &str, id: &str) {
    assert_eq!(
        parts(line),
        Some((gitlab.to_string(), project.to_string(), id.to_string())),
        "input {:?}",
        line
    );
}

fn regex_parts(line: &str) -> Option<(String, String, String)> {
    let re = regex_lite::Regex::new(PIPELINE).unwrap();
    re.captures(line).map(|cap| {
        (
            cap.get(1).unwrap().as_str().to_string(),
            cap.get(2).unwrap().as_str().replace("/", "%2F"),
            cap.get(3).unwrap().as_str().to_string(),
        )
    })
}

#[test]
fn parses_url_with_dash_segment() {
    expect(
        "https://gitlab.example.com/group/sub/proj/-/pipelines/123",
        "https://gitlab.example.com",
        "group%2Fsub%2Fproj",
        "123",
    );
}

#[test]
fn parses_url_without_dash_segment() {
    expect("http://g.example/a/pipelines/2", "http://g.example", "a", "2");
}

#[test]
fn parses_url_with_trailing_whitespace() {
    expect("https://g.example/a/b/pipelines/45\n", "https://g.example", "a%2Fb", "45");
    expect("https://g.example/a/-/pipelines/45 \t\r\n", "https://g.example", "a", "45");
}

#[test]
fn project_path_is_the_shortest_reading() {
    expect("https://h/a/-/-/pipelines/1", "https://h", "a%2F-", "1");
    expect("https://h/-/pipelines/1", "https://h", "-", "1");
    expect("https://h//-/pipelines/1", "https://h", "%2F-", "1");
    expect("https://h/a/pipelines/1/pipelines/2", "https://h", "a%2Fpipelines%2F1", "2");
}

#[test]
fn rejects_other_shapes() {
    let bad = [
        "",
        "https://g.example/a/-/jobs/9",
        "https://g.example/a/pipelines/",
        "https://g.example/a/pipelines/12x",
        "https://g.example/a_b/pipelines/1",
        "https://g.example/a b/pipelines/1",
        "https://g.example/pipelines/1",
        "https://g.example//pipelines/1",
        "ftp://g.example/a/pipelines/1",
        "https:///a/pipelines/1",
        "https://g_x/a/pipelines/1",
        " https://g.example/a/pipelines/1",
        "https://g.example/a/pipelines/1 x",
        "https://g.example/a/pipelines/\u{0663}",
        "https://g.example/a/pipelines/1\u{00a0}",
        "HTTPS://g.example/a/pipelines/1",
    ];
    for line in bad {
        assert!(parts(line).is_none(), "input {:?}", line);
    }
}

#[test]
fn agrees_with_the_pattern() {
    let lines = [
        "https://gitlab.example.com/group/sub/proj/-/pipelines/123",
        "http://g.example/a/pipelines/2",
        "https://g.example/a/b/pipelines/45\n",
        "https://h/a/-/-/pipelines/1",
        "https://h/-/pipelines/1",
        "https://h//-/pipelines/1",
        "https://h/a/pipelines/1/pipelines/2",
        "https://h/a/-/pipelines/007\u{000b}\u{000c}",
        "https://h.x-y.z/a.b/c-d/-/pipelines/99 ",
        "https://g.example/a/pipelines/12x",
        "https://g.example/a_b/pipelines/1",
        "https://g.example//pipelines/1",
        "http://h/a//-/pipelines/5",
        "http://h/a/-/pipelines/5/",
        "https://h/a/-/pipelines/\n5",
    ];
    for line in lines {
        assert_eq!(parts(line), regex_parts(line), "input {:?}", line);
    }
}

#[test]
fn encodes_every_slash_once() {
    assert_eq!(encode_project_path("a/b/c"), "a%2Fb%2Fc");
    assert_eq!(encode_project_path(""), "");
    assert_eq!(encode_project_path("/"), "%2F");
    assert_eq!(encode_project_path("plain"), "plain");
}

#[test]
fn encoding_does_not_escape_an_escape() {
    let once = encode_project_path("group/sub/proj");
    assert_eq!(once, "group%2Fsub%2Fproj");
    assert_eq!(encode_project_path(&once), once);
    assert_eq!(encode_project_path("a%2Fb/c"), "a%2Fb%2Fc");
}

#[test]
fn builds_api_requests() {
    let p = PipelineUrl::parse(&"https://g.example/grp/app/-/pipelines/77".to_string()).unwrap();
    assert_eq!(
        bridges_url(&p),
        "https://g.example/api/v4/projects/grp%2Fapp/pipelines/77/bridges?scope[]=failed"
    );
    assert_eq!(
        jobs_url(&p),
        "https://g.example/api/v4/projects/grp%2Fapp/pipelines/77/jobs?scope[]=failed"
    );
}

#[test]
fn keeps_jobs_not_allowed_to_fail_in_order() {
    let job = |url: &str, id: u64, allow_failure: bool| Job {
        web_url: url.to_string(),
        id,
        allow_failure,
    };
    let jobs = vec![
        job("https://g/a/-/jobs/3", 3, false),
        job("https://g/a/-/jobs/1", 1, true),
        job("https://g/a/-/jobs/2", 2, false),
    ];
    assert_eq!(
        failed_job_urls(&jobs),
        vec!["https://g/a/-/jobs/3".to_string(), "https://g/a/-/jobs/2".to_string()]
    );
    assert!(failed_job_urls(&Vec::new()).is_empty());
    assert!(failed_job_urls(&vec![job("x", 1, true)]).is_empty());
}
