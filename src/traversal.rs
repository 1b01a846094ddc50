//! The walk from a parent pipeline to the failed jobs of its downstream
//! pipelines, as a machine that is handed one API response at a time.
//!
//! The caller performs each request that an [`Action`] names and hands the
//! result back as an [`Event`]. The walk is one level deep: parent, its failed
//! bridges, the failed jobs of each bridge's downstream pipeline. The first
//! failure of any kind ends it.
use vstd::prelude::*;
use crate::pipeline_url::{PipelineUrl, parse_spec};

verus! {

/// The pipeline that a bridge triggered.
pub struct DownstreamPipeline {
    pub web_url: String,
}

/// A bridge: the link from a pipeline to a pipeline that it triggered.
pub struct Bridge {
    pub downstream_pipeline: DownstreamPipeline,
}

/// A job of a pipeline.
pub struct Job {
    pub web_url: String,
    pub id: u64,
    pub allow_failure: bool,
}

/// The API request for the failed `resource` entries of pipeline `p`.
pub open spec fn request_url(p: (Seq<char>, Seq<char>, Seq<char>), resource: Seq<char>) -> Seq<
    char,
> {
    p.0 + "/api/v4/projects/"@ + p.1 + "/pipelines/"@ + p.2 + resource
}

pub open spec fn bridges_resource() -> Seq<char> {
    "/bridges?scope[]=failed"@
}

pub open spec fn jobs_resource() -> Seq<char> {
    "/jobs?scope[]=failed"@
}

/// The web URLs of the jobs that are not allowed to fail, in order.
pub open spec fn reported_urls(jobs: Seq<Job>) -> Seq<Seq<char>>
    decreases jobs.len(),
{
    if jobs.len() == 0 {
        Seq::empty()
    } else {
        let prev = reported_urls(jobs.drop_last());
        if jobs.last().allow_failure {
            prev
        } else {
            prev.push(jobs.last().web_url@)
        }
    }
}

pub open spec fn strings(v: Seq<String>) -> Seq<Seq<char>> {
    v.map_values(|s: String| s@)
}

/// The downstream pipeline URLs of `bridges`, in order.
pub open spec fn downstream_urls(bridges: Seq<Bridge>) -> Seq<Seq<char>> {
    bridges.map_values(|b: Bridge| b.downstream_pipeline.web_url@)
}

fn request_for(p: &PipelineUrl, resource: &str) -> (r: String)
    ensures
        r@ == request_url(p@, resource@),
{
    let mut u = p.gitlab.clone();
    u.append("/api/v4/projects/");
    u.append(p.project.as_str());
    u.append("/pipelines/");
    u.append(p.id.as_str());
    u.append(resource);
    u
}

/// The request for the failed bridges of pipeline `p`.
pub fn bridges_url(p: &PipelineUrl) -> (r: String)
    ensures
        r@ == request_url(p@, bridges_resource()),
{
    request_for(p, "/bridges?scope[]=failed")
}

/// The request for the failed jobs of pipeline `p`.
pub fn jobs_url(p: &PipelineUrl) -> (r: String)
    ensures
        r@ == request_url(p@, jobs_resource()),
{
    request_for(p, "/jobs?scope[]=failed")
}

/// The web URLs of the jobs whose failure is not allowed, in the given order.
pub fn failed_job_urls(jobs: &Vec<Job>) -> (r: Vec<String>)
    ensures
        strings(r@) == reported_urls(jobs@),
{
    let mut out: Vec<String> = Vec::new();
    let mut i: usize = 0;
    while i < jobs.len()
        invariant
            i <= jobs@.len(),
            strings(out@) == reported_urls(jobs@.subrange(0, i as int)),
        decreases jobs@.len() - i,
    {
        let job = &jobs[i];
        proof {
            assert(jobs@.subrange(0, i + 1).drop_last() =~= jobs@.subrange(0, i as int));
        }
        if !job.allow_failure {
            let u = job.web_url.clone();
            out.push(u);
            proof {
                assert(strings(out@) =~= reported_urls(jobs@.subrange(0, i as int)).push(u@));
            }
        }
        i = i + 1;
    }
    proof {
        assert(jobs@.subrange(0, jobs@.len() as int) =~= jobs@);
    }
    out
}

/// Why a walk stopped before it was done.
pub enum RunError {
    /// The parent pipeline URL, as given, does not have the pipeline URL shape.
    InvalidParentUrl(String),
    /// A bridge's downstream pipeline URL does not have the pipeline URL shape.
    InvalidDownstreamUrl(String),
    /// The request to the URL (first) could not be completed, for the cause (second).
    Transport(String, String),
    /// The response from the URL (first) could not be decoded, for the cause (second).
    Decode(String, String),
}

/// What the caller is to do next.
pub enum Action {
    /// GET this URL and hand back the bridges it lists.
    FetchBridges(String),
    /// GET this URL and hand back the jobs it lists.
    FetchJobs(String),
    /// The walk is complete.
    Finish,
    /// The walk stops here, for this reason.
    Abort(RunError),
}

/// What came of the last request.
pub enum Event {
    Bridges(Vec<Bridge>),
    Jobs(Vec<Job>),
    /// The request could not be completed, for this cause.
    TransportFailed(String),
    /// The response could not be decoded, for this cause.
    DecodeFailed(String),
}

/// What the walk waits for.
pub enum Phase {
    AwaitingBridges,
    AwaitingJobs,
    Done,
}

/// The lines to report now, and what to do next.
pub struct Outcome {
    pub report: Vec<String>,
    pub action: Action,
}

/// Where a walk stands.
pub struct Traversal {
    pub phase: Phase,
    /// The downstream pipeline URLs of the parent's failed bridges.
    pub downstream: Vec<String>,
    /// How many of `downstream` have been taken up.
    pub next: usize,
    /// The request in flight.
    pub url: String,
}

impl Traversal {
    pub open spec fn wf(&self) -> bool {
        self.next <= self.downstream@.len()
    }

    /// `a` is what follows when the walk takes up the downstream pipeline at
    /// `pre.next`, or finishes when none is left; `post` is where it then stands.
    pub open spec fn takes_up_next(pre: Traversal, post: Traversal, a: Action) -> bool {
        &&& post.downstream == pre.downstream
        &&& post.wf()
        &&& if pre.next < pre.downstream@.len() {
            let u = pre.downstream@[pre.next as int]@;
            match parse_spec(u) {
                None => {
                    &&& a is Abort
                    &&& a->Abort_0 is InvalidDownstreamUrl
                    &&& a->Abort_0->InvalidDownstreamUrl_0@ == u
                    &&& post.phase is Done
                },
                Some(p) => {
                    &&& a is FetchJobs
                    &&& a->FetchJobs_0@ == request_url(p, jobs_resource())
                    &&& post.url@ == a->FetchJobs_0@
                    &&& post.phase is AwaitingJobs
                    &&& post.next == pre.next + 1
                },
            }
        } else {
            &&& a is Finish
            &&& post.phase is Done
        }
    }

    /// Starts a walk from the parent pipeline URL `line`.
    pub fn start(line: &String) -> (r: (Traversal, Action))
        ensures
            r.0.wf(),
            r.0.downstream@.len() == 0,
            match parse_spec(line@) {
                None => {
                    &&& r.1 is Abort
                    &&& r.1->Abort_0 is InvalidParentUrl
                    &&& r.1->Abort_0->InvalidParentUrl_0@ == line@
                    &&& r.0.phase is Done
                },
                Some(p) => {
                    &&& r.1 is FetchBridges
                    &&& r.1->FetchBridges_0@ == request_url(p, bridges_resource())
                    &&& r.0.url@ == r.1->FetchBridges_0@
                    &&& r.0.phase is AwaitingBridges
                },
            },
    {
        match PipelineUrl::parse(line) {
            None => {
                let t = Traversal {
                    phase: Phase::Done,
                    downstream: Vec::new(),
                    next: 0,
                    url: String::new(),
                };
                (t, Action::Abort(RunError::InvalidParentUrl(line.clone())))
            },
            Some(p) => {
                let url = bridges_url(&p);
                let t = Traversal {
                    phase: Phase::AwaitingBridges,
                    downstream: Vec::new(),
                    next: 0,
                    url: url.clone(),
                };
                (t, Action::FetchBridges(url))
            },
        }
    }

    fn take_up_next(&mut self) -> (a: Action)
        requires
            old(self).wf(),
        ensures
            Self::takes_up_next(*old(self), *final(self), a),
    {
        if self.next < self.downstream.len() {
            let u = self.downstream[self.next].clone();
            match PipelineUrl::parse(&u) {
                None => {
                    self.phase = Phase::Done;
                    Action::Abort(RunError::InvalidDownstreamUrl(u))
                },
                Some(child) => {
                    let url = jobs_url(&child);
                    self.url = url.clone();
                    self.phase = Phase::AwaitingJobs;
                    self.next = self.next + 1;
                    Action::FetchJobs(url)
                },
            }
        } else {
            self.phase = Phase::Done;
            Action::Finish
        }
    }

    /// Hands the walk the result of the request that it asked for last.
    ///
    /// A failed request ends the walk with that failure. Bridges are taken
    /// up one by one, in the order given; the jobs of each downstream
    /// pipeline that are not allowed to fail are reported, in the order given.
    pub fn step(&mut self, event: Event) -> (o: Outcome)
        requires
            old(self).wf(),
            old(self).phase is AwaitingBridges ==> !(event is Jobs),
            old(self).phase is AwaitingJobs ==> !(event is Bridges),
            !(old(self).phase is Done),
        ensures
            final(self).wf(),
            match event {
                Event::TransportFailed(cause) => {
                    &&& o.report@.len() == 0
                    &&& o.action is Abort
                    &&& o.action->Abort_0 is Transport
                    &&& o.action->Abort_0->Transport_0@ == old(self).url@
                    &&& o.action->Abort_0->Transport_1@ == cause@
                    &&& final(self).phase is Done
                },
                Event::DecodeFailed(cause) => {
                    &&& o.report@.len() == 0
                    &&& o.action is Abort
                    &&& o.action->Abort_0 is Decode
                    &&& o.action->Abort_0->Decode_0@ == old(self).url@
                    &&& o.action->Abort_0->Decode_1@ == cause@
                    &&& final(self).phase is Done
                },
                Event::Bridges(bridges) => {
                    let fresh = (Traversal { downstream: final(self).downstream, next: 0, ..*old(self) });
                    &&& o.report@.len() == 0
                    &&& strings(final(self).downstream@) == downstream_urls(bridges@)
                    &&& Self::takes_up_next(fresh, *final(self), o.action)
                },
                Event::Jobs(jobs) => {
                    &&& strings(o.report@) == reported_urls(jobs@)
                    &&& Self::takes_up_next(*old(self), *final(self), o.action)
                },
            },
    {
        match event {
            Event::TransportFailed(cause) => {
                let url = self.url.clone();
                self.phase = Phase::Done;
                let report: Vec<String> = Vec::new();
                Outcome { report, action: Action::Abort(RunError::Transport(url, cause)) }
            },
            Event::DecodeFailed(cause) => {
                let url = self.url.clone();
                self.phase = Phase::Done;
                let report: Vec<String> = Vec::new();
                Outcome { report, action: Action::Abort(RunError::Decode(url, cause)) }
            },
            Event::Bridges(bridges) => {
                let mut urls: Vec<String> = Vec::new();
                let mut i: usize = 0;
                while i < bridges.len()
                    invariant
                        i <= bridges@.len(),
                        strings(urls@) == downstream_urls(bridges@.subrange(0, i as int)),
                    decreases bridges@.len() - i,
                {
                    let u = bridges[i].downstream_pipeline.web_url.clone();
                    let ghost before = urls@;
                    urls.push(u);
                    proof {
                        let prev = bridges@.subrange(0, i as int);
                        assert(bridges@.subrange(0, i + 1) =~= prev.push(bridges@[i as int]));
                        assert(downstream_urls(prev.push(bridges@[i as int])) =~= downstream_urls(
                            prev,
                        ).push(u@));
                        assert(strings(urls@) =~= strings(before).push(u@));
                    }
                    i = i + 1;
                }
                proof {
                    assert(bridges@.subrange(0, bridges@.len() as int) =~= bridges@);
                }
                self.downstream = urls;
                self.next = 0;
                let action = self.take_up_next();
                Outcome { report: Vec::new(), action }
            },
            Event::Jobs(jobs) => {
                let report = failed_job_urls(&jobs);
                let action = self.take_up_next();
                Outcome { report, action }
            },
        }
    }
}

} // verus!
