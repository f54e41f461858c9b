//! Decisions of the service lifecycle: the status transitions around a
//! start or a stop, which services must be stopped before a service can
//! start (web servers exclude each other, non-PHP kinds run one version at a
//! time) and when a start is refused because one could not be stopped,
//! which PHP pools start together with a web server and stop together with
//! Nginx, what the launches and stops leave each service's status at, and
//! how the outcomes are reported. The process work itself is done by the
//! caller between the steps.
use vstd::prelude::*;

use crate::service::{spec_display_name, ServiceInstance, ServiceKind, ServiceStatus};
use crate::text::{chars_of, push_all, push_decimal, spec_decimal, string_of};

verus! {

/// `a` and `b` agree on every field but the status.
pub open spec fn same_but_status(a: ServiceInstance, b: ServiceInstance) -> bool {
    &&& a.kind == b.kind
    &&& a.version == b.version
    &&& a.variant == b.variant
    &&& a.install_path == b.install_path
    &&& a.config_path == b.config_path
    &&& a.port == b.port
    &&& a.auto_start == b.auto_start
    &&& a.origin == b.origin
    &&& a.php_runtime == b.php_runtime
}

/// The status a start attempt leaves behind.
pub open spec fn status_after_start(outcome: Result<u32, String>) -> ServiceStatus {
    match outcome {
        Ok(pid) => ServiceStatus::Running { pid, memory_mb: None },
        Err(e) => ServiceStatus::Failed { reason: e },
    }
}

/// The status a stop attempt leaves behind.
pub open spec fn status_after_stop(outcome: Result<(), String>) -> ServiceStatus {
    match outcome {
        Ok(()) => ServiceStatus::Stopped,
        Err(e) => ServiceStatus::Failed { reason: e },
    }
}

fn with_status(instance: &mut ServiceInstance, status: ServiceStatus)
    ensures
        same_but_status(*old(instance), *final(instance)),
        final(instance).status == status,
{
    instance.status = status;
}

/// First half of a start: a running service needs nothing (returns `false`);
/// otherwise it is marked `Starting` and the process must be launched.
pub fn begin_start(instance: &mut ServiceInstance) -> (launch: bool)
    ensures
        launch == !(old(instance).status is Running),
        same_but_status(*old(instance), *final(instance)),
        launch ==> final(instance).status == ServiceStatus::Starting,
        !launch ==> final(instance).status == old(instance).status,
{
    if instance.status.is_running() {
        return false;
    }
    with_status(instance, ServiceStatus::Starting);
    true
}

/// Second half of a start: records what the launch returned.
pub fn finish_start(instance: &mut ServiceInstance, outcome: Result<u32, String>) -> (r: Result<
    (),
    String,
>)
    ensures
        same_but_status(*old(instance), *final(instance)),
        final(instance).status == status_after_start(outcome),
        match outcome {
            Ok(_) => r is Ok,
            Err(e) => r == Err::<(), String>(e),
        },
{
    match outcome {
        Ok(pid) => {
            with_status(instance, ServiceStatus::Running { pid, memory_mb: None });
            Ok(())
        },
        Err(e) => {
            with_status(instance, ServiceStatus::Failed { reason: e.clone() });
            Err(e)
        },
    }
}

/// A start attempt never leaves a service `Starting`: it ends `Running`
/// with the new pid, or `Failed` with the launch error.
pub proof fn start_never_ends_starting(outcome: Result<u32, String>)
    ensures
        status_after_start(outcome) != ServiceStatus::Starting,
        outcome is Ok <==> status_after_start(outcome) is Running,
{
}

/// First half of a stop: a service that is not running needs nothing
/// (returns `false`); otherwise it is marked `Stopping`.
pub fn begin_stop(instance: &mut ServiceInstance) -> (stop: bool)
    ensures
        stop == (old(instance).status is Running),
        same_but_status(*old(instance), *final(instance)),
        stop ==> final(instance).status == ServiceStatus::Stopping,
        !stop ==> final(instance).status == old(instance).status,
{
    if !instance.status.is_running() {
        return false;
    }
    with_status(instance, ServiceStatus::Stopping);
    true
}

/// Second half of a stop: records what the stop returned.
pub fn finish_stop(instance: &mut ServiceInstance, outcome: Result<(), String>) -> (r: Result<
    (),
    String,
>)
    ensures
        same_but_status(*old(instance), *final(instance)),
        final(instance).status == status_after_stop(outcome),
        match outcome {
            Ok(_) => r is Ok,
            Err(e) => r == Err::<(), String>(e),
        },
{
    match outcome {
        Ok(()) => {
            with_status(instance, ServiceStatus::Stopped);
            Ok(())
        },
        Err(e) => {
            with_status(instance, ServiceStatus::Failed { reason: e.clone() });
            Err(e)
        },
    }
}

/// A stop attempt never leaves a service `Stopping` or `Running`.
pub proof fn stop_never_ends_stopping(outcome: Result<(), String>)
    ensures
        status_after_stop(outcome) != ServiceStatus::Stopping,
        !(status_after_stop(outcome) is Running),
        outcome is Ok <==> status_after_stop(outcome) == ServiceStatus::Stopped,
{
}

/// Records a freshly probed status; a failed probe leaves the status alone
/// and its error is handed back.
pub fn apply_refreshed_status(instance: &mut ServiceInstance, probed: Result<ServiceStatus, String>) -> (r:
    Result<(), String>)
    ensures
        same_but_status(*old(instance), *final(instance)),
        match probed {
            Ok(st) => final(instance).status == st && r is Ok,
            Err(e) => final(instance).status == old(instance).status && r == Err::<(), String>(e),
        },
{
    match probed {
        Ok(st) => {
            with_status(instance, st);
            Ok(())
        },
        Err(e) => Err(e),
    }
}

pub open spec fn is_web_server(kind: ServiceKind) -> bool {
    kind == ServiceKind::Nginx || kind == ServiceKind::Apache
}

/// The web server that shares port 80 with `kind`.
pub open spec fn rival_of(kind: ServiceKind) -> ServiceKind {
    if kind == ServiceKind::Nginx {
        ServiceKind::Apache
    } else {
        ServiceKind::Nginx
    }
}

/// `s` is the other web server, running, and must stop before `target` starts.
pub open spec fn blocks_as_rival(target: ServiceInstance, s: ServiceInstance) -> bool {
    is_web_server(target.kind) && s.kind == rival_of(target.kind) && s.status is Running
}

/// `s` is another running version of the same non-PHP kind as `target`.
pub open spec fn blocks_as_same_kind(target: ServiceInstance, s: ServiceInstance) -> bool {
    target.kind != ServiceKind::Php && s.kind == target.kind && s.spec_id() != target.spec_id()
        && s.status is Running
}

proof fn lemma_push_contains(s: Seq<usize>, x: usize)
    ensures
        forall|y: usize| s.contains(y) ==> #[trigger] s.push(x).contains(y),
        s.push(x).contains(x),
        s.push(x)[s.len() as int] == x,
{
    assert forall|y: usize| s.contains(y) implies #[trigger] s.push(x).contains(y) by {
        let a = choose|a: int| 0 <= a < s.len() && s[a] == y;
        assert(s.push(x)[a] == y);
    }
    assert(s.push(x)[s.len() as int] == x);
}

/// `out` lists, in increasing order, exactly the indices of `all` where `p` holds.
pub open spec fn lists_exactly(out: Seq<usize>, len: int, p: spec_fn(int) -> bool) -> bool {
    &&& forall|a: int, b: int| 0 <= a < b < out.len() ==> out[a] < out[b]
    &&& forall|a: int| 0 <= a < out.len() ==> (#[trigger] out[a]) < len && p(out[a] as int)
    &&& forall|i: int| 0 <= i < len && #[trigger] p(i) ==> out.contains(i as usize)
}

/// Nginx and Apache both listen on port 80 and exclude each other: for a
/// list of the services to stop before `target` starts (as
/// `rivals_to_stop` gives it), starting Apache lists every running Nginx,
/// starting Nginx lists every running Apache, and only such a running
/// rival web server is ever listed (none for a service that is not a web
/// server).
pub proof fn web_servers_exclude_each_other(target: ServiceInstance, all: Seq<ServiceInstance>, out: Seq<usize>)
    requires
        lists_exactly(out, all.len() as int, |i: int| blocks_as_rival(target, all[i])),
    ensures
        forall|i: int|
            0 <= i < all.len() && all[i].status is Running && ((target.kind == ServiceKind::Apache
                && all[i].kind == ServiceKind::Nginx) || (target.kind == ServiceKind::Nginx && all[i].kind
                == ServiceKind::Apache)) ==> #[trigger] out.contains(i as usize),
        forall|a: int|
            0 <= a < out.len() ==> {
                let s = all[#[trigger] out[a] as int];
                &&& out[a] < all.len()
                &&& s.status is Running
                &&& (target.kind == ServiceKind::Apache && s.kind == ServiceKind::Nginx) || (target.kind
                    == ServiceKind::Nginx && s.kind == ServiceKind::Apache)
            },
{
    let p = |i: int| blocks_as_rival(target, all[i]);
    assert forall|i: int|
        0 <= i < all.len() && all[i].status is Running && ((target.kind == ServiceKind::Apache
            && all[i].kind == ServiceKind::Nginx) || (target.kind == ServiceKind::Nginx && all[i].kind
            == ServiceKind::Apache)) implies #[trigger] out.contains(i as usize) by {
        assert(p(i));
    }
    assert forall|a: int| 0 <= a < out.len() implies {
        let s = all[#[trigger] out[a] as int];
        &&& out[a] < all.len()
        &&& s.status is Running
        &&& (target.kind == ServiceKind::Apache && s.kind == ServiceKind::Nginx) || (target.kind
            == ServiceKind::Nginx && s.kind == ServiceKind::Apache)
    } by {
        assert(p(out[a] as int));
    }
}

pub fn rival_kind(kind: ServiceKind) -> (r: ServiceKind)
    ensures
        r == rival_of(kind),
{
    match kind {
        ServiceKind::Nginx => ServiceKind::Apache,
        _ => ServiceKind::Nginx,
    }
}

/// Indices of the running rival web servers that must be stopped first.
pub fn rivals_to_stop(target: &ServiceInstance, all: &[ServiceInstance]) -> (out: Vec<usize>)
    ensures
        lists_exactly(out@, all@.len() as int, |i: int| blocks_as_rival(*target, all@[i])),
        forall|i: int|
            0 <= i < all@.len() && all@[i].status is Running && ((target.kind == ServiceKind::Apache
                && all@[i].kind == ServiceKind::Nginx) || (target.kind == ServiceKind::Nginx
                && all@[i].kind == ServiceKind::Apache)) ==> #[trigger] out@.contains(i as usize),
{
    let mut out: Vec<usize> = Vec::new();
    let is_web = target.kind == ServiceKind::Nginx || target.kind == ServiceKind::Apache;
    if !is_web {
        return out;
    }
    let rival = rival_kind(target.kind);
    let mut i: usize = 0;
    while i < all.len()
        invariant
            i <= all.len(),
            is_web_server(target.kind),
            rival == rival_of(target.kind),
            forall|a: int, b: int| 0 <= a < b < out@.len() ==> out@[a] < out@[b],
            forall|a: int| 0 <= a < out@.len() ==> (#[trigger] out@[a]) < i && blocks_as_rival(
                *target,
                all@[out@[a] as int],
            ),
            forall|j: int| 0 <= j < i && blocks_as_rival(*target, #[trigger] all@[j]) ==> out@.contains(
                j as usize,
            ),
        decreases all.len() - i,
    {
        if all[i].kind == rival && all[i].status.is_running() {
            let ghost prev = out@;
            out.push(i);
            proof {
                lemma_push_contains(prev, i);
            }
        }
        i = i + 1;
    }
    proof {
        web_servers_exclude_each_other(*target, all@, out@);
    }
    out
}

/// Indices of the other running versions of `target`'s kind (PHP versions
/// run side by side and are never listed).
pub fn same_kind_to_stop(target: &ServiceInstance, all: &[ServiceInstance]) -> (out: Vec<usize>)
    ensures
        lists_exactly(out@, all@.len() as int, |i: int| blocks_as_same_kind(*target, all@[i])),
{
    let mut out: Vec<usize> = Vec::new();
    if target.kind == ServiceKind::Php {
        return out;
    }
    let target_id = target.id();
    let mut i: usize = 0;
    while i < all.len()
        invariant
            i <= all.len(),
            target.kind != ServiceKind::Php,
            target_id@ == target.spec_id(),
            forall|a: int, b: int| 0 <= a < b < out@.len() ==> out@[a] < out@[b],
            forall|a: int| 0 <= a < out@.len() ==> (#[trigger] out@[a]) < i && blocks_as_same_kind(
                *target,
                all@[out@[a] as int],
            ),
            forall|j: int| 0 <= j < i && blocks_as_same_kind(*target, #[trigger] all@[j])
                ==> out@.contains(j as usize),
        decreases all.len() - i,
    {
        if all[i].kind == target.kind && all[i].status.is_running() {
            let id = all[i].id();
            if !(id == target_id) {
                let ghost prev = out@;
                out.push(i);
                proof {
                    lemma_push_contains(prev, i);
                }
            }
        }
        i = i + 1;
    }
    out
}

/// A PHP pool that starts together with a web server (Nginx or Apache):
/// picked by the vhost policy and not running yet.
pub open spec fn joins_web_start(s: ServiceInstance) -> bool {
    s.kind == ServiceKind::Php && s.php_runtime is Some && !(s.status is Running)
}

/// For a web server start (Nginx or Apache, which both auto-start the PHP
/// pools): whether the web server itself must be launched, and the PHP
/// pools launched in parallel with it.
pub fn web_start_jobs(target: &ServiceInstance, all: &[ServiceInstance]) -> (r: (bool, Vec<usize>))
    ensures
        r.0 == !(target.status is Running),
        lists_exactly(r.1@, all@.len() as int, |i: int| joins_web_start(all@[i])),
{
    let mut out: Vec<usize> = Vec::new();
    let mut i: usize = 0;
    while i < all.len()
        invariant
            i <= all.len(),
            forall|a: int, b: int| 0 <= a < b < out@.len() ==> out@[a] < out@[b],
            forall|a: int| 0 <= a < out@.len() ==> (#[trigger] out@[a]) < i && joins_web_start(
                all@[out@[a] as int],
            ),
            forall|j: int| 0 <= j < i && joins_web_start(#[trigger] all@[j]) ==> out@.contains(
                j as usize,
            ),
        decreases all.len() - i,
    {
        if all[i].kind == ServiceKind::Php && all[i].php_runtime.is_some()
            && !all[i].status.is_running() {
            let ghost prev = out@;
            out.push(i);
            proof {
                lemma_push_contains(prev, i);
            }
        }
        i = i + 1;
    }
    (!target.status.is_running(), out)
}

/// A service that stops together with Nginx: any running PHP pool.
pub open spec fn joins_nginx_stop(s: ServiceInstance) -> bool {
    s.kind == ServiceKind::Php && s.status is Running
}

/// Stopping Nginx stops every running PHP-CGI pool with it and nothing
/// else: for the pools `nginx_stop_jobs` lists, every running PHP service
/// is listed, and each listed index is a PHP service that is running (so
/// none is stopped twice).
pub proof fn nginx_stop_takes_running_pools(all: Seq<ServiceInstance>, pools: Seq<usize>)
    requires
        lists_exactly(pools, all.len() as int, |i: int| joins_nginx_stop(all[i])),
    ensures
        forall|i: int|
            0 <= i < all.len() && all[i].kind == ServiceKind::Php && all[i].status is Running
                ==> #[trigger] pools.contains(i as usize),
        forall|a: int|
            0 <= a < pools.len() ==> (#[trigger] pools[a]) < all.len() && all[pools[a] as int].kind
                == ServiceKind::Php && all[pools[a] as int].status is Running,
        forall|a: int, b: int| 0 <= a < b < pools.len() ==> pools[a] != pools[b],
{
    let p = |i: int| joins_nginx_stop(all[i]);
    assert forall|i: int|
        0 <= i < all.len() && all[i].kind == ServiceKind::Php && all[i].status is Running
            implies #[trigger] pools.contains(i as usize) by {
        assert(p(i));
    }
    assert forall|a: int| 0 <= a < pools.len() implies (#[trigger] pools[a]) < all.len()
        && all[pools[a] as int].kind == ServiceKind::Php && all[pools[a] as int].status is Running by {
        assert(p(pools[a] as int));
    }
}

/// For an Nginx stop: whether Nginx itself must be stopped, and the PHP
/// pools stopped in parallel with it.
pub fn nginx_stop_jobs(target: &ServiceInstance, all: &[ServiceInstance]) -> (r: (bool, Vec<usize>))
    ensures
        r.0 == (target.status is Running),
        lists_exactly(r.1@, all@.len() as int, |i: int| joins_nginx_stop(all@[i])),
        forall|i: int|
            0 <= i < all@.len() && all@[i].kind == ServiceKind::Php && all@[i].status is Running
                ==> #[trigger] r.1@.contains(i as usize),
        forall|a: int|
            0 <= a < r.1@.len() ==> (#[trigger] r.1@[a]) < all@.len() && all@[r.1@[a] as int].kind
                == ServiceKind::Php && all@[r.1@[a] as int].status is Running,
{
    let mut out: Vec<usize> = Vec::new();
    let mut i: usize = 0;
    while i < all.len()
        invariant
            i <= all.len(),
            forall|a: int, b: int| 0 <= a < b < out@.len() ==> out@[a] < out@[b],
            forall|a: int| 0 <= a < out@.len() ==> (#[trigger] out@[a]) < i && joins_nginx_stop(
                all@[out@[a] as int],
            ),
            forall|j: int| 0 <= j < i && joins_nginx_stop(#[trigger] all@[j]) ==> out@.contains(
                j as usize,
            ),
        decreases all.len() - i,
    {
        if all[i].kind == ServiceKind::Php && all[i].status.is_running() {
            let ghost prev = out@;
            out.push(i);
            proof {
                lemma_push_contains(prev, i);
            }
        }
        i = i + 1;
    }
    proof {
        nginx_stop_takes_running_pools(all@, out@);
    }
    (target.status.is_running(), out)
}

/// The other web server's refusal texts and the same kind's, for a blocker
/// of `target` whose stop returned `stopped` and whose status was then
/// probed as `probed` (`None` where the probe failed and the status stays).
pub open spec fn spec_blocker_check(
    target: ServiceInstance,
    blocker: ServiceInstance,
    stopped: Result<(), Seq<char>>,
    probed: Option<ServiceStatus>,
) -> (ServiceInstance, Result<(), Seq<char>>) {
    let rival = blocker.kind != target.kind;
    match stopped {
        Err(e) => (
            blocker,
            Err(
                if rival {
                    "无法停止 "@ + spec_display_name(rival_of(target.kind)) + "（占用端口 80）: "@ + e
                } else {
                    "无法停止同类旧版本 "@ + spec_label(blocker) + "："@ + e
                },
            ),
        ),
        Ok(()) => {
            let after = match probed {
                Some(st) => ServiceInstance { status: st, ..blocker },
                None => blocker,
            };
            (
                after,
                if after.status is Running {
                    Err(
                        if rival {
                            spec_display_name(rival_of(target.kind))
                                + " 停止后仍在运行（可能是以管理员身份启动的外部进程），已中止启动 "@
                                + spec_display_name(target.kind)
                        } else {
                            spec_label(blocker) + " 停止后仍在运行，已中止启动 "@ + target.version@
                        },
                    )
                } else {
                    Ok(())
                },
            )
        },
    }
}

/// After a service standing in `target`'s way (the other web server, or
/// another running version of the same kind) was told to stop: a failed
/// stop refuses the start; otherwise the probed status is recorded, and a
/// blocker that still runs refuses the start too. Where this returns an
/// error, the start goes no further and nothing is launched.
pub fn check_blocker_stopped(
    target: &ServiceInstance,
    blocker: &mut ServiceInstance,
    stopped: Result<(), String>,
    probed: Option<ServiceStatus>,
) -> (r: Result<(), String>)
    ensures
        ({
            let (after, res) = spec_blocker_check(
                *target,
                *old(blocker),
                match stopped {
                    Ok(()) => Ok(()),
                    Err(e) => Err(e@),
                },
                probed,
            );
            &&& *final(blocker) == after
            &&& match r {
                Ok(()) => res is Ok,
                Err(m) => res == Err::<(), Seq<char>>(m@),
            }
        }),
{
    let rival = blocker.kind != target.kind;
    match stopped {
        Err(e) => {
            if rival {
                let rk = rival_kind(target.kind);
                Err(rival_stop_failed(rk, e.as_str()))
            } else {
                Err(same_kind_stop_failed(blocker, e.as_str()))
            }
        },
        Ok(()) => {
            match probed {
                Some(st) => {
                    blocker.status = st;
                },
                None => {},
            }
            if blocker.status.is_running() {
                if rival {
                    let rk = rival_kind(target.kind);
                    Err(rival_still_running(rk, target.kind))
                } else {
                    Err(same_kind_still_running(blocker, target.version.as_str()))
                }
            } else {
                Ok(())
            }
        },
    }
}

/// One launch of a start with dependencies: the service (`None` for the
/// target itself, else its index among the other services) and what the
/// launch returned.
#[derive(Debug)]
pub struct StartJob {
    pub index: Option<usize>,
    pub outcome: Result<u32, String>,
}

/// `s` running under `pid`.
pub open spec fn running_as(s: ServiceInstance, pid: u32) -> ServiceInstance {
    ServiceInstance { status: ServiceStatus::Running { pid, memory_mb: None }, ..s }
}

/// One launch recorded: a successful one marks its service running under
/// the new pid; a failed one changes nothing.
pub open spec fn after_job(target: ServiceInstance, all: Seq<ServiceInstance>, job: StartJob) -> (
    ServiceInstance,
    Seq<ServiceInstance>,
) {
    match job.outcome {
        Ok(pid) => match job.index {
            Some(i) => (target, all.update(i as int, running_as(all[i as int], pid))),
            None => (running_as(target, pid), all),
        },
        Err(_) => (target, all),
    }
}

/// The launches recorded in order.
pub open spec fn after_jobs(target: ServiceInstance, all: Seq<ServiceInstance>, jobs: Seq<StartJob>) -> (
    ServiceInstance,
    Seq<ServiceInstance>,
)
    decreases jobs.len(),
{
    if jobs.len() == 0 {
        (target, all)
    } else {
        let (t, a) = after_jobs(target, all, jobs.drop_last());
        after_job(t, a, jobs.last())
    }
}

/// The report lines of the failed launches, in order: `<label>: <error>`.
pub open spec fn job_failures(target: ServiceInstance, all: Seq<ServiceInstance>, jobs: Seq<StartJob>) -> Seq<
    Seq<char>,
>
    decreases jobs.len(),
{
    if jobs.len() == 0 {
        seq![]
    } else {
        let earlier = job_failures(target, all, jobs.drop_last());
        match jobs.last().outcome {
            Ok(_) => earlier,
            Err(e) => earlier.push(
                match jobs.last().index {
                    Some(i) => spec_label(all[i as int]),
                    None => spec_label(target),
                } + ": "@ + e@,
            ),
        }
    }
}

pub open spec fn jobs_in_range(jobs: Seq<StartJob>, len: int) -> bool {
    forall|k: int| 0 <= k < jobs.len() ==> ((#[trigger] jobs[k]).index matches Some(i) ==> i < len)
}

pub open spec fn same_label(a: ServiceInstance, b: ServiceInstance) -> bool {
    a.kind == b.kind && a.version == b.version
}

proof fn lemma_after_jobs_len(target: ServiceInstance, all: Seq<ServiceInstance>, jobs: Seq<StartJob>)
    requires
        jobs_in_range(jobs, all.len() as int),
    ensures
        after_jobs(target, all, jobs).1.len() == all.len(),
        forall|i: int|
            0 <= i < all.len() ==> same_label(#[trigger] after_jobs(target, all, jobs).1[i], all[i]),
        after_jobs(target, all, jobs).0.version == target.version,
        after_jobs(target, all, jobs).0.kind == target.kind,
    decreases jobs.len(),
{
    if jobs.len() > 0 {
        let d = jobs.drop_last();
        assert forall|k: int| 0 <= k < d.len() implies ((#[trigger] d[k]).index matches Some(i) ==> i
            < all.len()) by {
            assert(d[k] == jobs[k]);
        }
        lemma_after_jobs_len(target, all, d);
        assert(jobs.last() == jobs[jobs.len() - 1]);
        let prev = after_jobs(target, all, d).1;
        let cur = after_jobs(target, all, jobs).1;
        assert forall|i: int| 0 <= i < all.len() implies same_label(#[trigger] cur[i], all[i]) by {
            assert(same_label(prev[i], all[i]));
        }
    }
}

/// Records the launches of a start with dependencies, in order: each
/// successful one marks its service running under its pid, a failed one
/// leaves its service as it was (see `after_jobs`). Returns success where
/// none failed, else the report of every failure (as
/// `summarize_start_failures` words it).
pub fn record_start_jobs(target: &mut ServiceInstance, all: &mut Vec<ServiceInstance>, jobs: &[StartJob]) -> (r:
    Result<(), String>)
    requires
        jobs_in_range(jobs@, old(all)@.len() as int),
    ensures
        (*final(target), final(all)@) == after_jobs(*old(target), old(all)@, jobs@),
        ({
            let f = job_failures(*old(target), old(all)@, jobs@);
            &&& f.len() == 0 ==> r is Ok
            &&& f.len() > 0 ==> (r matches Err(msg) && msg@ == "联动启动 "@ + spec_decimal(f.len() as nat)
                + " 个 PHP-CGI 失败:\n"@ + joined(f, seq!['\n']))
        }),
{
    let ghost t0 = *target;
    let ghost a0 = all@;
    let mut failed: Vec<String> = Vec::new();
    let mut k: usize = 0;
    while k < jobs.len()
        invariant
            k <= jobs.len(),
            jobs_in_range(jobs@, a0.len() as int),
            (*target, all@) == after_jobs(t0, a0, jobs@.take(k as int)),
            failed@.map_values(|x: String| x@) == job_failures(t0, a0, jobs@.take(k as int)),
        decreases jobs.len() - k,
    {
        proof {
            assert(jobs@.take(k + 1).drop_last() =~= jobs@.take(k as int));
            assert(jobs@.take(k + 1).last() == jobs@[k as int]);
            let tk = jobs@.take(k as int);
            assert forall|m: int| 0 <= m < tk.len() implies ((#[trigger] tk[m]).index matches Some(i)
                ==> i < a0.len()) by {
                assert(tk[m] == jobs@[m]);
            }
            lemma_after_jobs_len(t0, a0, tk);
            assert(jobs@[k as int].index matches Some(i) ==> i < a0.len());
        }
        let job = &jobs[k];
        match &job.outcome {
            Ok(pid) => match job.index {
                Some(i) => {
                    let mut s = all.remove(i);
                    s.status = ServiceStatus::Running { pid: *pid, memory_mb: None };
                    let ghost before = all@;
                    all.insert(i, s);
                    proof {
                        let prev = after_jobs(t0, a0, jobs@.take(k as int)).1;
                        assert(all@ =~= prev.update(i as int, running_as(prev[i as int], *pid)));
                    }
                },
                None => {
                    target.status = ServiceStatus::Running { pid: *pid, memory_mb: None };
                },
            },
            Err(e) => {
                let label = match job.index {
                    Some(i) => service_label(&all[i]),
                    None => service_label(target),
                };
                let line = failure_line(label.as_str(), e.as_str());
                failed.push(line);
                proof {
                    let ghost f0 = job_failures(t0, a0, jobs@.take(k as int));
                    assert(failed@.map_values(|x: String| x@) =~= f0.push(line@));
                }
            },
        }
        k = k + 1;
    }
    proof {
        assert(jobs@.take(jobs.len() as int) =~= jobs@);
    }
    summarize_start_failures(&failed)
}

/// One stop of an Nginx stop with its PHP pools: the service (`None` for
/// Nginx itself, else its index among the other services) and what the
/// stop returned.
#[derive(Debug)]
pub struct StopJob {
    pub index: Option<usize>,
    pub outcome: Result<(), String>,
}

/// `s` with the status a stop with this outcome leaves.
pub open spec fn stopped_as(s: ServiceInstance, outcome: Result<(), String>) -> ServiceInstance {
    ServiceInstance { status: status_after_stop(outcome), ..s }
}

/// The stops recorded in order: each service takes the status its stop
/// left (`Stopped`, or `Failed` with the error).
pub open spec fn after_stops(target: ServiceInstance, all: Seq<ServiceInstance>, jobs: Seq<StopJob>) -> (
    ServiceInstance,
    Seq<ServiceInstance>,
)
    decreases jobs.len(),
{
    if jobs.len() == 0 {
        (target, all)
    } else {
        let (t, a) = after_stops(target, all, jobs.drop_last());
        match jobs.last().index {
            Some(i) => (t, a.update(i as int, stopped_as(a[i as int], jobs.last().outcome))),
            None => (stopped_as(t, jobs.last().outcome), a),
        }
    }
}

/// The outcome of the whole stop: the error of Nginx's own stop (the last
/// one where there were several); a PHP pool that failed to stop does not
/// fail it.
pub open spec fn stops_result(jobs: Seq<StopJob>) -> Result<(), String>
    decreases jobs.len(),
{
    if jobs.len() == 0 {
        Ok(())
    } else {
        match (jobs.last().index, jobs.last().outcome) {
            (None, Err(e)) => Err(e),
            _ => stops_result(jobs.drop_last()),
        }
    }
}

/// Stopping Nginx with its PHP pools fails only where Nginx's own stop
/// failed: however many pools fail to stop, the stop succeeds when Nginx
/// stopped.
pub proof fn pool_failures_never_fail_the_stop(jobs: Seq<StopJob>)
    requires
        forall|k: int| 0 <= k < jobs.len() && (#[trigger] jobs[k]).index is None ==> jobs[k].outcome is Ok,
    ensures
        stops_result(jobs) is Ok,
    decreases jobs.len(),
{
    if jobs.len() > 0 {
        let d = jobs.drop_last();
        assert forall|k: int| 0 <= k < d.len() && (#[trigger] d[k]).index is None implies d[k].outcome is Ok by {
            assert(d[k] == jobs[k]);
        }
        pool_failures_never_fail_the_stop(d);
        assert(jobs.last() == jobs[jobs.len() - 1]);
    }
}

pub open spec fn stops_in_range(jobs: Seq<StopJob>, len: int) -> bool {
    forall|k: int| 0 <= k < jobs.len() ==> ((#[trigger] jobs[k]).index matches Some(i) ==> i < len)
}

proof fn lemma_after_stops_len(target: ServiceInstance, all: Seq<ServiceInstance>, jobs: Seq<StopJob>)
    requires
        stops_in_range(jobs, all.len() as int),
    ensures
        after_stops(target, all, jobs).1.len() == all.len(),
    decreases jobs.len(),
{
    if jobs.len() > 0 {
        let d = jobs.drop_last();
        assert forall|k: int| 0 <= k < d.len() implies ((#[trigger] d[k]).index matches Some(i) ==> i
            < all.len()) by {
            assert(d[k] == jobs[k]);
        }
        lemma_after_stops_len(target, all, d);
    }
}

/// Stops of distinct services: no service twice (Nginx itself, `None`,
/// at most once), every index within `len`.
pub open spec fn distinct_stops(jobs: Seq<StopJob>, len: int) -> bool {
    &&& stops_in_range(jobs, len)
    &&& forall|a: int, b: int| 0 <= a < b < jobs.len() ==> (#[trigger] jobs[a]).index != (#[trigger] jobs[b]).index
}

/// Stopping Nginx with its PHP pools, as a whole: every service stopped
/// ends `Stopped` where its stop returned `Ok` and `Failed` with the error
/// otherwise, Nginx as well; every other service is left as it was; the
/// whole stop returns what Nginx's own stop returned (`Ok` where Nginx was
/// not stopped), whatever the pools' stops returned.
pub proof fn nginx_stop_as_a_whole(target: ServiceInstance, all: Seq<ServiceInstance>, jobs: Seq<StopJob>)
    requires
        distinct_stops(jobs, all.len() as int),
    ensures
        after_stops(target, all, jobs).1.len() == all.len(),
        forall|k: int|
            0 <= k < jobs.len() && (#[trigger] jobs[k]).index is Some ==> after_stops(target, all, jobs).1[jobs[k].index->0 as int]
                == stopped_as(all[jobs[k].index->0 as int], jobs[k].outcome),
        forall|i: int|
            0 <= i < all.len() && (forall|k: int| 0 <= k < jobs.len() ==> (#[trigger] jobs[k]).index != Some(i as usize))
                ==> #[trigger] after_stops(target, all, jobs).1[i] == all[i],
        forall|k: int|
            0 <= k < jobs.len() && (#[trigger] jobs[k]).index is None ==> after_stops(target, all, jobs).0 == stopped_as(
                target,
                jobs[k].outcome,
            ) && stops_result(jobs) == jobs[k].outcome,
        (forall|k: int| 0 <= k < jobs.len() ==> (#[trigger] jobs[k]).index is Some) ==> after_stops(target, all, jobs).0
            == target && stops_result(jobs) is Ok,
    decreases jobs.len(),
{
    lemma_after_stops_len(target, all, jobs);
    if jobs.len() > 0 {
        let d = jobs.drop_last();
        let n = jobs.len() - 1;
        let last = jobs[n];
        assert(jobs.last() == last);
        assert forall|a: int, b: int| 0 <= a < b < d.len() implies (#[trigger] d[a]).index != (#[trigger] d[b]).index by {
            assert(d[a] == jobs[a] && d[b] == jobs[b]);
        }
        assert forall|k: int| 0 <= k < d.len() implies ((#[trigger] d[k]).index matches Some(i) ==> i < all.len()) by {
            assert(d[k] == jobs[k]);
        }
        nginx_stop_as_a_whole(target, all, d);
        let (t, a) = after_stops(target, all, d);
        assert forall|k: int| 0 <= k < d.len() implies (#[trigger] d[k]).index != last.index by {
            assert(d[k] == jobs[k]);
            assert(jobs[k].index != jobs[n].index);
        }
        match last.index {
            Some(i0) => {
                assert(forall|k: int| 0 <= k < d.len() ==> (#[trigger] d[k]).index != Some(i0));
                assert(a[i0 as int] == all[i0 as int]);
                assert forall|k: int|
                    0 <= k < jobs.len() && (#[trigger] jobs[k]).index is Some implies after_stops(target, all, jobs).1[jobs[k].index->0 as int]
                        == stopped_as(all[jobs[k].index->0 as int], jobs[k].outcome) by {
                    if k < n {
                        assert(jobs[k] == d[k]);
                        assert(jobs[k].index != Some(i0));
                    }
                }
                assert forall|i: int|
                    0 <= i < all.len() && (forall|k: int| 0 <= k < jobs.len() ==> (#[trigger] jobs[k]).index != Some(i as usize))
                        implies #[trigger] after_stops(target, all, jobs).1[i] == all[i] by {
                    assert(jobs[n].index != Some(i as usize));
                    assert forall|k: int| 0 <= k < d.len() implies (#[trigger] d[k]).index != Some(i as usize) by {
                        assert(d[k] == jobs[k]);
                    }
                }
                assert forall|k: int| 0 <= k < jobs.len() && (#[trigger] jobs[k]).index is None implies after_stops(target, all, jobs).0
                    == stopped_as(target, jobs[k].outcome) && stops_result(jobs) == jobs[k].outcome by {
                    assert(k < n);
                    assert(jobs[k] == d[k]);
                }
                if forall|k: int| 0 <= k < jobs.len() ==> (#[trigger] jobs[k]).index is Some {
                    assert forall|k: int| 0 <= k < d.len() implies (#[trigger] d[k]).index is Some by {
                        assert(d[k] == jobs[k]);
                    }
                }
            },
            None => {
                assert forall|k: int| 0 <= k < d.len() implies (#[trigger] d[k]).index is Some by {
                    assert(d[k] == jobs[k]);
                    assert(jobs[k].index != jobs[n].index);
                }
                assert(t == target);
                assert forall|k: int|
                    0 <= k < jobs.len() && (#[trigger] jobs[k]).index is Some implies after_stops(target, all, jobs).1[jobs[k].index->0 as int]
                        == stopped_as(all[jobs[k].index->0 as int], jobs[k].outcome) by {
                    assert(k < n);
                    assert(jobs[k] == d[k]);
                }
                assert forall|i: int|
                    0 <= i < all.len() && (forall|k: int| 0 <= k < jobs.len() ==> (#[trigger] jobs[k]).index != Some(i as usize))
                        implies #[trigger] after_stops(target, all, jobs).1[i] == all[i] by {
                    assert forall|k: int| 0 <= k < d.len() implies (#[trigger] d[k]).index != Some(i as usize) by {
                        assert(d[k] == jobs[k]);
                    }
                }
                assert forall|k: int| 0 <= k < jobs.len() && (#[trigger] jobs[k]).index is None implies after_stops(target, all, jobs).0
                    == stopped_as(target, jobs[k].outcome) && stops_result(jobs) == jobs[k].outcome by {
                    if k < n {
                        assert(jobs[k] == d[k]);
                        assert(d[k].index is Some);
                    } else {
                        assert(after_stops(target, all, jobs) == (stopped_as(t, last.outcome), a));
                        assert(stops_result(d) is Ok);
                        match last.outcome {
                            Ok(u) => {
                                assert(stops_result(jobs) == stops_result(d));
                                let r = stops_result(d);
                                assert(r == Ok::<(), String>(u)) by {
                                    assert(r->Ok_0 == u);
                                }
                            },
                            Err(e) => assert(stops_result(jobs) == Err::<(), String>(e)),
                        }
                        assert(k == n);
                        assert(jobs[k].outcome == last.outcome);
                        assert(after_stops(target, all, jobs).0 == stopped_as(target, jobs[k].outcome));
                        assert(stops_result(jobs) == jobs[k].outcome);
                    }
                }
                assert(jobs[n].index is None);
            },
        }
    }
}

/// Records the stops of an Nginx stop with its PHP pools, in order (see
/// `after_stops`), and returns the outcome `stops_result` states: Nginx's
/// own error, never a pool's.
pub fn record_stop_jobs(target: &mut ServiceInstance, all: &mut Vec<ServiceInstance>, jobs: &[StopJob]) -> (r:
    Result<(), String>)
    requires
        stops_in_range(jobs@, old(all)@.len() as int),
    ensures
        (*final(target), final(all)@) == after_stops(*old(target), old(all)@, jobs@),
        r == stops_result(jobs@),
{
    let ghost t0 = *target;
    let ghost a0 = all@;
    let mut result: Result<(), String> = Ok(());
    let mut k: usize = 0;
    while k < jobs.len()
        invariant
            k <= jobs.len(),
            stops_in_range(jobs@, a0.len() as int),
            (*target, all@) == after_stops(t0, a0, jobs@.take(k as int)),
            result == stops_result(jobs@.take(k as int)),
        decreases jobs.len() - k,
    {
        proof {
            assert(jobs@.take(k + 1).drop_last() =~= jobs@.take(k as int));
            assert(jobs@.take(k + 1).last() == jobs@[k as int]);
            let tk = jobs@.take(k as int);
            assert forall|m: int| 0 <= m < tk.len() implies ((#[trigger] tk[m]).index matches Some(i)
                ==> i < a0.len()) by {
                assert(tk[m] == jobs@[m]);
            }
            lemma_after_stops_len(t0, a0, tk);
            assert(jobs@[k as int].index matches Some(i) ==> i < a0.len());
        }
        let job = &jobs[k];
        let status = match &job.outcome {
            Ok(()) => ServiceStatus::Stopped,
            Err(e) => ServiceStatus::Failed { reason: e.clone() },
        };
        match job.index {
            Some(i) => {
                let mut s = all.remove(i);
                s.status = status;
                all.insert(i, s);
                proof {
                    let prev = after_stops(t0, a0, jobs@.take(k as int)).1;
                    assert(all@ =~= prev.update(i as int, stopped_as(prev[i as int], job.outcome)));
                }
            },
            None => {
                target.status = status;
                match &job.outcome {
                    Err(e) => {
                        result = Err(e.clone());
                    },
                    Ok(()) => {},
                }
            },
        }
        k = k + 1;
    }
    assert(jobs@.take(jobs.len() as int) =~= jobs@);
    result
}

/// `items` joined with `sep` between consecutive items.
pub open spec fn joined(items: Seq<Seq<char>>, sep: Seq<char>) -> Seq<char>
    decreases items.len(),
{
    if items.len() == 0 {
        seq![]
    } else if items.len() == 1 {
        items[0]
    } else {
        joined(items.drop_last(), sep) + sep + items.last()
    }
}

pub fn join_strings(items: &Vec<String>, sep: &str) -> (s: String)
    ensures
        s@ == joined(items@.map_values(|x: String| x@), sep@),
{
    let ghost views = items@.map_values(|x: String| x@);
    let mut s = String::new();
    let mut i: usize = 0;
    while i < items.len()
        invariant
            i <= items.len(),
            views == items@.map_values(|x: String| x@),
            s@ == joined(views.take(i as int), sep@),
        decreases items.len() - i,
    {
        if i > 0 {
            s.append(sep);
        }
        s.append(items[i].as_str());
        proof {
            assert(views.take(i + 1).drop_last() =~= views.take(i as int));
            if i == 0 {
                assert(views.take(1) =~= seq![items@[0]@]);
            }
        }
        i = i + 1;
    }
    assert(views.take(items.len() as int) =~= views);
    s
}

/// `"<display name> <version>"`, the label of a service in messages.
pub open spec fn spec_label(s: ServiceInstance) -> Seq<char> {
    spec_display_name(s.kind) + seq![' '] + s.version@
}

pub fn service_label(s: &ServiceInstance) -> (label: String)
    ensures
        label@ == spec_label(*s),
{
    let mut label = String::new();
    label.append(s.kind.display_name());
    proof { reveal_strlit(" "); }
    label.append(" ");
    label.append(s.version.as_str());
    label
}

/// The error when the other web server could not be stopped.
pub fn rival_stop_failed(rival: ServiceKind, err: &str) -> (msg: String)
    ensures
        msg@ == "无法停止 "@ + spec_display_name(rival) + "（占用端口 80）: "@ + err@,
{
    let mut msg = String::new();
    msg.append("无法停止 ");
    msg.append(rival.display_name());
    msg.append("（占用端口 80）: ");
    msg.append(err);
    msg
}

/// The error when the other web server still runs after being stopped.
pub fn rival_still_running(rival: ServiceKind, target: ServiceKind) -> (msg: String)
    ensures
        msg@ == spec_display_name(rival) + " 停止后仍在运行（可能是以管理员身份启动的外部进程），已中止启动 "@
            + spec_display_name(target),
{
    let mut msg = String::new();
    msg.append(rival.display_name());
    msg.append(" 停止后仍在运行（可能是以管理员身份启动的外部进程），已中止启动 ");
    msg.append(target.display_name());
    msg
}

/// The error when another version of the same kind could not be stopped.
pub fn same_kind_stop_failed(svc: &ServiceInstance, err: &str) -> (msg: String)
    ensures
        msg@ == "无法停止同类旧版本 "@ + spec_label(*svc) + "："@ + err@,
{
    let mut msg = String::new();
    msg.append("无法停止同类旧版本 ");
    let label = service_label(svc);
    msg.append(label.as_str());
    msg.append("：");
    msg.append(err);
    msg
}

/// The error when another version of the same kind still runs after being stopped.
pub fn same_kind_still_running(svc: &ServiceInstance, target_version: &str) -> (msg: String)
    ensures
        msg@ == spec_label(*svc) + " 停止后仍在运行，已中止启动 "@ + target_version@,
{
    let mut msg = String::new();
    let label = service_label(svc);
    msg.append(label.as_str());
    msg.append(" 停止后仍在运行，已中止启动 ");
    msg.append(target_version);
    msg
}

/// One line of a batch start or stop report:
/// `"<kind> <version> <action>失败: <error>"`.
pub fn batch_failure(s: &ServiceInstance, action: &str, err: &str) -> (line: String)
    ensures
        line@ == spec_label(*s) + " "@ + action@ + "失败: "@ + err@,
{
    let label = service_label(s);
    let mut out = chars_of(label.as_str());
    push_all(&mut out, chars_of(" ").as_slice());
    push_all(&mut out, chars_of(action).as_slice());
    push_all(&mut out, chars_of("失败: ").as_slice());
    push_all(&mut out, chars_of(err).as_slice());
    string_of(out.as_slice())
}

/// One line of the parallel-start failure report: `"<label>: <error>"`.
pub fn failure_line(label: &str, err: &str) -> (line: String)
    ensures
        line@ == label@ + ": "@ + err@,
{
    let mut line = String::new();
    line.append(label);
    line.append(": ");
    line.append(err);
    line
}

/// The outcome of the parallel start with Nginx: success when nothing
/// failed, otherwise one error listing every failure.
pub fn summarize_start_failures(failed: &Vec<String>) -> (r: Result<(), String>)
    ensures
        failed@.len() == 0 ==> r is Ok,
        failed@.len() > 0 ==> (r matches Err(msg) && msg@ == "联动启动 "@ + spec_decimal(
            failed@.len() as nat,
        ) + " 个 PHP-CGI 失败:\n"@ + joined(failed@.map_values(|x: String| x@), seq!['\n'])),
{
    if failed.len() == 0 {
        return Ok(());
    }
    let mut msg = String::new();
    msg.append("联动启动 ");
    let n = failed.len() as u64;
    assert(n as nat == failed@.len());
    push_decimal(&mut msg, n);
    msg.append(" 个 PHP-CGI 失败:\n");
    let ghost before = msg@;
    let sep = "\n";
    proof { reveal_strlit("\n"); }
    assert(sep@ =~= seq!['\n']);
    let body = join_strings(failed, sep);
    msg.append(body.as_str());
    assert(msg@ == before + body@);
    Err(msg)
}


/// Orchestrates service lifecycle operations through a process manager.
/// The operations themselves run where processes can be started; the
/// decisions they take are the functions of this module.
#[derive(Clone)]
pub struct ServiceManager<P> {
    pub process_mgr: P,
}

impl<P> ServiceManager<P> {
    pub fn new(process_mgr: P) -> (m: Self)
        ensures
            m.process_mgr == process_mgr,
    {
        ServiceManager { process_mgr }
    }
}

} // verus!
