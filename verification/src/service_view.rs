//! What the dashboard shows of the services, and how the results of an
//! operation on copies are written back into the shared service list.
use vstd::prelude::*;

use crate::service::{
    spec_display_name, PhpRuntimeOptions, ServiceInstance, ServiceKind, ServiceOrigin,
    ServiceStatus,
};
use crate::service_mgr::{join_strings, joined};
use crate::text::{all_ascii, ascii_lower_seq, eq_ignore_ascii_case, push_decimal, spec_decimal};

verus! {

/// One service as the frontend lists it.
#[derive(Debug, Clone)]
pub struct ServiceInfo {
    pub id: String,
    pub kind: ServiceKind,
    pub display_name: String,
    pub version: String,
    pub variant: Option<String>,
    pub port: u16,
    pub status: ServiceStatus,
    pub install_path: String,
    /// "phpstudy" | "store" | "manual" | "system"
    pub origin: String,
    pub php_workers: Option<u16>,
    pub php_max_requests: Option<u32>,
}

pub open spec fn spec_origin_str(o: ServiceOrigin) -> Seq<char> {
    match o {
        ServiceOrigin::PhpStudy => "phpstudy"@,
        ServiceOrigin::Store => "store"@,
        ServiceOrigin::Manual => "manual"@,
        ServiceOrigin::System => "system"@,
    }
}

pub fn origin_str(o: &ServiceOrigin) -> (s: &'static str)
    ensures
        s@ == spec_origin_str(*o),
{
    match o {
        ServiceOrigin::PhpStudy => "phpstudy",
        ServiceOrigin::Store => "store",
        ServiceOrigin::Manual => "manual",
        ServiceOrigin::System => "system",
    }
}

pub open spec fn spec_workers(r: Option<PhpRuntimeOptions>) -> Option<u16> {
    match r {
        Some(o) => Some(o.workers),
        None => None,
    }
}

pub open spec fn spec_max_requests_of(r: Option<PhpRuntimeOptions>) -> Option<u32> {
    match r {
        Some(o) => Some(o.max_requests),
        None => None,
    }
}

/// The dashboard row for one service.
pub open spec fn info_matches(info: ServiceInfo, s: ServiceInstance) -> bool {
    &&& info.id@ == s.spec_id()
    &&& info.kind == s.kind
    &&& info.display_name@ == spec_display_name(s.kind) + seq![' '] + s.version@
    &&& info.version == s.version
    &&& info.variant == s.variant
    &&& info.port == s.port
    &&& info.status == s.status
    &&& info.install_path == s.install_path
    &&& info.origin@ == spec_origin_str(s.origin)
    &&& info.php_workers == spec_workers(s.php_runtime)
    &&& info.php_max_requests == spec_max_requests_of(s.php_runtime)
}

pub fn to_info(s: &ServiceInstance) -> (info: ServiceInfo)
    ensures
        info_matches(info, *s),
{
    let mut display_name = String::new();
    display_name.append(s.kind.display_name());
    proof { reveal_strlit(" "); }
    display_name.append(" ");
    display_name.append(s.version.as_str());
    let id = s.id();
    let origin = String::from_str(origin_str(&s.origin));
    let status = s.status.duplicate();
    let version = s.version.clone();
    let install_path = s.install_path.clone();
    assert(display_name@ == spec_display_name(s.kind) + seq![' '] + s.version@);
    ServiceInfo {
        id,
        kind: s.kind,
        display_name,
        version,
        variant: match &s.variant {
            Some(v) => Some(v.clone()),
            None => None,
        },
        port: s.port,
        status,
        install_path,
        origin,
        php_workers: match s.php_runtime {
            Some(r) => Some(r.workers),
            None => None,
        },
        php_max_requests: match s.php_runtime {
            Some(r) => Some(r.max_requests),
            None => None,
        },
    }
}

pub fn all_infos(services: &[ServiceInstance]) -> (infos: Vec<ServiceInfo>)
    ensures
        infos@.len() == services@.len(),
        forall|i: int| 0 <= i < services@.len() ==> info_matches(#[trigger] infos@[i], services@[i]),
{
    let mut infos: Vec<ServiceInfo> = Vec::new();
    let mut i: usize = 0;
    while i < services.len()
        invariant
            i <= services.len(),
            infos@.len() == i,
            forall|j: int| 0 <= j < i ==> info_matches(#[trigger] infos@[j], services@[j]),
        decreases services.len() - i,
    {
        infos.push(to_info(&services[i]));
        i = i + 1;
    }
    infos
}

/// Index of the first service whose id is `id`.
pub open spec fn first_with_id(services: Seq<ServiceInstance>, id: Seq<char>) -> Option<int>
    decreases services.len(),
{
    if services.len() == 0 {
        None
    } else if services[0].spec_id() == id {
        Some(0)
    } else {
        match first_with_id(services.drop_first(), id) {
            Some(k) => Some(k + 1),
            None => None,
        }
    }
}

proof fn lemma_first_with_id(services: Seq<ServiceInstance>, id: Seq<char>)
    ensures
        first_with_id(services, id) matches Some(k) ==> 0 <= k < services.len()
            && services[k].spec_id() == id && forall|j: int| 0 <= j < k
            ==> (#[trigger] services[j]).spec_id() != id,
        first_with_id(services, id) is None ==> forall|j: int| 0 <= j < services.len()
            ==> (#[trigger] services[j]).spec_id() != id,
    decreases services.len(),
{
    if services.len() > 0 {
        lemma_first_with_id(services.drop_first(), id);
        assert forall|j: int| 1 <= j < services.len() implies services[j] == services.drop_first()[j
            - 1] by {}
    }
}

/// Finds the index of the first service with the given id.
fn position_of(services: &[ServiceInstance], id: &str) -> (r: Option<usize>)
    ensures
        match first_with_id(services@, id@) {
            Some(k) => r == Some(k as usize),
            None => r is None,
        },
{
    proof {
        lemma_first_with_id(services@, id@);
    }
    let mut i: usize = 0;
    while i < services.len()
        invariant
            i <= services.len(),
            forall|j: int| 0 <= j < i ==> (#[trigger] services@[j]).spec_id() != id@,
            first_with_id(services@, id@) matches Some(k) ==> i <= k,
        decreases services.len() - i,
    {
        proof {
            lemma_first_with_id(services@, id@);
        }
        let sid = services[i].id();
        let target = String::from_str(id);
        if sid == target {
            proof {
                assert(services@[i as int].spec_id() == id@);
                if first_with_id(services@, id@) is None {
                    assert(services@[i as int].spec_id() != id@);
                }
                let k = first_with_id(services@, id@)->0;
                if k > i {
                    assert(services@[i as int].spec_id() != id@);
                }
            }
            return Some(i);
        }
        proof {
            assert(services@[i as int].spec_id() != id@);
        }
        i = i + 1;
    }
    None
}

pub fn find_service_index(services: &[ServiceInstance], id: &str) -> (r: Result<usize, String>)
    ensures
        match first_with_id(services@, id@) {
            Some(k) => r == Ok::<usize, String>(k as usize),
            None => r matches Err(msg) && msg@ == "Service not found: "@ + id@,
        },
{
    match position_of(services, id) {
        Some(i) => Ok(i),
        None => {
            let mut msg = String::new();
            msg.append("Service not found: ");
            msg.append(id);
            Err(msg)
        },
    }
}

/// The value a service takes when a changed copy is written back: the
/// target if the ids match, else the first updated copy with its id.
pub open spec fn synced(s: ServiceInstance, target: ServiceInstance, others: Seq<ServiceInstance>) -> ServiceInstance {
    if s.spec_id() == target.spec_id() {
        target
    } else {
        match first_with_id(others, s.spec_id()) {
            Some(k) => others[k],
            None => s,
        }
    }
}

pub open spec fn synced_from(s: ServiceInstance, src: Seq<ServiceInstance>) -> ServiceInstance {
    match first_with_id(src, s.spec_id()) {
        Some(k) => src[k],
        None => s,
    }
}

/// Writes `target` and the updated `others` back into `services` by id.
pub fn sync_updated_statuses(
    services: &mut Vec<ServiceInstance>,
    target: &ServiceInstance,
    others: &[ServiceInstance],
)
    ensures
        final(services)@.len() == old(services)@.len(),
        forall|i: int| 0 <= i < old(services)@.len() ==> #[trigger] final(services)@[i] == synced(
            old(services)@[i],
            *target,
            others@,
        ),
{
    let ghost before = services@;
    let target_id = target.id();
    let mut i: usize = 0;
    while i < services.len()
        invariant
            i <= services.len(),
            services@.len() == before.len(),
            target_id@ == target.spec_id(),
            forall|j: int| i <= j < before.len() ==> #[trigger] services@[j] == before[j],
            forall|j: int| 0 <= j < i ==> #[trigger] services@[j] == synced(before[j], *target, others@),
        decreases services.len() - i,
    {
        let sid = services[i].id();
        proof {
            lemma_first_with_id(others@, sid@);
        }
        if sid == target_id {
            services.set(i, target.duplicate());
        } else {
            match position_of(others, sid.as_str()) {
                Some(k) => {
                    services.set(i, others[k].duplicate());
                },
                None => {},
            }
        }
        i = i + 1;
    }
}

/// Writes every service of `src` back into `dest` by id.
pub fn sync_all_statuses(dest: &mut Vec<ServiceInstance>, src: &[ServiceInstance])
    ensures
        final(dest)@.len() == old(dest)@.len(),
        forall|i: int| 0 <= i < old(dest)@.len() ==> #[trigger] final(dest)@[i] == synced_from(
            old(dest)@[i],
            src@,
        ),
{
    let ghost before = dest@;
    let mut i: usize = 0;
    while i < dest.len()
        invariant
            i <= dest.len(),
            dest@.len() == before.len(),
            forall|j: int| i <= j < before.len() ==> #[trigger] dest@[j] == before[j],
            forall|j: int| 0 <= j < i ==> #[trigger] dest@[j] == synced_from(before[j], src@),
        decreases dest.len() - i,
    {
        let sid = dest[i].id();
        proof {
            lemma_first_with_id(src@, sid@);
        }
        match position_of(src, sid.as_str()) {
            Some(k) => {
                dest.set(i, src[k].duplicate());
            },
            None => {},
        }
        i = i + 1;
    }
}

/// `kind` takes part in "start all" under the active web server: the
/// inactive web server is skipped, and PHP pools start with Nginx instead.
pub open spec fn starts_with_all(kind: ServiceKind, active_web: Seq<char>) -> bool {
    match kind {
        ServiceKind::Nginx => active_web == "nginx"@,
        ServiceKind::Apache => active_web == "apache"@,
        ServiceKind::Php => false,
        _ => true,
    }
}

pub open spec fn kind_running(services: Seq<ServiceInstance>, kind: ServiceKind) -> bool {
    exists|j: int| 0 <= j < services.len() && (#[trigger] services[j]).kind == kind
        && services[j].status is Running
}

/// "Start all" starts the first service of each taking-part kind, unless a
/// service of that kind already runs.
pub open spec fn chosen_for_start_all(services: Seq<ServiceInstance>, active_web: Seq<char>, i: int) -> bool {
    &&& starts_with_all(services[i].kind, active_web)
    &&& !kind_running(services, services[i].kind)
    &&& forall|j: int| 0 <= j < i ==> (#[trigger] services[j]).kind != services[i].kind
}

/// "Start all" picks one version per kind, never a PHP pool by itself, and
/// nothing of a kind that already runs.
pub proof fn start_all_one_per_kind(services: Seq<ServiceInstance>, active_web: Seq<char>, i: int, j: int)
    requires
        0 <= i < j < services.len(),
        chosen_for_start_all(services, active_web, i),
        chosen_for_start_all(services, active_web, j),
    ensures
        services[i].kind != services[j].kind,
        services[j].kind != ServiceKind::Php,
        !kind_running(services, services[j].kind),
{
    assert(services[i].kind != services[j].kind);
}

fn kind_is_running(services: &[ServiceInstance], kind: ServiceKind) -> (b: bool)
    ensures
        b == kind_running(services@, kind),
{
    let mut i: usize = 0;
    while i < services.len()
        invariant
            i <= services.len(),
            forall|j: int| 0 <= j < i ==> !((#[trigger] services@[j]).kind == kind
                && services@[j].status is Running),
        decreases services.len() - i,
    {
        if services[i].kind == kind && services[i].status.is_running() {
            return true;
        }
        i = i + 1;
    }
    false
}

fn kind_seen_before(services: &[ServiceInstance], kind: ServiceKind, end: usize) -> (b: bool)
    requires
        end <= services@.len(),
    ensures
        b == exists|j: int| 0 <= j < end && (#[trigger] services@[j]).kind == kind,
{
    let mut i: usize = 0;
    while i < end
        invariant
            i <= end,
            end <= services@.len(),
            forall|j: int| 0 <= j < i ==> (#[trigger] services@[j]).kind != kind,
        decreases end - i,
    {
        if services[i].kind == kind {
            return true;
        }
        i = i + 1;
    }
    false
}

/// The indices "start all" launches, in order.
pub fn start_all_targets(services: &[ServiceInstance], active_web: &str) -> (out: Vec<usize>)
    ensures
        forall|a: int, b: int| 0 <= a < b < out@.len() ==> out@[a] < out@[b],
        forall|a: int| 0 <= a < out@.len() ==> (#[trigger] out@[a]) < services@.len()
            && chosen_for_start_all(services@, active_web@, out@[a] as int),
        forall|i: int| 0 <= i < services@.len() && chosen_for_start_all(services@, active_web@, i)
            ==> #[trigger] out@.contains(i as usize),
{
    let active = String::from_str(active_web);
    let nginx = String::from_str("nginx");
    let apache = String::from_str("apache");
    let nginx_active = active == nginx;
    let apache_active = active == apache;
    let mut out: Vec<usize> = Vec::new();
    let mut i: usize = 0;
    while i < services.len()
        invariant
            i <= services.len(),
            nginx_active == (active_web@ == "nginx"@),
            apache_active == (active_web@ == "apache"@),
            forall|a: int, b: int| 0 <= a < b < out@.len() ==> out@[a] < out@[b],
            forall|a: int| 0 <= a < out@.len() ==> (#[trigger] out@[a]) < i
                && chosen_for_start_all(services@, active_web@, out@[a] as int),
            forall|k: int| 0 <= k < i && chosen_for_start_all(services@, active_web@, k)
                ==> #[trigger] out@.contains(k as usize),
        decreases services.len() - i,
    {
        let kind = services[i].kind;
        let takes_part = match kind {
            ServiceKind::Nginx => nginx_active,
            ServiceKind::Apache => apache_active,
            ServiceKind::Php => false,
            _ => true,
        };
        if takes_part && !kind_is_running(services, kind) && !kind_seen_before(services, kind, i) {
            let ghost prev = out@;
            out.push(i);
            proof {
                assert forall|k: int| 0 <= k < i + 1 && chosen_for_start_all(services@, active_web@, k)
                    implies #[trigger] out@.contains(k as usize) by {
                    if k < i {
                        assert(prev.contains(k as usize));
                        let a = choose|a: int| 0 <= a < prev.len() && prev[a] == k as usize;
                        assert(out@[a] == k as usize);
                    } else {
                        assert(out@[prev.len() as int] == i);
                    }
                }
            }
        } else {
            proof {
                if chosen_for_start_all(services@, active_web@, i as int) {
                    assert(!kind_running(services@, kind));
                    assert forall|j: int| 0 <= j < i implies (#[trigger] services@[j]).kind != kind by {
                        assert(services@[j].kind != services@[i as int].kind);
                    }
                }
            }
        }
        i = i + 1;
    }
    out
}

/// Every `auto_start` entry is ASCII.
pub open spec fn all_entries_ascii(auto_start: Seq<String>) -> bool {
    forall|j: int| 0 <= j < auto_start.len() ==> all_ascii(#[trigger] auto_start[j]@)
}

/// Some `auto_start` entry equals the kind's display name up to ASCII case.
pub open spec fn named_ignoring_ascii_case(auto_start: Seq<String>, kind: ServiceKind) -> bool {
    exists|j: int|
        0 <= j < auto_start.len() && eq_ignore_ascii_case(#[trigger] auto_start[j]@, spec_display_name(kind))
}

/// The display names are ASCII, so lower-casing them is ASCII lower-casing.
proof fn lemma_display_names_ascii(kind: ServiceKind)
    ensures
        all_ascii(spec_display_name(kind)),
{
}

/// The configured names pick services by their display names, ignoring
/// ASCII case: with lower-casing as std performs it on ASCII text, a
/// service auto-starts exactly when one of the (ASCII) `auto_start`
/// entries equals its kind's display name up to ASCII case, so `nginx`
/// picks Nginx and `mysql` picks MySQL.
pub proof fn auto_start_ignores_ascii_case(s: ServiceInstance, auto_start: Seq<String>)
    requires
        forall|t: Seq<char>| all_ascii(t) ==> #[trigger] crate::service::lowercase(t) == ascii_lower_seq(t),
        all_entries_ascii(auto_start),
    ensures
        auto_starts(s, auto_start) <==> named_ignoring_ascii_case(auto_start, s.kind),
{
    lemma_display_names_ascii(s.kind);
    assert(crate::service::lowercase(spec_display_name(s.kind)) == ascii_lower_seq(spec_display_name(s.kind)));
    if auto_starts(s, auto_start) {
        let j = choose|j: int|
            0 <= j < auto_start.len() && crate::service::lowercase(#[trigger] auto_start[j]@)
                == crate::service::lowercase(spec_display_name(s.kind));
        assert(all_ascii(auto_start[j]@));
        assert(eq_ignore_ascii_case(auto_start[j]@, spec_display_name(s.kind)));
    }
    if exists|j: int|
        0 <= j < auto_start.len() && eq_ignore_ascii_case(
            #[trigger] auto_start[j]@,
            spec_display_name(s.kind),
        ) {
        let j = choose|j: int|
            0 <= j < auto_start.len() && eq_ignore_ascii_case(
                #[trigger] auto_start[j]@,
                spec_display_name(s.kind),
            );
        assert(all_ascii(auto_start[j]@));
        assert(crate::service::lowercase(auto_start[j]@) == crate::service::lowercase(spec_display_name(s.kind)));
    }
}

/// A service the user asked to start with the application: its kind's
/// display name, lower-cased, equals one of the `auto_start` entries,
/// lower-cased (an exact match, so `php` does not match `phpstudy`).
pub open spec fn auto_starts(s: ServiceInstance, auto_start: Seq<String>) -> bool {
    exists|j: int|
        0 <= j < auto_start.len() && crate::service::lowercase(#[trigger] auto_start[j]@)
            == crate::service::lowercase(spec_display_name(s.kind))
}

/// The services to start with the application, in order (each is then
/// started with its dependencies, unless its refreshed status shows it
/// running already).
pub fn auto_start_targets(services: &[ServiceInstance], auto_start: &[String]) -> (out: Vec<usize>)
    ensures
        forall|a: int, b: int| 0 <= a < b < out@.len() ==> out@[a] < out@[b],
        forall|a: int| 0 <= a < out@.len() ==> (#[trigger] out@[a]) < services@.len()
            && auto_starts(services@[out@[a] as int], auto_start@),
        forall|i: int| 0 <= i < services@.len() && auto_starts(services@[i], auto_start@)
            ==> #[trigger] out@.contains(i as usize),
        forall|i: int, j: int|
            0 <= i < services@.len() && 0 <= j < auto_start@.len() && all_ascii(auto_start@[j]@)
                && eq_ignore_ascii_case(#[trigger] auto_start@[j]@, spec_display_name(
                (#[trigger] services@[i]).kind,
            )) ==> out@.contains(i as usize),
        all_entries_ascii(auto_start@) ==> forall|a: int|
            0 <= a < out@.len() ==> named_ignoring_ascii_case(
                auto_start@,
                services@[#[trigger] out@[a] as int].kind,
            ),
{
    let mut wanted: Vec<String> = Vec::new();
    let mut j: usize = 0;
    while j < auto_start.len()
        invariant
            j <= auto_start.len(),
            wanted@.len() == j,
            forall|k: int| 0 <= k < j ==> (#[trigger] wanted@[k])@ == crate::service::lowercase(auto_start@[k]@),
            forall|k: int| 0 <= k < j && all_ascii(auto_start@[k]@) ==> crate::service::lowercase(
                #[trigger] auto_start@[k]@,
            ) == ascii_lower_seq(auto_start@[k]@),
        decreases auto_start.len() - j,
    {
        wanted.push(crate::service::to_lowercase(auto_start[j].as_str()));
        j = j + 1;
    }
    let mut out: Vec<usize> = Vec::new();
    let mut i: usize = 0;
    while i < services.len()
        invariant
            i <= services.len(),
            wanted@.len() == auto_start@.len(),
            forall|k: int| 0 <= k < wanted@.len() ==> (#[trigger] wanted@[k])@ == crate::service::lowercase(auto_start@[k]@),
            forall|a: int, b: int| 0 <= a < b < out@.len() ==> out@[a] < out@[b],
            forall|a: int| 0 <= a < out@.len() ==> (#[trigger] out@[a]) < i
                && auto_starts(services@[out@[a] as int], auto_start@),
            forall|k: int| 0 <= k < i && auto_starts(services@[k], auto_start@)
                ==> #[trigger] out@.contains(k as usize),
            forall|k: int| 0 <= k < auto_start@.len() && all_ascii(auto_start@[k]@) ==> crate::service::lowercase(
                #[trigger] auto_start@[k]@,
            ) == ascii_lower_seq(auto_start@[k]@),
            forall|k: int| 0 <= k < i ==> crate::service::lowercase(spec_display_name(
                (#[trigger] services@[k]).kind,
            )) == ascii_lower_seq(spec_display_name(services@[k].kind)),
        decreases services.len() - i,
    {
        let name = crate::service::to_lowercase(services[i].kind.display_name());
        proof {
            lemma_display_names_ascii(services@[i as int].kind);
        }
        let mut hit = false;
        let mut k: usize = 0;
        while k < wanted.len()
            invariant
                k <= wanted.len(),
                wanted@.len() == auto_start@.len(),
                forall|m: int| 0 <= m < wanted@.len() ==> (#[trigger] wanted@[m])@ == crate::service::lowercase(auto_start@[m]@),
                name@ == crate::service::lowercase(spec_display_name(services@[i as int].kind)),
                hit == exists|m: int| 0 <= m < k && crate::service::lowercase(#[trigger] auto_start@[m]@) == name@,
            decreases wanted.len() - k,
        {
            if crate::text::str_eq(wanted[k].as_str(), name.as_str()) {
                hit = true;
            }
            k = k + 1;
        }
        if hit {
            let ghost prev = out@;
            out.push(i);
            proof {
                assert forall|k2: int| 0 <= k2 < i + 1 && auto_starts(services@[k2], auto_start@)
                    implies #[trigger] out@.contains(k2 as usize) by {
                    if k2 < i {
                        assert(prev.contains(k2 as usize));
                        let a = choose|a: int| 0 <= a < prev.len() && prev[a] == k2 as usize;
                        assert(out@[a] == k2 as usize);
                    } else {
                        assert(out@[prev.len() as int] == i);
                    }
                }
            }
        }
        i = i + 1;
    }
    proof {
        assert forall|i: int, j: int|
            0 <= i < services@.len() && 0 <= j < auto_start@.len() && all_ascii(auto_start@[j]@)
                && eq_ignore_ascii_case(#[trigger] auto_start@[j]@, spec_display_name(
                (#[trigger] services@[i]).kind,
            )) implies out@.contains(i as usize) by {
            assert(auto_starts(services@[i], auto_start@));
        }
        assert forall|a: int|
            0 <= a < out@.len() && all_entries_ascii(auto_start@) implies named_ignoring_ascii_case(
                auto_start@,
                services@[#[trigger] out@[a] as int].kind,
            ) by {
            let s = services@[out@[a] as int];
            assert(auto_starts(s, auto_start@));
            let j = choose|j: int|
                0 <= j < auto_start@.len() && crate::service::lowercase(#[trigger] auto_start@[j]@)
                    == crate::service::lowercase(spec_display_name(s.kind));
            assert(all_ascii(auto_start@[j]@));
            assert(eq_ignore_ascii_case(auto_start@[j]@, spec_display_name(s.kind)));
        }
    }
    out
}

/// Whether an Nginx service runs: only then do the PHP pools serve
/// requests, and only then does a reconciliation start or stop them.
pub open spec fn nginx_running(services: Seq<ServiceInstance>) -> bool {
    exists|j: int|
        0 <= j < services.len() && (#[trigger] services[j]).kind == ServiceKind::Nginx
            && services[j].status is Running
}

/// What reconciling the PHP pools does with one planned PHP version.
#[derive(Debug, Clone, Copy, PartialEq, Eq, Structural)]
pub enum ReconcileAction {
    Start,
    Restart,
    Stop,
    Keep,
}

pub open spec fn spec_reconcile_action(planned: Option<PhpRuntimeOptions>, was_running: bool, runtime_changed: bool) -> ReconcileAction {
    match planned {
        Some(_) => if !was_running {
            ReconcileAction::Start
        } else if runtime_changed {
            ReconcileAction::Restart
        } else {
            ReconcileAction::Keep
        },
        None => if was_running {
            ReconcileAction::Stop
        } else {
            ReconcileAction::Keep
        },
    }
}

/// The reconciliation of service `i` against the policy's plan `planned`:
/// nothing unless it is a PHP pool and Nginx runs; else the action
/// `spec_reconcile_action` gives for its planned options, whether it runs,
/// and whether its options change.
pub open spec fn planned_action(services: Seq<ServiceInstance>, planned: Seq<ServiceInstance>, i: int) -> ReconcileAction {
    if services[i].kind != ServiceKind::Php || !nginx_running(services) {
        ReconcileAction::Keep
    } else {
        spec_reconcile_action(
            planned[i].php_runtime,
            services[i].status is Running,
            services[i].php_runtime != planned[i].php_runtime,
        )
    }
}

fn runtime_differs(a: Option<PhpRuntimeOptions>, b: Option<PhpRuntimeOptions>) -> (r: bool)
    ensures
        r == (a != b),
{
    match (a, b) {
        (None, None) => false,
        (Some(x), Some(y)) => !(x.workers == y.workers && x.max_requests == y.max_requests),
        _ => true,
    }
}

/// The reconciliation of every service against the policy's plan (the
/// services with the policy applied, in the same order), as
/// `planned_action` states it for each.
pub fn reconcile_plan(services: &[ServiceInstance], planned: &[ServiceInstance]) -> (out: Vec<ReconcileAction>)
    requires
        planned@.len() == services@.len(),
    ensures
        out@.len() == services@.len(),
        forall|i: int| 0 <= i < services@.len() ==> #[trigger] out@[i] == planned_action(services@, planned@, i),
{
    let mut nginx = false;
    let mut j: usize = 0;
    while j < services.len()
        invariant
            j <= services.len(),
            nginx == exists|k: int|
                0 <= k < j && (#[trigger] services@[k]).kind == ServiceKind::Nginx
                    && services@[k].status is Running,
        decreases services.len() - j,
    {
        let is_nginx = match services[j].kind {
            ServiceKind::Nginx => true,
            _ => false,
        };
        if is_nginx && services[j].status.is_running() {
            nginx = true;
        }
        j = j + 1;
    }
    let mut out: Vec<ReconcileAction> = Vec::new();
    let mut i: usize = 0;
    while i < services.len()
        invariant
            i <= services.len(),
            planned@.len() == services@.len(),
            nginx == nginx_running(services@),
            out@.len() == i,
            forall|k: int| 0 <= k < i ==> #[trigger] out@[k] == planned_action(services@, planned@, k),
        decreases services.len() - i,
    {
        let is_php = match services[i].kind {
            ServiceKind::Php => true,
            _ => false,
        };
        let a = if !is_php || !nginx {
            ReconcileAction::Keep
        } else {
            reconcile_action(
                planned[i].php_runtime,
                services[i].status.is_running(),
                runtime_differs(services[i].php_runtime, planned[i].php_runtime),
            )
        };
        out.push(a);
        i = i + 1;
    }
    out
}

/// Records the planned pool options: every PHP service takes the options
/// of its plan; everything else stays as it was.
pub fn record_planned_runtimes(services: &mut Vec<ServiceInstance>, planned: &[ServiceInstance])
    requires
        planned@.len() == old(services)@.len(),
    ensures
        final(services)@.len() == old(services)@.len(),
        forall|i: int| 0 <= i < old(services)@.len() ==> #[trigger] final(services)@[i] == (if old(services)@[i].kind
            == ServiceKind::Php {
            ServiceInstance { php_runtime: planned@[i].php_runtime, ..old(services)@[i] }
        } else {
            old(services)@[i]
        }),
{
    let ghost s0 = services@;
    let mut i: usize = 0;
    while i < services.len()
        invariant
            i <= services.len(),
            services@.len() == s0.len(),
            planned@.len() == s0.len(),
            forall|k: int| 0 <= k < i ==> #[trigger] services@[k] == (if s0[k].kind == ServiceKind::Php {
                ServiceInstance { php_runtime: planned@[k].php_runtime, ..s0[k] }
            } else {
                s0[k]
            }),
            forall|k: int| i <= k < s0.len() ==> #[trigger] services@[k] == s0[k],
        decreases services.len() - i,
    {
        let is_php = match services[i].kind {
            ServiceKind::Php => true,
            _ => false,
        };
        if is_php {
            let ghost before = services@;
            let mut s = services.remove(i);
            s.php_runtime = planned[i].php_runtime;
            services.insert(i, s);
            assert(services@ =~= before.update(i as int, s));
        }
        i = i + 1;
    }
}

/// A pool the policy selects is started (or restarted when its options
/// changed); a pool it drops is stopped.
pub fn reconcile_action(
    planned: Option<PhpRuntimeOptions>,
    was_running: bool,
    runtime_changed: bool,
) -> (a: ReconcileAction)
    ensures
        a == spec_reconcile_action(planned, was_running, runtime_changed),
{
    match (planned, was_running, runtime_changed) {
        (Some(_), false, _) => ReconcileAction::Start,
        (Some(_), true, true) => ReconcileAction::Restart,
        (None, true, _) => ReconcileAction::Stop,
        _ => ReconcileAction::Keep,
    }
}


/// The pools of a reconciled plan, as `"<version>=<workers> workers"`, in
/// service order.
pub open spec fn runtime_entries(services: Seq<ServiceInstance>) -> Seq<Seq<char>>
    decreases services.len(),
{
    if services.len() == 0 {
        seq![]
    } else {
        let prev = runtime_entries(services.drop_last());
        match services.last().php_runtime {
            Some(r) => prev.push(
                services.last().version@ + "="@ + spec_decimal(r.workers as nat) + " workers"@,
            ),
            None => prev,
        }
    }
}

/// The summary logged after the PHP pools were reassigned: every planned
/// pool and its workers, separated by `, `.
pub fn runtime_summary(services: &[ServiceInstance]) -> (s: String)
    ensures
        s@ == joined(runtime_entries(services@), ", "@),
{
    let mut entries: Vec<String> = Vec::new();
    let mut i: usize = 0;
    while i < services.len()
        invariant
            i <= services.len(),
            entries@.map_values(|x: String| x@) == runtime_entries(services@.take(i as int)),
        decreases services.len() - i,
    {
        proof {
            assert(services@.take(i + 1).drop_last() =~= services@.take(i as int));
            assert(services@.take(i + 1).last() == services@[i as int]);
        }
        match services[i].php_runtime {
            Some(r) => {
                let ghost before = entries@.map_values(|x: String| x@);
                let mut e = services[i].version.clone();
                e.append("=");
                push_decimal(&mut e, r.workers as u64);
                e.append(" workers");
                entries.push(e);
                proof {
                    assert(entries@.map_values(|x: String| x@) =~= before.push(
                        services@[i as int].version@ + "="@ + spec_decimal(r.workers as nat)
                            + " workers"@,
                    ));
                }
            },
            None => {},
        }
        i = i + 1;
    }
    proof {
        assert(services@.take(services.len() as int) =~= services@);
    }
    join_strings(&entries, ", ")
}

/// One line of the reconciliation's failure report.
pub fn pool_failure(version: &str, err: &str) -> (line: String)
    ensures
        line@ == "PHP "@ + version@ + ": "@ + err@,
{
    let mut line = String::new();
    line.append("PHP ");
    line.append(version);
    line.append(": ");
    line.append(err);
    line
}

/// A PHP version as the PHP panel lists it.
#[derive(Debug, Clone)]
pub struct PhpInstanceInfo {
    pub id: String,
    /// `PHP <version> <variant>` (the variant empty where there is none).
    pub label: String,
    pub version: String,
    pub variant: Option<String>,
    pub install_path: String,
}

/// `phpinfo()` as HTML, and the `file://` URL of a copy for a browser.
#[derive(Debug, Clone)]
pub struct PhpInfoHtml {
    pub html: String,
    pub file_url: String,
}

/// The PHP on the command line: the active version, the directory of the
/// shims, whether it is in the user `PATH`, and system `PATH` entries that
/// shadow it.
#[derive(Debug, Clone)]
pub struct GlobalPhpInfo {
    pub version: Option<String>,
    pub bin_dir: String,
    pub path_registered: bool,
    pub conflicts: Vec<String>,
}

pub open spec fn variant_text(v: Option<String>) -> Seq<char> {
    match v {
        Some(x) => x@,
        None => seq![],
    }
}

pub open spec fn php_info_matches(info: PhpInstanceInfo, s: ServiceInstance) -> bool {
    &&& info.id@ == s.spec_id()
    &&& info.label@ == "PHP "@ + s.version@ + " "@ + variant_text(s.variant)
    &&& info.version@ == s.version@
    &&& crate::service::opt_view(info.variant) == crate::service::opt_view(s.variant)
    &&& info.install_path@ == s.install_path@
}

/// Positions of the PHP services, in order.
pub open spec fn php_positions(services: Seq<ServiceInstance>) -> Seq<int>
    decreases services.len(),
{
    if services.len() == 0 {
        seq![]
    } else if services.last().kind == ServiceKind::Php {
        php_positions(services.drop_last()).push(services.len() - 1)
    } else {
        php_positions(services.drop_last())
    }
}

/// The PHP versions among the services, in order, as the PHP panel lists them.
pub fn php_instances(services: &[ServiceInstance]) -> (out: Vec<PhpInstanceInfo>)
    ensures
        out@.len() == php_positions(services@).len(),
        forall|k: int|
            0 <= k < out@.len() ==> php_info_matches(
                #[trigger] out@[k],
                services@[php_positions(services@)[k]],
            ),
{
    let mut out: Vec<PhpInstanceInfo> = Vec::new();
    let mut i: usize = 0;
    while i < services.len()
        invariant
            i <= services.len(),
            out@.len() == php_positions(services@.take(i as int)).len(),
            forall|k: int|
                0 <= k < out@.len() ==> php_info_matches(
                    #[trigger] out@[k],
                    services@[php_positions(services@.take(i as int))[k]],
                ),
        decreases services.len() - i,
    {
        let ghost prev = php_positions(services@.take(i as int));
        assert(services@.take(i + 1).drop_last() =~= services@.take(i as int));
        assert(services@.take(i + 1).last() == services@[i as int]);
        let ghost before = out@;
        let s = &services[i];
        match s.kind {
            ServiceKind::Php => {
                let variant_part: String = match &s.variant {
                    Some(v) => v.clone(),
                    None => String::new(),
                };
                let label = crate::text::concat4("PHP ", s.version.as_str(), " ", variant_part.as_str());
                out.push(PhpInstanceInfo {
                    id: s.id(),
                    label,
                    version: s.version.clone(),
                    variant: match &s.variant {
                        Some(v) => Some(v.clone()),
                        None => None,
                    },
                    install_path: s.install_path.clone(),
                });
                assert(php_positions(services@.take(i + 1)) =~= prev.push(i as int));
                assert(php_info_matches(out@[before.len() as int], services@[i as int]));
                assert forall|k: int| 0 <= k < out@.len() implies php_info_matches(
                    #[trigger] out@[k],
                    services@[php_positions(services@.take(i + 1))[k]],
                ) by {
                    if k < before.len() {
                        assert(out@[k] == before[k]);
                    }
                }
            },
            _ => {
                assert(php_positions(services@.take(i + 1)) =~= prev);
                assert forall|k: int| 0 <= k < out@.len() implies php_info_matches(
                    #[trigger] out@[k],
                    services@[php_positions(services@.take(i + 1))[k]],
                ) by {
                    assert(out@[k] == before[k]);
                }
            },
        }
        i = i + 1;
    }
    assert(services@.take(services.len() as int) =~= services@);
    out
}

pub open spec fn first_php_with_version(services: Seq<ServiceInstance>, version: Seq<char>) -> Option<
    int,
>
    decreases services.len(),
{
    if services.len() == 0 {
        None
    } else {
        match first_php_with_version(services.drop_last(), version) {
            Some(i) => Some(i),
            None => if services.last().kind == ServiceKind::Php && services.last().version@
                == version {
                Some(services.len() - 1)
            } else {
                None
            },
        }
    }
}

proof fn lemma_first_php_prefix(services: Seq<ServiceInstance>, version: Seq<char>, n: int)
    requires
        0 < n <= services.len(),
        first_php_with_version(services.take(n), version) is Some,
    ensures
        first_php_with_version(services, version) == first_php_with_version(
            services.take(n),
            version,
        ),
    decreases services.len() - n,
{
    if n < services.len() {
        assert(services.take(n + 1).drop_last() =~= services.take(n));
        lemma_first_php_prefix(services, version, n + 1);
    } else {
        assert(services.take(n) =~= services);
    }
}

/// The PHP a global switch to `version` uses: the first PHP service with
/// that version, else the refusal `未找到 PHP v<version>`.
pub fn global_php_target(services: &[ServiceInstance], version: &str) -> (r: Result<usize, String>)
    ensures
        match r {
            Ok(i) => first_php_with_version(services@, version@) == Some(i as int),
            Err(m) => first_php_with_version(services@, version@) is None && m@ == "未找到 PHP v"@
                + version@,
        },
{
    let mut i: usize = 0;
    while i < services.len()
        invariant
            i <= services.len(),
            first_php_with_version(services@.take(i as int), version@) is None,
        decreases services.len() - i,
    {
        assert(services@.take(i + 1).drop_last() =~= services@.take(i as int));
        assert(services@.take(i + 1).last() == services@[i as int]);
        let is_php = match services[i].kind {
            ServiceKind::Php => true,
            _ => false,
        };
        if is_php && crate::text::str_eq(services[i].version.as_str(), version) {
            proof {
                lemma_first_php_prefix(services@, version@, i + 1);
            }
            return Ok(i);
        }
        i = i + 1;
    }
    assert(services@.take(services.len() as int) =~= services@);
    Err(crate::text::concat2("未找到 PHP v", version))
}

/// The note logged with a global switch: where the shim directory was just
/// added to the user `PATH`, that it takes effect in new command windows.
pub fn path_added_note(path_changed: bool, bin_dir: &str) -> (note: Option<String>)
    ensures
        path_changed ==> note is Some && note->0@ == "已追加 PATH 条目："@ + bin_dir@
            + "。请**新开**命令行窗口让它生效。"@,
        !path_changed ==> note is None,
{
    if path_changed {
        Some(crate::text::concat3("已追加 PATH 条目：", bin_dir, "。请**新开**命令行窗口让它生效。"))
    } else {
        None
    }
}

} // verus!
