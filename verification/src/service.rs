//! Service domain: the kinds of managed software, their runtime status and
//! the concrete instances discovered on disk.
use vstd::prelude::*;

verus! {

/// The kind of software component under management.
#[derive(Debug, Clone, Copy, PartialEq, Eq, Hash, Structural)]
pub enum ServiceKind {
    Nginx,
    Apache,
    Php,
    Mysql,
    Redis,
}

/// The name shown to users for each kind.
pub open spec fn spec_display_name(kind: ServiceKind) -> Seq<char> {
    match kind {
        ServiceKind::Nginx => seq!['N', 'g', 'i', 'n', 'x'],
        ServiceKind::Apache => seq!['A', 'p', 'a', 'c', 'h', 'e'],
        ServiceKind::Php => seq!['P', 'H', 'P', '-', 'C', 'G', 'I'],
        ServiceKind::Mysql => seq!['M', 'y', 'S', 'Q', 'L'],
        ServiceKind::Redis => seq!['R', 'e', 'd', 'i', 's'],
    }
}

/// The variant name of each kind, as its `Debug` form spells it.
pub open spec fn spec_kind_tag(kind: ServiceKind) -> Seq<char> {
    match kind {
        ServiceKind::Nginx => seq!['N', 'g', 'i', 'n', 'x'],
        ServiceKind::Apache => seq!['A', 'p', 'a', 'c', 'h', 'e'],
        ServiceKind::Php => seq!['P', 'h', 'p'],
        ServiceKind::Mysql => seq!['M', 'y', 's', 'q', 'l'],
        ServiceKind::Redis => seq!['R', 'e', 'd', 'i', 's'],
    }
}

/// The port each kind listens on unless configured otherwise.
pub open spec fn spec_default_port(kind: ServiceKind) -> u16 {
    match kind {
        ServiceKind::Nginx => 80,
        ServiceKind::Apache => 80,
        ServiceKind::Php => 9000,
        ServiceKind::Mysql => 3306,
        ServiceKind::Redis => 6379,
    }
}

impl ServiceKind {
    pub fn display_name(&self) -> (name: &'static str)
        ensures
            name@ == spec_display_name(*self),
    {
        match self {
            ServiceKind::Nginx => {
                proof { reveal_strlit("Nginx"); }
                "Nginx"
            },
            ServiceKind::Apache => {
                proof { reveal_strlit("Apache"); }
                "Apache"
            },
            ServiceKind::Php => {
                proof { reveal_strlit("PHP-CGI"); }
                "PHP-CGI"
            },
            ServiceKind::Mysql => {
                proof { reveal_strlit("MySQL"); }
                "MySQL"
            },
            ServiceKind::Redis => {
                proof { reveal_strlit("Redis"); }
                "Redis"
            },
        }
    }

    pub fn default_port(&self) -> (port: u16)
        ensures
            port == spec_default_port(*self),
    {
        match self {
            ServiceKind::Nginx => 80,
            ServiceKind::Apache => 80,
            ServiceKind::Php => 9000,
            ServiceKind::Mysql => 3306,
            ServiceKind::Redis => 6379,
        }
    }

    /// The variant name as `Debug` prints it (`"Nginx"`, `"Php"`, ...).
    pub fn tag(&self) -> (name: &'static str)
        ensures
            name@ == spec_kind_tag(*self),
    {
        match self {
            ServiceKind::Nginx => {
                proof { reveal_strlit("Nginx"); }
                "Nginx"
            },
            ServiceKind::Apache => {
                proof { reveal_strlit("Apache"); }
                "Apache"
            },
            ServiceKind::Php => {
                proof { reveal_strlit("Php"); }
                "Php"
            },
            ServiceKind::Mysql => {
                proof { reveal_strlit("Mysql"); }
                "Mysql"
            },
            ServiceKind::Redis => {
                proof { reveal_strlit("Redis"); }
                "Redis"
            },
        }
    }
}

/// Runtime status of a managed service.
#[derive(Debug, Clone, PartialEq, Eq)]
pub enum ServiceStatus {
    Stopped,
    Starting,
    /// `memory_mb`: working-set memory in MB; `None` when it could not be read.
    Running { pid: u32, memory_mb: Option<u64> },
    Stopping,
    Failed { reason: String },
}

impl ServiceStatus {
    pub fn is_running(&self) -> (b: bool)
        ensures
            b == (*self is Running),
    {
        match self {
            ServiceStatus::Running { .. } => true,
            _ => false,
        }
    }

    /// A field-by-field copy of the status.
    pub fn duplicate(&self) -> (out: ServiceStatus)
        ensures
            out == *self,
    {
        match self {
            ServiceStatus::Stopped => ServiceStatus::Stopped,
            ServiceStatus::Starting => ServiceStatus::Starting,
            ServiceStatus::Running { pid, memory_mb } => ServiceStatus::Running {
                pid: *pid,
                memory_mb: *memory_mb,
            },
            ServiceStatus::Stopping => ServiceStatus::Stopping,
            ServiceStatus::Failed { reason } => ServiceStatus::Failed { reason: reason.clone() },
        }
    }
}

/// Where a service instance was discovered.
#[derive(Debug, Clone, Copy, PartialEq, Eq, Structural)]
pub enum ServiceOrigin {
    /// Discovered inside a PHPStudy Extensions directory
    PhpStudy,
    /// Installed via the in-app software store
    Store,
    /// Pointed at by an extra_install_paths entry
    Manual,
    /// Auto-discovered from system PATH or common install directories
    System,
}

impl Default for ServiceOrigin {
    fn default() -> (o: Self)
        ensures
            o == ServiceOrigin::PhpStudy,
    {
        ServiceOrigin::PhpStudy
    }
}

/// Runtime-only options used when launching a PHP FastCGI pool.
#[derive(Debug, Clone, Copy, PartialEq, Eq, Structural)]
pub struct PhpRuntimeOptions {
    pub workers: u16,
    pub max_requests: u32,
}

/// A concrete, runnable service instance.
#[derive(Debug, Clone, PartialEq, Eq)]
pub struct ServiceInstance {
    pub kind: ServiceKind,
    pub version: String,
    pub variant: Option<String>,
    pub install_path: String,
    pub config_path: Option<String>,
    pub port: u16,
    pub status: ServiceStatus,
    pub auto_start: bool,
    /// Where this service was found
    pub origin: ServiceOrigin,
    /// Set only for PHP versions selected by the active-vhost worker policy.
    pub php_runtime: Option<PhpRuntimeOptions>,
}

/// Unicode lower-casing of a string, as `str::to_lowercase` performs it.
pub uninterp spec fn lowercase(s: Seq<char>) -> Seq<char>;

/// `str::to_lowercase`: the string lower-cased by the Unicode rules of std
/// (the Unicode `Lowercase` mapping). Its result is named by `lowercase`;
/// the one fact claimed of it is that an ASCII text is lower-cased as
/// `to_ascii_lowercase` does it (`A`-`Z` to `a`-`z`, everything else kept),
/// which is what the Unicode mapping does to ASCII characters.
#[verifier::external_body]
pub(crate) fn to_lowercase(s: &str) -> (out: String)
    ensures
        out@ == lowercase(s@),
        crate::text::all_ascii(s@) ==> out@ == crate::text::ascii_lower_seq(s@),
{
    s.to_lowercase()
}

/// The identifier text before lower-casing: `Kind-version[-variant]`.
pub open spec fn spec_raw_id(kind: ServiceKind, version: Seq<char>, variant: Option<Seq<char>>) -> Seq<char> {
    match variant {
        Some(v) => spec_kind_tag(kind) + seq!['-'] + version + seq!['-'] + v,
        None => spec_kind_tag(kind) + seq!['-'] + version,
    }
}

pub open spec fn opt_view(o: Option<String>) -> Option<Seq<char>> {
    match o {
        Some(s) => Some(s@),
        None => None,
    }
}

impl ServiceInstance {
    /// The stable identifier of this instance.
    pub open spec fn spec_id(&self) -> Seq<char> {
        lowercase(spec_raw_id(self.kind, self.version@, opt_view(self.variant)))
    }

    pub fn id(&self) -> (id: String)
        ensures
            id@ == self.spec_id(),
    {
        let mut raw = String::new();
        raw.append(self.kind.tag());
        proof { reveal_strlit("-"); }
        raw.append("-");
        raw.append(self.version.as_str());
        match &self.variant {
            Some(v) => {
                raw.append("-");
                raw.append(v.as_str());
            },
            None => {},
        }
        assert(raw@ == spec_raw_id(self.kind, self.version@, opt_view(self.variant)));
        to_lowercase(raw.as_str())
    }

    /// A field-by-field copy of the instance.
    pub fn duplicate(&self) -> (out: ServiceInstance)
        ensures
            out == *self,
    {
        ServiceInstance {
            kind: self.kind,
            version: self.version.clone(),
            variant: match &self.variant {
                Some(v) => Some(v.clone()),
                None => None,
            },
            install_path: self.install_path.clone(),
            config_path: match &self.config_path {
                Some(c) => Some(c.clone()),
                None => None,
            },
            port: self.port,
            status: self.status.duplicate(),
            auto_start: self.auto_start,
            origin: self.origin,
            php_runtime: self.php_runtime,
        }
    }
}

} // verus!
