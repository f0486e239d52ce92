//! The local control interface: whether and where it listens, what it says of itself, where other
//! programs find it, and what it answers to which request.

use crate::http::HttpRequest;
use crate::options::JobInput;
use crate::text::{
    all_digits, cat2, cat3, decimal, digits_value, is_digit, lemma_decimal_digits,
    lemma_decimal_reads_back, lemma_decimal_value, lowered, number, opt_text, parse, parsed, same,
    same_ignoring_case, strip, stripped, to_lower, trim, trimmed,
};
use vstd::prelude::*;

verus! {

/// The port of the interface, unless another one is chosen.
pub const DEFAULT_AGENT_API_PORT: u16 = 17336;

// ---------------------------------------------------------------------------------------------
// The registry of local interfaces
// ---------------------------------------------------------------------------------------------

/// What the registry says of one program.
pub struct AgentApiRegistryEntry {
    pub app_id: String,
    pub app_name: String,
    pub default_port: u16,
    pub bind_address: String,
    pub port: u16,
    pub enabled: bool,
    pub url: String,
    pub openapi_url: String,
    pub busy: bool,
    pub active_job_id: Option<String>,
    pub last_seen: Option<String>,
    pub note: Option<String>,
}

/// The registry of local interfaces, shared by several programs.
pub struct AgentApiRegistry {
    pub updated_at: String,
    pub apps: Vec<AgentApiRegistryEntry>,
}

/// The index of the first entry of this program; the number of entries, where it has none.
pub open spec fn own_entry(apps: Seq<AgentApiRegistryEntry>, from: int) -> int
    decreases apps.len() - from,
{
    if from >= apps.len() {
        apps.len() as int
    } else if apps[from].app_id@ == "batchlapse"@ {
        from
    } else {
        own_entry(apps, from + 1)
    }
}

/// The port that the registry holds for this program, unless it is zero.
pub open spec fn registered_port(apps: Seq<AgentApiRegistryEntry>) -> Option<u16> {
    let i = own_entry(apps, 0);
    if i < apps.len() && apps[i].port > 0 {
        Some(apps[i].port)
    } else {
        None
    }
}

/// The bounds of `own_entry`, and what it says.
pub proof fn lemma_own_entry(apps: Seq<AgentApiRegistryEntry>, from: int)
    requires
        0 <= from <= apps.len(),
    ensures
        from <= own_entry(apps, from) <= apps.len(),
        own_entry(apps, from) < apps.len() ==> apps[own_entry(apps, from)].app_id@
            == "batchlapse"@,
        forall|i: int| from <= i < own_entry(apps, from) ==> apps[i].app_id@ != "batchlapse"@,
    decreases apps.len() - from,
{
    if from < apps.len() {
        lemma_own_entry(apps, from + 1);
    }
}

fn find_own_entry(apps: &Vec<AgentApiRegistryEntry>) -> (r: usize)
    ensures
        r == own_entry(apps@, 0),
        r <= apps@.len(),
{
    let mut i: usize = 0;
    while i < apps.len() && !same(apps[i].app_id.as_str(), "batchlapse")
        invariant
            i <= apps@.len(),
            own_entry(apps@, 0) == own_entry(apps@, i as int),
        decreases apps@.len() - i,
    {
        i += 1;
    }
    i
}

/// The port that the registry holds for this program, unless it is zero.
pub fn read_registered_agent_api_port(registry: &AgentApiRegistry) -> (r: Option<u16>)
    ensures
        r == registered_port(registry.apps@),
{
    let i = find_own_entry(&registry.apps);
    if i < registry.apps.len() && registry.apps[i].port > 0 {
        Some(registry.apps[i].port)
    } else {
        None
    }
}

/// The registry where none can be read: without entries.
pub fn empty_registry(updated_at: String) -> (r: AgentApiRegistry)
    ensures
        r.updated_at == updated_at,
        r.apps@.len() == 0,
{
    AgentApiRegistry { updated_at, apps: Vec::new() }
}

/// A moment as the registry holds it: the seconds since 1970; zero, where the clock is before
/// that.
pub fn timestamp_string(seconds: Option<u64>) -> (r: String)
    ensures
        r@ == decimal(match seconds {
            Some(s) => s as nat,
            None => 0,
        }),
{
    match seconds {
        Some(s) => number(s),
        None => number(0),
    }
}

// ---------------------------------------------------------------------------------------------
// Ports and addresses
// ---------------------------------------------------------------------------------------------

/// The port that is asked for, or else the registered one, or else the default one.
pub open spec fn chosen_port(port: Option<u16>, registered: Option<u16>) -> u16 {
    match (port, registered) {
        (Some(p), _) => p,
        (None, Some(p)) => p,
        (None, None) => DEFAULT_AGENT_API_PORT,
    }
}

/// The port to listen on. Zero is none.
pub fn validate_agent_api_port(port: Option<u16>, registered: Option<u16>) -> (r: Result<
    u16,
    String,
>)
    ensures
        match r {
            Ok(p) => p == chosen_port(port, registered) && p > 0,
            Err(e) => chosen_port(port, registered) == 0 && e@
                == "Agent API port must be between 1 and 65535."@,
        },
{
    let p = match port {
        Some(p) => p,
        None => match registered {
            Some(p) => p,
            None => DEFAULT_AGENT_API_PORT,
        },
    };
    if p == 0 {
        Err("Agent API port must be between 1 and 65535.".to_string())
    } else {
        Ok(p)
    }
}

/// The address of the interface on a port.
pub open spec fn url_of(port: u16) -> Seq<char> {
    "http://127.0.0.1:"@ + decimal(port as nat)
}

/// The address of the interface on a port.
pub fn agent_api_url(port: u16) -> (r: String)
    ensures
        r@ == url_of(port),
{
    cat2("http://127.0.0.1:", number(port as u64).as_str())
}

/// Different ports have different addresses.
pub proof fn law_url_names_port(a: u16, b: u16)
    requires
        url_of(a) == url_of(b),
    ensures
        a == b,
{
    let n = "http://127.0.0.1:"@.len() as int;
    assert(url_of(a).skip(n) =~= decimal(a as nat));
    assert(url_of(b).skip(n) =~= decimal(b as nat));
    crate::text::lemma_decimal_injective(a as nat, b as nat);
}

/// The address is on this machine, and ends with the port.
pub proof fn law_address_is_local(port: u16)
    ensures
        exists|n: Seq<char>| #[trigger]
            all_digits(n) && digits_value(n) == port && url_of(port) == "http://127.0.0.1:"@ + n,
{
    lemma_decimal_digits(port as nat);
    lemma_decimal_value(port as nat);
    assert(all_digits(decimal(port as nat)));
}

/// A port that is asked for is the one that is used, whatever is registered; and a registered one is used
/// where none is asked for.
pub proof fn law_asked_port_comes_first(port: u16, registered: Option<u16>, control: AgentServerControl)
    ensures
        chosen_port(Some(port), registered) == port,
        chosen_port(None, Some(port)) == port,
        chosen_port(None, None) == 17336,
        control.port > 0 ==> port_of(control, registered) == control.port,
        control.port == 0 ==> port_of(control, Some(port)) == port && port_of(control, None) == 17336,
{
}

// ---------------------------------------------------------------------------------------------
// Listening
// ---------------------------------------------------------------------------------------------

/// Whether and where the interface listens.
#[derive(Clone, Copy, Debug, PartialEq, Eq, Structural)]
pub struct AgentServerControl {
    /// Whether it listens.
    pub enabled: bool,
    /// The port that was chosen last; zero, before one was.
    pub port: u16,
}

/// What has to be done to start, stop or move the interface.
#[derive(Clone, Copy, Debug, PartialEq, Eq, Structural)]
pub struct ToggleSteps {
    /// Tell the interface that listens to stop.
    pub stop: bool,
    /// Listen on the port that is asked for.
    pub listen: bool,
}

/// The port of the interface: the one chosen last, or else the registered one, or else the default
/// one.
pub open spec fn port_of(control: AgentServerControl, registered: Option<u16>) -> u16 {
    if control.port == 0 {
        chosen_port(None, registered)
    } else {
        control.port
    }
}

/// What has to be done for the interface to listen, or not, on a port.
pub open spec fn toggle_steps(
    control: AgentServerControl,
    registered: Option<u16>,
    enabled: bool,
    port: u16,
) -> ToggleSteps {
    let stop = control.enabled && (!enabled || port_of(control, registered) != port);
    ToggleSteps { stop, listen: enabled && (stop || !control.enabled) }
}

impl AgentServerControl {
    /// The interface does not listen at first, and no port is chosen.
    pub fn new() -> (r: AgentServerControl)
        ensures
            r == (AgentServerControl { enabled: false, port: 0 }),
    {
        AgentServerControl { enabled: false, port: 0 }
    }

    /// The port of the interface, given the registered one.
    pub fn port(&self, registered: Option<u16>) -> (r: u16)
        ensures
            r == port_of(*self, registered),
    {
        if self.port == 0 {
            match registered {
                Some(p) => p,
                None => DEFAULT_AGENT_API_PORT,
            }
        } else {
            self.port
        }
    }

    /// Says what has to be done for the interface to listen, or not, on a port, and takes the
    /// port over. Until `listening` is called, an interface that has to be started does not
    /// listen.
    pub fn toggle(&mut self, registered: Option<u16>, enabled: bool, port: u16) -> (r: ToggleSteps)
        ensures
            r == toggle_steps(*old(self), registered, enabled, port),
            *final(self) == (AgentServerControl { enabled: old(self).enabled && !r.stop, port }),
    {
        let stop = self.enabled && (!enabled || self.port(registered) != port);
        if stop {
            self.enabled = false;
        }
        self.port = port;
        ToggleSteps { stop, listen: enabled && !self.enabled }
    }

    /// Notes that the interface listens.
    pub fn listening(&mut self)
        ensures
            *final(self) == (AgentServerControl { enabled: true, port: old(self).port }),
    {
        self.enabled = true;
    }
}

/// Once the steps are done, the interface listens exactly if it was asked to, on the port that was
/// asked for, and doing the same again takes no step.
pub proof fn law_toggle_settles(
    control: AgentServerControl,
    registered: Option<u16>,
    enabled: bool,
    port: u16,
)
    requires
        port > 0,
    ensures
        ({
            let steps = toggle_steps(control, registered, enabled, port);
            let after = AgentServerControl {
                enabled: (control.enabled && !steps.stop) || steps.listen,
                port,
            };
            &&& after.enabled == enabled
            &&& port_of(after, registered) == port
            &&& toggle_steps(after, registered, enabled, port) == (ToggleSteps {
                stop: false,
                listen: false,
            })
        }),
{
}

// ---------------------------------------------------------------------------------------------
// Status
// ---------------------------------------------------------------------------------------------

/// What the interface says of itself.
pub struct AgentServerStatus {
    pub enabled: bool,
    pub port: u16,
    pub url: String,
    pub openapi_url: String,
    pub busy: bool,
    pub active_job_id: Option<String>,
    pub message: String,
}

/// What the interface says of itself on a port, while a job runs or none does.
pub open spec fn is_status(
    s: AgentServerStatus,
    enabled: bool,
    port: u16,
    active_job_id: Option<Seq<char>>,
) -> bool {
    &&& s.enabled == enabled
    &&& s.port == port
    &&& s.url@ == url_of(port)
    &&& s.openapi_url@ == url_of(port) + "/openapi.json"@
    &&& s.busy == (active_job_id is Some)
    &&& opt_text(s.active_job_id) == active_job_id
    &&& s.message@ == (if enabled {
        "Agent API is enabled."@
    } else {
        "Agent API is off."@
    })
}

/// What the interface says of itself, given the registered port and the running job.
pub fn agent_status_from(
    control: &AgentServerControl,
    registered: Option<u16>,
    active_job_id: Option<String>,
) -> (s: AgentServerStatus)
    ensures
        is_status(s, control.enabled, port_of(*control, registered), opt_text(active_job_id)),
{
    let port = control.port(registered);
    let url = agent_api_url(port);
    let openapi_url = cat2(url.as_str(), "/openapi.json");
    AgentServerStatus {
        enabled: control.enabled,
        port,
        url,
        openapi_url,
        busy: active_job_id.is_some(),
        active_job_id,
        message: if control.enabled {
            "Agent API is enabled.".to_string()
        } else {
            "Agent API is off.".to_string()
        },
    }
}

/// What the registry says of this program after it was published.
pub open spec fn is_own_entry(
    e: AgentApiRegistryEntry,
    status: AgentServerStatus,
    now: Seq<char>,
) -> bool {
    &&& e.app_id@ == "batchlapse"@
    &&& e.app_name@ == "BatchLapse"@
    &&& e.default_port == DEFAULT_AGENT_API_PORT
    &&& e.bind_address@ == "127.0.0.1"@
    &&& e.port == status.port
    &&& e.enabled == status.enabled
    &&& e.url@ == status.url@
    &&& e.openapi_url@ == status.openapi_url@
    &&& e.busy == status.busy
    &&& opt_text(e.active_job_id) == opt_text(status.active_job_id)
    &&& opt_text(e.last_seen) == Some(now)
    &&& opt_text(e.note) == Some("Local Agent API."@)
}

/// The entries after this program was published: its entry takes the place of the first one that
/// it had, or comes last where it had none; all others are as they were.
pub open spec fn is_published(
    before: Seq<AgentApiRegistryEntry>,
    after: Seq<AgentApiRegistryEntry>,
    status: AgentServerStatus,
    now: Seq<char>,
) -> bool {
    let i = own_entry(before, 0);
    &&& after.len() == if i < before.len() {
        before.len()
    } else {
        before.len() + 1
    }
    &&& is_own_entry(after[i], status, now)
    &&& forall|j: int| 0 <= j < before.len() && j != i ==> after[j] == before[j]
}

fn copy_text(s: &Option<String>) -> (r: Option<String>)
    ensures
        opt_text(r) == opt_text(*s),
{
    match s {
        Some(s) => Some(s.clone()),
        None => None,
    }
}

/// Enters what the interface says of itself into the registry.
pub fn publish_agent_api_status(
    registry: &mut AgentApiRegistry,
    status: &AgentServerStatus,
    updated_at: String,
)
    ensures
        is_published(old(registry).apps@, final(registry).apps@, *status, updated_at@),
        final(registry).updated_at@ == updated_at@,
{
    let entry = AgentApiRegistryEntry {
        app_id: "batchlapse".to_string(),
        app_name: "BatchLapse".to_string(),
        default_port: DEFAULT_AGENT_API_PORT,
        bind_address: "127.0.0.1".to_string(),
        port: status.port,
        enabled: status.enabled,
        url: status.url.clone(),
        openapi_url: status.openapi_url.clone(),
        busy: status.busy,
        active_job_id: copy_text(&status.active_job_id),
        last_seen: Some(updated_at.clone()),
        note: Some("Local Agent API.".to_string()),
    };
    let i = find_own_entry(&registry.apps);
    if i < registry.apps.len() {
        registry.apps.set(i, entry);
    } else {
        registry.apps.push(entry);
    }
    registry.updated_at = updated_at;
}

/// After this program was published, the registry gives back its port, unless it is zero.
pub proof fn law_published_port_is_read_back(
    before: Seq<AgentApiRegistryEntry>,
    after: Seq<AgentApiRegistryEntry>,
    status: AgentServerStatus,
    now: Seq<char>,
)
    requires
        is_published(before, after, status, now),
    ensures
        registered_port(after) == if status.port > 0 {
            Some(status.port)
        } else {
            None
        },
{
    lemma_own_entry(before, 0);
    lemma_own_entry(after, 0);
    let i = own_entry(before, 0);
    let j = own_entry(after, 0);
    if j < i {
        assert(after[j] == before[j]);
    }
}

/// After this program was published, one entry of the registry says of it what it says of itself: the
/// address and the port, whether it listens, and the job that runs; and when that was.
pub proof fn law_published_entry_tells_status(
    before: Seq<AgentApiRegistryEntry>,
    after: Seq<AgentApiRegistryEntry>,
    status: AgentServerStatus,
    now: Seq<char>,
    enabled: bool,
    port: u16,
    job: Option<Seq<char>>,
)
    requires
        is_published(before, after, status, now),
        is_status(status, enabled, port, job),
    ensures
        exists|i: int|
            0 <= i < after.len() && (#[trigger] after[i]).app_id@ == "batchlapse"@ && after[i].port
                == port && after[i].enabled == enabled && after[i].url@ == url_of(port)
                && after[i].openapi_url@ == url_of(port) + "/openapi.json"@ && after[i].busy == (job
                is Some) && opt_text(after[i].active_job_id) == job && opt_text(after[i].last_seen)
                == Some(now) && after[i].bind_address@ == "127.0.0.1"@,
{
    lemma_own_entry(before, 0);
    let i = own_entry(before, 0);
    assert(after[i].app_id@ == "batchlapse"@);
}

/// What the interface says of itself agrees with whether it listens, its port and the running job.
pub proof fn law_status_tells_state(
    s: AgentServerStatus,
    enabled: bool,
    port: u16,
    job: Option<Seq<char>>,
)
    requires
        is_status(s, enabled, port, job),
    ensures
        s.enabled == enabled,
        s.port == port,
        s.url@ == url_of(s.port),
        s.openapi_url@ == s.url@ + "/openapi.json"@,
        s.busy <==> s.active_job_id is Some,
        opt_text(s.active_job_id) == job,
        s.message@ == "Agent API is enabled."@ || !s.enabled,
{
}

/// The entries of other programs survive, in their order, and publishing again adds none.
pub proof fn law_publishing_keeps_other_entries(
    before: Seq<AgentApiRegistryEntry>,
    after: Seq<AgentApiRegistryEntry>,
    later: Seq<AgentApiRegistryEntry>,
    status: AgentServerStatus,
    now: Seq<char>,
    next_status: AgentServerStatus,
    next: Seq<char>,
)
    requires
        is_published(before, after, status, now),
        is_published(after, later, next_status, next),
    ensures
        later.len() == after.len(),
        forall|j: int|
            0 <= j < before.len() && before[j].app_id@ != "batchlapse"@ ==> later[j] == before[j],
{
    lemma_own_entry(before, 0);
    lemma_own_entry(after, 0);
    let i = own_entry(before, 0);
    let k = own_entry(after, 0);
    if k < i {
        assert(after[k] == before[k]);
    }
    assert(k == i);
    assert forall|j: int|
        0 <= j < before.len() && before[j].app_id@ != "batchlapse"@ implies later[j]
        == before[j] by {
        assert(j != i);
        assert(after[j] == before[j]);
    }
}

// ---------------------------------------------------------------------------------------------
// Routes
// ---------------------------------------------------------------------------------------------

/// What a request asks for.
#[derive(Clone, Copy, Debug, PartialEq, Eq, Structural)]
pub enum AgentRoute {
    Health,
    OpenApi,
    Status,
    Runtime,
    Export,
    Cancel,
}

/// What a method and a path ask for, if anything.
pub open spec fn route_of(method: Seq<char>, path: Seq<char>) -> Option<AgentRoute> {
    if method == "GET"@ {
        if path == "/health"@ {
            Some(AgentRoute::Health)
        } else if path == "/openapi.json"@ {
            Some(AgentRoute::OpenApi)
        } else if path == "/status"@ {
            Some(AgentRoute::Status)
        } else if path == "/runtime"@ {
            Some(AgentRoute::Runtime)
        } else {
            None
        }
    } else if method == "POST"@ {
        if path == "/export"@ || path == "/generate"@ {
            Some(AgentRoute::Export)
        } else if path == "/cancel"@ {
            Some(AgentRoute::Cancel)
        } else {
            None
        }
    } else {
        None
    }
}

/// What a method and a path ask for.
pub fn agent_route(method: &str, path: &str) -> (r: Result<AgentRoute, String>)
    ensures
        match r {
            Ok(route) => route_of(method@, path@) == Some(route),
            Err(e) => route_of(method@, path@) is None && e@ == "No agent endpoint for "@ + method@
                + " "@ + path@,
        },
{
    proof {
        lemma_methods_differ();
    }
    if same(method, "GET") {
        if same(path, "/health") {
            return Ok(AgentRoute::Health);
        }
        if same(path, "/openapi.json") {
            return Ok(AgentRoute::OpenApi);
        }
        if same(path, "/status") {
            return Ok(AgentRoute::Status);
        }
        if same(path, "/runtime") {
            return Ok(AgentRoute::Runtime);
        }
    } else if same(method, "POST") {
        if same(path, "/export") || same(path, "/generate") {
            return Ok(AgentRoute::Export);
        }
        if same(path, "/cancel") {
            return Ok(AgentRoute::Cancel);
        }
    }
    let mut e = cat3("No agent endpoint for ", method, " ");
    e.append(path);
    Err(e)
}

proof fn lemma_methods_differ()
    ensures
        "GET"@ != "POST"@,
        "OPTIONS"@ != "GET"@,
        "OPTIONS"@ != "POST"@,
{
    reveal_strlit("GET");
    reveal_strlit("POST");
    reveal_strlit("OPTIONS");
    assert("GET"@.len() == 3 && "POST"@.len() == 4 && "OPTIONS"@.len() == 7);
}

/// How a request is answered.
pub enum StreamReply {
    /// Without a body: a page asks what it may send.
    Preflight,
    /// With what the route gives, for the body of the request.
    Route(AgentRoute, Vec<u8>),
    /// With an error.
    Refuse(String),
}

/// How a request is answered: one that could not be read, or that names nothing there is, is
/// refused.
pub open spec fn is_reply(read: Result<HttpRequest, String>, r: StreamReply) -> bool {
    match read {
        Err(e) => r matches StreamReply::Refuse(why) && why@ == e@,
        Ok(request) => if request.method@ == "OPTIONS"@ {
            r is Preflight
        } else {
            match route_of(request.method@, request.path@) {
                Some(route) => r matches StreamReply::Route(to, body) && to == route && body@
                    == request.body@,
                None => r is Refuse,
            }
        },
    }
}

/// A request is answered by the route that its method and its path name, with the body that it carries;
/// a page's question without a body; and all else is refused.
pub proof fn law_requests_reach_their_routes(request: HttpRequest, error: String, r: StreamReply)
    ensures
        is_reply(Err(error), r) ==> r is Refuse,
        is_reply(Ok(request), r) && r is Preflight ==> request.method@ == "OPTIONS"@,
        is_reply(Ok(request), r) ==> (r matches StreamReply::Route(route, body) ==> body@
            == request.body@ && match route {
            AgentRoute::Health => request.method@ == "GET"@ && request.path@ == "/health"@,
            AgentRoute::OpenApi => request.method@ == "GET"@ && request.path@ == "/openapi.json"@,
            AgentRoute::Status => request.method@ == "GET"@ && request.path@ == "/status"@,
            AgentRoute::Runtime => request.method@ == "GET"@ && request.path@ == "/runtime"@,
            AgentRoute::Export => request.method@ == "POST"@ && (request.path@ == "/export"@
                || request.path@ == "/generate"@),
            AgentRoute::Cancel => request.method@ == "POST"@ && request.path@ == "/cancel"@,
        }),
        is_reply(Ok(request), r) && r is Refuse ==> !(request.method@ == "OPTIONS"@) && !(
        request.method@ == "GET"@ && (request.path@ == "/health"@ || request.path@
            == "/openapi.json"@ || request.path@ == "/status"@ || request.path@ == "/runtime"@))
            && !(request.method@ == "POST"@ && (request.path@ == "/export"@ || request.path@
            == "/generate"@ || request.path@ == "/cancel"@)),
{
    lemma_methods_differ();
}

/// How a request is answered: one that could not be read, or that names nothing there is, is
/// refused.
pub fn stream_reply(read: Result<HttpRequest, String>) -> (r: StreamReply)
    ensures
        is_reply(read, r),
        match read {
            Err(e) => r matches StreamReply::Refuse(why) && why@ == e@,
            Ok(request) => if request.method@ == "OPTIONS"@ {
                r is Preflight
            } else {
                match route_of(request.method@, request.path@) {
                    Some(route) => r matches StreamReply::Route(to, body) && to == route && body@
                        == request.body@,
                    None => r matches StreamReply::Refuse(why) && why@ == "No agent endpoint for "@
                        + request.method@ + " "@ + request.path@,
                }
            },
        },
{
    match read {
        Err(e) => StreamReply::Refuse(e),
        Ok(request) => {
            if same(request.method.as_str(), "OPTIONS") {
                return StreamReply::Preflight;
            }
            match agent_route(request.method.as_str(), request.path.as_str()) {
                Ok(route) => StreamReply::Route(route, request.body),
                Err(e) => StreamReply::Refuse(e),
            }
        },
    }
}

/// The status line of an answer without a body.
pub fn preflight_status() -> (r: &'static str)
    ensures
        r@ == "204 No Content"@,
{
    "204 No Content"
}

/// The status line of an answer with a body: what was asked for, or an error.
pub fn answer_status(success: bool) -> (r: &'static str)
    ensures
        r@ == if success {
            "200 OK"@
        } else {
            "400 Bad Request"@
        },
{
    if success {
        "200 OK"
    } else {
        "400 Bad Request"
    }
}

/// A path that the interface describes.
pub struct Endpoint {
    pub path: String,
    pub method: String,
    pub summary: String,
}

/// What the interface says of a path.
pub ghost struct EndpointView {
    pub path: Seq<char>,
    pub method: Seq<char>,
    pub summary: Seq<char>,
}

/// The paths that the interface describes.
pub open spec fn endpoints() -> Seq<EndpointView> {
    seq![
        EndpointView { path: "/health"@, method: "get"@, summary: "Check API status"@ },
        EndpointView { path: "/status"@, method: "get"@, summary: "Check active export status"@ },
        EndpointView {
            path: "/runtime"@,
            method: "get"@,
            summary: "Check FFmpeg readiness with default settings"@,
        },
        EndpointView { path: "/export"@, method: "post"@, summary: "Start a batch speed export"@ },
        EndpointView { path: "/generate"@, method: "post"@, summary: "Alias for /export"@ },
        EndpointView { path: "/cancel"@, method: "post"@, summary: "Cancel the active export"@ },
    ]
}

/// What a list of paths says.
pub open spec fn endpoint_views(list: Seq<Endpoint>) -> Seq<EndpointView> {
    Seq::new(
        list.len(),
        |i: int|
            EndpointView {
                path: list[i].path@,
                method: list[i].method@,
                summary: list[i].summary@,
            },
    )
}

fn endpoint(path: &str, method: &str, summary: &str) -> (r: Endpoint)
    ensures
        r.path@ == path@,
        r.method@ == method@,
        r.summary@ == summary@,
{
    Endpoint {
        path: path.to_string(),
        method: method.to_string(),
        summary: summary.to_string(),
    }
}

/// The paths that the interface describes.
pub fn agent_endpoints() -> (r: Vec<Endpoint>)
    ensures
        endpoint_views(r@) == endpoints(),
{
    let mut list: Vec<Endpoint> = Vec::new();
    list.push(endpoint("/health", "get", "Check API status"));
    list.push(endpoint("/status", "get", "Check active export status"));
    list.push(endpoint("/runtime", "get", "Check FFmpeg readiness with default settings"));
    list.push(endpoint("/export", "post", "Start a batch speed export"));
    list.push(endpoint("/generate", "post", "Alias for /export"));
    list.push(endpoint("/cancel", "post", "Cancel the active export"));
    assert(endpoint_views(list@) =~= endpoints());
    list
}

/// Every path that the interface describes is answered, under the method that it describes.
pub proof fn law_described_paths_are_answered(i: int, method: Seq<char>)
    requires
        0 <= i < endpoints().len(),
        endpoints()[i].method == lowered(method),
        method == "GET"@ || method == "POST"@,
    ensures
        route_of(method, endpoints()[i].path) is Some,
{
    reveal_strlit("GET");
    reveal_strlit("POST");
    reveal_strlit("get");
    reveal_strlit("post");
    lemma_methods_differ();
    assert(lowered("GET"@).len() == 3 && lowered("POST"@).len() == 4);
    assert("get"@.len() == 3 && "post"@.len() == 4);
}

/// A page's question what it may send is never taken for a request.
pub proof fn law_preflight_is_no_route(path: Seq<char>)
    ensures
        route_of("OPTIONS"@, path) is None,
{
    lemma_methods_differ();
}

// ---------------------------------------------------------------------------------------------
// Export requests
// ---------------------------------------------------------------------------------------------

/// What a request to export asks for.
pub struct AgentSpeedRequest {
    /// The videos and the parts of them.
    pub inputs: Option<Vec<JobInput>>,
    /// Videos, or folders of videos, in place of them.
    pub paths: Option<Vec<String>>,
    /// The options, as JSON.
    pub options: Option<serde_json::Value>,
}

/// What an empty body asks for, and whether there is a body to be read.
pub fn empty_agent_speed_request(body: &[u8]) -> (r: Option<AgentSpeedRequest>)
    ensures
        match r {
            Some(request) => body@.len() == 0 && request.inputs is None && request.paths is None
                && request.options is None,
            None => body@.len() > 0,
        },
{
    if body.len() == 0 {
        Some(AgentSpeedRequest { inputs: None, paths: None, options: None })
    } else {
        None
    }
}

/// Whole videos.
pub open spec fn whole_videos(list: Seq<JobInput>, paths: Seq<String>) -> bool {
    &&& list.len() == paths.len()
    &&& forall|i: int|
        0 <= i < list.len() ==> (#[trigger] list[i]).path@ == paths[i]@ && list[i].start_seconds
            is None && list[i].end_seconds is None
}

/// The videos of a request: the ones that it gives, or else the whole of each of the videos that
/// its paths were resolved to.
pub fn agent_inputs_from_request(inputs: Option<Vec<JobInput>>, resolved: Vec<String>) -> (r: Vec<
    JobInput,
>)
    ensures
        match inputs {
            Some(list) => r == list,
            None => whole_videos(r@, resolved@),
        },
{
    match inputs {
        Some(list) => list,
        None => {
            let mut list: Vec<JobInput> = Vec::new();
            let mut i: usize = 0;
            while i < resolved.len()
                invariant
                    i <= resolved@.len(),
                    whole_videos(list@, resolved@.take(i as int)),
                decreases resolved@.len() - i,
            {
                let ghost done = list@;
                list.push(
                    JobInput { path: resolved[i].clone(), start_seconds: None, end_seconds: None },
                );
                assert forall|j: int| 0 <= j < list@.len() implies (#[trigger] list@[j]).path@
                    == resolved@.take(i + 1)[j]@ && list@[j].start_seconds is None
                    && list@[j].end_seconds is None by {
                    if j < i {
                        assert(list@[j] == done[j]);
                        assert(resolved@.take(i as int)[j] == resolved@[j]);
                    }
                }
                i += 1;
            }
            assert(resolved@.take(i as int) =~= resolved@);
            list
        },
    }
}

// ---------------------------------------------------------------------------------------------
// Starting without a window
// ---------------------------------------------------------------------------------------------

/// Whether the value of a variable says yes.
pub open spec fn says_yes(value: Seq<char>) -> bool {
    let v = lowered(trimmed(value));
    v == "1"@ || v == "true"@ || v == "yes"@ || v == "on"@
}

/// Whether a variable, if it is there, says yes.
pub fn env_truthy(value: Option<&str>) -> (r: bool)
    ensures
        r == (value matches Some(v) && says_yes(v@)),
{
    match value {
        Some(v) => {
            let word = to_lower(trim(v).as_str());
            let word = word.as_str();
            same(word, "1") || same(word, "true") || same(word, "yes") || same(word, "on")
        },
        None => false,
    }
}

/// Whether an argument asks for a start without a window.
pub open spec fn is_headless_flag(arg: Seq<char>) -> bool {
    arg == "--headless"@ || arg == "--serve-agent-api"@
}

/// Whether a start without a window is asked for: by an argument, or by one of two variables.
pub fn agent_api_headless_requested(
    args: &Vec<String>,
    shared_variable: Option<&str>,
    own_variable: Option<&str>,
) -> (r: bool)
    ensures
        r == ((exists|i: int| 0 <= i < args@.len() && is_headless_flag((#[trigger] args@[i])@)) || (
        shared_variable matches Some(v) && says_yes(v@)) || (own_variable matches Some(v)
            && says_yes(v@))),
{
    let mut i: usize = 0;
    while i < args.len()
        invariant
            i <= args@.len(),
            forall|j: int| 0 <= j < i ==> !is_headless_flag((#[trigger] args@[j])@),
        decreases args@.len() - i,
    {
        let arg = args[i].as_str();
        if same(arg, "--headless") || same(arg, "--serve-agent-api") {
            assert(is_headless_flag(args@[i as int]@));
            return true;
        }
        i += 1;
    }
    env_truthy(shared_variable) || env_truthy(own_variable)
}

/// A port as an argument or a variable gives it.
pub open spec fn port_text(s: Seq<char>) -> Option<u16> {
    match parsed(s, 65535) {
        Some(n) => Some(n as u16),
        None => None,
    }
}

/// Whether an argument announces that the next one is the port.
pub open spec fn is_port_flag(arg: Seq<char>) -> bool {
    arg == "--agent-api-port"@ || arg == "--agent-port"@
}

/// The port that an argument carries after an equals sign.
pub open spec fn inline_port(arg: Seq<char>) -> Option<Seq<char>> {
    match stripped(arg, "--agent-api-port="@) {
        Some(v) => Some(v),
        None => stripped(arg, "--agent-port="@),
    }
}

/// The port that the first argument that speaks of one, from `from` on, names: `None` where no
/// argument does, and `Some(None)` where it names none that can be read.
pub open spec fn args_port(args: Seq<Seq<char>>, from: int) -> Option<Option<u16>>
    decreases args.len() - from,
{
    if from >= args.len() {
        None
    } else if is_port_flag(args[from]) {
        if from + 1 < args.len() {
            Some(port_text(args[from + 1]))
        } else {
            Some(None)
        }
    } else {
        match inline_port(args[from]) {
            Some(v) => Some(port_text(v)),
            None => args_port(args, from + 1),
        }
    }
}

/// The port that a start asks for: the arguments decide, where one of them speaks of it; else the
/// program's own variable, if it is there; else the shared one.
pub open spec fn start_port(
    args: Seq<Seq<char>>,
    own_variable: Option<Seq<char>>,
    shared_variable: Option<Seq<char>>,
) -> Option<u16> {
    match args_port(args, 1) {
        Some(port) => port,
        None => match (own_variable, shared_variable) {
            (Some(v), _) => port_text(v),
            (None, Some(v)) => port_text(v),
            (None, None) => None,
        },
    }
}

fn read_port(s: &str) -> (r: Option<u16>)
    ensures
        r == port_text(s@),
{
    match parse(s, 65535) {
        Some(n) => Some(n as u16),
        None => None,
    }
}

/// The characters of an optional string slice.
pub open spec fn opt_str(s: Option<&str>) -> Option<Seq<char>> {
    match s {
        Some(s) => Some(s@),
        None => None,
    }
}

/// The port that a start asks for. The first argument is the name of the program.
pub fn agent_api_cli_port(
    args: &Vec<String>,
    own_variable: Option<&str>,
    shared_variable: Option<&str>,
) -> (r: Option<u16>)
    ensures
        r == start_port(crate::text::texts(args@), opt_str(own_variable), opt_str(shared_variable)),
{
    let ghost list = crate::text::texts(args@);
    let mut i: usize = 1;
    while i < args.len()
        invariant
            1 <= i,
            list == crate::text::texts(args@),
            args_port(list, 1) == args_port(list, i as int),
        decreases args@.len() - i,
    {
        let arg = args[i].as_str();
        assert(arg@ == list[i as int]);
        if same(arg, "--agent-api-port") || same(arg, "--agent-port") {
            if i + 1 < args.len() {
                assert(list[i + 1] == args@[i + 1]@);
                return read_port(args[i + 1].as_str());
            }
            return None;
        }
        match strip(arg, "--agent-api-port=") {
            Some(value) => {
                return read_port(value.as_str());
            },
            None => {},
        }
        match strip(arg, "--agent-port=") {
            Some(value) => {
                return read_port(value.as_str());
            },
            None => {},
        }
        i += 1;
    }
    match own_variable {
        Some(v) => read_port(v),
        None => match shared_variable {
            Some(v) => read_port(v),
            None => None,
        },
    }
}

/// Whether an argument does not speak of a port.
pub open spec fn is_silent_on_port(arg: Seq<char>) -> bool {
    &&& arg != "--agent-api-port"@
    &&& arg != "--agent-port"@
    &&& !("--agent-api-port="@.is_prefix_of(arg))
    &&& !("--agent-port="@.is_prefix_of(arg))
}

proof fn lemma_silent_arguments(args: Seq<Seq<char>>, from: int, at: int)
    requires
        0 <= from <= at <= args.len(),
        forall|i: int| from <= i < at ==> is_silent_on_port(#[trigger] args[i]),
    ensures
        args_port(args, from) == args_port(args, at),
    decreases at - from,
{
    if from < at {
        let arg = args[from];
        assert(is_silent_on_port(arg));
        let long = "--agent-api-port="@;
        let short = "--agent-port="@;
        if long.len() <= arg.len() && arg.take(long.len() as int) == long {
            assert(long.is_prefix_of(arg)) by {
                assert(long =~= arg.subrange(0, long.len() as int));
            }
        }
        if short.len() <= arg.len() && arg.take(short.len() as int) == short {
            assert(short.is_prefix_of(arg)) by {
                assert(short =~= arg.subrange(0, short.len() as int));
            }
        }
        lemma_silent_arguments(args, from + 1, at);
    }
}

/// The port that follows the first argument that announces one is the port of the start, whatever the
/// variables say. The first argument is the name of the program, and is not looked at.
pub proof fn law_port_argument_is_read_back(
    args: Seq<Seq<char>>,
    at: int,
    port: u16,
    own_variable: Option<Seq<char>>,
    shared_variable: Option<Seq<char>>,
)
    requires
        1 <= at < args.len() - 1,
        forall|i: int| 1 <= i < at ==> is_silent_on_port(#[trigger] args[i]),
        args[at] == "--agent-api-port"@ || args[at] == "--agent-port"@,
        args[at + 1] == decimal(port as nat),
    ensures
        start_port(args, own_variable, shared_variable) == Some(port),
{
    lemma_silent_arguments(args, 1, at);
    lemma_decimal_reads_back(port as nat, 65535);
}

/// The port that the first argument with an equals sign carries is the port of the start, whatever the
/// variables say.
pub proof fn law_port_after_equals_sign_is_read_back(
    args: Seq<Seq<char>>,
    at: int,
    port: u16,
    own_variable: Option<Seq<char>>,
    shared_variable: Option<Seq<char>>,
)
    requires
        1 <= at < args.len(),
        forall|i: int| 1 <= i < at ==> is_silent_on_port(#[trigger] args[i]),
        args[at] == "--agent-api-port="@ + decimal(port as nat) || args[at] == "--agent-port="@
            + decimal(port as nat),
    ensures
        start_port(args, own_variable, shared_variable) == Some(port),
{
    reveal_strlit("--agent-api-port=");
    reveal_strlit("--agent-port=");
    reveal_strlit("--agent-api-port");
    reveal_strlit("--agent-port");
    lemma_silent_arguments(args, 1, at);
    lemma_decimal_reads_back(port as nat, 65535);
    let digits = decimal(port as nat);
    lemma_decimal_digits(port as nat);
    let arg = args[at];
    let long = "--agent-api-port="@;
    let short = "--agent-port="@;
    assert(long.len() == 17 && short.len() == 13);
    assert("--agent-api-port"@.len() == 16 && "--agent-port"@.len() == 12);
    assert(is_digit(digits[0]));
    if arg == long + digits {
        assert(arg.len() > 16);
        assert(arg.take(17) =~= long);
        assert(arg.skip(17) =~= digits);
    } else {
        assert(arg.take(13) =~= short);
        assert(arg.skip(13) =~= digits);
        assert(arg[12] == '=');
        assert("--agent-api-port"@[12] == 'p');
        assert(arg[8] == 'p' && long[8] == 'a');
        if 17 <= arg.len() {
            assert(arg.take(17)[8] == arg[8]);
        }
    }
}

/// Where no argument speaks of a port, the program's own variable decides, if it is there, and otherwise
/// the shared one.
pub proof fn law_own_variable_comes_first(args: Seq<Seq<char>>, port: u16, shared: Option<Seq<char>>)
    requires
        args.len() >= 1,
        forall|i: int| 1 <= i < args.len() ==> is_silent_on_port(#[trigger] args[i]),
    ensures
        start_port(args, Some(decimal(port as nat)), shared) == Some(port),
        start_port(args, None, Some(decimal(port as nat))) == Some(port),
        start_port(args, None, None) is None,
{
    lemma_silent_arguments(args, 1, args.len() as int);
    lemma_decimal_reads_back(port as nat, 65535);
}

/// What says yes says so in whatever case of letters, and with white space around it.
pub proof fn law_yes_in_any_case(value: Seq<char>)
    ensures
        says_yes(value) <==> {
            let v = trimmed(value);
            ||| same_ignoring_case(v, "1"@)
            ||| same_ignoring_case(v, "true"@)
            ||| same_ignoring_case(v, "yes"@)
            ||| same_ignoring_case(v, "on"@)
        },
{
    reveal_strlit("1");
    reveal_strlit("true");
    reveal_strlit("yes");
    reveal_strlit("on");
    assert(lowered("1"@) =~= "1"@);
    assert(lowered("true"@) =~= "true"@);
    assert(lowered("yes"@) =~= "yes"@);
    assert(lowered("on"@) =~= "on"@);
}

} // verus!
