use batchlapse::agent::{
    agent_api_cli_port, agent_api_headless_requested, agent_api_url, agent_endpoints,
    agent_inputs_from_request, agent_route, agent_status_from, answer_status,
    empty_agent_speed_request, empty_registry, env_truthy, preflight_status,
    publish_agent_api_status, read_registered_agent_api_port, stream_reply, timestamp_string,
    validate_agent_api_port, AgentApiRegistryEntry, AgentRoute, AgentServerControl, StreamReply,
    ToggleSteps, DEFAULT_AGENT_API_PORT,
};
use batchlapse::http::HttpRequest;
use batchlapse::json::{agent_options_from_request, json_answer};
use batchlapse::options::JobInput;
use batchlapse::replies::{
    agent_answer, agent_openapi, done_payload, health_payload, refusal_payload, started_payload,
};
use serde_json::Value;

fn entry(app_id: &str, port: u16) -> AgentApiRegistryEntry {
    AgentApiRegistryEntry {
        app_id: app_id.to_string(),
        app_name: "x".to_string(),
        default_port: 1,
        bind_address: "127.0.0.1".to_string(),
        port,
        enabled: false,
        url: String::new(),
        openapi_url: String::new(),
        busy: false,
        active_job_id: None,
        last_seen: None,
        note: None,
    }
}

fn request(method: &str, path: &str) -> HttpRequest {
    HttpRequest { method: method.to_string(), path: path.to_string(), body: b"{}".to_vec() }
}

fn args(list: &[&str]) -> Vec<String> {
    list.iter().map(|s| s.to_string()).collect()
}

fn value(text: &str) -> Value {
    serde_json::from_str(text).unwrap()
}

#[test]
fn ports_come_from_the_request_the_registry_or_the_default() {
    assert_eq!(DEFAULT_AGENT_API_PORT, 17336);
    assert_eq!(validate_agent_api_port(Some(80), Some(90)), Ok(80));
    assert_eq!(validate_agent_api_port(None, Some(90)), Ok(90));
    assert_eq!(validate_agent_api_port(None, None), Ok(17336));
    assert_eq!(
        validate_agent_api_port(Some(0), Some(90)),
        Err("Agent API port must be between 1 and 65535.".to_string())
    );
    assert_eq!(agent_api_url(17336), "http://127.0.0.1:17336");
    assert_ne!(agent_api_url(1733), agent_api_url(17336));
    assert_eq!(timestamp_string(Some(1_700_000_000)), "1700000000");
    assert_eq!(timestamp_string(None), "0");
}

#[test]
fn registry_gives_the_first_own_port() {
    let mut registry = empty_registry("5".to_string());
    assert_eq!(registry.updated_at, "5");
    assert_eq!(read_registered_agent_api_port(&registry), None);
    registry.apps.push(entry("other", 1));
    assert_eq!(read_registered_agent_api_port(&registry), None);
    registry.apps.push(entry("batchlapse", 7));
    registry.apps.push(entry("batchlapse", 8));
    assert_eq!(read_registered_agent_api_port(&registry), Some(7));
    registry.apps[1].port = 0;
    assert_eq!(read_registered_agent_api_port(&registry), None);
}

#[test]
fn published_ports_are_read_back_beside_other_entries() {
    let mut registry = empty_registry("0".to_string());
    registry.apps.push(entry("other", 1));
    let control = AgentServerControl { enabled: true, port: 4000 };
    let status = agent_status_from(&control, None, Some("job".to_string()));
    publish_agent_api_status(&mut registry, &status, "9".to_string());
    assert_eq!(registry.apps.len(), 2);
    assert_eq!(registry.updated_at, "9");
    assert_eq!(registry.apps[0].app_id, "other");
    assert_eq!(registry.apps[0].port, 1);
    let own = &registry.apps[1];
    assert_eq!(own.app_id, "batchlapse");
    assert_eq!(own.app_name, "BatchLapse");
    assert_eq!(own.default_port, 17336);
    assert_eq!(own.bind_address, "127.0.0.1");
    assert_eq!(own.port, 4000);
    assert!(own.enabled && own.busy);
    assert_eq!(own.url, "http://127.0.0.1:4000");
    assert_eq!(own.openapi_url, "http://127.0.0.1:4000/openapi.json");
    assert_eq!(own.active_job_id, Some("job".to_string()));
    assert_eq!(own.last_seen, Some("9".to_string()));
    assert_eq!(own.note, Some("Local Agent API.".to_string()));
    assert_eq!(read_registered_agent_api_port(&registry), Some(4000));
    let control = AgentServerControl { enabled: false, port: 4001 };
    let status = agent_status_from(&control, None, None);
    publish_agent_api_status(&mut registry, &status, "10".to_string());
    assert_eq!(registry.apps.len(), 2);
    assert_eq!(registry.apps[0].app_id, "other");
    assert_eq!(read_registered_agent_api_port(&registry), Some(4001));
}

#[test]
fn status_speaks_of_port_and_job() {
    let status = agent_status_from(&AgentServerControl::new(), Some(99), None);
    assert!(!status.enabled && !status.busy);
    assert_eq!(status.port, 99);
    assert_eq!(status.url, "http://127.0.0.1:99");
    assert_eq!(status.message, "Agent API is off.");
    assert_eq!(status.active_job_id, None);
    let control = AgentServerControl { enabled: true, port: 5 };
    let status = agent_status_from(&control, Some(99), Some("a".to_string()));
    assert!(status.enabled && status.busy);
    assert_eq!(status.port, 5);
    assert_eq!(status.openapi_url, "http://127.0.0.1:5/openapi.json");
    assert_eq!(status.message, "Agent API is enabled.");
    assert_eq!(status.active_job_id, Some("a".to_string()));
}

#[test]
fn toggling_starts_stops_and_moves() {
    let mut control = AgentServerControl::new();
    assert_eq!(control.port(None), 17336);
    assert_eq!(control.port(Some(7)), 7);
    let steps = control.toggle(None, true, 4000);
    assert_eq!(steps, ToggleSteps { stop: false, listen: true });
    assert!(!control.enabled);
    control.listening();
    assert_eq!(control, AgentServerControl { enabled: true, port: 4000 });
    assert_eq!(control.toggle(None, true, 4000), ToggleSteps { stop: false, listen: false });
    assert!(control.enabled);
    assert_eq!(control.toggle(None, true, 4001), ToggleSteps { stop: true, listen: true });
    assert_eq!(control, AgentServerControl { enabled: false, port: 4001 });
    control.listening();
    assert_eq!(control.toggle(None, false, 4001), ToggleSteps { stop: true, listen: false });
    assert!(!control.enabled);
    assert_eq!(control.toggle(None, false, 4001), ToggleSteps { stop: false, listen: false });
}

#[test]
fn routes_are_found_by_method_and_path() {
    assert_eq!(agent_route("GET", "/health"), Ok(AgentRoute::Health));
    assert_eq!(agent_route("GET", "/openapi.json"), Ok(AgentRoute::OpenApi));
    assert_eq!(agent_route("GET", "/status"), Ok(AgentRoute::Status));
    assert_eq!(agent_route("GET", "/runtime"), Ok(AgentRoute::Runtime));
    assert_eq!(agent_route("POST", "/export"), Ok(AgentRoute::Export));
    assert_eq!(agent_route("POST", "/generate"), Ok(AgentRoute::Export));
    assert_eq!(agent_route("POST", "/cancel"), Ok(AgentRoute::Cancel));
    assert_eq!(
        agent_route("GET", "/cancel"),
        Err("No agent endpoint for GET /cancel".to_string())
    );
    assert_eq!(agent_route("get", "/health"), Err("No agent endpoint for get /health".to_string()));
    assert_eq!(agent_route("OPTIONS", "/health").is_err(), true);
}

#[test]
fn described_paths_are_answered() {
    let list = agent_endpoints();
    assert_eq!(list.len(), 6);
    assert_eq!(list[0].path, "/health");
    assert_eq!(list[4].summary, "Alias for /export");
    for e in list {
        assert!(agent_route(&e.method.to_uppercase(), &e.path).is_ok());
    }
}

#[test]
fn streams_are_answered_by_route_preflight_or_refusal() {
    assert!(matches!(stream_reply(Ok(request("OPTIONS", "/x"))), StreamReply::Preflight));
    match stream_reply(Ok(request("POST", "/export"))) {
        StreamReply::Route(AgentRoute::Export, body) => assert_eq!(body, b"{}"),
        _ => panic!("not a route"),
    }
    match stream_reply(Ok(request("PUT", "/export"))) {
        StreamReply::Refuse(e) => assert_eq!(e, "No agent endpoint for PUT /export"),
        _ => panic!("not refused"),
    }
    match stream_reply(Err("broken".to_string())) {
        StreamReply::Refuse(e) => assert_eq!(e, "broken"),
        _ => panic!("not refused"),
    }
    assert_eq!(preflight_status(), "204 No Content");
    assert_eq!(answer_status(true), "200 OK");
    assert_eq!(answer_status(false), "400 Bad Request");
}

#[test]
fn videos_come_from_inputs_or_paths() {
    assert!(empty_agent_speed_request(b"{}").is_none());
    let request = empty_agent_speed_request(b"").unwrap();
    assert!(request.inputs.is_none() && request.paths.is_none() && request.options.is_none());
    let given = vec![JobInput { path: "a".to_string(), start_seconds: None, end_seconds: None }];
    let list = agent_inputs_from_request(Some(given), args(&["b", "c"]));
    assert_eq!(list.len(), 1);
    assert_eq!(list[0].path, "a");
    let list = agent_inputs_from_request(None, args(&["b", "c"]));
    assert_eq!(list.len(), 2);
    assert_eq!(list[1].path, "c");
    assert!(list[1].start_seconds.is_none() && list[1].end_seconds.is_none());
}

#[test]
fn variables_say_yes() {
    for v in ["1", "true", " YES ", "On\n"] {
        assert!(env_truthy(Some(v)), "{v}");
    }
    for v in ["", "0", "no", "truee", "2"] {
        assert!(!env_truthy(Some(v)), "{v}");
    }
    assert!(!env_truthy(None));
}

#[test]
fn windows_are_hidden_on_request() {
    assert!(!agent_api_headless_requested(&args(&["app"]), None, None));
    assert!(agent_api_headless_requested(&args(&["app", "--headless"]), None, None));
    assert!(agent_api_headless_requested(&args(&["app", "x", "--serve-agent-api"]), None, None));
    assert!(!agent_api_headless_requested(&args(&["app", "--Headless"]), Some("0"), None));
    assert!(agent_api_headless_requested(&args(&["app"]), Some("1"), None));
    assert!(agent_api_headless_requested(&args(&[]), None, Some("on")));
}

#[test]
fn start_ports_come_from_arguments_first() {
    let port = |list: &[&str], own: Option<&str>, shared: Option<&str>| {
        agent_api_cli_port(&args(list), own, shared)
    };
    assert_eq!(port(&["app"], None, None), None);
    assert_eq!(port(&["app", "--agent-api-port", "81"], Some("1"), Some("2")), Some(81));
    assert_eq!(port(&["app", "x", "--agent-port=82"], None, None), Some(82));
    assert_eq!(port(&["app", "--agent-api-port=83", "--agent-port=84"], None, None), Some(83));
    assert_eq!(port(&["app", "--agent-port"], Some("1"), None), None);
    assert_eq!(port(&["app", "--agent-port", "x"], Some("1"), None), None);
    assert_eq!(port(&["app", "--agent-port=65536"], Some("1"), None), None);
    assert_eq!(port(&["--agent-port=82"], Some("1"), Some("2")), Some(1));
    assert_eq!(port(&["app"], None, Some("2")), Some(2));
    assert_eq!(port(&["app"], Some("x"), Some("2")), None);
    assert_eq!(port(&["app"], Some(" 1"), Some("2")), None);
}

#[test]
fn given_options_lie_over_the_defaults() {
    let defaults = value("{\"a\": 1, \"b\": [2], \"c\": null}");
    assert_eq!(agent_options_from_request(defaults.clone(), None), Ok(defaults.clone()));
    assert_eq!(
        agent_options_from_request(defaults.clone(), Some(Value::Null)),
        Ok(defaults.clone())
    );
    assert_eq!(
        agent_options_from_request(defaults.clone(), Some(value("{\"b\": {\"x\": 1}, \"d\": true}"))),
        Ok(value("{\"a\": 1, \"b\": {\"x\": 1}, \"c\": null, \"d\": true}"))
    );
    assert_eq!(
        agent_options_from_request(defaults.clone(), Some(value("[1]"))),
        Err("Agent options must be a JSON object.".to_string())
    );
    assert_eq!(
        agent_options_from_request(Value::Bool(true), Some(value("{}"))),
        Err("Unable to merge default options.".to_string())
    );
}

#[test]
fn answers_carry_json() {
    let answer = json_answer("200 OK", &value("{\"b\": 1, \"a\": \"é\"}")).unwrap();
    assert_eq!(value(&String::from_utf8(answer.body.clone()).unwrap()), value("{\"a\":\"é\",\"b\":1}"));
    assert!(answer.head.starts_with("HTTP/1.1 200 OK\r\n"));
    assert!(answer.head.contains(&format!("Content-Length: {}\r\n", answer.body.len())));
}

#[test]
fn refused_requests_are_answered_with_the_reason() {
    let answer = agent_answer(Err("No agent endpoint for GET /x".to_string())).unwrap();
    assert!(answer.head.starts_with("HTTP/1.1 400 Bad Request\r\n"));
    assert_eq!(
        value(&String::from_utf8(answer.body).unwrap()),
        value("{\"ok\": false, \"error\": \"No agent endpoint for GET /x\"}")
    );
    let answer = agent_answer(Ok(done_payload())).unwrap();
    assert!(answer.head.starts_with("HTTP/1.1 200 OK\r\n"));
    assert_eq!(answer.body, b"{\"ok\":true}");
}

#[test]
fn payloads_are_json_objects() {
    assert_eq!(done_payload(), value("{\"ok\": true}"));
    assert_eq!(
        started_payload("id".to_string()),
        value("{\"ok\": true, \"jobId\": \"id\"}")
    );
    assert_eq!(
        refusal_payload("e\"".to_string()),
        value("{\"ok\": false, \"error\": \"e\\\"\"}")
    );
    assert_eq!(
        health_payload("1.2.3", "http://127.0.0.1:1".to_string()),
        value("{\"ok\": true, \"service\": \"BatchLapse\", \"version\": \"1.2.3\", \"url\": \"http://127.0.0.1:1\"}")
    );
}

#[test]
fn interface_describes_itself() {
    let expected = "{
        \"openapi\": \"3.1.0\",
        \"info\": { \"title\": \"BatchLapse Agent API\", \"version\": \"9\" },
        \"servers\": [{ \"url\": \"http://127.0.0.1:4000\" }],
        \"paths\": {
            \"/health\": { \"get\": { \"summary\": \"Check API status\" } },
            \"/status\": { \"get\": { \"summary\": \"Check active export status\" } },
            \"/runtime\": { \"get\": { \"summary\": \"Check FFmpeg readiness with default settings\" } },
            \"/export\": { \"post\": { \"summary\": \"Start a batch speed export\" } },
            \"/generate\": { \"post\": { \"summary\": \"Alias for /export\" } },
            \"/cancel\": { \"post\": { \"summary\": \"Cancel the active export\" } }
        }
    }";
    assert_eq!(agent_openapi(4000, "9"), value(expected));
}
