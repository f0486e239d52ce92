//! What the local control interface replies, as JSON.

use crate::agent::{
    agent_api_url, agent_endpoints, answer_status, endpoint_views, endpoints, url_of, EndpointView,
};
use crate::json::{
    bool_value, is_answer, json_answer, json_view, list_value, text_value, Answer, Json,
    ObjectBuilder,
};
use vstd::prelude::*;

verus! {

/// What is said of a request that is refused.
pub open spec fn refusal_json(error: Seq<char>) -> Json {
    Json::Object(map!["ok"@ => Json::Bool(false), "error"@ => Json::Text(error)])
}

/// What is said of a request that was carried out.
pub open spec fn done_json() -> Json {
    Json::Object(map!["ok"@ => Json::Bool(true)])
}

/// What is said of a job that was started.
pub open spec fn started_json(job_id: Seq<char>) -> Json {
    Json::Object(map!["ok"@ => Json::Bool(true), "jobId"@ => Json::Text(job_id)])
}

/// What the interface says to a question whether it is there.
pub open spec fn health_json(version: Seq<char>, url: Seq<char>) -> Json {
    Json::Object(
        map![
            "ok"@ => Json::Bool(true),
            "service"@ => Json::Text("BatchLapse"@),
            "version"@ => Json::Text(version),
            "url"@ => Json::Text(url),
        ],
    )
}

/// What is said of a request that is refused.
pub fn refusal_payload(error: String) -> (value: serde_json::Value)
    ensures
        json_view(value) == refusal_json(error@),
{
    ObjectBuilder::new().with("ok", bool_value(false)).with("error", text_value(error)).build()
}

/// What is said of a request that was carried out.
pub fn done_payload() -> (value: serde_json::Value)
    ensures
        json_view(value) == done_json(),
{
    ObjectBuilder::new().with("ok", bool_value(true)).build()
}

/// What is said of a job that was started.
pub fn started_payload(job_id: String) -> (value: serde_json::Value)
    ensures
        json_view(value) == started_json(job_id@),
{
    ObjectBuilder::new().with("ok", bool_value(true)).with("jobId", text_value(job_id)).build()
}

/// What the interface says to a question whether it is there.
pub fn health_payload(version: &str, url: String) -> (value: serde_json::Value)
    ensures
        json_view(value) == health_json(version@, url@),
{
    ObjectBuilder::new().with("ok", bool_value(true)).with(
        "service",
        text_value("BatchLapse".to_string()),
    ).with("version", text_value(version.to_string())).with("url", text_value(url)).build()
}

/// The description of a path.
pub open spec fn endpoint_json(e: EndpointView) -> Json {
    Json::Object(map![e.method => Json::Object(map!["summary"@ => Json::Text(e.summary)])])
}

/// The descriptions of paths, by the paths.
pub open spec fn paths_json(list: Seq<EndpointView>) -> Map<Seq<char>, Json>
    decreases list.len(),
{
    if list.len() == 0 {
        Map::empty()
    } else {
        paths_json(list.drop_last()).insert(list.last().path, endpoint_json(list.last()))
    }
}

/// The description of the interface on a port.
pub open spec fn openapi_json(port: u16, version: Seq<char>) -> Json {
    Json::Object(
        map![
            "openapi"@ => Json::Text("3.1.0"@),
            "info"@ => Json::Object(
                map![
                    "title"@ => Json::Text("BatchLapse Agent API"@),
                    "version"@ => Json::Text(version),
                ],
            ),
            "servers"@ => Json::List(
                seq![Json::Object(map!["url"@ => Json::Text(url_of(port))])],
            ),
            "paths"@ => Json::Object(paths_json(endpoints())),
        ],
    )
}

/// The description of the interface on a port.
pub fn agent_openapi(port: u16, version: &str) -> (value: serde_json::Value)
    ensures
        json_view(value) == openapi_json(port, version@),
{
    let info = ObjectBuilder::new().with(
        "title",
        text_value("BatchLapse Agent API".to_string()),
    ).with("version", text_value(version.to_string())).build();
    let server = ObjectBuilder::new().with("url", text_value(agent_api_url(port))).build();
    let mut list: Vec<serde_json::Value> = Vec::new();
    list.push(server);
    assert(Seq::new(list@.len(), |i: int| json_view(list@[i])) =~= seq![json_view(server)]);
    let servers = list_value(list);
    let described = agent_endpoints();
    let ghost views = endpoint_views(described@);
    let mut paths = ObjectBuilder::new();
    let mut i: usize = 0;
    while i < described.len()
        invariant
            i <= described@.len(),
            views == endpoint_views(described@),
            paths.members() == paths_json(views.take(i as int)),
        decreases described@.len() - i,
    {
        let summary = ObjectBuilder::new().with(
            "summary",
            text_value(described[i].summary.clone()),
        ).build();
        let methods = ObjectBuilder::new().with(described[i].method.as_str(), summary).build();
        paths = paths.with(described[i].path.as_str(), methods);
        assert(views.take(i + 1).drop_last() =~= views.take(i as int));
        assert(views.take(i + 1).last() == views[i as int]);
        i += 1;
    }
    assert(views.take(i as int) =~= views);
    ObjectBuilder::new().with("openapi", text_value("3.1.0".to_string())).with("info", info).with(
        "servers",
        servers,
    ).with("paths", paths.build()).build()
}

/// Whether an answer refuses a request for this reason.
pub open spec fn is_refusal(error: Seq<char>, r: Result<Answer, String>) -> bool {
    exists|payload: serde_json::Value|
        json_view(payload) == refusal_json(error) && #[trigger] is_answer(
            "400 Bad Request"@,
            payload,
            r,
        )
}

/// The answer to a request: what it asked for, or why it is refused.
pub fn agent_answer(outcome: Result<serde_json::Value, String>) -> (r: Result<Answer, String>)
    ensures
        match outcome {
            Ok(payload) => is_answer("200 OK"@, payload, r),
            Err(error) => is_refusal(error@, r),
        },
{
    match outcome {
        Ok(payload) => json_answer(answer_status(true), &payload),
        Err(error) => {
            let payload = refusal_payload(error);
            json_answer(answer_status(false), &payload)
        },
    }
}

/// Every reply says whether the request was carried out; one that was not says why, and one that started a
/// job names it.
pub proof fn law_replies_say_whether_it_worked(
    error: Seq<char>,
    job_id: Seq<char>,
    version: Seq<char>,
    url: Seq<char>,
)
    ensures
        refusal_json(error) matches Json::Object(m) && m.contains_pair("ok"@, Json::Bool(false))
            && m.contains_pair("error"@, Json::Text(error)),
        done_json() matches Json::Object(m) && m.contains_pair("ok"@, Json::Bool(true)),
        started_json(job_id) matches Json::Object(m) && m.contains_pair("ok"@, Json::Bool(true))
            && m.contains_pair("jobId"@, Json::Text(job_id)),
        health_json(version, url) matches Json::Object(m) && m.contains_pair(
            "ok"@,
            Json::Bool(true),
        ) && m.contains_pair("version"@, Json::Text(version)) && m.contains_pair(
            "url"@,
            Json::Text(url),
        ),
{
    reveal_strlit("ok");
    reveal_strlit("error");
    reveal_strlit("jobId");
    reveal_strlit("service");
    reveal_strlit("version");
    reveal_strlit("url");
    assert("ok"@.len() == 2 && "error"@.len() == 5 && "jobId"@.len() == 5 && "service"@.len() == 7
        && "version"@.len() == 7 && "url"@.len() == 3);
    assert("service"@[0] == 's' && "version"@[0] == 'v');
}

/// A path that is described in the description of the interface is one of the paths that the
/// interface describes, and the other way round.
pub proof fn law_description_lists_all_paths(path: Seq<char>)
    ensures
        paths_json(endpoints()).contains_key(path) <==> exists|i: int|
            0 <= i < endpoints().len() && (#[trigger] endpoints()[i]).path == path,
{
    lemma_paths(endpoints(), path);
}

proof fn lemma_paths(list: Seq<EndpointView>, path: Seq<char>)
    ensures
        paths_json(list).contains_key(path) <==> exists|i: int|
            0 <= i < list.len() && (#[trigger] list[i]).path == path,
    decreases list.len(),
{
    if list.len() > 0 {
        let front = list.drop_last();
        lemma_paths(front, path);
        if exists|i: int| 0 <= i < front.len() && (#[trigger] front[i]).path == path {
            let i = choose|i: int| 0 <= i < front.len() && (#[trigger] front[i]).path == path;
            assert(list[i].path == path);
        }
        if list.last().path == path {
            assert(list[list.len() - 1].path == path);
        }
        if exists|i: int| 0 <= i < list.len() && (#[trigger] list[i]).path == path {
            let i = choose|i: int| 0 <= i < list.len() && (#[trigger] list[i]).path == path;
            if i < front.len() {
                assert(front[i].path == path);
            }
        }
    }
}

} // verus!
