use xirang::batch::BatchOutcome;
use xirang::change::create_node;
use xirang::codec::{Uuid, Value};
use xirang::json::{parse_json, Json};
use xirang::ops::{tree_view, Layout, OpError};
use xirang::reply::{batch_reply, created_reply, diff_reply, filled_reply, linked_reply};
use xirang::request::{
    action_arg, action_list, answer, bool_arg, call_arguments, call_result, dispatch, layout_arg,
    match_args, node_request, opt_str, records_arg, refuse, rpc_step, str_arg, tool_list, usz_arg,
    view_args, NodeRequest, RpcStep, Tool,
};
use xirang::tools::{greeting, pong, tool_context, tool_defs, tool_props};
use xirang::tree::Store;

fn json(text: &str) -> Json {
    parse_json(text).unwrap()
}

#[test]
fn the_tools_are_these_ten() {
    assert_eq!(
        tool_list(),
        vec![
            "context", "file_info", "file_validate", "file_diff", "tree", "query", "node",
            "template", "convert", "blob"
        ]
    );
    let listed = tool_defs().line();
    for name in tool_list() {
        assert!(dispatch(name).is_ok());
        assert!(listed.contains(&format!("\"name\":\"{name}\"")));
    }
    assert!(dispatch("other").is_err());
    assert!(listed.contains("\"inputSchema\":{\"properties\":"));
}

#[test]
fn the_context_tells_roots_and_actions() {
    let line = tool_context("1.0.0", &vec!["/work".to_string()]).line();
    assert!(line.contains("\"/work\""));
    assert!(line.contains("\"revert\""));
    assert!(action_list(Tool::Node).contains(&"batch"));
    assert!(tool_props(Tool::Node).iter().any(|p| p.key == "ops"));
}

#[test]
fn arguments_are_taken_apart() {
    let j = json(r#"{"file":"a","n":3,"yes":true,"empty":"","action":"find","layout":"flat"}"#);
    let a = j.root();
    assert_eq!(opt_str(&a, "file"), Some("a".to_string()));
    assert_eq!(opt_str(&a, "empty"), None);
    assert!(str_arg(&a, "none").is_err());
    assert_eq!(usz_arg(&a, "n"), Some(3));
    assert!(bool_arg(&a, "yes", false));
    assert!(bool_arg(&a, "none", true));
    assert_eq!(action_arg(&a, Tool::Query).unwrap(), "find");
    assert!(action_arg(&a, Tool::Node).is_err());
    assert_eq!(layout_arg(&a).unwrap(), Layout::Flat);
    assert!(layout_arg(&json(r#"{"layout":"x"}"#).root()).is_err());
    assert_eq!(view_args(&a).limit, Some(200));
    let q = match_args(&json(r#"{"root":"词条","where":{"词形":"灯","词频":3}}"#).root());
    assert_eq!(q.root, Some("词条".to_string()));
    assert_eq!(q.wheres.len(), 2);
}

#[test]
fn requests_for_nodes_are_read() {
    let j = json(r#"{"name":"灯","value":7}"#);
    assert!(matches!(
        node_request(&j.root(), "create").unwrap(),
        NodeRequest::Create { parent: None, value: Value::Int(7), .. }
    ));
    assert!(node_request(&json("{}").root(), "set").is_err());
    let j = json(r#"{"ops":[{"op":"set","id":"00000000000000000000000000000001","value":"新"}],"dry_run":true}"#);
    match node_request(&j.root(), "batch").unwrap() {
        NodeRequest::Batch { ops, dry_run } => {
            assert_eq!(ops.len(), 1);
            assert!(dry_run);
        }
        _ => panic!("a batch was asked for"),
    }
    let j = json(r#"{"node":"x"}"#);
    assert!(matches!(
        node_request(&j.root(), "prune_history").unwrap(),
        NodeRequest::Prune { keep: 20, before: None, .. }
    ));
    assert_eq!(records_arg(&json(r#"{"data":[1,2]}"#).root(), "data").unwrap().len(), 2);
}

#[test]
fn messages_are_answered() {
    let call = json(r#"{"jsonrpc":"2.0","id":7,"method":"tools/call","params":{"name":"tree","arguments":{"file":"a"}}}"#);
    assert!(matches!(rpc_step(&call.root()), RpcStep::Call(n) if n == "tree"));
    assert_eq!(call_arguments(&call.root()).line(), r#"{"file":"a"}"#);
    assert_eq!(
        answer(&call.root(), pong()).unwrap().line(),
        r#"{"id":7,"jsonrpc":"2.0","result":{}}"#
    );
    let told = json(r#"{"jsonrpc":"2.0","method":"notifications/initialized"}"#);
    assert!(matches!(rpc_step(&told.root()), RpcStep::Ignore));
    assert!(answer(&told.root(), pong()).is_none());
    let odd = json(r#"{"jsonrpc":"2.0","id":1,"method":"x/y"}"#);
    assert!(matches!(rpc_step(&odd.root()), RpcStep::Unknown(_)));
    assert!(refuse(&odd.root(), "x/y").unwrap().line().contains("-32601"));
    assert!(greeting("1.0.0").line().contains("\"protocolVersion\":\"2024-11-05\""));
}

#[test]
fn results_and_errors_are_wrapped() {
    let good = call_result(&Ok(json(r#"{"a":1}"#))).line();
    assert_eq!(good, r#"{"content":[{"text":"{\"a\":1}","type":"text"}]}"#);
    let bad = call_result(&Err(OpError::guarded("不行", "加 force"))).line();
    assert!(bad.contains("\"isError\":true"));
    assert!(bad.contains("guarded"));
}

#[test]
fn outcomes_are_replied() {
    let mut s = Store::new();
    let out = create_node(&mut s, false, None, "灯", Value::Int(1), true).unwrap();
    let line = created_reply(&out).line();
    assert!(line.contains(&format!("\"created\":\"{}\"", out.id.to_string())));
    assert_eq!(
        batch_reply(&BatchOutcome { changed: 4 }, false, 4).line(),
        r#"{"appended":4,"changed":4,"dryRun":false}"#
    );
    let (a, b) = (Uuid([1; 16]), Uuid([2; 16]));
    assert!(linked_reply(a, b).line().contains(&a.to_string()));
    assert!(filled_reply(3).line().contains('3'));
    let d = xirang::lookup::diff(&s, &s, &vec![]);
    assert!(diff_reply(&d).line().contains("\"added\":[]"));
    let view = tree_view(&s, s.get(out.id).unwrap(), &vec![]);
    assert!(view.to_json().line().contains("\"name\":\"灯\""));
    assert!(OpError::invalid("坏").to_json().line().contains("invalid_argument"));
}
