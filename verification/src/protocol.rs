//! The commands the client sends and the records the agent answers with.

use std::collections::HashMap;
use vstd::prelude::*;
use crate::addr::NodeAddr;
use crate::args::{
    args_bytes, args_encodable, pairs_of, texts_of, ArgMap, ArgModel, ArgValue, ValueModel,
};
use crate::codec::{fits_str, lemma_ascii_fits, RPCResult, SerializedCommand};

verus! {

/// The newest protocol version this client speaks.
pub const MAX_IPC_VERSION: u32 = 1;

/// Builds a command from its name and its arguments. `None` when the name
/// or an argument cannot be written.
pub fn command(name: &str, args: &ArgMap) -> (cmd: Option<SerializedCommand>)
    ensures
        cmd is Some <==> fits_str(name@) && args_encodable(args@),
        cmd matches Some(c) ==> c.name@ == name@ && c.body@ == args_bytes(args@) && c.wf(),
{
    match args.encode() {
        Some(body) => SerializedCommand::new(name, body),
        None => None,
    }
}

/// Builds a command that takes no arguments. Its body is empty: not even an
/// empty map is written.
pub fn bare_command(name: &str) -> (cmd: Option<SerializedCommand>)
    ensures
        cmd is Some <==> fits_str(name@),
        cmd matches Some(c) ==> c.name@ == name@ && c.body@ == Seq::<u8>::empty() && c.wf(),
{
    SerializedCommand::new(name, Vec::new())
}

/// The arguments of a command with the single argument `key`.
pub open spec fn single_arg(key: Seq<char>, value: ValueModel) -> Seq<ArgModel> {
    seq![ArgModel { key, value }]
}

/// Builds a command with one argument.
fn unary(name: &str, key: &str, value: ArgValue) -> (cmd: Option<SerializedCommand>)
    ensures
        cmd is Some <==> fits_str(name@) && fits_str(key@) && value@.encodable(),
        cmd matches Some(c) ==> c.name@ == name@ && c.body@ == args_bytes(
            single_arg(key@, value@),
        ) && c.wf(),
{
    let mut args = ArgMap::new();
    args.insert(key, value);
    assert(args@ =~= single_arg(key@, value@));
    assert(args@[0] == ArgModel { key: key@, value: value@ });
    command(name, &args)
}

/// The version handshake that opens every connection.
pub fn handshake(version: u32) -> (cmd: SerializedCommand)
    ensures
        cmd.name@ == "handshake"@,
        cmd.body@ == args_bytes(single_arg("Version"@, ValueModel::UInt(version as u64))),
        cmd.wf(),
{
    proof {
        reveal_strlit("handshake");
        reveal_strlit("Version");
        lemma_ascii_fits("handshake");
        lemma_ascii_fits("Version");
    }
    unary("handshake", "Version", ArgValue::UInt(version as u64)).unwrap()
}

/// Presents the shared secret. `None` when the key is too long to be sent.
pub fn auth(auth_key: &str) -> (cmd: Option<SerializedCommand>)
    ensures
        cmd is Some <==> fits_str(auth_key@),
        cmd matches Some(c) ==> c.name@ == "auth"@ && c.body@ == args_bytes(
            single_arg("AuthKey"@, ValueModel::Str(auth_key@)),
        ) && c.wf(),
{
    proof {
        reveal_strlit("auth");
        reveal_strlit("AuthKey");
        lemma_ascii_fits("auth");
        lemma_ascii_fits("AuthKey");
    }
    unary("auth", "AuthKey", ArgValue::Str(auth_key.to_owned()))
}

/// Tells the agent to stop the stream that was started under `seq`.
pub fn stop_stream(seq: u64) -> (cmd: SerializedCommand)
    ensures
        cmd.name@ == "stop"@,
        cmd.body@ == args_bytes(single_arg("Stop"@, ValueModel::UInt(seq))),
        cmd.wf(),
{
    proof {
        reveal_strlit("stop");
        reveal_strlit("Stop");
        lemma_ascii_fits("stop");
        lemma_ascii_fits("Stop");
    }
    unary("stop", "Stop", ArgValue::UInt(seq)).unwrap()
}

/// Forces a node out of the cluster. `None` when the name is too long.
pub fn force_leave(node: &str) -> (cmd: Option<SerializedCommand>)
    ensures
        cmd is Some <==> fits_str(node@),
        cmd matches Some(c) ==> c.name@ == "force-leave"@ && c.body@ == args_bytes(
            single_arg("Node"@, ValueModel::Str(node@)),
        ) && c.wf(),
{
    proof {
        reveal_strlit("force-leave");
        reveal_strlit("Node");
        lemma_ascii_fits("force-leave");
        lemma_ascii_fits("Node");
    }
    unary("force-leave", "Node", ArgValue::Str(node.to_owned()))
}

/// Asks for a node's network coordinate. `None` when the name is too long.
pub fn get_coordinate(node: &str) -> (cmd: Option<SerializedCommand>)
    ensures
        cmd is Some <==> fits_str(node@),
        cmd matches Some(c) ==> c.name@ == "get-coordinate"@ && c.body@ == args_bytes(
            single_arg("Node"@, ValueModel::Str(node@)),
        ) && c.wf(),
{
    proof {
        reveal_strlit("get-coordinate");
        reveal_strlit("Node");
        lemma_ascii_fits("get-coordinate");
        lemma_ascii_fits("Node");
    }
    unary("get-coordinate", "Node", ArgValue::Str(node.to_owned()))
}

/// Subscribes to events of the kinds that `ty` lists. `None` when `ty` is
/// too long.
pub fn stream(ty: &str) -> (cmd: Option<SerializedCommand>)
    ensures
        cmd is Some <==> fits_str(ty@),
        cmd matches Some(c) ==> c.name@ == "stream"@ && c.body@ == args_bytes(
            single_arg("Type"@, ValueModel::Str(ty@)),
        ) && c.wf(),
{
    proof {
        reveal_strlit("stream");
        reveal_strlit("Type");
        lemma_ascii_fits("stream");
        lemma_ascii_fits("Type");
    }
    unary("stream", "Type", ArgValue::Str(ty.to_owned()))
}

/// One named argument.
pub open spec fn arg(key: Seq<char>, value: ValueModel) -> ArgModel {
    ArgModel { key, value }
}

/// The arguments of `event`.
pub open spec fn fire_event_args(name: Seq<char>, payload: Seq<u8>, coalesce: bool) -> Seq<
    ArgModel,
> {
    seq![
        arg("Name"@, ValueModel::Str(name)),
        arg("Payload"@, ValueModel::Bytes(payload)),
        arg("Coalesce"@, ValueModel::Bool(coalesce)),
    ]
}

/// Fires a user event. `None` when the name or the payload is too long to
/// be written.
pub fn fire_event(name: &str, payload: Vec<u8>, coalesce: bool) -> (cmd: Option<SerializedCommand>)
    ensures
        cmd is Some <==> args_encodable(fire_event_args(name@, payload@, coalesce)),
        cmd matches Some(c) ==> c.name@ == "event"@ && c.body@ == args_bytes(
            fire_event_args(name@, payload@, coalesce),
        ) && c.wf(),
{
    proof {
        reveal_strlit("event");
        lemma_ascii_fits("event");
    }
    let ghost bytes = payload@;
    let mut args = ArgMap::new();
    args.insert("Name", ArgValue::Str(name.to_owned()));
    args.insert("Payload", ArgValue::Bytes(payload));
    args.insert("Coalesce", ArgValue::Bool(coalesce));
    assert(args@ =~= fire_event_args(name@, bytes, coalesce));
    command("event", &args)
}

/// The arguments of `join`.
pub open spec fn join_args(existing: Seq<Seq<char>>, replay: bool) -> Seq<ArgModel> {
    seq![
        arg("Existing"@, ValueModel::StrList(existing)),
        arg("Replay"@, ValueModel::Bool(replay)),
    ]
}

/// Joins a cluster through the addresses of nodes that are in it; `replay`
/// asks for old user events. `None` when the addresses cannot be written.
pub fn join(existing: Vec<String>, replay: bool) -> (cmd: Option<SerializedCommand>)
    ensures
        cmd is Some <==> args_encodable(join_args(texts_of(existing@), replay)),
        cmd matches Some(c) ==> c.name@ == "join"@ && c.body@ == args_bytes(
            join_args(texts_of(existing@), replay),
        ) && c.wf(),
{
    proof {
        reveal_strlit("join");
        lemma_ascii_fits("join");
    }
    let ghost addresses = texts_of(existing@);
    let mut args = ArgMap::new();
    args.insert("Existing", ArgValue::StrList(existing));
    args.insert("Replay", ArgValue::Bool(replay));
    assert(args@ =~= join_args(addresses, replay));
    command("join", &args)
}

/// `args` with one more argument, unless its value is absent.
pub open spec fn with_opt(args: Seq<ArgModel>, key: Seq<char>, value: Option<ValueModel>) -> Seq<
    ArgModel,
> {
    match value {
        Some(v) => args.push(arg(key, v)),
        None => args,
    }
}

/// The arguments of `members-filtered`: only the filters that are present.
pub open spec fn members_filtered_args(
    status: Option<Seq<char>>,
    name: Option<Seq<char>>,
    tags: Option<Seq<(Seq<char>, Seq<char>)>>,
) -> Seq<ArgModel> {
    with_opt(
        with_opt(
            with_opt(
                Seq::empty(),
                "Status"@,
                match status {
                    Some(s) => Some(ValueModel::Str(s)),
                    None => None,
                },
            ),
            "Name"@,
            match name {
                Some(s) => Some(ValueModel::Str(s)),
                None => None,
            },
        ),
        "Tags"@,
        match tags {
            Some(t) => Some(ValueModel::StrMap(t)),
            None => None,
        },
    )
}

/// The characters of an optional string.
pub open spec fn opt_text(s: Option<&str>) -> Option<Seq<char>> {
    match s {
        Some(s) => Some(s@),
        None => None,
    }
}

/// The pairs of an optional string map.
pub open spec fn opt_pairs(t: Option<Vec<(String, String)>>) -> Option<Seq<(Seq<char>, Seq<char>)>> {
    match t {
        Some(t) => Some(pairs_of(t@)),
        None => None,
    }
}

/// Asks for the members that pass the given filters. A filter that is
/// absent is left out of the command. `None` when a filter cannot be
/// written.
pub fn members_filtered(
    status: Option<&str>,
    name: Option<&str>,
    tags: Option<Vec<(String, String)>>,
) -> (cmd: Option<SerializedCommand>)
    ensures
        cmd is Some <==> args_encodable(
            members_filtered_args(opt_text(status), opt_text(name), opt_pairs(tags)),
        ),
        cmd matches Some(c) ==> c.name@ == "members-filtered"@ && c.body@ == args_bytes(
            members_filtered_args(opt_text(status), opt_text(name), opt_pairs(tags)),
        ) && c.wf(),
{
    proof {
        reveal_strlit("members-filtered");
        lemma_ascii_fits("members-filtered");
    }
    let ghost wanted = members_filtered_args(opt_text(status), opt_text(name), opt_pairs(tags));
    let mut args = ArgMap::new();
    args.insert_opt(
        "Status",
        match status {
            Some(s) => Some(ArgValue::Str(s.to_owned())),
            None => None,
        },
    );
    args.insert_opt(
        "Name",
        match name {
            Some(s) => Some(ArgValue::Str(s.to_owned())),
            None => None,
        },
    );
    args.insert_opt(
        "Tags",
        match tags {
            Some(t) => Some(ArgValue::StrMap(t)),
            None => None,
        },
    );
    assert(args@ =~= wanted);
    command("members-filtered", &args)
}

/// The arguments of `tags`.
pub open spec fn tags_args(add_tags: Seq<Seq<char>>, delete_tags: Seq<Seq<char>>) -> Seq<ArgModel> {
    seq![
        arg("Tags"@, ValueModel::StrList(add_tags)),
        arg("DeleteTags"@, ValueModel::StrList(delete_tags)),
    ]
}

/// Changes the tags of the node the agent runs on. `None` when the tags
/// cannot be written.
pub fn tags(add_tags: Vec<String>, delete_tags: Vec<String>) -> (cmd: Option<SerializedCommand>)
    ensures
        cmd is Some <==> args_encodable(tags_args(texts_of(add_tags@), texts_of(delete_tags@))),
        cmd matches Some(c) ==> c.name@ == "tags"@ && c.body@ == args_bytes(
            tags_args(texts_of(add_tags@), texts_of(delete_tags@)),
        ) && c.wf(),
{
    proof {
        reveal_strlit("tags");
        lemma_ascii_fits("tags");
    }
    let ghost wanted = tags_args(texts_of(add_tags@), texts_of(delete_tags@));
    let mut args = ArgMap::new();
    args.insert("Tags", ArgValue::StrList(add_tags));
    args.insert("DeleteTags", ArgValue::StrList(delete_tags));
    assert(args@ =~= wanted);
    command("tags", &args)
}

/// The arguments of `respond`.
pub open spec fn query_respond_args(id: u64, payload: Seq<u8>) -> Seq<ArgModel> {
    seq![arg("ID"@, ValueModel::UInt(id)), arg("Payload"@, ValueModel::Bytes(payload))]
}

/// Answers a query. `None` when the payload is too long to be written.
pub fn query_respond(id: u64, payload: Vec<u8>) -> (cmd: Option<SerializedCommand>)
    ensures
        cmd is Some <==> args_encodable(query_respond_args(id, payload@)),
        cmd matches Some(c) ==> c.name@ == "respond"@ && c.body@ == args_bytes(
            query_respond_args(id, payload@),
        ) && c.wf(),
{
    proof {
        reveal_strlit("respond");
        lemma_ascii_fits("respond");
    }
    let ghost bytes = payload@;
    let mut args = ArgMap::new();
    args.insert("ID", ArgValue::UInt(id));
    args.insert("Payload", ArgValue::Bytes(payload));
    assert(args@ =~= query_respond_args(id, bytes));
    command("respond", &args)
}

/// Asks for the list of all known members.
pub fn members() -> (cmd: SerializedCommand)
    ensures
        cmd.name@ == "members"@,
        cmd.body@ == Seq::<u8>::empty(),
        cmd.wf(),
{
    proof {
        reveal_strlit("members");
        lemma_ascii_fits("members");
    }
    bare_command("members").unwrap()
}

/// Leaves the cluster gracefully.
pub fn leave() -> (cmd: SerializedCommand)
    ensures
        cmd.name@ == "leave"@,
        cmd.body@ == Seq::<u8>::empty(),
        cmd.wf(),
{
    proof {
        reveal_strlit("leave");
        lemma_ascii_fits("leave");
    }
    bare_command("leave").unwrap()
}

/// Asks for information about the agent.
pub fn stats() -> (cmd: SerializedCommand)
    ensures
        cmd.name@ == "stats"@,
        cmd.body@ == Seq::<u8>::empty(),
        cmd.wf(),
{
    proof {
        reveal_strlit("stats");
        lemma_ascii_fits("stats");
    }
    bare_command("stats").unwrap()
}

/// What `connect` does next.
#[derive(Debug, PartialEq, Eq)]
pub enum ConnectStep {
    /// Send this command and wait for its response.
    Send(SerializedCommand),
    /// The connection is ready to be handed to the caller.
    Done,
    /// Give up with this error; the connection is not handed out.
    Fail(String),
}

/// What follows the response to the handshake: the authentication command
/// when a key was supplied, success when none was, and failure with the
/// agent's error when the handshake was rejected. A key too long to be sent
/// fails the connection as well.
pub fn after_handshake(response: RPCResult<()>, auth_key: Option<&str>) -> (step: ConnectStep)
    ensures
        match response {
            Err(e) => step == ConnectStep::Fail(e),
            Ok(_) => match auth_key {
                None => step is Done,
                Some(key) => if fits_str(key@) {
                    step matches ConnectStep::Send(c) && c.name@ == "auth"@ && c.body@
                        == args_bytes(single_arg("AuthKey"@, ValueModel::Str(key@))) && c.wf()
                } else {
                    step is Fail
                },
            },
        },
{
    match response {
        Err(e) => ConnectStep::Fail(e),
        Ok(_) => match auth_key {
            None => ConnectStep::Done,
            Some(key) => match auth(key) {
                Some(cmd) => ConnectStep::Send(cmd),
                None => ConnectStep::Fail("auth key too long".to_owned()),
            },
        },
    }
}

/// What follows the response to the authentication command.
pub fn after_auth(response: RPCResult<()>) -> (step: ConnectStep)
    ensures
        match response {
            Err(e) => step == ConnectStep::Fail(e),
            Ok(_) => step is Done,
        },
{
    match response {
        Err(e) => ConnectStep::Fail(e),
        Ok(_) => ConnectStep::Done,
    }
}

/// Answer to `join`.
#[derive(Debug)]
pub struct JoinResponse {
    pub nodes_joined: u64,
}

/// One member of the cluster.
#[derive(Debug)]
pub struct Member {
    pub name: String,
    pub addr: NodeAddr,
    pub port: u32,
    pub tags: HashMap<String, String>,
    pub status: String,
    pub protocol_min: u32,
    pub protocol_max: u32,
    pub protocol_cur: u32,
    pub delegate_max: u32,
    pub delegate_min: u32,
    pub delegate_cur: u32,
}

/// Answer to `members`.
#[derive(Debug)]
pub struct MembersResponse {
    pub members: Vec<Member>,
}

/// The agent's own identity.
#[derive(Debug)]
pub struct Agent {
    pub name: String,
}

/// Facts about the agent's runtime.
#[derive(Debug)]
pub struct RuntimeInfo {
    pub os: String,
    pub arch: String,
    pub version: String,
    pub max_procs: String,
    pub goroutines: String,
    pub cpu_count: String,
}

/// Counters of the gossip layer.
#[derive(Debug)]
pub struct SerfInfo {
    pub failed: String,
    pub left: String,
    pub event_time: String,
    pub query_time: String,
    pub event_queue: String,
    pub members: String,
    pub member_time: String,
    pub intent_queue: String,
    pub query_queue: String,
}

/// Answer to `stats`.
#[derive(Debug)]
pub struct AgentStats {
    pub agent: Agent,
    pub runtime: RuntimeInfo,
    pub tags: HashMap<String, String>,
}

/// An event pushed on a subscription.
#[derive(Debug)]
pub enum StreamMessage {
    User { ltime: u64, name: String, payload: Vec<u8>, coalesce: bool },
    MemberJoin { members: Vec<Member> },
    Query { id: u64, ltime: u64, name: String, payload: Vec<u8> },
}

} // verus!
