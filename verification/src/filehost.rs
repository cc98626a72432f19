//! Uploading a file into a conversation.
use vstd::prelude::*;

use crate::app::{App, Clock};
use crate::irc::{add_event_to_buffer, event_added};
use crate::monitor::{doubled, escape_percent};
use crate::state::{event_shown, AppState, Buffer, BufferType, Connection, ConnectionStatus};
use crate::text::{concat, lower, lower_seq, opt_text, same, texts};

verus! {

broadcast use vstd::string::group_string_axioms;

/// Where a command was typed.
#[derive(Clone, Copy, Debug, PartialEq, Eq, Structural)]
pub enum Origin {
    Tui,
    Web,
    Script,
}

/// The conversation that an upload is for.
#[derive(Debug)]
pub struct Ticket {
    pub buffer_id: String,
    pub connection_id: String,
    /// The network that the connection was on when the upload began.
    pub scope: String,
}

/// Whether the bouncer of a conversation takes files.
#[derive(Debug)]
pub enum Host {
    /// It does not say so.
    Absent,
    /// What it says, or how the client is to log in, does not do: why.
    Unusable(String),
    Usable,
}

/// Why nothing can be uploaded into a conversation. `pending` tells whether an upload is running, `host`
/// whether the bouncer of the conversation takes files.
pub open spec fn upload_refusal(
    state: AppState,
    pending: bool,
    buffer_id: Seq<char>,
    host: Host,
) -> Option<Seq<char>> {
    if pending {
        Some("A file upload is already running"@)
    } else if !state.buffers@.contains_key(buffer_id) {
        Some("No conversation"@)
    } else {
        let b = state.buffers@[buffer_id];
        if b.buffer_type != BufferType::Channel && b.buffer_type != BufferType::Query {
            Some("Select a channel or private conversation before uploading"@)
        } else if !state.connections@.contains_key(b.connection_id@) {
            Some("No connection"@)
        } else {
            let c = state.connections@[b.connection_id@];
            if c.status != ConnectionStatus::Connected || !c.owns_history() || c.control() {
                Some("Uploads require a connected bouncer network"@)
            } else {
                match host {
                    Host::Absent => Some("The bouncer does not advertise FILEHOST"@),
                    Host::Unusable(error) => Some(error@),
                    Host::Usable => None,
                }
            }
        }
    }
}

/// A ticket for a conversation.
pub open spec fn ticket_for(t: Ticket, b: Buffer, c: Connection) -> bool {
    &&& t.buffer_id@ == b.id@
    &&& t.connection_id@ == c.id@
    &&& t.scope@ == c.key()
}

/// The most bytes that are uploaded at once.
pub const MAX_UPLOAD_BYTES: u64 = 67_108_864;

/// Checks that a file may be uploaded: it is a regular one, and neither empty nor too large.
pub fn check_file(regular: bool, bytes: u64) -> (r: Result<(), &'static str>)
    ensures
        match r {
            Ok(_) => regular && 0 < bytes <= MAX_UPLOAD_BYTES,
            Err(e) => !(regular && 0 < bytes <= MAX_UPLOAD_BYTES) && e@
                == "Upload requires a regular file between 1 byte and 64 MiB"@,
        },
{
    if !regular || bytes == 0 || bytes > MAX_UPLOAD_BYTES {
        return Err("Upload requires a regular file between 1 byte and 64 MiB");
    }
    Ok(())
}

/// Prepares an upload into a conversation.
pub fn prepare(state: &AppState, pending: bool, buffer_id: &str, host: &Host) -> (r: Result<
    Ticket,
    String,
>)
    ensures
        match r {
            Err(e) => upload_refusal(*state, pending, buffer_id@, *host) == Some(e@),
            Ok(t) => {
                let b = state.buffers@[buffer_id@];
                &&& upload_refusal(*state, pending, buffer_id@, *host) is None
                &&& ticket_for(t, b, state.connections@[b.connection_id@])
            },
        },
{
    if pending {
        return Err("A file upload is already running".to_string());
    }
    let b = match state.buffers.get(buffer_id) {
        None => {
            return Err("No conversation".to_string());
        },
        Some(b) => b,
    };
    if b.buffer_type != BufferType::Channel && b.buffer_type != BufferType::Query {
        return Err("Select a channel or private conversation before uploading".to_string());
    }
    let c = match state.connections.get(b.connection_id.as_str()) {
        None => {
            return Err("No connection".to_string());
        },
        Some(c) => c,
    };
    if c.status != ConnectionStatus::Connected || !c.server_owns_history() || c.bouncer_control() {
        return Err("Uploads require a connected bouncer network".to_string());
    }
    match host {
        Host::Absent => {
            return Err("The bouncer does not advertise FILEHOST".to_string());
        },
        Host::Unusable(error) => {
            return Err(error.clone());
        },
        Host::Usable => {},
    }
    Ok(
        Ticket {
            buffer_id: b.id.clone(),
            connection_id: c.id.clone(),
            scope: c.network_key().clone(),
        },
    )
}

/// The type of a file, by the ending of its name.
pub open spec fn mime_of(extension: Option<Seq<char>>) -> Seq<char> {
    match extension {
        None => "application/octet-stream"@,
        Some(e) => {
            let e = lower_seq(e);
            if e == "png"@ {
                "image/png"@
            } else if e == "jpg"@ || e == "jpeg"@ {
                "image/jpeg"@
            } else if e == "gif"@ {
                "image/gif"@
            } else if e == "webp"@ {
                "image/webp"@
            } else if e == "txt"@ {
                "text/plain"@
            } else if e == "pdf"@ {
                "application/pdf"@
            } else {
                "application/octet-stream"@
            }
        },
    }
}

/// The type of a file, by the ending of its name.
pub fn mime_for(extension: &Option<String>) -> (r: &'static str)
    ensures
        r@ == mime_of(opt_text(*extension)),
{
    match extension {
        None => "application/octet-stream",
        Some(e) => {
            let e = lower(e.as_str());
            let e = e.as_str();
            if same(e, "png") {
                "image/png"
            } else if same(e, "jpg") || same(e, "jpeg") {
                "image/jpeg"
            } else if same(e, "gif") {
                "image/gif"
            } else if same(e, "webp") {
                "image/webp"
            } else if same(e, "txt") {
                "text/plain"
            } else if same(e, "pdf") {
                "application/pdf"
            } else {
                "application/octet-stream"
            }
        },
    }
}

/// The parts of a path that matter for an upload.
#[derive(Debug)]
pub struct PathParts {
    pub file_name: Option<String>,
    pub extension: Option<String>,
}

/// An upload that begins.
#[derive(Debug)]
pub struct Upload {
    pub ticket: Ticket,
    pub path: String,
    pub filename: String,
    pub mime: String,
}

/// Why `/upload` does not begin: only who sits at the terminal can name a file of this machine.
pub open spec fn start_refusal(
    state: AppState,
    origin: Origin,
    pending: bool,
    args: Seq<Seq<char>>,
    parts: PathParts,
    host: Host,
) -> Option<Seq<char>> {
    if origin != Origin::Tui {
        Some("Use the browser file picker to upload a local file"@)
    } else if args.len() == 0 || args.len() > 2 {
        Some("Usage: /upload <path> [content-type]"@)
    } else {
        match state.active_buffer_id {
            None => Some("No active conversation"@),
            Some(id) => match upload_refusal(state, pending, id@, host) {
                Some(e) => Some(e),
                None => if parts.file_name is None {
                    Some("Invalid filename"@)
                } else {
                    None
                },
            },
        }
    }
}

/// `/upload`: what is uploaded, or why nothing is. `parts` are those of the path that the first argument
/// names.
pub fn start(
    state: &AppState,
    origin: Origin,
    pending: bool,
    args: &Vec<String>,
    parts: &PathParts,
    host: &Host,
) -> (r: Result<Upload, String>)
    ensures
        match r {
            Err(e) => start_refusal(*state, origin, pending, texts(args@), *parts, *host) == Some(
                e@,
            ),
            Ok(u) => {
                let b = state.buffers@[state.active_buffer_id->0@];
                &&& start_refusal(
                    *state,
                    origin,
                    pending,
                    texts(args@),
                    *parts,
                    *host,
                ) is None
                &&& ticket_for(u.ticket, b, state.connections@[b.connection_id@])
                &&& u.path@ == texts(args@)[0]
                &&& Some(u.filename@) == opt_text(parts.file_name)
                &&& u.mime@ == (if args@.len() > 1 {
                    texts(args@)[1]
                } else {
                    mime_of(opt_text(parts.extension))
                })
            },
        },
{
    assert(texts(args@).len() == args@.len());
    if origin != Origin::Tui {
        return Err("Use the browser file picker to upload a local file".to_string());
    }
    if args.len() == 0 || args.len() > 2 {
        return Err("Usage: /upload <path> [content-type]".to_string());
    }
    let id = match &state.active_buffer_id {
        None => {
            return Err("No active conversation".to_string());
        },
        Some(id) => id,
    };
    let ticket = match prepare(state, pending, id.as_str(), host) {
        Err(e) => {
            return Err(e);
        },
        Ok(ticket) => ticket,
    };
    let filename = match &parts.file_name {
        None => {
            return Err("Invalid filename".to_string());
        },
        Some(name) => name.clone(),
    };
    let mime = if args.len() > 1 {
        args[1].clone()
    } else {
        mime_for(&parts.extension).to_string()
    };
    Ok(Upload { ticket, path: args[0].clone(), filename, mime })
}

/// `/upload`: what is uploaded; that nothing is, is reported.
pub fn command(
    app: &mut App,
    origin: Origin,
    pending: bool,
    args: &Vec<String>,
    parts: &PathParts,
    host: &Host,
    now: Clock,
) -> (r: Option<Upload>)
    ensures
        *final(app) == (App { state: final(app).state, ..*old(app) }),
        match start_refusal(old(app).state, origin, pending, texts(args@), *parts, *host) {
            Some(e) => r is None && event_shown(old(app).state, final(app).state, e, now.utc_ms),
            None => {
                let b = old(app).state.buffers@[old(app).state.active_buffer_id->0@];
                &&& final(app).state == old(app).state
                &&& r matches Some(u)
                &&& ticket_for(u.ticket, b, old(app).state.connections@[b.connection_id@])
                &&& u.path@ == texts(args@)[0]
                &&& Some(u.filename@) == opt_text(parts.file_name)
                &&& u.mime@ == (if args@.len() > 1 {
                    texts(args@)[1]
                } else {
                    mime_of(opt_text(parts.extension))
                })
            },
        },
{
    match start(&app.state, origin, pending, args, parts, host) {
        Err(e) => {
            app.state.add_local_event(e, now.utc_ms);
            None
        },
        Ok(u) => Some(u),
    }
}

/// The conversation of an upload is still the one that it was begun for.
pub open spec fn still_valid(state: AppState, t: Ticket) -> bool {
    &&& state.buffers@.contains_key(t.buffer_id@)
    &&& state.buffers@[t.buffer_id@].connection_id@ == t.connection_id@
    &&& state.connections@.contains_key(t.connection_id@)
    &&& state.connections@[t.connection_id@].key() == t.scope@
}

/// What becomes of a finished upload: the address is reported in its conversation, and put into the
/// empty input line of the terminal that began it there. An upload whose conversation changed leaves no
/// trace.
pub open spec fn upload_finished(
    before: App,
    after: App,
    t: Ticket,
    result: Result<String, String>,
    web: bool,
    now: Clock,
    r: bool,
) -> bool {
    &&& r == still_valid(before.state, t)
    &&& if !r {
        after == before
    } else {
        &&& after == (App { state: after.state, input: after.input, ..before })
        &&& match result {
            Ok(url) => {
                &&& event_added(
                    before.state,
                    after.state,
                    t.buffer_id@,
                    "File uploaded: "@ + doubled(url@),
                    now.utc_ms,
                )
                &&& after.input@ == (if !web && opt_text(before.state.active_buffer_id) == Some(
                    t.buffer_id@,
                ) && before.input@.len() == 0 {
                    url@
                } else {
                    before.input@
                })
            },
            Err(e) => {
                &&& event_added(
                    before.state,
                    after.state,
                    t.buffer_id@,
                    "Upload failed: "@ + e@,
                    now.utc_ms,
                )
                &&& after.input == before.input
            },
        }
    }
}

/// Takes up a finished upload; tells whether its conversation is still the one that it was begun for.
pub fn finish_upload(app: &mut App, t: &Ticket, result: Result<String, String>, web: bool, now: Clock) -> (r:
    bool)
    ensures
        upload_finished(*old(app), *final(app), *t, result, web, now, r),
{
    let there = match app.state.buffers.get(t.buffer_id.as_str()) {
        None => false,
        Some(b) => same(b.connection_id.as_str(), t.connection_id.as_str()),
    };
    let same_network = match app.state.connections.get(t.connection_id.as_str()) {
        None => false,
        Some(c) => same(c.network_key().as_str(), t.scope.as_str()),
    };
    if !there || !same_network {
        return false;
    }
    match result {
        Ok(url) => {
            let text = concat("File uploaded: ", escape_percent(url.as_str()).as_str());
            add_event_to_buffer(&mut app.state, t.buffer_id.as_str(), text, now.utc_ms);
            let active = match &app.state.active_buffer_id {
                Some(id) => same(id.as_str(), t.buffer_id.as_str()),
                None => false,
            };
            if !web && active && app.input.as_str().is_empty() {
                app.input = url;
            }
        },
        Err(e) => {
            let text = concat("Upload failed: ", e.as_str());
            add_event_to_buffer(&mut app.state, t.buffer_id.as_str(), text, now.utc_ms);
        },
    }
    true
}

/// A file of this machine can be named at the terminal alone.
pub proof fn files_are_named_at_the_terminal(
    state: AppState,
    origin: Origin,
    pending: bool,
    args: Seq<Seq<char>>,
    parts: PathParts,
    host: Host,
)
    requires
        origin != Origin::Tui,
    ensures
        start_refusal(state, origin, pending, args, parts, host) is Some,
{
}

/// A file can be uploaded into every channel and every query of a connected bouncer network that has a usable
/// place for files, as long as no other upload runs; and nowhere else.
pub proof fn uploads_go_into_bouncer_conversations(
    state: AppState,
    pending: bool,
    buffer_id: Seq<char>,
    host: Host,
)
    ensures
        upload_refusal(state, pending, buffer_id, host) is None <==> ({
            let b = state.buffers@[buffer_id];
            let c = state.connections@[b.connection_id@];
            &&& !pending
            &&& host is Usable
            &&& state.buffers@.contains_key(buffer_id)
            &&& b.buffer_type == BufferType::Channel || b.buffer_type == BufferType::Query
            &&& state.connections@.contains_key(b.connection_id@)
            &&& c.status == ConnectionStatus::Connected
            &&& c.owns_history() && !c.control()
        }),
{
}

/// An upload ends where it began: its address is told in the conversation that it was prepared for, as long
/// as that is still there on the same network, and a line that the user is writing is left alone.
pub proof fn uploads_end_where_they_began(
    state: AppState,
    before: App,
    after: App,
    t: Ticket,
    url: String,
    web: bool,
    now: Clock,
    r: bool,
    buffer_id: Seq<char>,
)
    requires
        state.buffers@.contains_key(buffer_id),
        state.buffers@[buffer_id].id@ == buffer_id,
        state.connections@.contains_key(state.buffers@[buffer_id].connection_id@),
        state.connections@[state.buffers@[buffer_id].connection_id@].id@ == state.buffers@[buffer_id].connection_id@,
        ticket_for(t, state.buffers@[buffer_id], state.connections@[state.buffers@[buffer_id].connection_id@]),
        upload_finished(before, after, t, Ok(url), web, now, r),
    ensures
        before.state == state ==> r,
        r ==> after.state.buffers@.contains_key(buffer_id) && after.state.buffers@[buffer_id].messages@.len()
            == before.state.buffers@[buffer_id].messages@.len() + 1,
        before.input@.len() > 0 || web ==> after.input@ == before.input@,
        r && !web && before.input@.len() == 0 && opt_text(before.state.active_buffer_id) == Some(buffer_id)
            ==> after.input@ == url@,
        !r ==> after == before,
{
}

} // verus!
