use vstd::prelude::*;

use crate::messages::{Message, SID};

verus! {

/// The message-level behaviour of the built-in camera service.
///
/// What the service does between messages — acquiring a device, producing a
/// frame — is its own affair and happens outside this crate; here stands the
/// part the bus can see: which topic it subscribes to, and which message it
/// answers with when an event reaches it.
#[derive(Clone)]
pub struct Camera {}

impl Camera {
    /// A camera service, holding no bus-visible state of its own.
    pub fn new() -> (c: Camera) {
        Camera {  }
    }

    /// The service's stable diagnostic name.
    pub fn name(&self) -> (n: &'static str)
        ensures
            n@ == "Camera"@,
    {
        "Camera"
    }

    /// The first message the service sends once started: it subscribes
    /// itself, under the identity the kernel minted for it, to the topic it
    /// takes frame requests on.
    pub fn initial_message(&self, sid: SID) -> (m: Message)
        ensures
            (m matches Message::Subscribe(s, t) && s == sid && t@ == "/camera"@),
    {
        Message::Subscribe(sid, "/camera".to_owned())
    }

    /// What the service answers when a message arrives on its inbound
    /// channel: every event — a frame request — is answered by publishing a
    /// frame on the frames topic; control messages are ignored.
    pub fn on_message(&self, msg: &Message) -> (r: Option<Message>)
        ensures
            match msg {
                Message::Event(_, _) => (r matches Some(out) && out matches Message::Event(t, d)
                    && t@ == "/frames"@ && d@ == "[A FRAME OF VIDEO]"@),
                _ => r is None,
            },
    {
        match msg {
            Message::Event(_topic, _data) => Some(
                Message::Event("/frames".to_owned(), "[A FRAME OF VIDEO]".to_owned()),
            ),
            _ => None,
        }
    }
}

} // verus!
