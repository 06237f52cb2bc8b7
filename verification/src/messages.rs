use vstd::prelude::*;

verus! {

/// Identity of a registered subscriber. The kernel mints one per service at
/// registration time; it is compared only for identity, never interpreted.
pub type SID = u64;

/// The unit exchanged on the bus.
///
/// `Subscribe` and `Unsubscribe` are control messages: the kernel interprets
/// them against its subscription registry and never forwards them to any
/// service. `Event` carries an opaque payload and is routed by topic to every
/// current subscriber of that topic.
#[derive(Clone)]
pub enum Message {
    Subscribe(SID, String),
    Unsubscribe(SID, String),
    Event(String, String),
}

/// What routing hands a subscriber when an event is delivered, as
/// mathematical values: the topic and the payload, each as a character
/// sequence. Used only in specifications and in the kernel's ghost delivery
/// log.
pub struct EventView {
    pub topic: Seq<char>,
    pub payload: Seq<char>,
}

} // verus!
