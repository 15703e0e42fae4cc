//! The bounded queues of connections, and a record of all that is put to them.
use crate::json::{Json, JsonView};
use tokio::sync::mpsc::Sender;
use vstd::prelude::*;

verus! {

/// How many messages may wait for a connection. Bounded so that a stalled connection
/// cannot hold unbounded frames, with room for one discovery fan-out per pending request
/// plus a burst of status broadcasts before the writer drains.
pub const OUTBOUND_CAPACITY: usize = 64;

/// How many events of connections may wait for the router.
pub const INBOUND_CAPACITY: usize = 128;

/// The sending half of the bounded channels of `tokio`.
#[verifier::external_type_specification]
#[verifier::external_body]
#[verifier::reject_recursive_types(T)]
pub struct ExSender<T>(tokio::sync::mpsc::Sender<T>);

/// What came of putting a message to a queue.
pub enum Delivery {
    /// The queue took it.
    Sent,
    /// The queue is full, and the message is handed back.
    Full(Json),
    /// The connection is gone, and the message is handed back.
    Closed(Json),
}

/// What came of putting a message to a queue.
pub enum DeliveryView {
    Sent,
    Full(JsonView),
    Closed(JsonView),
}

impl View for Delivery {
    type V = DeliveryView;

    open spec fn view(&self) -> DeliveryView {
        match self {
            Delivery::Sent => DeliveryView::Sent,
            Delivery::Full(message) => DeliveryView::Full(message@),
            Delivery::Closed(message) => DeliveryView::Closed(message@),
        }
    }
}

/// The three things that can come of putting a message to a queue.
pub enum Outcome {
    Sent,
    Full,
    Closed,
}

/// A delivery that comes to an outcome, of a message.
pub open spec fn delivery_of(message: JsonView, outcome: Outcome) -> DeliveryView {
    match outcome {
        Outcome::Sent => DeliveryView::Sent,
        Outcome::Full => DeliveryView::Full(message),
        Outcome::Closed => DeliveryView::Closed(message),
    }
}

/// The outcome that a delivery came to.
pub open spec fn outcome_of(delivery: DeliveryView) -> Outcome {
    match delivery {
        DeliveryView::Sent => Outcome::Sent,
        DeliveryView::Full(_) => Outcome::Full,
        DeliveryView::Closed(_) => Outcome::Closed,
    }
}

/// A message that was put to a queue, and what came of it.
pub struct OfferView {
    pub queue: Sender<Json>,
    pub message: JsonView,
    pub outcome: Outcome,
}

/// The record of all messages that were put to queues, in order. It takes up no room:
/// contracts alone read it.
pub struct Offers {
    log: Ghost<Seq<OfferView>>,
}

impl View for Offers {
    type V = Seq<OfferView>;

    closed spec fn view(&self) -> Seq<OfferView> {
        self.log@
    }
}

impl Offers {
    /// A record without entries.
    pub fn new() -> (offers: Offers)
        ensures
            offers@ == Seq::<OfferView>::empty(),
    {
        Offers { log: Ghost(Seq::empty()) }
    }

    /// Trusted: `tokio::sync::mpsc::Sender::try_send`, called once on this queue with this
    /// message, which is what the record holds of the call. A message that is not taken
    /// is handed back. Which of the three outcomes comes depends on what the other end
    /// does, and is left unsaid.
    #[verifier::external_body]
    pub(crate) fn offer(&mut self, queue: &Sender<Json>, message: Json) -> (delivery: Delivery)
        ensures
            delivery@ == delivery_of(message@, outcome_of(delivery@)),
            final(self)@ == old(self)@.push(
                OfferView {
                    queue: *queue,
                    message: message@,
                    outcome: outcome_of(delivery@),
                },
            ),
    {
        match queue.try_send(message) {
            Ok(()) => Delivery::Sent,
            Err(tokio::sync::mpsc::error::TrySendError::Full(back)) => Delivery::Full(back),
            Err(tokio::sync::mpsc::error::TrySendError::Closed(back)) => Delivery::Closed(back),
        }
    }
}

} // verus!
