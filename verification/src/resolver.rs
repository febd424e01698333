//! The payload resolver: turns one decoded envelope into zero, one, or two
//! notification requests via two independent rules, evaluated in a fixed
//! order.
//!
//! 1. Direct rule: when `message` is present, one request with its title
//!    and content (both always present in that shape).
//! 2. Keyed rule: when the routing selector matches, one request whose
//!    title and body are looked up by key in the keyed payload, first match
//!    winning; the request is emitted even when both lookups come up empty.
//!
//! The two rules are non-exclusive: one envelope can fire both, the direct
//! rule's request first.

use vstd::prelude::*;
use crate::envelope::DataModel;
use crate::envelope::MessageModel;
use crate::envelope::NotificationData;
use crate::envelope::NotificationRequest;
use crate::envelope::RequestModel;
use crate::envelope::first_value;
use crate::envelope::str_eq;

verus! {

/// The routing selector that fires the keyed rule.
pub open spec fn selector() -> Seq<char> {
    "cub3d.notify"@
}

/// The request emitted by the direct rule.
pub open spec fn direct_request(m: MessageModel) -> RequestModel {
    RequestModel { title: Some(m.title), body: Some(m.content) }
}

/// The request emitted by the keyed rule: first values stored under the
/// `title` and `body` keys, either of which may be absent.
pub open spec fn keyed_request(d: DataModel) -> RequestModel {
    RequestModel {
        title: first_value(d.entries(), "title"@),
        body: first_value(d.entries(), "body"@),
    }
}

/// All requests an envelope produces, in the order they are raised:
/// the direct rule's request (when `message` is present) followed by the
/// keyed rule's request (when the selector matches).
pub open spec fn resolve_spec(d: DataModel) -> Seq<RequestModel> {
    let direct: Seq<RequestModel> = match d.message {
        Some(m) => seq![direct_request(m)],
        None => Seq::empty(),
    };
    let keyed: Seq<RequestModel> = if d.target_app_id == selector() {
        seq![keyed_request(d)]
    } else {
        Seq::empty()
    };
    direct + keyed
}

/// Resolve one decoded envelope into the notification requests it produces,
/// exactly those of `resolve_spec` and in the same order.
pub fn resolve(data: &NotificationData) -> (r: Vec<NotificationRequest>)
    ensures
        r.deep_view() == resolve_spec(data@),
{
    let mut out: Vec<NotificationRequest> = Vec::new();
    if let Some(msg) = &data.message {
        out.push(
            NotificationRequest {
                title: Some(msg.title.clone()),
                body: Some(msg.content.clone()),
            },
        );
    }
    if str_eq(data.target_app_id.as_str(), "cub3d.notify") {
        let title = match data.get_payload("title") {
            Some(t) => Some(t.clone()),
            None => None,
        };
        let body = match data.get_payload("body") {
            Some(b) => Some(b.clone()),
            None => None,
        };
        out.push(NotificationRequest { title, body });
    }
    proof {
        assert(out.deep_view() =~= resolve_spec(data@));
    }
    out
}

/// An envelope whose `message` is present and whose selector matches fires
/// both rules: exactly two requests, the direct rule's before the keyed
/// rule's.
pub proof fn lemma_both_rules_fire(d: DataModel)
    requires
        d.message is Some,
        d.target_app_id == selector(),
    ensures
        resolve_spec(d).len() == 2,
        resolve_spec(d)[0] == direct_request(d.message->Some_0),
        resolve_spec(d)[1] == keyed_request(d),
{
}

/// Requests are raised in rule order within one envelope: whenever the
/// direct rule fires, its request stands first, and the keyed rule's
/// request, when it fires, stands last.
pub proof fn lemma_rule_order(d: DataModel)
    ensures
        d.message is Some ==> resolve_spec(d).first() == direct_request(d.message->Some_0),
        d.target_app_id == selector() ==> resolve_spec(d).last() == keyed_request(d),
        resolve_spec(d).len() == (if d.message is Some { 1int } else { 0int }) + (
        if d.target_app_id == selector() { 1int } else { 0int }),
{
}

} // verus!
