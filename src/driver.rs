//! The node side of the control protocol: the messages between a node's
//! action driver and the server, and the driver's checks on them. Sending and
//! awaiting belong to the caller.
use vstd::prelude::*;
use crate::action::{Action, ActionBeginEnd};
use crate::error::DtmError;

verus! {

/// A control message between a node's driver and the server.
#[derive(Debug)]
pub enum MessageControl {
    /// A node asks to go past one bracket of an action.
    ActionReq { id: String, action: Action, begin: bool },
    /// The server lets the request with this id proceed.
    ActionACK { id: String },
    /// Either side ends the run.
    Stop,
}

/// A lowercase hexadecimal digit.
pub open spec fn is_lower_hex(c: char) -> bool {
    (48 <= (c as u32) <= 57) || (97 <= (c as u32) <= 102)
}

/// The hyphenated text of a UUID: 36 characters, hyphens at 8, 13, 18 and
/// 23, lowercase hexadecimal digits elsewhere.
pub open spec fn is_uuid_text(s: Seq<char>) -> bool {
    &&& s.len() == 36
    &&& forall|i: int|
        0 <= i < 36 ==> if i == 8 || i == 13 || i == 18 || i == 23 {
            s[i] == '-'
        } else {
            is_lower_hex(#[trigger] s[i])
        }
}

/// Relies on uuid::Uuid::new_v4 for a fresh random id, and on its `Display`,
/// which writes the hyphenated lowercase form.
#[verifier::external_body]
fn fresh_request_id() -> (r: String)
    ensures
        is_uuid_text(r@),
{
    uuid::Uuid::new_v4().to_string()
}

/// The request for one bracket of `action`, under the id `id`.
pub fn make_request(action: Action, begin_end: ActionBeginEnd, id: String) -> (r: MessageControl)
    ensures
        r matches MessageControl::ActionReq { id: i, action: a, begin: b } && i@ == id@ && a@ == action@
            && b == (begin_end == ActionBeginEnd::Begin),
{
    let begin = match begin_end {
        ActionBeginEnd::Begin => true,
        ActionBeginEnd::End => false,
    };
    MessageControl::ActionReq { id, action, begin }
}

/// The request for one bracket of `action`, under a fresh id.
pub fn new_request(action: Action, begin_end: ActionBeginEnd) -> (r: MessageControl)
    ensures
        r matches MessageControl::ActionReq { id: i, action: a, begin: b } && is_uuid_text(i@) && a@
            == action@ && b == (begin_end == ActionBeginEnd::Begin),
{
    let id = fresh_request_id();
    make_request(action, begin_end, id)
}

/// The id of a request, if the message is one.
pub fn request_id(m: &MessageControl) -> (r: Option<String>)
    ensures
        match m {
            MessageControl::ActionReq { id, .. } => r matches Some(s) && s@ == id@,
            _ => r is None,
        },
{
    match m {
        MessageControl::ActionReq { id, .. } => Some(id.clone()),
        _ => None,
    }
}

/// Checks the server's answer to the request `request_id`: only the
/// acknowledgement of that very request lets the node go on.
pub fn check_response(request_id: &String, resp: &MessageControl) -> (r: Result<(), DtmError>)
    ensures
        r is Ok <==> (resp matches MessageControl::ActionACK { id } && id@ == request_id@),
        r matches Err(e) ==> e == DtmError::InvariantViolation,
{
    match resp {
        MessageControl::ActionACK { id } => {
            if *id == *request_id {
                Ok(())
            } else {
                Err(DtmError::InvariantViolation)
            }
        },
        _ => Err(DtmError::InvariantViolation),
    }
}

/// The server's acknowledgement of the request `id`.
pub fn make_ack(id: &String) -> (r: MessageControl)
    ensures
        r matches MessageControl::ActionACK { id: i } && i@ == id@,
{
    MessageControl::ActionACK { id: id.clone() }
}

} // verus!
