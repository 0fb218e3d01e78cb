use vstd::prelude::*;
use crate::ipc::cspace::{CSpaceManager, CapKind, lookup};

verus! {

/// The right that lets a caller send on an endpoint.
pub const RIGHT_SEND: u8 = 0x02;

#[derive(Clone, Copy, Default, Debug)]
pub struct MsgRegs {
    pub label: u32,
    pub w0: u64,
    pub w1: u64,
    pub w2: u64,
}

#[derive(Clone, Copy, Debug)]
pub enum IpcResult {
    Reply(MsgRegs),
    Error(IpcError),
}

#[derive(Clone, Copy, Debug, PartialEq, Eq, Structural)]
pub enum IpcError {
    InvalidCap,
    WrongCapKind,
    ReceiverNotReady,
    MessageTooLong,
}

/// What the fast path does with a message: answer at once, or hand it to the kernel entry
/// for endpoint object `object` and finish with the reply (`finish_delivery`).
#[derive(Clone, Copy, Debug)]
pub enum IpcStep {
    Done(IpcResult),
    Deliver { object: u64, msg: MsgRegs },
}

/// Whether a capability's rights include sending.
pub open spec fn can_send(rights: u8) -> bool {
    rights & RIGHT_SEND != 0
}

/// What `call` decides for `ep_cptr`: an empty or unusable slot is an invalid capability,
/// a capability of another kind is the wrong kind, an endpoint without the send right is an
/// invalid capability, an endpoint whose object is 0 has no receiver, and any other endpoint
/// gets the message delivered.
pub open spec fn call_step(cs: CSpaceManager, ep_cptr: u32, msg: MsgRegs) -> IpcStep {
    match cs.spec_lookup(ep_cptr) {
        None => IpcStep::Done(IpcResult::Error(IpcError::InvalidCap)),
        Some(c) => if c.kind != CapKind::Endpoint {
            IpcStep::Done(IpcResult::Error(IpcError::WrongCapKind))
        } else if !can_send(c.rights) {
            IpcStep::Done(IpcResult::Error(IpcError::InvalidCap))
        } else if c.object == 0 {
            IpcStep::Done(IpcResult::Error(IpcError::ReceiverNotReady))
        } else {
            IpcStep::Deliver { object: c.object, msg }
        },
    }
}

/// Decides a call on endpoint capability `ep_cptr` (see `call_step`).
pub fn call(cs: &CSpaceManager, ep_cptr: u32, msg: MsgRegs) -> (step: IpcStep)
    requires
        cs.wf(),
    ensures
        step == call_step(*cs, ep_cptr, msg),
{
    let cap = match lookup(cs, ep_cptr) {
        Some(c) => {
            if c.kind == CapKind::Endpoint {
                c
            } else {
                return IpcStep::Done(IpcResult::Error(IpcError::WrongCapKind));
            }
        },
        None => return IpcStep::Done(IpcResult::Error(IpcError::InvalidCap)),
    };
    if cap.rights & RIGHT_SEND == 0 {
        return IpcStep::Done(IpcResult::Error(IpcError::InvalidCap));
    }
    deliver(cap.object, msg)
}

/// Decides a send on `ep_cptr`: `Some(object)` when the slot holds an endpoint with the send
/// right (the message then goes to that object, whatever comes back), `None` otherwise.
pub fn send(cs: &CSpaceManager, ep_cptr: u32) -> (target: Option<u64>)
    requires
        cs.wf(),
    ensures
        target == (match cs.spec_lookup(ep_cptr) {
            Some(c) => if c.kind == CapKind::Endpoint && can_send(c.rights) {
                Some(c.object)
            } else {
                None
            },
            None => None,
        }),
{
    match lookup(cs, ep_cptr) {
        Some(c) => {
            if c.kind == CapKind::Endpoint && c.rights & RIGHT_SEND != 0 {
                Some(c.object)
            } else {
                None
            }
        },
        None => None,
    }
}

/// The first half of a delivery: an object of 0 has no receiver.
fn deliver(endpoint_obj: u64, msg: MsgRegs) -> (step: IpcStep)
    ensures
        endpoint_obj == 0 ==> step == IpcStep::Done(IpcResult::Error(IpcError::ReceiverNotReady)),
        endpoint_obj != 0 ==> step == (IpcStep::Deliver { object: endpoint_obj, msg }),
{
    if endpoint_obj == 0 {
        return IpcStep::Done(IpcResult::Error(IpcError::ReceiverNotReady));
    }
    IpcStep::Deliver { object: endpoint_obj, msg }
}

/// The second half of a delivery, from the registers the kernel entry gives back: a label of
/// all ones means no receiver was ready; anything else is the reply.
pub fn finish_delivery(out_label: u32, out_w0: u64, out_w1: u64, out_w2: u64) -> (res: IpcResult)
    ensures
        out_label == u32::MAX ==> res == IpcResult::Error(IpcError::ReceiverNotReady),
        out_label != u32::MAX ==> res == IpcResult::Reply(MsgRegs { label: out_label, w0: out_w0, w1: out_w1, w2: out_w2 }),
{
    if out_label == u32::MAX {
        return IpcResult::Error(IpcError::ReceiverNotReady);
    }
    IpcResult::Reply(MsgRegs { label: out_label, w0: out_w0, w1: out_w1, w2: out_w2 })
}

/// The send right is one bit: a call on an endpoint capability whose rights have bit 0x02 set
/// is delivered to the endpoint's object whatever other rights it carries (an object of 0
/// has no receiver), and one whose rights lack that bit is refused as an invalid
/// capability. A slot with no capability is an invalid capability, and one holding any
/// other kind is the wrong kind.
pub proof fn law_call_needs_only_the_send_bit(cs: CSpaceManager, ep_cptr: u32, msg: MsgRegs)
    ensures
        cs.spec_lookup(ep_cptr) is None ==> call_step(cs, ep_cptr, msg) == IpcStep::Done(IpcResult::Error(IpcError::InvalidCap)),
        cs.spec_lookup(ep_cptr) matches Some(c) ==> {
            &&& c.kind != CapKind::Endpoint ==> call_step(cs, ep_cptr, msg) == IpcStep::Done(IpcResult::Error(IpcError::WrongCapKind))
            &&& (c.kind == CapKind::Endpoint && c.rights & 2u8 != 0 && c.object != 0)
                ==> call_step(cs, ep_cptr, msg) == (IpcStep::Deliver { object: c.object, msg })
            &&& (c.kind == CapKind::Endpoint && c.rights & 2u8 != 0 && c.object == 0)
                ==> call_step(cs, ep_cptr, msg) == IpcStep::Done(IpcResult::Error(IpcError::ReceiverNotReady))
            &&& (c.kind == CapKind::Endpoint && c.rights & 2u8 == 0)
                ==> call_step(cs, ep_cptr, msg) == IpcStep::Done(IpcResult::Error(IpcError::InvalidCap))
        },
{
}

} // verus!
