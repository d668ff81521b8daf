//! Rebooting into the boot loader on request over USB.
//!
//! The flashing tool looks for a vendor interface and sends it a control request.
//! It sends the request as a class request although the interface is a vendor
//! one, so both are taken.

use vstd::prelude::*;

verus! {

/// The request to reboot into the boot loader.
pub const RESET_REQUEST_BOOTSEL: u8 = 0x01;

/// The type of a control request.
#[derive(Clone, Copy, Debug, PartialEq, Eq, Structural)]
pub enum RequestType {
    Standard,
    Class,
    Vendor,
    Reserved,
}

/// Whom a control request is for.
#[derive(Clone, Copy, Debug, PartialEq, Eq, Structural)]
pub enum Recipient {
    Device,
    Interface,
    Endpoint,
    Other,
    Reserved,
}

/// A control request, as far as it matters here.
#[derive(Clone, Copy, Debug)]
pub struct Request {
    pub request_type: RequestType,
    pub recipient: Recipient,
    pub request: u8,
    pub index: u16,
}

/// What to do about a control request.
#[derive(Clone, Copy, Debug, PartialEq, Eq, Structural)]
pub enum Reply {
    /// It is for someone else.
    NotOurs,
    /// Reject it.
    Reject,
    /// Reboot into the boot loader.
    Reboot,
}

pub struct PicotoolHandler {
    interface: Option<u8>,
}

/// Whether a request is for our interface.
pub open spec fn ours(interface: Option<u8>, req: Request) -> bool {
    &&& interface is Some
    &&& req.request_type == RequestType::Vendor || req.request_type == RequestType::Class
    &&& req.recipient == Recipient::Interface
    &&& req.index == interface->0
}

impl PicotoolHandler {
    /// The number of our interface, once it is known.
    pub closed spec fn interface(&self) -> Option<u8> {
        self.interface
    }

    /// A handler that does not know its interface yet.
    pub fn new() -> (handler: Self)
        ensures
            handler.interface() is None,
    {
        PicotoolHandler { interface: None }
    }

    /// Sets the number of our interface.
    pub fn set_interface(&mut self, iface: u8)
        ensures
            final(self).interface() == Some(iface),
    {
        self.interface = Some(iface);
    }

    /// What to do about a control request.
    pub fn control_out(&self, req: Request) -> (reply: Reply)
        ensures
            reply == if !ours(self.interface(), req) {
                Reply::NotOurs
            } else if req.request == RESET_REQUEST_BOOTSEL {
                Reply::Reboot
            } else {
                Reply::Reject
            },
    {
        match self.interface {
            None => Reply::NotOurs,
            Some(iface) => {
                let matches: bool = (req.request_type == RequestType::Vendor || req.request_type
                    == RequestType::Class) && req.recipient == Recipient::Interface && req.index
                    == iface as u16;
                if !matches {
                    Reply::NotOurs
                } else if req.request == RESET_REQUEST_BOOTSEL {
                    Reply::Reboot
                } else {
                    Reply::Reject
                }
            },
        }
    }
}

/// A request is for the interface whose number it carries, and for no other; none is
/// before the number is known.
pub proof fn law_a_request_is_for_one_interface(a: u8, b: u8, req: Request)
    ensures
        !ours(None, req),
        ours(Some(a), req) && ours(Some(b), req) ==> a == b,
        ours(Some(a), req) ==> req.index == a && req.recipient == Recipient::Interface,
{
}

/// Vendor and class requests are taken alike, and no others; what is asked for does
/// not decide whom it is for.
pub proof fn law_vendor_and_class_are_alike(interface: Option<u8>, req: Request, request: u8)
    ensures
        ours(interface, Request { request_type: RequestType::Vendor, ..req }) == ours(
            interface,
            Request { request_type: RequestType::Class, ..req },
        ),
        !ours(interface, Request { request_type: RequestType::Standard, ..req }),
        !ours(interface, Request { request_type: RequestType::Reserved, ..req }),
        ours(interface, Request { request, ..req }) == ours(interface, req),
        interface is Some ==> ours(
            interface,
            Request {
                request_type: RequestType::Vendor,
                recipient: Recipient::Interface,
                request,
                index: interface->0 as u16,
            },
        ),
{
}

/// What calls of [`PicotoolHandler::control_out`] reply: before the interface is known
/// nothing is ours; once it is, a vendor or class request for it reboots where it asks
/// for the boot loader, and is rejected else; anything else is not ours.
pub proof fn law_replies_go_by_the_interface(
    unset: PicotoolHandler,
    before: Reply,
    handler: &mut PicotoolHandler,
    iface: u8,
    after: Reply,
    req: Request,
)
    requires
        call_ensures(PicotoolHandler::new, (), unset),
        call_ensures(PicotoolHandler::control_out, (&unset, req), before),
        call_ensures(PicotoolHandler::set_interface, (handler, iface), ()),
        call_ensures(PicotoolHandler::control_out, (&*final(handler), req), after),
    ensures
        before == Reply::NotOurs,
        after == Reply::NotOurs <==> !(req.index == iface && req.recipient == Recipient::Interface
            && (req.request_type == RequestType::Vendor || req.request_type
            == RequestType::Class)),
        after == Reply::Reboot ==> req.request == 1,
        after == Reply::Reject ==> req.request != 1,
{
}

} // verus!
