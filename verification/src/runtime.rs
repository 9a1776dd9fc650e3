//! Whether this copy of the toolkit owns the process-wide state, or
//! forwards it to a host that does.
//!
//! A plugin links its own copy of the toolkit, and that copy would keep
//! its own queues nobody drains. So a copy owns the state until it is
//! attached to a host, and from then on every shared-state call is routed
//! to the host instead. The decision is kept here as a value, [`Link`];
//! the program that embeds the toolkit holds the one it lives by.

use vstd::prelude::*;

verus! {

/// Version of the host interface this copy was built against. A host
/// only ever APPENDS to its interface, so a newer host answers every call
/// this copy knows; an older one may not have them at all.
pub const ABI_VERSION: u32 = 6;

/// Where one shared-state call goes.
#[derive(Clone, Copy, Debug, PartialEq, Eq, Structural)]
pub enum Route {
    /// This copy owns the state: the call runs here.
    Local,
    /// Attached to a host: the call is forwarded through its interface.
    Forward,
    /// Attached, and yet no interface is held: the call is dropped.
    /// `warn` is true on the first such call only, so it is said once.
    Dropped { warn: bool },
}

/// A copy's standing: whether it is attached, the version of the host
/// interface it holds, and whether it has already said that a call was
/// dropped.
#[derive(Clone, Copy, Debug)]
pub struct Link {
    attached: bool,
    api: Option<u32>,
    warned: bool,
}

/// Whether an interface of version `abi` is one this copy may attach to:
/// there must be one, and it must be at least as new as this copy.
pub open spec fn accepts(abi: Option<u32>) -> bool {
    abi is Some && abi->0 >= ABI_VERSION
}

impl Link {
    /// Whether this copy has been attached to a host.
    pub closed spec fn is_attached(&self) -> bool {
        self.attached
    }

    /// The version of the host interface this copy holds, if any.
    pub closed spec fn held(&self) -> Option<u32> {
        self.api
    }

    /// Whether the dropped-call warning has been said.
    pub closed spec fn has_warned(&self) -> bool {
        self.warned
    }

    /// Where a call made in state `l` goes.
    pub open spec fn route_of(l: Link) -> Route {
        if !l.is_attached() {
            Route::Local
        } else if l.held() is Some {
            Route::Forward
        } else {
            Route::Dropped { warn: !l.has_warned() }
        }
    }

    /// What [`Link::attach`] does: an accepted interface is held and the
    /// copy is attached; a refused one leaves the copy exactly as it was.
    pub open spec fn attach_post(before: Link, after: Link, abi: Option<u32>, ok: bool) -> bool {
        &&& ok == accepts(abi)
        &&& ok ==> after.is_attached() && after.held() == abi && after.has_warned()
            == before.has_warned()
        &&& !ok ==> after == before
    }

    /// What [`Link::route`] does to the standing: only a dropped call
    /// changes it, and only to remember that the warning was said.
    pub open spec fn route_post(before: Link, after: Link) -> bool {
        &&& after.is_attached() == before.is_attached()
        &&& after.held() == before.held()
        &&& after.has_warned() == (before.has_warned() || Link::route_of(before) is Dropped)
    }

    /// A copy that nobody has attached: it owns its state, which is what
    /// makes an ordinary program the host by simply existing.
    pub fn new() -> (l: Link)
        ensures
            !l.is_attached(),
            l.held() is None,
            !l.has_warned(),
    {
        Link { attached: false, api: None, warned: false }
    }

    /// Whether this copy owns the shared state: true until it is attached.
    pub fn is_host(&self) -> (b: bool)
        ensures
            b == !self.is_attached(),
    {
        !self.attached
    }

    /// The version of the host interface held, if this copy holds one.
    pub fn api(&self) -> (r: Option<u32>)
        ensures
            r == self.held(),
    {
        self.api
    }

    /// Attaches this copy to a host whose interface has version `abi`
    /// (`None` when there is no interface at all). A missing or OLDER
    /// interface is refused and nothing is attached: the entries this
    /// copy expects may not be there, and reading one would run off the
    /// end of the host's table.
    pub fn attach(&mut self, abi: Option<u32>) -> (ok: bool)
        ensures
            Link::attach_post(*old(self), *final(self), abi, ok),
    {
        let ok = match abi {
            Some(v) => v >= ABI_VERSION,
            None => false,
        };
        if ok {
            self.api = abi;
            self.attached = true;
        }
        ok
    }

    /// Routes one shared-state call: here in the host, forwarded in an
    /// attached copy, and dropped — with a warning said once — in a copy
    /// that is attached and holds no interface.
    pub fn route(&mut self) -> (r: Route)
        ensures
            r == Link::route_of(*old(self)),
            Link::route_post(*old(self), *final(self)),
    {
        if !self.attached {
            return Route::Local;
        }
        match self.api {
            Some(_) => Route::Forward,
            None => {
                let warn = !self.warned;
                self.warned = true;
                Route::Dropped { warn }
            },
        }
    }
}

/// A refused attach changes nothing: the copy that asked still owns its
/// own state, rather than being half-attached to something it cannot
/// speak to.
pub proof fn law_a_refused_attach_keeps_the_host(before: Link, after: Link, abi: Option<u32>)
    requires
        Link::attach_post(before, after, abi, false),
    ensures
        Link::route_of(after) == Link::route_of(before),
        !before.is_attached() ==> Link::route_of(after) == Route::Local,
{
}

/// Once attached through [`Link::attach`], every call is forwarded to the
/// host, whatever was routed before: no call of an attached copy runs
/// locally, and none is dropped.
pub proof fn law_an_attached_copy_forwards(before: Link, after: Link, abi: Option<u32>)
    requires
        Link::attach_post(before, after, abi, true),
    ensures
        Link::route_of(after) == Route::Forward,
{
}

/// Routing never attaches or detaches: a copy's ownership of its state
/// changes only through [`Link::attach`].
pub proof fn law_routing_keeps_the_owner(before: Link, after: Link)
    requires
        Link::route_post(before, after),
    ensures
        Link::route_of(after) is Local <==> Link::route_of(before) is Local,
        Link::route_of(before) is Forward ==> Link::route_of(after) == Route::Forward,
{
}

/// The dropped-call warning is said at most once: after one dropped call,
/// every later one in the same standing is dropped silently.
pub proof fn law_the_warning_is_said_once(before: Link, after: Link)
    requires
        Link::route_post(before, after),
        Link::route_of(before) is Dropped,
    ensures
        Link::route_of(after) == (Route::Dropped { warn: false }),
{
}

} // verus!
