//! Resolving the host's identity at startup.
//!
//! The identity lives in a store that outlasts the process. A start that
//! finds it there uses it; a start that finds the store empty registers the
//! host under its hostname and writes the identity it is given to the store
//! before using it. The steps that touch the store or the network are done
//! by the driver, which reports what came of each.

use vstd::prelude::*;

verus! {

/// Why no identity could be resolved. Each one stops the agent at startup.
#[derive(Debug, Clone, Copy, PartialEq, Eq, Structural)]
pub enum IdentityError {
    /// The store is there but could not be read.
    StoreUnreadable,
    /// The hostname could not be found out.
    HostnameLookup,
    /// The service did not register the host.
    Registration,
    /// The new identity could not be written to the store.
    Persist,
}

/// What reading the store gave.
#[derive(Debug, Clone, PartialEq, Eq)]
pub enum StoreContents {
    /// The store holds this identity.
    Present(String),
    /// There is no store yet.
    Absent,
    /// The store is there but could not be read.
    Unreadable,
}

/// `StoreContents` as plain text.
pub ghost enum StoreView {
    Present(Seq<char>),
    Absent,
    Unreadable,
}

impl View for StoreContents {
    type V = StoreView;

    open spec fn view(&self) -> StoreView {
        match self {
            StoreContents::Present(id) => StoreView::Present(id@),
            StoreContents::Absent => StoreView::Absent,
            StoreContents::Unreadable => StoreView::Unreadable,
        }
    }
}

/// Where the bootstrap stands.
#[derive(Debug, PartialEq, Eq)]
pub enum IdentityState {
    /// The store is being read.
    ReadingStore,
    /// The store is empty; the hostname is being found out.
    LookingUpHostname,
    /// The host is being registered.
    Registering,
    /// The host is registered as `id`, which is being written to the store.
    Persisting { id: String },
    /// The identity is `id`, and the store holds it.
    Resolved { id: String },
    /// The bootstrap gave up.
    Failed { error: IdentityError },
}

/// `IdentityState` as plain text.
pub ghost enum IdentityStateView {
    ReadingStore,
    LookingUpHostname,
    Registering,
    Persisting { id: Seq<char> },
    Resolved { id: Seq<char> },
    Failed { error: IdentityError },
}

impl View for IdentityState {
    type V = IdentityStateView;

    open spec fn view(&self) -> IdentityStateView {
        match self {
            IdentityState::ReadingStore => IdentityStateView::ReadingStore,
            IdentityState::LookingUpHostname => IdentityStateView::LookingUpHostname,
            IdentityState::Registering => IdentityStateView::Registering,
            IdentityState::Persisting { id } => IdentityStateView::Persisting { id: id@ },
            IdentityState::Resolved { id } => IdentityStateView::Resolved { id: id@ },
            IdentityState::Failed { error } => IdentityStateView::Failed { error: *error },
        }
    }
}

/// What the driver reports.
#[derive(Debug, PartialEq, Eq)]
pub enum IdentityEvent {
    /// The store was read.
    StoreRead { contents: StoreContents },
    /// The hostname lookup returned, with the name unless it failed.
    HostnameLookedUp { hostname: Option<String> },
    /// The registration call returned, with the new identity unless it
    /// failed.
    RegistrationReturned { id: Option<String> },
    /// The write to the store returned.
    PersistReturned { ok: bool },
}

/// `IdentityEvent` as plain text.
pub ghost enum IdentityEventView {
    StoreRead { contents: StoreView },
    HostnameLookedUp { hostname: Option<Seq<char>> },
    RegistrationReturned { id: Option<Seq<char>> },
    PersistReturned { ok: bool },
}

/// Text that may be missing, as plain text.
pub open spec fn text_view(text: Option<String>) -> Option<Seq<char>> {
    match text {
        Some(s) => Some(s@),
        None => None,
    }
}

impl View for IdentityEvent {
    type V = IdentityEventView;

    open spec fn view(&self) -> IdentityEventView {
        match self {
            IdentityEvent::StoreRead { contents } => IdentityEventView::StoreRead {
                contents: contents@,
            },
            IdentityEvent::HostnameLookedUp { hostname } => IdentityEventView::HostnameLookedUp {
                hostname: text_view(*hostname),
            },
            IdentityEvent::RegistrationReturned { id } => IdentityEventView::RegistrationReturned {
                id: text_view(*id),
            },
            IdentityEvent::PersistReturned { ok } => IdentityEventView::PersistReturned { ok: *ok },
        }
    }
}

/// What the driver is to do next.
#[derive(Debug, PartialEq, Eq)]
pub enum IdentityAction {
    /// Read the store.
    ReadStore,
    /// Find out the hostname.
    LookUpHostname,
    /// Register the host under `hostname`.
    Register { hostname: String },
    /// Write `id` to the store.
    Persist { id: String },
    /// Go on as the host `id`.
    Finish { id: String },
    /// Stop the agent.
    Abort { error: IdentityError },
    /// The event is not one that the state waits for; go on as before.
    Ignore,
}

/// `IdentityAction` as plain text.
pub ghost enum IdentityActionView {
    ReadStore,
    LookUpHostname,
    Register { hostname: Seq<char> },
    Persist { id: Seq<char> },
    Finish { id: Seq<char> },
    Abort { error: IdentityError },
    Ignore,
}

impl View for IdentityAction {
    type V = IdentityActionView;

    open spec fn view(&self) -> IdentityActionView {
        match self {
            IdentityAction::ReadStore => IdentityActionView::ReadStore,
            IdentityAction::LookUpHostname => IdentityActionView::LookUpHostname,
            IdentityAction::Register { hostname } => IdentityActionView::Register {
                hostname: hostname@,
            },
            IdentityAction::Persist { id } => IdentityActionView::Persist { id: id@ },
            IdentityAction::Finish { id } => IdentityActionView::Finish { id: id@ },
            IdentityAction::Abort { error } => IdentityActionView::Abort { error: *error },
            IdentityAction::Ignore => IdentityActionView::Ignore,
        }
    }
}

/// The state and the action with which the bootstrap gives up.
pub open spec fn give_up(error: IdentityError) -> (IdentityStateView, IdentityActionView) {
    (IdentityStateView::Failed { error }, IdentityActionView::Abort { error })
}

/// The state and the action that follow `event` in `state`.
pub open spec fn identity_step(state: IdentityStateView, event: IdentityEventView) -> (
    IdentityStateView,
    IdentityActionView,
) {
    match (state, event) {
        (IdentityStateView::Resolved { id }, _) => (state, IdentityActionView::Finish { id }),
        (IdentityStateView::Failed { error }, _) => (state, IdentityActionView::Abort { error }),
        (IdentityStateView::ReadingStore, IdentityEventView::StoreRead { contents }) => match contents {
            StoreView::Present(id) => (
                IdentityStateView::Resolved { id },
                IdentityActionView::Finish { id },
            ),
            StoreView::Absent => (
                IdentityStateView::LookingUpHostname,
                IdentityActionView::LookUpHostname,
            ),
            StoreView::Unreadable => give_up(IdentityError::StoreUnreadable),
        },
        (
            IdentityStateView::LookingUpHostname,
            IdentityEventView::HostnameLookedUp { hostname },
        ) => match hostname {
            Some(hostname) => (
                IdentityStateView::Registering,
                IdentityActionView::Register { hostname },
            ),
            None => give_up(IdentityError::HostnameLookup),
        },
        (IdentityStateView::Registering, IdentityEventView::RegistrationReturned { id }) => match id {
            Some(id) => (IdentityStateView::Persisting { id }, IdentityActionView::Persist { id }),
            None => give_up(IdentityError::Registration),
        },
        (IdentityStateView::Persisting { id }, IdentityEventView::PersistReturned { ok }) => if ok {
            (IdentityStateView::Resolved { id }, IdentityActionView::Finish { id })
        } else {
            give_up(IdentityError::Persist)
        },
        _ => (state, IdentityActionView::Ignore),
    }
}

/// The hostname as `hostname::get` reports it, where it reports one that is
/// valid UTF-8. Trusted; nothing is claimed of the name, which is the
/// machine's to choose.
#[verifier::external_body]
fn local_hostname() -> (name: Option<String>) {
    hostname::get().ok().and_then(|name| name.into_string().ok())
}

/// Looks the hostname up and reports what came of it.
pub fn look_up_hostname() -> (event: IdentityEvent)
    ensures
        event is HostnameLookedUp,
{
    IdentityEvent::HostnameLookedUp { hostname: local_hostname() }
}

fn fail(error: IdentityError) -> (next: (IdentityState, IdentityAction))
    ensures
        (next.0@, next.1@) == give_up(error),
{
    (IdentityState::Failed { error }, IdentityAction::Abort { error })
}

impl IdentityState {
    /// The state in which every bootstrap starts, with the action to begin
    /// with.
    pub fn start() -> (first: (IdentityState, IdentityAction))
        ensures
            first.0@ == IdentityStateView::ReadingStore,
            first.1@ == IdentityActionView::ReadStore,
    {
        (IdentityState::ReadingStore, IdentityAction::ReadStore)
    }

    /// Takes `event` in this state and says where the bootstrap stands
    /// afterwards and what is to be done.
    pub fn step(self, event: IdentityEvent) -> (next: (IdentityState, IdentityAction))
        ensures
            (next.0@, next.1@) == identity_step(self@, event@),
    {
        match self {
            IdentityState::Resolved { id } => {
                let again = id.clone();
                (IdentityState::Resolved { id }, IdentityAction::Finish { id: again })
            },
            IdentityState::Failed { error } => fail(error),
            IdentityState::ReadingStore => match event {
                IdentityEvent::StoreRead { contents } => match contents {
                    StoreContents::Present(id) => {
                        let held = id.clone();
                        (IdentityState::Resolved { id }, IdentityAction::Finish { id: held })
                    },
                    StoreContents::Absent => (
                        IdentityState::LookingUpHostname,
                        IdentityAction::LookUpHostname,
                    ),
                    StoreContents::Unreadable => fail(IdentityError::StoreUnreadable),
                },
                _ => (IdentityState::ReadingStore, IdentityAction::Ignore),
            },
            IdentityState::LookingUpHostname => match event {
                IdentityEvent::HostnameLookedUp { hostname } => match hostname {
                    Some(hostname) => (
                        IdentityState::Registering,
                        IdentityAction::Register { hostname },
                    ),
                    None => fail(IdentityError::HostnameLookup),
                },
                _ => (IdentityState::LookingUpHostname, IdentityAction::Ignore),
            },
            IdentityState::Registering => match event {
                IdentityEvent::RegistrationReturned { id } => match id {
                    Some(id) => {
                        let given = id.clone();
                        (IdentityState::Persisting { id }, IdentityAction::Persist { id: given })
                    },
                    None => fail(IdentityError::Registration),
                },
                _ => (IdentityState::Registering, IdentityAction::Ignore),
            },
            IdentityState::Persisting { id } => match event {
                IdentityEvent::PersistReturned { ok } => {
                    if ok {
                        let written = id.clone();
                        (IdentityState::Resolved { id }, IdentityAction::Finish { id: written })
                    } else {
                        fail(IdentityError::Persist)
                    }
                },
                _ => (IdentityState::Persisting { id }, IdentityAction::Ignore),
            },
        }
    }

    /// The identity, once it is resolved.
    pub fn identity(&self) -> (identity: Option<String>)
        ensures
            text_view(identity) == (match self@ {
                IdentityStateView::Resolved { id } => Some(id),
                _ => None,
            }),
    {
        match self {
            IdentityState::Resolved { id } => Some(id.clone()),
            _ => None,
        }
    }
}

/// The world that a bootstrap runs in: what the store holds, what the
/// hostname lookup and the registration call will answer, whether a write to
/// the store will succeed, and how many registration calls were made so far.
pub ghost struct World {
    pub store: StoreView,
    pub hostname: Option<Seq<char>>,
    pub registration: Option<Seq<char>>,
    pub store_writable: bool,
    pub registrations: nat,
}

/// What the world answers to `action`, and the world after it. A registration
/// call is counted; a write that succeeds changes the store.
pub open spec fn respond(world: World, action: IdentityActionView) -> (IdentityEventView, World) {
    match action {
        IdentityActionView::LookUpHostname => (
            IdentityEventView::HostnameLookedUp { hostname: world.hostname },
            world,
        ),
        IdentityActionView::Register { hostname } => (
            IdentityEventView::RegistrationReturned { id: world.registration },
            World { registrations: world.registrations + 1, ..world },
        ),
        IdentityActionView::Persist { id } => (
            IdentityEventView::PersistReturned { ok: world.store_writable },
            if world.store_writable {
                World { store: StoreView::Present(id), ..world }
            } else {
                world
            },
        ),
        _ => (IdentityEventView::StoreRead { contents: world.store }, world),
    }
}

/// Whether `action` ends a bootstrap.
pub open spec fn is_final(action: IdentityActionView) -> bool {
    action is Finish || action is Abort
}

/// The state and the world reached from `state` by doing `action` and up to
/// `steps - 1` actions after it, stopping early where the bootstrap ends.
pub open spec fn drive(
    state: IdentityStateView,
    action: IdentityActionView,
    world: World,
    steps: nat,
) -> (IdentityStateView, World)
    decreases steps,
{
    if steps == 0 || is_final(action) {
        (state, world)
    } else {
        let (event, after) = respond(world, action);
        let (next, then_do) = identity_step(state, event);
        drive(next, then_do, after, (steps - 1) as nat)
    }
}

/// A whole bootstrap in `world`: the state it ends in and the world it
/// leaves. No bootstrap takes more than four actions.
pub open spec fn bootstrap(world: World) -> (IdentityStateView, World) {
    drive(IdentityStateView::ReadingStore, IdentityActionView::ReadStore, world, 4)
}

/// Every bootstrap ends, with an identity or with an error, and an identity
/// it ends with is the one that the store then holds.
pub proof fn lemma_bootstrap_ends(world: World)
    ensures
        bootstrap(world).0 is Resolved || bootstrap(world).0 is Failed,
        bootstrap(world).0 matches IdentityStateView::Resolved { id } ==> bootstrap(world).1.store
            == StoreView::Present(id),
{
    reveal_with_fuel(drive, 5);
}

/// A host whose store holds an identity keeps it: the bootstrap resolves to
/// what the store holds, makes no registration call and leaves the world as
/// it was, so that every later bootstrap gives the same.
pub proof fn lemma_stored_identity_is_kept(world: World, id: Seq<char>)
    requires
        world.store == StoreView::Present(id),
    ensures
        bootstrap(world) == (IdentityStateView::Resolved { id }, world),
        bootstrap(bootstrap(world).1) == bootstrap(world),
{
    reveal_with_fuel(drive, 5);
}

/// A host whose store is empty registers once: where the hostname is found,
/// the service gives the identity `id` and the store can be written, the
/// bootstrap resolves to `id`, has made one registration call and leaves `id`
/// in the store; a later bootstrap resolves to `id` again without another
/// call.
pub proof fn lemma_first_start_registers_once(world: World, id: Seq<char>)
    requires
        world.store == StoreView::Absent,
        world.hostname is Some,
        world.registration == Some(id),
        world.store_writable,
    ensures
        bootstrap(world) == (
            IdentityStateView::Resolved { id },
            World {
                store: StoreView::Present(id),
                registrations: world.registrations + 1,
                ..world
            },
        ),
        bootstrap(bootstrap(world).1) == bootstrap(world),
{
    reveal_with_fuel(drive, 5);
}

/// A bootstrap that cannot finish gives up with the error of the step that
/// failed, and leaves the store as it found it. It registers only after the
/// hostname was found.
pub proof fn lemma_bootstrap_failures(world: World)
    ensures
        world.store == StoreView::Unreadable ==> bootstrap(world) == (
            IdentityStateView::Failed { error: IdentityError::StoreUnreadable },
            world,
        ),
        world.store == StoreView::Absent && world.hostname is None ==> bootstrap(world) == (
            IdentityStateView::Failed { error: IdentityError::HostnameLookup },
            world,
        ),
        world.store == StoreView::Absent && world.hostname is Some && world.registration is None
            ==> bootstrap(world) == (
            IdentityStateView::Failed { error: IdentityError::Registration },
            World { registrations: world.registrations + 1, ..world },
        ),
        world.store == StoreView::Absent && world.hostname is Some && world.registration is Some
            && !world.store_writable ==> bootstrap(world) == (
            IdentityStateView::Failed { error: IdentityError::Persist },
            World { registrations: world.registrations + 1, ..world },
        ),
{
    reveal_with_fuel(drive, 5);
}

} // verus!
