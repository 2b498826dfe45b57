//! Keeping the component resident in its host process.
//!
//! Some hosts load and unload the component around every call. To stay
//! loaded, the component takes one extra reference to itself, once. The
//! loader calls are the host adapter's business; what to do next, given what
//! the loader answered, is decided here.

use vstd::prelude::*;

verus! {

/// How far the component has come in pinning itself.
#[derive(Clone, Copy, Debug, PartialEq, Eq, Structural)]
pub enum Residency {
    /// Nothing has been attempted yet. Whatever is reported first, the
    /// component begins by asking where its image lies.
    Fresh,
    /// The component asked where its own image lies.
    Locating,
    /// The component asked the loader to promote the image that is already
    /// loaded.
    Promoting,
    /// Promotion failed and the component asked the loader to load the image.
    Loading,
    /// The extra reference is held. This state is never left.
    Resident,
    /// The image could not be found or referenced. This state is never left.
    Failed,
}

/// What the host adapter reports back after it carried out an action.
#[derive(Clone, Copy, Debug, PartialEq, Eq, Structural)]
pub enum LoaderEvent {
    /// A call is about to be served.
    Begin,
    /// The image's path is known.
    PathFound,
    /// The image's path could not be determined.
    PathMissing,
    /// The loader returned a handle.
    Opened,
    /// The loader returned no handle.
    NotOpened,
}

/// What the host adapter is to do next.
#[derive(Clone, Copy, Debug, PartialEq, Eq, Structural)]
pub enum LoaderAction {
    /// Nothing: serve the call.
    Proceed,
    /// Ask for the path of the component's own image.
    Locate,
    /// Ask the loader for the image without loading it anew.
    Promote,
    /// Ask the loader to load the image.
    Load,
    /// Give up: the path of the image is unknown.
    AbortNoPath,
    /// Give up: the loader would not reference the image.
    AbortNoReference,
}

/// The state that follows `state` when `event` arrives.
pub open spec fn next_residency(state: Residency, event: LoaderEvent) -> Residency {
    match (state, event) {
        (Residency::Resident, _) => Residency::Resident,
        (Residency::Failed, _) => Residency::Failed,
        (Residency::Fresh, _) => Residency::Locating,
        (Residency::Locating, LoaderEvent::PathFound) => Residency::Promoting,
        (Residency::Locating, LoaderEvent::PathMissing) => Residency::Failed,
        (Residency::Promoting, LoaderEvent::Opened) => Residency::Resident,
        (Residency::Promoting, LoaderEvent::NotOpened) => Residency::Loading,
        (Residency::Loading, LoaderEvent::Opened) => Residency::Resident,
        (Residency::Loading, LoaderEvent::NotOpened) => Residency::Failed,
        (other, _) => other,
    }
}

/// The action that `state` asks for when `event` arrives.
pub open spec fn next_action(state: Residency, event: LoaderEvent) -> LoaderAction {
    match (state, event) {
        (Residency::Resident, _) => LoaderAction::Proceed,
        (Residency::Failed, _) => LoaderAction::AbortNoReference,
        (Residency::Fresh, _) => LoaderAction::Locate,
        (Residency::Locating, LoaderEvent::PathFound) => LoaderAction::Promote,
        (Residency::Locating, LoaderEvent::PathMissing) => LoaderAction::AbortNoPath,
        (Residency::Locating, _) => LoaderAction::Locate,
        (Residency::Promoting, LoaderEvent::Opened) => LoaderAction::Proceed,
        (Residency::Promoting, LoaderEvent::NotOpened) => LoaderAction::Load,
        (Residency::Promoting, _) => LoaderAction::Promote,
        (Residency::Loading, LoaderEvent::Opened) => LoaderAction::Proceed,
        (Residency::Loading, LoaderEvent::NotOpened) => LoaderAction::AbortNoReference,
        (Residency::Loading, _) => LoaderAction::Load,
    }
}

/// Advances the pinning of the component by one step: given where it stands
/// and what the loader just answered, returns where it stands now and what
/// the host adapter is to do next.
pub fn initialize(state: Residency, event: LoaderEvent) -> (step: (Residency, LoaderAction))
    ensures
        step.0 == next_residency(state, event),
        step.1 == next_action(state, event),
{
    match state {
        Residency::Resident => (Residency::Resident, LoaderAction::Proceed),
        Residency::Failed => (Residency::Failed, LoaderAction::AbortNoReference),
        Residency::Fresh => (Residency::Locating, LoaderAction::Locate),
        Residency::Locating => match event {
            LoaderEvent::PathFound => (Residency::Promoting, LoaderAction::Promote),
            LoaderEvent::PathMissing => (Residency::Failed, LoaderAction::AbortNoPath),
            _ => (Residency::Locating, LoaderAction::Locate),
        },
        Residency::Promoting => match event {
            LoaderEvent::Opened => (Residency::Resident, LoaderAction::Proceed),
            LoaderEvent::NotOpened => (Residency::Loading, LoaderAction::Load),
            _ => (Residency::Promoting, LoaderAction::Promote),
        },
        Residency::Loading => match event {
            LoaderEvent::Opened => (Residency::Resident, LoaderAction::Proceed),
            LoaderEvent::NotOpened => (Residency::Failed, LoaderAction::AbortNoReference),
            _ => (Residency::Loading, LoaderAction::Load),
        },
    }
}

/// A call is served only by a component that is resident: the step that
/// says to proceed is a step into residency or within it.
pub proof fn lemma_proceeds_only_when_resident(state: Residency, event: LoaderEvent)
    ensures
        next_action(state, event) == LoaderAction::Proceed <==> next_residency(state, event)
            == Residency::Resident,
{
}

/// Once resident, the component stays resident and asks for nothing more,
/// whatever is reported and however often.
pub proof fn lemma_resident_is_final(event: LoaderEvent)
    ensures
        next_residency(Residency::Resident, event) == Residency::Resident,
        next_action(Residency::Resident, event) == LoaderAction::Proceed,
{
}

} // verus!
