//! Starting the homeserver with the Bluetooth medium.

use crate::crypto::install_default_provider;
use crate::crypto::provider::DefaultProvider;
use vstd::prelude::*;

verus! {

/// Localpart of every embedded peer's user id: `@n:{node id}`.
pub const DISCOVERY_LOCALPART: &'static str = "n";

/// How far the start has come.
#[derive(Clone, Copy, PartialEq, Eq, Structural)]
pub enum StartStage {
    Called,
    /// The log subscriber is installed.
    Logging,
    /// The commit that the build was made against is logged.
    Announced,
    /// The server is started.
    Started,
}

/// What to do next.
pub enum StartAction {
    /// Install the log subscriber, so that the announcement is not lost.
    InitTracing,
    /// Log the commit that the build was made against.
    Announce { commit: String },
    /// Start the server, with a link that [`federation_link`] makes. The
    /// cryptography provider that its clients need is there.
    StartServer { provider: DefaultProvider },
}

pub enum StartActionView {
    InitTracing,
    Announce { commit: Seq<char> },
    StartServer,
}

impl View for StartAction {
    type V = StartActionView;

    open spec fn view(&self) -> StartActionView {
        match self {
            StartAction::InitTracing => StartActionView::InitTracing,
            StartAction::Announce { commit } => StartActionView::Announce { commit: commit@ },
            StartAction::StartServer { .. } => StartActionView::StartServer,
        }
    }
}

impl StartStage {
    pub open spec fn action(self, commit: Seq<char>) -> StartActionView {
        match self {
            StartStage::Called => StartActionView::InitTracing,
            StartStage::Logging => StartActionView::Announce { commit },
            _ => StartActionView::StartServer,
        }
    }

    pub open spec fn following(self) -> StartStage {
        match self {
            StartStage::Called => StartStage::Logging,
            StartStage::Logging => StartStage::Announced,
            _ => StartStage::Started,
        }
    }
}

/// The next step of a start. Before the server is started, which builds
/// clients that cannot do without one, the cryptography provider of the
/// process is installed, unless there is one already.
pub fn start_ble(stage: &mut StartStage, commit: &str) -> (action: StartAction)
    requires
        *old(stage) != StartStage::Started,
    ensures
        action@ == old(stage).action(commit@),
        *final(stage) == old(stage).following(),
{
    match *stage {
        StartStage::Called => {
            *stage = StartStage::Logging;
            StartAction::InitTracing
        },
        StartStage::Logging => {
            *stage = StartStage::Announced;
            StartAction::Announce { commit: commit.to_owned() }
        },
        _ => {
            let provider = install_default_provider();
            *stage = StartStage::Started;
            StartAction::StartServer { provider }
        },
    }
}

/// How the keys of a peer are found.
#[derive(Clone, Copy, PartialEq, Eq, Structural)]
pub enum KeyResolver {
    /// The node id is the key.
    NodeId,
}

/// What the server federates over.
pub struct FederationLink<T> {
    pub link: T,
    pub key_resolver: Option<KeyResolver>,
}

/// The link over a transport that was bound, or the error that binding gave.
pub fn federation_link<T, E>(bound: Result<T, E>) -> (link: Result<FederationLink<T>, E>)
    ensures
        match bound {
            Ok(transport) => link == Ok::<FederationLink<T>, E>(
                FederationLink { link: transport, key_resolver: Some(KeyResolver::NodeId) },
            ),
            Err(e) => link == Err::<FederationLink<T>, E>(e),
        },
{
    match bound {
        Ok(transport) => Ok(
            FederationLink { link: transport, key_resolver: Some(KeyResolver::NodeId) },
        ),
        Err(e) => Err(e),
    }
}

/// The stages that a start goes through after `n` steps.
pub open spec fn stage_at(n: nat) -> StartStage
    decreases n,
{
    if n == 0 {
        StartStage::Called
    } else {
        stage_at((n - 1) as nat).following()
    }
}

/// A start installs the log subscriber first and once, announces the commit
/// next and once, and then starts the server; it takes three steps.
pub proof fn law_start_is_in_order(n: nat, commit: Seq<char>)
    requires
        stage_at(n) != StartStage::Started,
    ensures
        n < 3,
        stage_at(n).action(commit) is InitTracing <==> n == 0,
        stage_at(n).action(commit) is Announce <==> n == 1,
        n == 1 ==> stage_at(n).action(commit) == (StartActionView::Announce { commit }),
        stage_at(n).action(commit) is StartServer <==> n == 2,
        stage_at(n + 1) == StartStage::Started <==> n == 2,
{
    reveal_with_fuel(stage_at, 5);
    if n > 3 {
        lemma_started_stays(n);
    }
}

proof fn lemma_started_stays(n: nat)
    requires
        n >= 3,
    ensures
        stage_at(n) == StartStage::Started,
    decreases n,
{
    reveal_with_fuel(stage_at, 5);
    if n > 3 {
        lemma_started_stays((n - 1) as nat);
    }
}

} // verus!
