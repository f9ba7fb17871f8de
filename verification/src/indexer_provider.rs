//! The one live embedding provider of a process.
use vstd::prelude::*;

use crate::indexer::ProviderRegistry;

verus! {

/// A place for the provider that the settings name. It is filled once, when
/// the process starts.
pub struct LiveProvider {
    cell: Option<ProviderRegistry>,
}

impl View for LiveProvider {
    type V = Option<ProviderRegistry>;

    closed spec fn view(&self) -> Option<ProviderRegistry> {
        self.cell
    }
}

impl LiveProvider {
    /// No provider is configured.
    pub fn new() -> (r: LiveProvider)
        ensures
            r@ is None,
    {
        LiveProvider { cell: None }
    }

    /// Publishes the provider. A second one is ignored.
    pub fn init(&mut self, provider: ProviderRegistry)
        ensures
            final(self)@ == (if old(self)@ is Some {
                old(self)@
            } else {
                Some(provider)
            }),
    {
        if self.cell.is_none() {
            self.cell = Some(provider);
        }
    }

    /// The provider, where one is configured.
    pub fn get(&self) -> (r: Option<&ProviderRegistry>)
        ensures
            match r {
                Some(p) => self@ == Some(*p),
                None => self@ is None,
            },
    {
        self.cell.as_ref()
    }

    /// Whether a provider is configured. A tool that needs one is offered only
    /// then.
    pub fn is_configured(&self) -> (r: bool)
        ensures
            r == (self@ is Some),
    {
        self.cell.is_some()
    }
}

} // verus!
