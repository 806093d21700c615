//! Turning the translation on and off, and resetting the loaded state, at the end of a
//! frame: requests are recorded as flags and applied together.
use vstd::prelude::*;
use crate::text::{TextBlockView, TextCache};
use crate::translator::rulesets::{RulesetTranslators, langs, translators_wf};
use crate::translator::simple::{SimpleDictionaries, dicts_view};
use crate::visual_block::FrameCollector;

verus! {

/// The requests to turn translation on, off or to reset, and whether it is on.
#[derive(Debug, Clone, Copy, PartialEq, Eq, Structural)]
pub struct ControlState {
    pub enabling: bool,
    pub disabling: bool,
    pub enabled: bool,
    pub resetting: bool,
}

/// The state after the requests to turn translation on or off are applied: a request to
/// turn it on wins, and both requests are cleared.
pub open spec fn applied(s: ControlState) -> ControlState {
    if s.enabling {
        ControlState { enabling: false, disabling: false, enabled: true, ..s }
    } else if s.disabling {
        ControlState { enabling: false, disabling: false, enabled: false, ..s }
    } else {
        s
    }
}

impl ControlState {
    /// Translation off, nothing requested.
    pub fn new() -> (r: Self)
        ensures
            r == (ControlState { enabling: false, disabling: false, enabled: false, resetting: false }),
    {
        ControlState { enabling: false, disabling: false, enabled: false, resetting: false }
    }

    /// Asks to turn translation on at the end of the frame.
    pub fn enable(&mut self)
        ensures
            *final(self) == (ControlState { enabling: true, ..*old(self) }),
    {
        self.enabling = true;
    }

    /// Asks to turn translation off at the end of the frame.
    pub fn disable(&mut self)
        ensures
            *final(self) == (ControlState { disabling: true, ..*old(self) }),
    {
        self.disabling = true;
    }

    /// Asks to turn translation off where it is on, and on where it is off.
    pub fn toggle(&mut self)
        ensures
            *final(self) == if old(self).enabled {
                ControlState { disabling: true, ..*old(self) }
            } else {
                ControlState { enabling: true, ..*old(self) }
            },
    {
        if self.is_enabled() {
            self.disable();
        } else {
            self.enable();
        }
    }

    /// Whether translation is on.
    pub fn is_enabled(&self) -> (r: bool)
        ensures
            r == self.enabled,
    {
        self.enabled
    }

    fn set_enabled(&mut self, state: bool)
        ensures
            *final(self) == (ControlState { enabling: false, disabling: false, enabled: state, ..*old(self) }),
    {
        self.enabling = false;
        self.disabling = false;
        self.enabled = state;
    }

    /// Applies the requests to turn translation on or off.
    pub fn toggle_enabled(&mut self)
        ensures
            *final(self) == applied(*old(self)),
    {
        if self.enabling {
            self.set_enabled(true);
        }
        if self.disabling {
            self.set_enabled(false);
        }
    }

    /// Asks to reset the loaded state at the end of the frame.
    pub fn reset(&mut self)
        ensures
            *final(self) == (ControlState { resetting: true, ..*old(self) }),
    {
        self.resetting = true;
    }

    /// Performs a requested reset: the dictionaries, the ruleset translators, the built
    /// text blocks and the frame being collected are dropped, and the request is
    /// cleared. Without a request nothing changes. The result says whether it reset.
    pub fn do_reset_if_requested(
        &mut self,
        dicts: &mut SimpleDictionaries,
        rulesets: &mut RulesetTranslators,
        texts: &mut TextCache,
        blocks: &mut FrameCollector,
    ) -> (r: bool)
        ensures
            r == old(self).resetting,
            *final(self) == (ControlState { resetting: false, ..*old(self) }),
            r ==> dicts_view(final(dicts)).len() == 0 && langs(final(rulesets)).len() == 0
                && translators_wf(final(rulesets)) && final(texts)@ == Map::<
                Seq<char>,
                TextBlockView,
            >::empty() && !final(blocks).is_active(),
            !r ==> dicts_view(final(dicts)) == dicts_view(old(dicts)) && *final(rulesets) == *old(
                rulesets,
            ) && final(texts)@ == old(texts)@ && *final(blocks) == *old(blocks),
    {
        if self.resetting {
            self.resetting = false;
            dicts.reset();
            rulesets.reset();
            texts.reset();
            blocks.reset();
            true
        } else {
            false
        }
    }
}

/// Applying the requests twice changes nothing more than applying them once.
pub proof fn lemma_applied_idempotent(s: ControlState)
    ensures
        applied(applied(s)) == applied(s),
{
}

/// A toggle followed by applying it flips whether translation is on, where nothing else
/// was requested.
pub proof fn lemma_toggle_flips(s: ControlState)
    requires
        !s.enabling,
        !s.disabling,
    ensures
        ({
            let t = if s.enabled {
                ControlState { disabling: true, ..s }
            } else {
                ControlState { enabling: true, ..s }
            };
            applied(t).enabled == !s.enabled && !applied(t).enabling && !applied(t).disabling
        }),
{
}

} // verus!
