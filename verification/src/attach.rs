//! Whether an overlay is attached to the buffer as a composition or blended into the frame.

use vstd::prelude::*;

verus! {

/// Whether to attach the overlay: where upstream already attaches one, and where
/// downstream both takes the metadata and offers to allocate for it. A downstream that
/// only takes the metadata gets it where blending is impossible.
pub open spec fn attaches(
    upstream_has_meta: bool,
    caps_has_meta: bool,
    alloc_has_meta: bool,
    can_handle: bool,
) -> bool {
    upstream_has_meta || (caps_has_meta && (alloc_has_meta || !can_handle))
}

/// Decide whether to attach the overlay (`true`) or to blend it (`false`); an error where
/// neither is possible.
pub fn decide_attach_mode(
    upstream_has_meta: bool,
    caps_has_meta: bool,
    alloc_has_meta: bool,
    can_handle: bool,
) -> (r: Result<bool, ()>)
    ensures
        r == if attaches(upstream_has_meta, caps_has_meta, alloc_has_meta, can_handle) {
            Ok::<bool, ()>(true)
        } else if can_handle {
            Ok::<bool, ()>(false)
        } else {
            Err::<bool, ()>(())
        },
{
    let attach: bool = if upstream_has_meta {
        true
    } else if caps_has_meta {
        if alloc_has_meta {
            true
        } else {
            !can_handle
        }
    } else {
        false
    };
    if !attach && !can_handle {
        Err(())
    } else {
        Ok(attach)
    }
}

/// Why no attach mode could be negotiated.
#[derive(Debug, Clone, Copy, PartialEq, Eq, Structural)]
pub enum AttachError {
    /// The input is not in system memory, and downstream does not take the metadata.
    MetaNotSupported,
    /// The allocation query failed while the pad was flushing.
    Flushing,
    /// The frame cannot be blended into, and the overlay cannot be attached.
    UnsupportedCaps,
}

impl AttachError {
    /// Whether the source pad has to be marked for another negotiation.
    pub fn marks_reconfigure(self) -> (r: bool)
        ensures
            r == (self != AttachError::MetaNotSupported),
    {
        match self {
            AttachError::MetaNotSupported => false,
            AttachError::Flushing => true,
            AttachError::UnsupportedCaps => true,
        }
    }
}

/// What the negotiation needs next.
#[derive(Debug, Clone, Copy, PartialEq, Eq)]
pub enum AttachStep {
    /// Ask downstream whether it takes the input caps with the metadata feature added.
    QueryCaps,
    /// Ask downstream for allocation parameters, with the metadata feature in the caps.
    QueryAllocation,
    /// Find out whether the input caps can be blended into.
    CheckCaps,
    /// The mode is known.
    Finished(Result<bool, AttachError>),
}

/// The answer to an allocation query.
#[derive(Debug, Clone, Copy, PartialEq, Eq, Structural)]
pub enum AllocationAnswer {
    /// The query was answered, with or without the metadata.
    Answered { has_meta: bool },
    /// The query failed.
    Failed { flushing: bool },
}

/// The state of an attach-mode negotiation.
#[derive(Debug, Clone, Copy, PartialEq, Eq, Structural)]
pub struct AttachNegotiation {
    pub upstream_has_meta: bool,
    pub caps_has_meta: bool,
    pub alloc_has_meta: bool,
}

impl AttachNegotiation {
    /// Begin a negotiation. `has_src_pad`: the element has a source pad;
    /// `upstream_has_meta`: the input caps carry the metadata feature; `has_features`: they
    /// have a feature set to which it can be added.
    pub fn start(has_src_pad: bool, upstream_has_meta: bool, has_features: bool) -> (r: (
        Self,
        AttachStep,
    ))
        ensures
            r.0 == (AttachNegotiation {
                upstream_has_meta,
                caps_has_meta: false,
                alloc_has_meta: false,
            }),
            r.1 == if !has_src_pad {
                AttachStep::Finished(Ok(false))
            } else if upstream_has_meta {
                AttachStep::QueryAllocation
            } else if has_features {
                AttachStep::QueryCaps
            } else {
                AttachStep::CheckCaps
            },
    {
        let negotiation = AttachNegotiation {
            upstream_has_meta,
            caps_has_meta: false,
            alloc_has_meta: false,
        };
        let step = if !has_src_pad {
            AttachStep::Finished(Ok(false))
        } else if upstream_has_meta {
            AttachStep::QueryAllocation
        } else if has_features {
            AttachStep::QueryCaps
        } else {
            AttachStep::CheckCaps
        };
        (negotiation, step)
    }

    /// Go on after the caps query. `accepted`: downstream takes the metadata;
    /// `is_sysmem`: the input is in system memory.
    pub fn caps_answered(&mut self, accepted: bool, is_sysmem: bool) -> (r: AttachStep)
        ensures
            *final(self) == (AttachNegotiation { caps_has_meta: accepted, ..*old(self) }),
            r == if accepted {
                AttachStep::QueryAllocation
            } else if is_sysmem {
                AttachStep::CheckCaps
            } else {
                AttachStep::Finished(Err(AttachError::MetaNotSupported))
            },
    {
        self.caps_has_meta = accepted;
        if accepted {
            AttachStep::QueryAllocation
        } else if is_sysmem {
            AttachStep::CheckCaps
        } else {
            AttachStep::Finished(Err(AttachError::MetaNotSupported))
        }
    }

    /// Go on after the allocation query.
    pub fn allocation_answered(&mut self, answer: AllocationAnswer) -> (r: AttachStep)
        ensures
            match answer {
                AllocationAnswer::Answered { has_meta } => *final(self) == (AttachNegotiation {
                    alloc_has_meta: has_meta,
                    ..*old(self)
                }) && r == AttachStep::CheckCaps,
                AllocationAnswer::Failed { flushing } => *final(self) == *old(self) && r
                    == if flushing {
                    AttachStep::Finished(Err(AttachError::Flushing))
                } else {
                    AttachStep::CheckCaps
                },
            },
    {
        match answer {
            AllocationAnswer::Answered { has_meta } => {
                self.alloc_has_meta = has_meta;
                AttachStep::CheckCaps
            },
            AllocationAnswer::Failed { flushing } => if flushing {
                AttachStep::Finished(Err(AttachError::Flushing))
            } else {
                AttachStep::CheckCaps
            },
        }
    }

    /// Decide, once it is known whether the input caps can be blended into.
    pub fn caps_checked(&self, can_handle: bool) -> (r: AttachStep)
        ensures
            r == AttachStep::Finished(
                if attaches(
                    self.upstream_has_meta,
                    self.caps_has_meta,
                    self.alloc_has_meta,
                    can_handle,
                ) {
                    Ok::<bool, AttachError>(true)
                } else if can_handle {
                    Ok::<bool, AttachError>(false)
                } else {
                    Err::<bool, AttachError>(AttachError::UnsupportedCaps)
                },
            ),
    {
        match decide_attach_mode(
            self.upstream_has_meta,
            self.caps_has_meta,
            self.alloc_has_meta,
            can_handle,
        ) {
            Ok(attach) => AttachStep::Finished(Ok(attach)),
            Err(_) => AttachStep::Finished(Err(AttachError::UnsupportedCaps)),
        }
    }
}

/// An overlay is blended only into frames that can be blended into, and no negotiation
/// that can blend fails for want of a mode.
pub proof fn law_blending_needs_supported_caps(
    upstream_has_meta: bool,
    caps_has_meta: bool,
    alloc_has_meta: bool,
    can_handle: bool,
)
    ensures
        !can_handle ==> (attaches(upstream_has_meta, caps_has_meta, alloc_has_meta, can_handle)
            == (upstream_has_meta || caps_has_meta)),
        can_handle ==> (attaches(upstream_has_meta, caps_has_meta, alloc_has_meta, can_handle) == (
        upstream_has_meta || (caps_has_meta && alloc_has_meta))),
{
}

} // verus!
