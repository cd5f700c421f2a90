//! What an element hands downstream after it has drawn a frame: the regions that its
//! content covers, and the labels that it leaves to a compositor.

use vstd::prelude::*;

use crate::coordination::{claim_commands, ClaimMeta};
use crate::overlay_intent::{add_label_intents, LabelIntent, LabelMeta};
use crate::render::DrawCommand;

verus! {

/// How an element publishes its overlay.
#[derive(Debug, Clone, Copy)]
pub struct Publication {
    /// Whether drawn content is claimed at all.
    pub publish_claimed_regions: bool,
    /// Whether the host's hooks replaced the content, so that it was not drawn.
    pub builtins_suppressed: bool,
    /// The priority that the claims carry.
    pub priority: i32,
}

impl Publication {
    /// The element's content is claimed.
    pub open spec fn claims_content(self) -> bool {
        self.publish_claimed_regions && !self.builtins_suppressed
    }
}

/// Publish what was drawn, so that downstream elements avoid occluding it, and hand over the
/// deferred labels. Nothing is claimed for content that was not drawn. `widths` holds the
/// measured width of each command's text.
pub fn publish_overlay(
    claims: &mut Option<ClaimMeta>,
    labels: &mut Option<LabelMeta>,
    commands: &[DrawCommand],
    widths: &[i32],
    deferred: &[LabelIntent],
    owner: &str,
    publication: Publication,
)
    requires
        widths@.len() == commands@.len(),
        forall|i: int|
            0 <= i < commands@.len() ==> (#[trigger] commands@[i]).text_in_range(widths@[i] as int),
    ensures
        !publication.claims_content() || commands@.len() == 0 ==> *final(claims) == *old(claims),
        publication.claims_content() ==> crate::coordination::claims_on(*final(claims))
            == crate::coordination::claims_on(*old(claims))
            + crate::coordination::claims_of_commands(
            commands@,
            widths@,
            owner@,
            publication.priority,
        ),
        deferred@.len() == 0 ==> *final(labels) == *old(labels),
        deferred@.len() > 0 ==> (*final(labels) matches Some(written) && written.encodes(
            crate::overlay_intent::intents_on(*old(labels)) + crate::overlay_intent::intents(
                deferred@,
            ),
        )),
        crate::overlay_intent::all_measurable(deferred@) ==> crate::overlay_intent::intents_on(
            *final(labels),
        ) == crate::overlay_intent::intents_on(*old(labels)) + crate::overlay_intent::intents(
            deferred@,
        ),
{
    if publication.publish_claimed_regions && !publication.builtins_suppressed && commands.len()
        > 0 {
        claim_commands(claims, commands, widths, owner, publication.priority);
    }
    assert(commands@.len() == 0 ==> crate::coordination::claims_on(*claims)
        =~= crate::coordination::claims_on(*claims) + crate::coordination::claims_of_commands(
        commands@,
        widths@,
        owner@,
        publication.priority,
    ));
    add_label_intents(labels, deferred);
}

/// An element's content is claimed unless claims are switched off or the content was not
/// drawn.
pub proof fn law_only_drawn_content_is_claimed(publication: Publication)
    ensures
        !publication.publish_claimed_regions ==> !publication.claims_content(),
        publication.builtins_suppressed ==> !publication.claims_content(),
        publication.publish_claimed_regions && !publication.builtins_suppressed
            ==> publication.claims_content(),
{
}

} // verus!
