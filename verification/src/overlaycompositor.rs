//! The compositor: places the labels that upstream elements deferred, once for all of them.

use vstd::prelude::*;

use crate::coordination::{claimed_regions, ClaimMeta};
use crate::overlay_intent::{label_intents, LabelIntent, LabelMeta};
use crate::placement::place_labels;
use crate::render::DrawCommand;

verus! {

/// The commands draw the deferred labels of a frame, placed around what is claimed in it.
pub open spec fn is_composite(
    width: int,
    height: int,
    claims: Seq<crate::coordination::Claim>,
    intents: Seq<LabelIntent>,
    order: Seq<usize>,
    commands: Seq<DrawCommand>,
) -> bool {
    &&& crate::placement::is_order(order, intents)
    &&& commands == crate::placement::drawn(width, height, claims, intents, order).commands
}

/// Place and draw the deferred labels of a frame. `None`, if there are none: the frame is
/// left as it is.
pub fn composite_labels(
    width: i32,
    height: i32,
    claims: &Option<ClaimMeta>,
    labels: &Option<LabelMeta>,
) -> (r: Option<Vec<DrawCommand>>)
    requires
        forall|intent: LabelIntent| #[trigger]
            crate::overlay_intent::intents_on(*labels).contains(intent@)
                ==> crate::placement::placeable(intent),
        crate::geometry::frame_takes(
            crate::geometry::Rect::of(0, 0, width as int, height as int),
            crate::coordination::claims_on(*claims).len() + crate::overlay_intent::intents_on(
                *labels,
            ).len(),
        ),
    ensures
        (r is None) == (crate::overlay_intent::intents_on(*labels).len() == 0),
        r matches Some(commands) ==> exists|intents: Seq<LabelIntent>, order: Seq<usize>|
            crate::overlay_intent::intents(intents) == crate::overlay_intent::intents_on(*labels)
                && #[trigger] is_composite(
                width as int,
                height as int,
                crate::coordination::claims_on(*claims),
                intents,
                order,
                commands@,
            ),
{
    let intents = label_intents(labels);
    let ghost views = crate::overlay_intent::intents(intents@);
    assert(views.len() == intents@.len());
    if intents.len() == 0 {
        return None;
    }
    let regions = claimed_regions(claims);
    proof {
        assert(crate::coordination::claims(regions@).len() == regions@.len());
        assert forall|i: int| 0 <= i < intents@.len() implies crate::placement::placeable(
            #[trigger] intents@[i],
        ) by {
            assert(views[i] == intents@[i]@);
            assert(views.contains(intents@[i]@));
        }
    }
    let commands = place_labels(width, height, regions.as_slice(), intents.as_slice());
    proof {
        let order = choose|order: Seq<usize>|
            crate::placement::is_order(order, intents@) && commands@
                == (#[trigger] crate::placement::drawn(
                width as int,
                height as int,
                crate::coordination::claims(regions@),
                intents@,
                order,
            )).commands;
        assert(is_composite(
            width as int,
            height as int,
            crate::coordination::claims_on(*claims),
            intents@,
            order,
            commands@,
        ));
    }
    let r = Some(commands);
    assert(r->0@ == commands@);
    r
}

/// The only deferred label of a frame, with a preferred place in the frame that shares no
/// pixel with any content, is drawn in that place and nothing else is: a label of a box from
/// the left edge of the place and standing on its bottom edge.
pub proof fn law_single_labels_are_drawn_where_preferred(
    width: int,
    height: int,
    claims: Seq<crate::coordination::Claim>,
    intents: Seq<LabelIntent>,
    order: Seq<usize>,
    commands: Seq<DrawCommand>,
)
    requires
        is_composite(width, height, claims, intents, order, commands),
        intents.len() == 1,
        0 < width <= i32::MAX,
        0 < height <= i32::MAX,
        intents[0].kind == crate::overlay_intent::CandidateKind::Box,
        0 <= intents[0].preferred.left < intents[0].preferred.right <= width,
        0 <= intents[0].preferred.top < intents[0].preferred.bottom <= height,
        forall|k: int|
            0 <= k < claims.len() ==> (#[trigger] claims[k]).kind
                == crate::coordination::ClaimKind::Occlude,
        forall|k: int, x: int, y: int|
            0 <= k < claims.len() && intents[0].preferred.covers(x, y) ==> !(
            #[trigger] claims[k].rect.covers(x, y)),
    ensures
        commands.len() == 1,
        commands[0] == (DrawCommand::Text {
            x: crate::scalar::Scalar::of_int(intents[0].preferred.left as int),
            y: crate::scalar::Scalar::of_int(intents[0].preferred.bottom as int),
            text: intents[0].text,
            argb: intents[0].color,
        }),
{
    let intent = intents[0];
    let none = Seq::<crate::geometry::Rect>::empty();
    crate::placement::law_obstacles_cover_a_pixel(
        width,
        height,
        claims,
        none,
        intent.priority,
        intent.preferred,
    );
    crate::placement::law_unobstructed_labels_stay(width, height, claims, none, intent);
    assert(order.len() == 1 && order[0] < 1);
    assert(order.drop_last() =~= Seq::<usize>::empty());
    let start = crate::placement::drawn(width, height, claims, intents, order.drop_last());
    assert(start.placed =~= none);
    assert(start.commands =~= Seq::<DrawCommand>::empty());
    assert(intents[order.last() as int] == intent);
}

} // verus!
