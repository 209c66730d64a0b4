use vstd::prelude::*;
use crate::de::after_element;
use crate::de::element_found;
use crate::de::MapProgress;
use crate::debug::lemma_render_complete;
use crate::debug::lemma_render_tree;
use crate::debug::render;
use crate::debug::render_all;
use crate::debug::tree_pieces;
use crate::debug::PieceView;
use crate::error::BucketError;
use crate::node::NodeView;
use crate::shape::after_replay;
use crate::shape::first_unreadable;
use crate::shape::lemma_after_replay_well_formed;
use crate::shape::lemma_first_unreadable;
use crate::shape::lemma_replay_end_bounds;
use crate::shape::lemma_replay_end_done;
use crate::shape::lemma_skip_bounds;
use crate::shape::replay_end;
use crate::shape::well_formed;
use crate::shape::ReplayEnd;
use crate::tree::lemma_flatten_ends_complete;
use crate::tree::lemma_flatten_readable;
use crate::tree::lemma_skip_tree;
use crate::tree::lemma_tree_unique;
use crate::tree::Tree;

verus! {

/// The flattening of a valid tree is a bucket: one complete tree, every
/// composite of which has its size. Its replay reads all of it and succeeds,
/// whether it takes or copies.
pub proof fn law_capture_replays(source: Tree)
    requires
        source.wf(),
    ensures
        well_formed(source.flatten()),
        replay_end(source.flatten(), 0, 1) == (ReplayEnd {
            result: Ok(()),
            cursor: source.flatten().len() as int,
        }),
{
    let nodes = source.flatten();
    assert(nodes.subrange(0, nodes.len() as int) =~= nodes);
    lemma_skip_tree(nodes, 0, source);
    lemma_flatten_readable(source);
    lemma_replay_end_done(nodes, 0, 1, nodes.len() as int);
}

/// Round trip: the value that a replay builds from the capture of a value is
/// that value. A replay builds a valid tree that flattens to the nodes it
/// has read, and only one valid tree flattens to them.
pub proof fn law_round_trip(source: Tree, replayed: Tree)
    requires
        source.wf(),
        replayed.wf(),
        replayed.flatten() == source.flatten(),
    ensures
        replayed == source,
{
    let nodes = source.flatten();
    assert(nodes.subrange(0, nodes.len() as int) =~= nodes);
    lemma_tree_unique(nodes, 0, source, replayed);
}

/// A replay that copies can be repeated: it leaves the bucket as it was, so
/// that the next replay ends as this one did, and builds the same value.
pub proof fn law_clone_replay_repeats(nodes: Seq<NodeView>, first: Tree, second: Tree)
    requires
        first.wf(),
        second.wf(),
        first.flatten() == nodes.subrange(0, replay_end(nodes, 0, 1).cursor),
        second.flatten() == after_replay(
            nodes,
            0,
            replay_end(nodes, 0, 1).cursor,
            true,
        ).subrange(
            0,
            replay_end(
                after_replay(nodes, 0, replay_end(nodes, 0, 1).cursor, true),
                0,
                1,
            ).cursor,
        ),
    ensures
        after_replay(nodes, 0, replay_end(nodes, 0, 1).cursor, true) == nodes,
        second == first,
{
    let after = after_replay(nodes, 0, replay_end(nodes, 0, 1).cursor, true);
    assert(after =~= nodes);
    law_round_trip(first, second);
}

/// A replay that takes cannot be repeated where it took something: after a
/// successful one, the replay of a bucket that held owned text or bytes
/// fails, because their value was taken.
pub proof fn law_second_take_fails(nodes: Seq<NodeView>, owned_at: int)
    requires
        well_formed(nodes),
        replay_end(nodes, 0, 1).result is Ok,
        0 <= owned_at < nodes.len(),
        nodes[owned_at].is_owned(),
    ensures
        replay_end(
            after_replay(nodes, 0, replay_end(nodes, 0, 1).cursor, false),
            0,
            1,
        ).result == Err::<(), BucketError>(BucketError::ConsumedTwice),
{
    lemma_replay_end_bounds(nodes, 0, 1);
    let end = replay_end(nodes, 0, 1).cursor;
    assert(end == nodes.len());
    let after = after_replay(nodes, 0, end, false);
    lemma_after_replay_well_formed(nodes, 0, end, false);
    lemma_first_unreadable(after, 0);
    let stop = first_unreadable(after, 0);
    assert(after[owned_at] is Consumed);
    if stop > owned_at {
        assert(after[owned_at].is_readable());
    }
    assert(!(after[stop] is Unsized));
}

/// The number of elements that are left of `size` after as many requests as
/// `requests`.
pub open spec fn elements_left(size: nat, requests: nat) -> nat
    decreases requests,
{
    if requests == 0 {
        size
    } else {
        after_element(elements_left(size, (requests - 1) as nat))
    }
}

/// A sequence of `size` elements yields an element on each of the first
/// `size` requests, and the end on every request after them.
pub proof fn law_sequence_yields_each(size: nat, earlier: nat)
    ensures
        elements_left(size, earlier) == if earlier < size {
            (size - earlier) as nat
        } else {
            0
        },
        element_found(elements_left(size, earlier)) == (earlier < size),
    decreases earlier,
{
    if earlier > 0 {
        law_sequence_yields_each(size, (earlier - 1) as nat);
    }
}

/// Two requests for a value with no request for a key between them: the
/// second is an ordering error, however the first ended.
pub proof fn law_value_needs_key(progress: MapProgress)
    ensures
        progress.after_value().value_found() == Err::<(), BucketError>(
            BucketError::MapOrderViolation,
        ),
        progress.after_value().after_value() == progress.after_value(),
{
}

/// Two requests for a key with no request for a value between them: once a
/// key was found, the second is an ordering error.
pub proof fn law_key_needs_value(progress: MapProgress)
    requires
        progress.key_found() == Ok::<bool, BucketError>(true),
    ensures
        progress.after_key().key_found() == Err::<bool, BucketError>(
            BucketError::MapOrderViolation,
        ),
{
}

/// The rendering of a bucket never fails: a buffer that holds one complete
/// tree renders as that tree.
pub proof fn law_bucket_renders(nodes: Seq<NodeView>)
    requires
        well_formed(nodes),
    ensures
        render(nodes, 0) is Some,
        render_all(nodes, 0) == Some(render(nodes, 0).unwrap().pieces),
{
    lemma_render_complete(nodes, 0);
    lemma_skip_bounds(nodes, 0, 1);
    let tree = render(nodes, 0).unwrap();
    assert(render_all(nodes, tree.end) == Some(Seq::<PieceView>::empty()));
    assert(tree.pieces + Seq::<PieceView>::empty() =~= tree.pieces);
}

/// The rendering of a captured tree is the rendering of the tree: the
/// nesting is found again from the flat buffer alone.
pub proof fn law_render_is_of_tree(tree: Tree)
    requires
        tree.wf(),
    ensures
        render_all(tree.flatten(), 0) == Some(tree_pieces(tree)),
{
    let nodes = tree.flatten();
    assert(nodes.subrange(0, nodes.len() as int) =~= nodes);
    lemma_render_tree(nodes, 0, tree);
    lemma_flatten_ends_complete(tree);
    assert(render_all(nodes, nodes.len() as int) == Some(Seq::<PieceView>::empty()));
    assert(tree_pieces(tree) + Seq::<PieceView>::empty() =~= tree_pieces(tree));
}

/// Rendering reads and changes nothing: a buffer renders the same each
/// time, and the same after any replay that copies.
pub proof fn law_rendering_repeats(nodes: Seq<NodeView>, from: int, to: int)
    ensures
        render_all(after_replay(nodes, from, to, true), 0) == render_all(nodes, 0),
{
    assert(after_replay(nodes, from, to, true) =~= nodes);
}

} // verus!
