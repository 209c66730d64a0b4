use vstd::prelude::*;
use crate::error::BucketError;
use crate::node::NodeView;

verus! {

/// The position just behind `pending` consecutive subtrees, the first of which
/// starts at `pos`; `None` where the buffer ends before they are complete.
pub open spec fn skip(nodes: Seq<NodeView>, pos: int, pending: nat) -> Option<int>
    decreases nodes.len() - pos,
{
    if pending == 0 {
        Some(pos)
    } else if 0 <= pos < nodes.len() {
        skip(nodes, pos + 1, (pending - 1 + nodes[pos].arity()) as nat)
    } else {
        None
    }
}

/// True where no node from `from` up to `to` is a placeholder.
pub open spec fn all_sized(nodes: Seq<NodeView>, from: int, to: int) -> bool {
    forall|i: int| from <= i < to && 0 <= i < nodes.len() ==> !(#[trigger] nodes[i] is Unsized)
}

/// True where every node from `from` up to `to` can be read by a replay.
pub open spec fn all_readable(nodes: Seq<NodeView>, from: int, to: int) -> bool {
    forall|i: int| from <= i < to && 0 <= i < nodes.len() ==> (#[trigger] nodes[i]).is_readable()
}

/// True where a buffer is the pre-order flattening of exactly one tree, every
/// composite of which has its size.
pub open spec fn well_formed(nodes: Seq<NodeView>) -> bool {
    &&& skip(nodes, 0, 1) == Some(nodes.len() as int)
    &&& all_sized(nodes, 0, nodes.len() as int)
}

/// The buffer as a replay leaves it that has read the nodes from `from` up to `to`.
pub open spec fn after_replay(nodes: Seq<NodeView>, from: int, to: int, clone: bool) -> Seq<
    NodeView,
> {
    Seq::new(
        nodes.len(),
        |i: int|
            if from <= i < to {
                nodes[i].after_read(clone)
            } else {
                nodes[i]
            },
    )
}

/// Subtrees take at least one node each, and end inside the buffer.
pub proof fn lemma_skip_bounds(nodes: Seq<NodeView>, pos: int, pending: nat)
    requires
        skip(nodes, pos, pending) is Some,
    ensures
        pos + pending <= skip(nodes, pos, pending).unwrap(),
        pending > 0 ==> 0 <= pos && skip(nodes, pos, pending).unwrap() <= nodes.len(),
    decreases nodes.len() - pos,
{
    if pending > 0 {
        lemma_skip_bounds(nodes, pos + 1, (pending - 1 + nodes[pos].arity()) as nat);
    }
}

/// Skipping `a + b` subtrees is skipping `a` of them and then `b` more.
pub proof fn lemma_skip_split(nodes: Seq<NodeView>, pos: int, a: nat, b: nat)
    ensures
        skip(nodes, pos, a + b) == match skip(nodes, pos, a) {
            Some(mid) => skip(nodes, mid, b),
            None => None,
        },
    decreases nodes.len() - pos,
{
    if a > 0 && 0 <= pos < nodes.len() {
        let rest = (a - 1 + nodes[pos].arity()) as nat;
        lemma_skip_split(nodes, pos + 1, rest, b);
        assert((a + b - 1 + nodes[pos].arity()) as nat == rest + b);
    }
}

/// Where subtrees end depends only on how many subtrees each node announces.
pub proof fn lemma_skip_same_arity(a: Seq<NodeView>, b: Seq<NodeView>, pos: int, pending: nat)
    requires
        a.len() == b.len(),
        forall|i: int| pos <= i < a.len() && 0 <= i ==> a[i].arity() == b[i].arity(),
    ensures
        skip(a, pos, pending) == skip(b, pos, pending),
    decreases a.len() - pos,
{
    if pending > 0 && 0 <= pos < a.len() {
        lemma_skip_same_arity(a, b, pos + 1, (pending - 1 + a[pos].arity()) as nat);
    }
}

/// Complete subtrees stay where they are when the buffer changes outside them.
pub proof fn lemma_skip_local(a: Seq<NodeView>, b: Seq<NodeView>, pos: int, pending: nat)
    requires
        skip(a, pos, pending) is Some,
        skip(a, pos, pending).unwrap() <= b.len(),
        forall|i: int|
            pos <= i < skip(a, pos, pending).unwrap() ==> a[i].arity() == b[i].arity(),
    ensures
        skip(b, pos, pending) == skip(a, pos, pending),
    decreases a.len() - pos,
{
    if pending > 0 {
        let rest = (pending - 1 + a[pos].arity()) as nat;
        lemma_skip_bounds(a, pos, pending);
        lemma_skip_bounds(a, pos + 1, rest);
        lemma_skip_local(a, b, pos + 1, rest);
    }
}

/// Reading a buffer keeps it the flattening of one tree.
pub proof fn lemma_after_replay_well_formed(nodes: Seq<NodeView>, from: int, to: int, clone: bool)
    requires
        well_formed(nodes),
    ensures
        well_formed(after_replay(nodes, from, to, clone)),
{
    let after = after_replay(nodes, from, to, clone);
    lemma_skip_same_arity(nodes, after, 0, 1);
}

/// True where every node from `from` up to `to` is a marker whose payload is
/// the one subtree that follows it.
pub open spec fn all_wrappers(nodes: Seq<NodeView>, from: int, to: int) -> bool {
    forall|i: int| from <= i < to && 0 <= i < nodes.len() ==> (#[trigger] nodes[i]).is_wrapper()
}

/// A run of markers and the subtree behind it end at the same place.
pub proof fn lemma_skip_wrappers(nodes: Seq<NodeView>, from: int, to: int)
    requires
        0 <= from <= to <= nodes.len(),
        all_wrappers(nodes, from, to),
    ensures
        skip(nodes, from, 1) == skip(nodes, to, 1),
    decreases to - from,
{
    if from < to {
        assert(nodes[from].is_wrapper());
        lemma_skip_wrappers(nodes, from + 1, to);
    }
}

/// The first position from `from` on at which a replay cannot read: that of
/// a sentinel, or the end of the buffer.
pub open spec fn first_unreadable(nodes: Seq<NodeView>, from: int) -> int
    decreases nodes.len() - from,
{
    if 0 <= from < nodes.len() && nodes[from].is_readable() {
        first_unreadable(nodes, from + 1)
    } else {
        from
    }
}

/// How a replay ends: with success or an error, and where its cursor stands.
pub struct ReplayEnd {
    pub result: Result<(), BucketError>,
    pub cursor: int,
}

/// How the replay of `count` subtrees ends that starts at `from`.
///
/// A replay reads the nodes in order. It succeeds where the subtrees are
/// complete before a node cannot be read, and its cursor then stands behind
/// them. Else it fails at the first node that cannot be read: a node whose
/// value was taken, a placeholder, or the end of the buffer.
pub open spec fn replay_end(nodes: Seq<NodeView>, from: int, count: nat) -> ReplayEnd {
    let stop = first_unreadable(nodes, from);
    let end = skip(nodes, from, count);
    if end is Some && end.unwrap() <= stop {
        ReplayEnd { result: Ok(()), cursor: end.unwrap() }
    } else if !(0 <= stop < nodes.len()) {
        ReplayEnd { result: Err(BucketError::CorruptBuffer), cursor: stop }
    } else if nodes[stop] is Consumed {
        ReplayEnd { result: Err(BucketError::ConsumedTwice), cursor: stop + 1 }
    } else {
        ReplayEnd { result: Err(BucketError::CorruptBuffer), cursor: stop + 1 }
    }
}

/// Up to the first position that cannot be read, every node can.
pub proof fn lemma_first_unreadable(nodes: Seq<NodeView>, from: int)
    requires
        0 <= from,
    ensures
        from <= first_unreadable(nodes, from),
        from <= nodes.len() ==> first_unreadable(nodes, from) <= nodes.len(),
        all_readable(nodes, from, first_unreadable(nodes, from)),
        first_unreadable(nodes, from) < nodes.len() ==> !nodes[first_unreadable(
            nodes,
            from,
        )].is_readable(),
    decreases nodes.len() - from,
{
    if from < nodes.len() && nodes[from].is_readable() {
        lemma_first_unreadable(nodes, from + 1);
    }
}

/// Nodes that can be read do not change where reading stops.
pub proof fn lemma_first_unreadable_later(nodes: Seq<NodeView>, from: int, to: int)
    requires
        0 <= from <= to <= nodes.len(),
        all_readable(nodes, from, to),
    ensures
        first_unreadable(nodes, from) == first_unreadable(nodes, to),
    decreases to - from,
{
    if from < to {
        assert(nodes[from].is_readable());
        lemma_first_unreadable_later(nodes, from + 1, to);
    }
}

/// Where reading stops depends only on the nodes from the start on.
pub proof fn lemma_first_unreadable_local(a: Seq<NodeView>, b: Seq<NodeView>, from: int)
    requires
        a.len() == b.len(),
        forall|i: int| from <= i < a.len() && 0 <= i ==> a[i].is_readable() == b[i].is_readable(),
    ensures
        first_unreadable(a, from) == first_unreadable(b, from),
    decreases a.len() - from,
{
    if 0 <= from < a.len() && a[from].is_readable() {
        lemma_first_unreadable_local(a, b, from + 1);
    }
}

/// A replay that went from `from` to `mid` goes on as if it started at `mid`.
pub proof fn lemma_replay_end_continues(
    nodes: Seq<NodeView>,
    from: int,
    mid: int,
    clone: bool,
    count: nat,
)
    requires
        0 <= from <= mid,
    ensures
        replay_end(after_replay(nodes, from, mid, clone), mid, count) == replay_end(
            nodes,
            mid,
            count,
        ),
{
    let after = after_replay(nodes, from, mid, clone);
    lemma_skip_same_arity(nodes, after, mid, count);
    lemma_first_unreadable_local(nodes, after, mid);
    let stop = first_unreadable(nodes, mid);
    lemma_first_unreadable(nodes, mid);
}

/// Reading on from where a replay stands is one replay.
pub proof fn lemma_after_replay_joins(
    nodes: Seq<NodeView>,
    from: int,
    mid: int,
    to: int,
    clone: bool,
)
    requires
        from <= mid <= to,
    ensures
        after_replay(after_replay(nodes, from, mid, clone), mid, to, clone) == after_replay(
            nodes,
            from,
            to,
            clone,
        ),
{
    assert(after_replay(after_replay(nodes, from, mid, clone), mid, to, clone) =~= after_replay(
        nodes,
        from,
        to,
        clone,
    ));
}

/// A node that can be read and announces `arity` subtrees: the replay of its
/// subtree is the replay of those that follow it.
pub proof fn lemma_replay_end_header(nodes: Seq<NodeView>, from: int)
    requires
        0 <= from < nodes.len(),
        nodes[from].is_readable(),
    ensures
        replay_end(nodes, from, 1) == replay_end(nodes, from + 1, nodes[from].arity()),
{
}

/// The replay of `count` subtrees, of which `done` were read and are behind
/// the cursor at `mid`: how the next one ends decides how it goes on.
pub proof fn lemma_replay_end_step(
    nodes: Seq<NodeView>,
    from: int,
    done: nat,
    count: nat,
    mid: int,
)
    requires
        0 <= from <= mid <= nodes.len(),
        done < count,
        skip(nodes, from, done) == Some(mid),
        all_readable(nodes, from, mid),
    ensures
        replay_end(nodes, mid, 1).result is Ok ==> {
            let next = replay_end(nodes, mid, 1).cursor;
            &&& mid < next <= nodes.len()
            &&& skip(nodes, from, done + 1) == Some(next)
            &&& all_readable(nodes, from, next)
        },
        replay_end(nodes, mid, 1).result is Err ==> replay_end(nodes, from, count) == replay_end(
            nodes,
            mid,
            1,
        ),
{
    lemma_first_unreadable_later(nodes, from, mid);
    lemma_first_unreadable(nodes, mid);
    lemma_skip_split(nodes, from, done, 1);
    lemma_skip_split(nodes, from, done, (count - done) as nat);
    lemma_skip_split(nodes, mid, 1, (count - done - 1) as nat);
    let stop = first_unreadable(nodes, mid);
    if skip(nodes, mid, 1) is Some {
        let next = skip(nodes, mid, 1).unwrap();
        lemma_skip_bounds(nodes, mid, 1);
        if skip(nodes, next, (count - done - 1) as nat) is Some {
            lemma_skip_bounds(nodes, next, (count - done - 1) as nat);
        }
    }
}

/// The replay of `count` subtrees succeeds once they are all behind the cursor.
pub proof fn lemma_replay_end_done(nodes: Seq<NodeView>, from: int, count: nat, end: int)
    requires
        0 <= from <= end <= nodes.len(),
        skip(nodes, from, count) == Some(end),
        all_readable(nodes, from, end),
    ensures
        replay_end(nodes, from, count) == (ReplayEnd { result: Ok(()), cursor: end }),
{
    lemma_first_unreadable_later(nodes, from, end);
    lemma_first_unreadable(nodes, end);
}

/// A replay never moves its cursor back, nor behind the end of the buffer,
/// and a successful one has read every subtree that it was to read.
pub proof fn lemma_replay_end_bounds(nodes: Seq<NodeView>, from: int, count: nat)
    requires
        0 <= from,
    ensures
        from <= replay_end(nodes, from, count).cursor,
        from <= nodes.len() ==> replay_end(nodes, from, count).cursor <= nodes.len(),
        replay_end(nodes, from, count).result is Ok ==> {
            &&& skip(nodes, from, count) == Some(replay_end(nodes, from, count).cursor)
            &&& from + count <= replay_end(nodes, from, count).cursor
            &&& all_readable(nodes, from, replay_end(nodes, from, count).cursor)
        },
{
    lemma_first_unreadable(nodes, from);
    if skip(nodes, from, count) is Some {
        lemma_skip_bounds(nodes, from, count);
    }
}

/// The replay of a bucket, which holds one complete tree: it reads the whole
/// bucket and succeeds where every node can be read, and else fails at the
/// first node whose value was taken.
pub proof fn lemma_replay_of_bucket(nodes: Seq<NodeView>)
    requires
        well_formed(nodes),
    ensures
        all_readable(nodes, 0, nodes.len() as int) ==> replay_end(nodes, 0, 1) == (ReplayEnd {
            result: Ok(()),
            cursor: nodes.len() as int,
        }),
        !all_readable(nodes, 0, nodes.len() as int) ==> replay_end(nodes, 0, 1) == (ReplayEnd {
            result: Err(BucketError::ConsumedTwice),
            cursor: first_unreadable(nodes, 0) + 1,
        }) && nodes[first_unreadable(nodes, 0)] is Consumed,
{
    lemma_first_unreadable(nodes, 0);
    let stop = first_unreadable(nodes, 0);
    if all_readable(nodes, 0, nodes.len() as int) {
        lemma_replay_end_done(nodes, 0, 1, nodes.len() as int);
    } else {
        if stop == nodes.len() {
            assert(all_readable(nodes, 0, nodes.len() as int));
        }
        assert(!(nodes[stop] is Unsized));
    }
}

} // verus!
