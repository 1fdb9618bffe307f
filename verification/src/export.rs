//! Shaping what is exported: the short type label of a schema and the
//! selection of transforms by frame.

use vstd::prelude::*;
use crate::ros2_msgs::{Header, TFMessage, TransformStamped, TransformStampedView, transforms_view};
use crate::text::{str_chars, str_is, string_from_chars};

verus! {

/// The part of a schema name after its last `/` (all of it where it has none).
pub open spec fn spec_type_label(name: Seq<char>) -> Seq<char>
    decreases name.len(),
{
    if name.len() == 0 {
        name
    } else if name.last() == '/' {
        Seq::empty()
    } else {
        spec_type_label(name.drop_last()).push(name.last())
    }
}

/// The label is the end of the name that follows its last `/`: a suffix of
/// the name holding no `/`, preceded in the name by a `/` unless it is the
/// whole name.
pub proof fn law_type_label_is_last_segment(name: Seq<char>)
    ensures
        ({
            let l = spec_type_label(name);
            &&& l.len() <= name.len()
            &&& l == name.subrange(name.len() - l.len(), name.len() as int)
            &&& forall|i: int| 0 <= i < l.len() ==> #[trigger] l[i] != '/'
            &&& l.len() < name.len() ==> name[name.len() - l.len() - 1] == '/'
        }),
    decreases name.len(),
{
    if name.len() > 0 {
        law_type_label_is_last_segment(name.drop_last());
        let l = spec_type_label(name);
        if name.last() == '/' {
            assert(l =~= name.subrange(name.len() as int, name.len() as int));
        } else {
            let prev = spec_type_label(name.drop_last());
            assert(l =~= name.subrange(name.len() - l.len(), name.len() as int));
            assert forall|i: int| 0 <= i < l.len() implies #[trigger] l[i] != '/' by {
                if i < prev.len() {
                    assert(l[i] == prev[i]);
                }
            }
        }
    }
}

/// The short type label of a schema name, as topic listings show it.
pub fn schema_type_label(schema_name: &str) -> (r: String)
    ensures
        r@ == spec_type_label(schema_name@),
{
    let cs = str_chars(schema_name);
    let mut start: usize = cs.len();
    assert(cs@.take(start as int) =~= cs@);
    assert(cs@ + cs@.subrange(start as int, cs.len() as int) =~= cs@);
    while start > 0 && cs[start - 1] != '/'
        invariant
            cs@ == schema_name@,
            start <= cs.len(),
            spec_type_label(cs@) == spec_type_label(cs@.take(start as int)) + cs@.subrange(
                start as int,
                cs.len() as int,
            ),
        decreases start,
    {
        let ghost t = cs@.take(start as int);
        assert(t.drop_last() =~= cs@.take(start - 1));
        assert(cs@.subrange(start - 1, cs.len() as int) =~= seq![t.last()] + cs@.subrange(
            start as int,
            cs.len() as int,
        ));
        start = start - 1;
    }
    let tail = &cs.as_slice()[start..cs.len()];
    proof {
        assert(tail@ =~= cs@.subrange(start as int, cs.len() as int));
        assert(spec_type_label(cs@.take(start as int)) =~= Seq::<char>::empty()) by {
            if start > 0 {
                assert(cs@.take(start as int).last() == '/');
            }
        }
        assert(spec_type_label(cs@) =~= tail@);
    }
    string_from_chars(tail)
}

/// A copy of a transform.
fn copy_transform(t: &TransformStamped) -> (r: TransformStamped)
    ensures
        r@ == t@,
{
    TransformStamped {
        header: Header { stamp: t.header.stamp, frame_id: t.header.frame_id.clone() },
        child_frame_id: t.child_frame_id.clone(),
        transform: t.transform,
    }
}

/// The transforms of all messages, in order.
pub open spec fn all_transforms(msgs: Seq<Seq<TransformStampedView>>) -> Seq<TransformStampedView>
    decreases msgs.len(),
{
    if msgs.len() == 0 {
        Seq::empty()
    } else {
        all_transforms(msgs.drop_last()) + msgs.last()
    }
}

/// The transform passes the parent and child frame filters that are given.
pub open spec fn transform_selected(
    t: TransformStampedView,
    parent: Option<Seq<char>>,
    child: Option<Seq<char>>,
) -> bool {
    &&& (parent matches Some(p) ==> t.header.frame_id == p)
    &&& (child matches Some(c) ==> t.child_frame_id == c)
}

/// The transforms of `ts` that pass the filters, in order.
pub open spec fn select_transforms(
    ts: Seq<TransformStampedView>,
    parent: Option<Seq<char>>,
    child: Option<Seq<char>>,
) -> Seq<TransformStampedView>
    decreases ts.len(),
{
    if ts.len() == 0 {
        Seq::empty()
    } else {
        let prev = select_transforms(ts.drop_last(), parent, child);
        if transform_selected(ts.last(), parent, child) {
            prev.push(ts.last())
        } else {
            prev
        }
    }
}

/// Filtering by parent and child frame at once is filtering by the parent
/// frame and then by the child frame.
pub proof fn law_frame_filters_compose(ts: Seq<TransformStampedView>, parent: Seq<char>, child: Seq<char>)
    ensures
        select_transforms(ts, Some(parent), Some(child)) == select_transforms(
            select_transforms(ts, Some(parent), None),
            None,
            Some(child),
        ),
    decreases ts.len(),
{
    if ts.len() > 0 {
        law_frame_filters_compose(ts.drop_last(), parent, child);
        let by_parent = select_transforms(ts.drop_last(), Some(parent), None);
        if transform_selected(ts.last(), Some(parent), None) {
            assert(select_transforms(ts, Some(parent), None).drop_last() =~= by_parent);
        }
    }
}

/// Filtering keeps exactly the transforms, in their order, whose parent
/// frame (`header.frame_id`) is `parent` where a parent is given and whose
/// child frame (`child_frame_id`) is `child` where a child is given.
pub proof fn law_filter_keeps_exactly_matching_frames(
    ts: Seq<TransformStampedView>,
    parent: Option<Seq<char>>,
    child: Option<Seq<char>>,
)
    ensures
        select_transforms(ts, parent, child) == ts.filter(
            |t: TransformStampedView|
                (match parent {
                    Some(p) => t.header.frame_id == p,
                    None => true,
                }) && (match child {
                    Some(c) => t.child_frame_id == c,
                    None => true,
                }),
        ),
        forall|i: int|
            0 <= i < select_transforms(ts, parent, child).len() ==> {
                let t = #[trigger] select_transforms(ts, parent, child)[i];
                &&& (parent matches Some(p) ==> t.header.frame_id == p)
                &&& (child matches Some(c) ==> t.child_frame_id == c)
                &&& ts.contains(t)
            },
    decreases ts.len(),
{
    let pred = |t: TransformStampedView|
        (match parent {
            Some(p) => t.header.frame_id == p,
            None => true,
        }) && (match child {
            Some(c) => t.child_frame_id == c,
            None => true,
        });
    broadcast use vstd::seq_lib::group_filter_ensures;

    reveal(Seq::filter);
    if ts.len() > 0 {
        law_filter_keeps_exactly_matching_frames(ts.drop_last(), parent, child);
    }
    assert(select_transforms(ts, parent, child) == ts.filter(pred));
}

pub open spec fn opt_view(o: Option<&str>) -> Option<Seq<char>> {
    match o {
        Some(s) => Some(s@),
        None => None,
    }
}

pub open spec fn tf_views(msgs: Seq<TFMessage>) -> Seq<Seq<TransformStampedView>> {
    msgs.map_values(|m: TFMessage| m@)
}

proof fn lemma_select_append(
    a: Seq<TransformStampedView>,
    b: Seq<TransformStampedView>,
    parent: Option<Seq<char>>,
    child: Option<Seq<char>>,
)
    ensures
        select_transforms(a + b, parent, child) == select_transforms(a, parent, child)
            + select_transforms(b, parent, child),
    decreases b.len(),
{
    if b.len() == 0 {
        assert(a + b =~= a);
        assert(select_transforms(a, parent, child) + Seq::empty() =~= select_transforms(
            a,
            parent,
            child,
        ));
    } else {
        lemma_select_append(a, b.drop_last(), parent, child);
        assert((a + b).drop_last() =~= a + b.drop_last());
    }
}

/// The transforms of all messages, in order, keeping only those whose
/// parent frame is `parent_frame` and whose child frame is `child_frame`,
/// where these are given.
pub fn filter_transforms(
    messages: Vec<TFMessage>,
    parent_frame: Option<&str>,
    child_frame: Option<&str>,
) -> (r: Vec<TransformStamped>)
    ensures
        transforms_view(r@) == select_transforms(
            all_transforms(tf_views(messages@)),
            opt_view(parent_frame),
            opt_view(child_frame),
        ),
{
    let ghost mv = tf_views(messages@);
    let ghost p = opt_view(parent_frame);
    let ghost c = opt_view(child_frame);
    let mut out: Vec<TransformStamped> = Vec::new();
    let mut i: usize = 0;
    assert(transforms_view(out@) =~= Seq::<TransformStampedView>::empty());
    while i < messages.len()
        invariant
            mv == tf_views(messages@),
            mv.len() == messages.len(),
            p == opt_view(parent_frame),
            c == opt_view(child_frame),
            i <= messages.len(),
            transforms_view(out@) == select_transforms(all_transforms(mv.take(i as int)), p, c),
        decreases messages.len() - i,
    {
        let ts = &messages[i].transforms;
        let ghost before = transforms_view(out@);
        let mut k: usize = 0;
        proof {
            assert(select_transforms(transforms_view(ts@).take(0), p, c) =~= Seq::<
                TransformStampedView,
            >::empty());
            assert(before + Seq::<TransformStampedView>::empty() =~= before);
        }
        while k < ts.len()
            invariant
                k <= ts.len(),
                p == opt_view(parent_frame),
                c == opt_view(child_frame),
                transforms_view(out@) == before + select_transforms(
                    transforms_view(ts@).take(k as int),
                    p,
                    c,
                ),
            decreases ts.len() - k,
        {
            let t = &ts[k];
            let keep_parent = match parent_frame {
                Some(pf) => str_is(t.header.frame_id.as_str(), pf),
                None => true,
            };
            let keep_child = match child_frame {
                Some(cf) => str_is(t.child_frame_id.as_str(), cf),
                None => true,
            };
            let ghost prefix = transforms_view(ts@).take(k + 1);
            proof {
                assert(prefix.drop_last() =~= transforms_view(ts@).take(k as int));
                assert(prefix.last() == t@);
            }
            if keep_parent && keep_child {
                let ghost o = transforms_view(out@);
                out.push(copy_transform(t));
                proof {
                    assert(transforms_view(out@) =~= o.push(t@));
                }
            }
            k = k + 1;
        }
        proof {
            assert(transforms_view(ts@).take(ts.len() as int) =~= transforms_view(ts@));
            let m = mv.take(i + 1);
            assert(m.drop_last() =~= mv.take(i as int));
            assert(m.last() == transforms_view(ts@));
            lemma_select_append(all_transforms(mv.take(i as int)), transforms_view(ts@), p, c);
        }
        i = i + 1;
    }
    assert(mv.take(messages.len() as int) =~= mv);
    out
}

} // verus!
