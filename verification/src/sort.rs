//! Sorting tags into the order of an index, by merging.

use crate::tag::{
    lemma_tag_le_transitive, lemma_tag_trichotomy, tag_le, tag_precedes, tag_views, tags_sorted,
    Tag, TagModel,
};
use vstd::multiset::Multiset;
use vstd::prelude::*;
use vstd::seq_lib::{group_to_multiset_ensures, lemma_multiset_commutative};

verus! {

/// The tags as a collection without order.
pub open spec fn tag_bag(tags: Seq<Tag>) -> Multiset<TagModel> {
    tag_views(tags).to_multiset()
}

/// Every tag of `low` is a tag of `high` or comes before it.
spec fn all_le(low: Seq<TagModel>, high: Seq<TagModel>) -> bool {
    forall|i: int, j: int|
        0 <= i < low.len() && 0 <= j < high.len() ==> tag_le(#[trigger] low[i], #[trigger] high[j])
}

/// The tags stand in the order of an index, last first.
spec fn descending(tags: Seq<TagModel>) -> bool {
    forall|i: int, j: int|
        0 <= i < j < tags.len() ==> tag_le(#[trigger] tags[j], #[trigger] tags[i])
}

/// No tags make an empty collection.
pub proof fn lemma_bag_empty(tags: Seq<Tag>)
    requires
        tags.len() == 0,
    ensures
        tag_bag(tags) == Multiset::<TagModel>::empty(),
{
    broadcast use group_to_multiset_ensures;
    broadcast use vstd::multiset::lemma_multiset_empty_len;

    assert(tag_views(tags).len() == 0);
    assert(tag_bag(tags).len() == 0);
    assert(tag_bag(tags) =~= Multiset::<TagModel>::empty());
}

/// The models and the collection of a list with one more tag.
proof fn lemma_views_push(tags: Seq<Tag>, tag: Tag)
    ensures
        tag_views(tags.push(tag)) == tag_views(tags).push(tag@),
        tag_bag(tags.push(tag)) == tag_bag(tags).insert(tag@),
{
    broadcast use group_to_multiset_ensures;

    assert(tag_views(tags.push(tag)) =~= tag_views(tags).push(tag@));
}

/// The models and the collection of a list without its last tag.
proof fn lemma_views_pop(tags: Seq<Tag>)
    requires
        tags.len() > 0,
    ensures
        tag_views(tags.drop_last()) == tag_views(tags).drop_last(),
        tag_bag(tags) == tag_bag(tags.drop_last()).insert(tags.last()@),
{
    assert(tag_views(tags.drop_last()) =~= tag_views(tags).drop_last());
    assert(tags == tags.drop_last().push(tags.last()));
    lemma_views_push(tags.drop_last(), tags.last());
}

/// The models and the collection of two lists put together.
proof fn lemma_views_add(a: Seq<Tag>, b: Seq<Tag>)
    ensures
        tag_views(a + b) == tag_views(a) + tag_views(b),
        tag_bag(a + b) == tag_bag(a).add(tag_bag(b)),
{
    assert(tag_views(a + b) =~= tag_views(a) + tag_views(b));
    lemma_multiset_commutative(tag_views(a), tag_views(b));
}

/// The tags of two sorted lists in one sorted list.
fn merge(left: Vec<Tag>, right: Vec<Tag>) -> (merged: Vec<Tag>)
    requires
        tags_sorted(tag_views(left@)),
        tags_sorted(tag_views(right@)),
    ensures
        tags_sorted(tag_views(merged@)),
        tag_bag(merged@) == tag_bag(left@).add(tag_bag(right@)),
{
    let ghost total = tag_bag(left@).add(tag_bag(right@));
    let mut left = left;
    let mut right = right;
    // The greatest tag that is left goes first, so that each tag is taken
    // from the end of its list.
    let mut rest: Vec<Tag> = Vec::new();
    proof {
        lemma_bag_empty(rest@);
        assert(tag_bag(left@).add(tag_bag(right@)).add(tag_bag(rest@)) =~= total);
    }
    while left.len() > 0 || right.len() > 0
        invariant
            tags_sorted(tag_views(left@)),
            tags_sorted(tag_views(right@)),
            descending(tag_views(rest@)),
            all_le(tag_views(left@), tag_views(rest@)),
            all_le(tag_views(right@), tag_views(rest@)),
            tag_bag(left@).add(tag_bag(right@)).add(tag_bag(rest@)) == total,
        decreases left.len() + right.len(),
    {
        let from_left = if right.len() == 0 {
            true
        } else if left.len() == 0 {
            false
        } else {
            !tag_precedes(&left[left.len() - 1], &right[right.len() - 1])
        };
        let ghost old_left = left@;
        let ghost old_right = right@;
        let ghost old_rest = rest@;
        if from_left {
            let tag = left.pop().unwrap();
            proof {
                lemma_views_pop(old_left);
                lemma_views_push(old_rest, tag);
                let lv = tag_views(old_left);
                let rv = tag_views(old_right);
                assert forall|i: int, j: int|
                    0 <= i < tag_views(left@).len() && 0 <= j < tag_views(
                        old_rest.push(tag),
                    ).len() implies tag_le(
                    #[trigger] tag_views(left@)[i],
                    #[trigger] tag_views(old_rest.push(tag))[j],
                ) by {
                    assert(tag_views(left@)[i] == lv[i]);
                    if j < old_rest.len() {
                        assert(tag_le(lv[i], tag_views(old_rest)[j]));
                    } else {
                        assert(tag_le(lv[i], lv[lv.len() - 1]));
                    }
                }
                assert forall|i: int, j: int|
                    0 <= i < rv.len() && 0 <= j < tag_views(
                        old_rest.push(tag),
                    ).len() implies tag_le(
                    #[trigger] rv[i],
                    #[trigger] tag_views(old_rest.push(tag))[j],
                ) by {
                    if j < old_rest.len() {
                        assert(tag_le(rv[i], tag_views(old_rest)[j]));
                    } else {
                        lemma_tag_trichotomy(lv[lv.len() - 1], rv[rv.len() - 1]);
                        if i < rv.len() - 1 {
                            assert(tag_le(rv[i], rv[rv.len() - 1]));
                        }
                        lemma_tag_le_transitive(rv[i], rv[rv.len() - 1], tag@);
                    }
                }
                assert forall|i: int, j: int|
                    0 <= i < j < tag_views(old_rest.push(tag)).len() implies tag_le(
                    #[trigger] tag_views(old_rest.push(tag))[j],
                    #[trigger] tag_views(old_rest.push(tag))[i],
                ) by {
                    if j < old_rest.len() {
                        assert(tag_le(tag_views(old_rest)[j], tag_views(old_rest)[i]));
                    } else {
                        assert(tag_le(lv[lv.len() - 1], tag_views(old_rest)[i]));
                    }
                }
                assert(tags_sorted(tag_views(left@))) by {
                    assert forall|i: int, j: int|
                        0 <= i < j < tag_views(left@).len() implies tag_le(
                        #[trigger] tag_views(left@)[i],
                        #[trigger] tag_views(left@)[j],
                    ) by {
                        assert(tag_le(lv[i], lv[j]));
                    }
                }
                assert(tag_bag(left@).add(tag_bag(right@)).add(tag_bag(old_rest.push(tag)))
                    =~= total);
            }
            rest.push(tag);
        } else {
            let tag = right.pop().unwrap();
            proof {
                lemma_views_pop(old_right);
                lemma_views_push(old_rest, tag);
                let lv = tag_views(old_left);
                let rv = tag_views(old_right);
                assert forall|i: int, j: int|
                    0 <= i < tag_views(right@).len() && 0 <= j < tag_views(
                        old_rest.push(tag),
                    ).len() implies tag_le(
                    #[trigger] tag_views(right@)[i],
                    #[trigger] tag_views(old_rest.push(tag))[j],
                ) by {
                    assert(tag_views(right@)[i] == rv[i]);
                    if j < old_rest.len() {
                        assert(tag_le(rv[i], tag_views(old_rest)[j]));
                    } else {
                        assert(tag_le(rv[i], rv[rv.len() - 1]));
                    }
                }
                assert forall|i: int, j: int|
                    0 <= i < lv.len() && 0 <= j < tag_views(
                        old_rest.push(tag),
                    ).len() implies tag_le(
                    #[trigger] lv[i],
                    #[trigger] tag_views(old_rest.push(tag))[j],
                ) by {
                    if j < old_rest.len() {
                        assert(tag_le(lv[i], tag_views(old_rest)[j]));
                    } else {
                        if i < lv.len() - 1 {
                            assert(tag_le(lv[i], lv[lv.len() - 1]));
                        }
                        lemma_tag_le_transitive(lv[i], lv[lv.len() - 1], tag@);
                    }
                }
                assert forall|i: int, j: int|
                    0 <= i < j < tag_views(old_rest.push(tag)).len() implies tag_le(
                    #[trigger] tag_views(old_rest.push(tag))[j],
                    #[trigger] tag_views(old_rest.push(tag))[i],
                ) by {
                    if j < old_rest.len() {
                        assert(tag_le(tag_views(old_rest)[j], tag_views(old_rest)[i]));
                    } else {
                        assert(tag_le(rv[rv.len() - 1], tag_views(old_rest)[i]));
                    }
                }
                assert(tags_sorted(tag_views(right@))) by {
                    assert forall|i: int, j: int|
                        0 <= i < j < tag_views(right@).len() implies tag_le(
                        #[trigger] tag_views(right@)[i],
                        #[trigger] tag_views(right@)[j],
                    ) by {
                        assert(tag_le(rv[i], rv[j]));
                    }
                }
                assert(tag_bag(left@).add(tag_bag(right@)).add(tag_bag(old_rest.push(tag)))
                    =~= total);
            }
            rest.push(tag);
        }
    }
    let mut merged: Vec<Tag> = Vec::new();
    proof {
        lemma_bag_empty(left@);
        lemma_bag_empty(right@);
        lemma_bag_empty(merged@);
        assert(tag_bag(rest@) =~= total);
        assert(tag_bag(merged@).add(tag_bag(rest@)) =~= total);
    }
    while rest.len() > 0
        invariant
            descending(tag_views(rest@)),
            tags_sorted(tag_views(merged@)),
            all_le(tag_views(merged@), tag_views(rest@)),
            tag_bag(merged@).add(tag_bag(rest@)) == total,
        decreases rest.len(),
    {
        let ghost old_rest = rest@;
        let ghost old_merged = merged@;
        let tag = rest.pop().unwrap();
        proof {
            lemma_views_pop(old_rest);
            lemma_views_push(old_merged, tag);
            let rv = tag_views(old_rest);
            let mv = tag_views(old_merged);
            let nv = tag_views(old_merged.push(tag));
            assert forall|i: int, j: int| 0 <= i < j < nv.len() implies tag_le(
                #[trigger] nv[i],
                #[trigger] nv[j],
            ) by {
                if j < mv.len() {
                    assert(tag_le(mv[i], mv[j]));
                } else {
                    assert(tag_le(mv[i], rv[rv.len() - 1]));
                }
            }
            assert forall|i: int, j: int|
                0 <= i < nv.len() && 0 <= j < tag_views(rest@).len() implies tag_le(
                #[trigger] nv[i],
                #[trigger] tag_views(rest@)[j],
            ) by {
                assert(tag_views(rest@)[j] == rv[j]);
                if i < mv.len() {
                    assert(tag_le(mv[i], rv[j]));
                } else {
                    assert(tag_le(rv[rv.len() - 1], rv[j]));
                }
            }
            assert forall|i: int, j: int| 0 <= i < j < tag_views(rest@).len() implies tag_le(
                #[trigger] tag_views(rest@)[j],
                #[trigger] tag_views(rest@)[i],
            ) by {
                assert(tag_le(rv[j], rv[i]));
            }
            assert(tag_bag(old_merged.push(tag)).add(tag_bag(rest@)) =~= total);
        }
        merged.push(tag);
    }
    proof {
        lemma_bag_empty(rest@);
        assert(tag_bag(merged@) =~= total);
    }
    merged
}

/// The tags in the order of an index.
pub fn sort_tags(tags: Vec<Tag>) -> (sorted: Vec<Tag>)
    ensures
        tags_sorted(tag_views(sorted@)),
        tag_bag(sorted@) == tag_bag(tags@),
    decreases tags.len(),
{
    if tags.len() <= 1 {
        return tags;
    }
    let ghost all = tags@;
    let mut left = tags;
    let middle = left.len() / 2;
    let right = left.split_off(middle);
    proof {
        assert(all == left@ + right@);
        lemma_views_add(left@, right@);
    }
    let left = sort_tags(left);
    let right = sort_tags(right);
    merge(left, right)
}

} // verus!
