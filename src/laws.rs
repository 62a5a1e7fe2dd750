use vstd::prelude::*;
use crate::instance::{InstanceView, unknown_label};
use crate::discovery::{
    ListedView, MemberView, TagView, collected, group_key, joined, listing_well_formed,
    name_key, referenced_groups, reply_well_formed, reported_health, tag_value, with_health,
};

verus! {

/// A key that no tag carries has no value.
pub proof fn lemma_absent_tag(tags: Seq<TagView>, key: Seq<char>)
    requires
        forall|t: int| 0 <= t < tags.len() ==> (#[trigger] tags[t]).key != Some(key),
    ensures
        tag_value(tags, key) is None,
    decreases tags.len(),
{
    if tags.len() > 0 {
        assert(tags.last() == tags[tags.len() - 1]);
        let rest = tags.drop_last();
        assert forall|t: int| 0 <= t < rest.len() implies (#[trigger] rest[t]).key != Some(key) by {
            assert(rest[t] == tags[t]);
        }
        lemma_absent_tag(rest, key);
    }
}

/// Of a well-formed reply, an id has a reported health exactly when some member names it.
pub proof fn lemma_reported_iff_named(members: Seq<MemberView>, id: Seq<char>)
    requires
        reply_well_formed(members),
    ensures
        reported_health(members, id) is Some <==> exists|k: int|
            0 <= k < members.len() && (#[trigger] members[k]).instance_id == Some(id),
    decreases members.len(),
{
    if members.len() > 0 {
        let rest = members.drop_last();
        assert(reply_well_formed(rest)) by {
            assert forall|i: int| 0 <= i < rest.len() implies (#[trigger] rest[i]).instance_id is Some
                && rest[i].health_status is Some by {
                assert(rest[i] == members[i]);
            }
        }
        lemma_reported_iff_named(rest, id);
        let last = members.len() - 1;
        assert(members.last() == members[last]);
        if exists|k: int| 0 <= k < members.len() && (#[trigger] members[k]).instance_id == Some(id) {
            let k = choose|k: int| 0 <= k < members.len() && (#[trigger] members[k]).instance_id == Some(id);
            if k < last {
                assert(rest[k] == members[k]);
            }
        }
        if exists|k: int| 0 <= k < rest.len() && (#[trigger] rest[k]).instance_id == Some(id) {
            let k = choose|k: int| 0 <= k < rest.len() && (#[trigger] rest[k]).instance_id == Some(id);
            assert(members[k] == rest[k]);
        }
    }
}

/// Each instance of a well-formed listing yields exactly one record, at its own
/// position, both before and after the health join: the records' ids are the listing's
/// ids in listing order, so ids that are distinct in the listing stay distinct.
pub proof fn lemma_ids_kept_in_order(
    region: Option<Seq<char>>,
    profile: Option<Seq<char>>,
    listing: Seq<ListedView>,
    members: Seq<MemberView>,
)
    requires
        listing_well_formed(listing),
    ensures
        ({
            let built = collected(region, profile, listing).instances;
            let enriched = joined(collected(region, profile, listing), members).instances;
            &&& built.len() == listing.len()
            &&& enriched.len() == listing.len()
            &&& forall|i: int|
                0 <= i < listing.len() ==> (#[trigger] built[i]).id == listing[i].id->Some_0
                    && enriched[i].id == listing[i].id->Some_0
            &&& listing.map_values(|l: ListedView| l.id->Some_0).no_duplicates() ==> enriched.map_values(
                |r: InstanceView| r.id,
            ).no_duplicates()
        }),
{
    let built = collected(region, profile, listing).instances;
    let enriched = joined(collected(region, profile, listing), members).instances;
    assert forall|i: int| 0 <= i < listing.len() implies (#[trigger] built[i]).id
        == listing[i].id->Some_0 && enriched[i].id == listing[i].id->Some_0 by {
        assert(enriched[i] == with_health(built[i], members));
    }
    let ids = listing.map_values(|l: ListedView| l.id->Some_0);
    let out = enriched.map_values(|r: InstanceView| r.id);
    assert(out =~= ids) by {
        assert forall|i: int| 0 <= i < ids.len() implies out[i] == ids[i] by {
            assert(enriched[i] == with_health(built[i], members));
        }
    }
}

/// A listed instance without a `Name` tag shows the empty name; one without a group tag
/// holds no group, so every group asked about is named by some other record.
pub proof fn lemma_untagged_instance(
    region: Option<Seq<char>>,
    profile: Option<Seq<char>>,
    listing: Seq<ListedView>,
    i: int,
)
    requires
        listing_well_formed(listing),
        0 <= i < listing.len(),
    ensures
        ({
            let recs = collected(region, profile, listing).instances;
            &&& (forall|t: int|
                0 <= t < listing[i].tags.len() ==> (#[trigger] listing[i].tags[t]).key != Some(
                    name_key(),
                )) ==> recs[i].shown_name() == Seq::<char>::empty()
            &&& (forall|t: int|
                0 <= t < listing[i].tags.len() ==> (#[trigger] listing[i].tags[t]).key != Some(
                    group_key(),
                )) ==> {
                &&& recs[i].autoscaling_group_name is None
                &&& forall|g: Seq<char>|
                    #[trigger] referenced_groups(recs).contains(g) ==> exists|j: int|
                        0 <= j < recs.len() && j != i && (#[trigger] recs[j]).autoscaling_group_name
                            == Some(g)
            }
        }),
{
    let recs = collected(region, profile, listing).instances;
    if forall|t: int|
        0 <= t < listing[i].tags.len() ==> (#[trigger] listing[i].tags[t]).key != Some(name_key()) {
        lemma_absent_tag(listing[i].tags, name_key());
    }
    if forall|t: int|
        0 <= t < listing[i].tags.len() ==> (#[trigger] listing[i].tags[t]).key != Some(group_key()) {
        lemma_absent_tag(listing[i].tags, group_key());
        assert forall|g: Seq<char>| #[trigger] referenced_groups(recs).contains(g) implies exists|j: int|
            0 <= j < recs.len() && j != i && (#[trigger] recs[j]).autoscaling_group_name == Some(g) by {
            let j = choose|j: int| 0 <= j < recs.len() && (#[trigger] recs[j]).autoscaling_group_name == Some(g);
            assert(j != i);
        }
    }
}

/// After the join, a record holds a health exactly when some member of the reply names
/// its id; otherwise its health shows as `(Unknown)`.
pub proof fn lemma_health_iff_reported(
    region: Option<Seq<char>>,
    profile: Option<Seq<char>>,
    listing: Seq<ListedView>,
    members: Seq<MemberView>,
    i: int,
)
    requires
        listing_well_formed(listing),
        reply_well_formed(members),
        0 <= i < listing.len(),
    ensures
        ({
            let r = joined(collected(region, profile, listing), members).instances[i];
            &&& r.health is Some <==> exists|k: int|
                0 <= k < members.len() && (#[trigger] members[k]).instance_id == Some(r.id)
            &&& r.health is None ==> r.shown_health() == unknown_label()
        }),
{
    let built = collected(region, profile, listing).instances;
    let r = joined(collected(region, profile, listing), members).instances[i];
    assert(r == with_health(built[i], members));
    lemma_reported_iff_named(members, built[i].id);
}

} // verus!
