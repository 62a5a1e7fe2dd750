use vstd::prelude::*;
use crate::instance::{EC2Instance, InstanceView, opt_view, clone_opt, shown_or};
use crate::collection::{EC2InstanceCollection, CollectionView};

verus! {

/// The tag key whose value names an instance.
pub open spec fn name_key() -> Seq<char> {
    "Name"@
}

/// The tag key whose value names the instance's autoscaling group.
pub open spec fn group_key() -> Seq<char> {
    "aws:autoscaling:groupName"@
}

/// The abstract values of a vector of strings.
pub open spec fn strings_view(v: Seq<String>) -> Seq<Seq<char>> {
    v.map_values(|s: String| s@)
}

/// One tag of a listed instance, as the listing gateway returned it.
pub struct InstanceTag {
    pub key: Option<String>,
    pub value: Option<String>,
}

pub struct TagView {
    pub key: Option<Seq<char>>,
    pub value: Option<Seq<char>>,
}

impl View for InstanceTag {
    type V = TagView;

    open spec fn view(&self) -> TagView {
        TagView { key: opt_view(self.key), value: opt_view(self.value) }
    }
}

/// One running instance, as the listing gateway returned it.
pub struct ListedInstance {
    pub id: Option<String>,
    pub tags: Vec<InstanceTag>,
    pub state: Option<String>,
}

pub struct ListedView {
    pub id: Option<Seq<char>>,
    pub tags: Seq<TagView>,
    pub state: Option<Seq<char>>,
}

impl View for ListedInstance {
    type V = ListedView;

    open spec fn view(&self) -> ListedView {
        ListedView {
            id: opt_view(self.id),
            tags: self.tags@.map_values(|t: InstanceTag| t@),
            state: opt_view(self.state),
        }
    }
}

/// One (instance id, health status) pair of a group-health reply.
pub struct GroupMember {
    pub instance_id: Option<String>,
    pub health_status: Option<String>,
}

pub struct MemberView {
    pub instance_id: Option<Seq<char>>,
    pub health_status: Option<Seq<char>>,
}

impl View for GroupMember {
    type V = MemberView;

    open spec fn view(&self) -> MemberView {
        MemberView {
            instance_id: opt_view(self.instance_id),
            health_status: opt_view(self.health_status),
        }
    }
}

pub open spec fn listing_view(v: Seq<ListedInstance>) -> Seq<ListedView> {
    v.map_values(|l: ListedInstance| l@)
}

pub open spec fn members_view(v: Seq<GroupMember>) -> Seq<MemberView> {
    v.map_values(|m: GroupMember| m@)
}

/// Why a discovery run failed.
#[derive(Debug, PartialEq, Eq)]
pub enum DiscoveryError {
    /// A remote call failed; the text is what the gateway reported.
    RemoteCall(String),
    /// The listing returned an instance without an id.
    MissingInstanceId,
    /// The group-health reply held a member without an id or a health status.
    MalformedHealthReply,
}

/// The value of the last tag keyed `key`; a tag without a value counts as empty.
pub open spec fn tag_value(tags: Seq<TagView>, key: Seq<char>) -> Option<Seq<char>>
    decreases tags.len(),
{
    if tags.len() == 0 {
        None
    } else if tags.last().key == Some(key) {
        Some(shown_or(tags.last().value, Seq::empty()))
    } else {
        tag_value(tags.drop_last(), key)
    }
}

/// The record that a listed instance yields: no health yet, name and group from its tags.
pub open spec fn record_of(l: ListedView) -> InstanceView {
    InstanceView {
        id: l.id->Some_0,
        state: l.state,
        name: tag_value(l.tags, name_key()),
        autoscaling_group_name: tag_value(l.tags, group_key()),
        health: None,
    }
}

/// Every listed instance carries an id.
pub open spec fn listing_well_formed(listing: Seq<ListedView>) -> bool {
    forall|i: int| 0 <= i < listing.len() ==> (#[trigger] listing[i]).id is Some
}

/// The collection that a well-formed listing yields, in listing order.
pub open spec fn collected(
    region: Option<Seq<char>>,
    profile: Option<Seq<char>>,
    listing: Seq<ListedView>,
) -> CollectionView {
    CollectionView { region, profile, instances: listing.map_values(|l: ListedView| record_of(l)) }
}

/// The non-empty group names that some record holds.
pub open spec fn referenced_groups(instances: Seq<InstanceView>) -> Set<Seq<char>> {
    Set::new(
        |g: Seq<char>|
            g.len() > 0 && exists|i: int|
                0 <= i < instances.len() && (#[trigger] instances[i]).autoscaling_group_name
                    == Some(g),
    )
}

/// Every member of a group-health reply carries an id and a health status.
pub open spec fn reply_well_formed(members: Seq<MemberView>) -> bool {
    forall|i: int|
        0 <= i < members.len() ==> (#[trigger] members[i]).instance_id is Some
            && members[i].health_status is Some
}

/// The health that the last member with this id reports, if any does.
pub open spec fn reported_health(members: Seq<MemberView>, id: Seq<char>) -> Option<Seq<char>>
    decreases members.len(),
{
    if members.len() == 0 {
        None
    } else if members.last().instance_id == Some(id) {
        members.last().health_status
    } else {
        reported_health(members.drop_last(), id)
    }
}

/// A record after the join: its health is the reported one, where there is one.
pub open spec fn with_health(r: InstanceView, members: Seq<MemberView>) -> InstanceView {
    match reported_health(members, r.id) {
        Some(h) => InstanceView { health: Some(h), ..r },
        None => r,
    }
}

/// A collection after the join of a group-health reply onto its records.
pub open spec fn joined(c: CollectionView, members: Seq<MemberView>) -> CollectionView {
    CollectionView {
        instances: c.instances.map_values(|r: InstanceView| with_health(r, members)),
        ..c
    }
}

/// A copy of an optional string, or the empty string when it is unset.
fn value_or_empty(o: &Option<String>) -> (r: String)
    ensures
        r@ == shown_or(opt_view(*o), Seq::empty()),
{
    match o {
        Some(s) => s.clone(),
        None => String::new(),
    }
}

/// Scans the tags once for the name and the group name; the last tag of a key wins.
pub fn scan_tags(tags: &Vec<InstanceTag>) -> (r: (Option<String>, Option<String>))
    ensures
        opt_view(r.0) == tag_value(tags@.map_values(|t: InstanceTag| t@), name_key()),
        opt_view(r.1) == tag_value(tags@.map_values(|t: InstanceTag| t@), group_key()),
{
    let ghost tv = tags@.map_values(|t: InstanceTag| t@);
    let name_k = String::from_str("Name");
    let group_k = String::from_str("aws:autoscaling:groupName");
    let mut name: Option<String> = None;
    let mut group: Option<String> = None;
    let mut i: usize = 0;
    while i < tags.len()
        invariant
            i <= tags.len(),
            tv == tags@.map_values(|t: InstanceTag| t@),
            name_k@ == name_key(),
            group_k@ == group_key(),
            opt_view(name) == tag_value(tv.take(i as int), name_key()),
            opt_view(group) == tag_value(tv.take(i as int), group_key()),
        decreases tags.len() - i,
    {
        let tag = &tags[i];
        if let Some(k) = &tag.key {
            if *k == name_k {
                name = Some(value_or_empty(&tag.value));
            }
            if *k == group_k {
                group = Some(value_or_empty(&tag.value));
            }
        }
        proof {
            assert(tv.take(i + 1).drop_last() =~= tv.take(i as int));
        }
        i = i + 1;
    }
    proof {
        assert(tv.take(tags@.len() as int) =~= tv);
    }
    (name, group)
}

/// The record for one listed instance, or `None` when it carries no id.
pub fn record_from_listing(l: &ListedInstance) -> (r: Option<EC2Instance>)
    ensures
        r is Some <==> l@.id is Some,
        r is Some ==> r->Some_0@ == record_of(l@),
{
    match &l.id {
        None => None,
        Some(id) => {
            let (name, group) = scan_tags(&l.tags);
            let rec = EC2Instance {
                id: id.clone(),
                state: clone_opt(&l.state),
                name,
                autoscaling_group_name: group,
                health: None,
            };
            Some(rec)
        },
    }
}

/// Builds the records of a listing, in listing order, under the given query context.
/// Fails exactly when some listed instance carries no id.
pub fn collect_instances(
    region: Option<String>,
    profile: Option<String>,
    listing: &Vec<ListedInstance>,
) -> (r: Result<EC2InstanceCollection, DiscoveryError>)
    ensures
        listing_well_formed(listing_view(listing@)) ==> r is Ok && r->Ok_0@ == collected(
            opt_view(region),
            opt_view(profile),
            listing_view(listing@),
        ),
        !listing_well_formed(listing_view(listing@)) ==> r == Err::<
            EC2InstanceCollection,
            DiscoveryError,
        >(DiscoveryError::MissingInstanceId),
{
    let ghost lv = listing_view(listing@);
    let ghost rv = opt_view(region);
    let ghost pv = opt_view(profile);
    let mut c = EC2InstanceCollection::with_context(region, profile);
    proof {
        assert(lv.take(0).map_values(|l: ListedView| record_of(l)) =~= Seq::empty());
    }
    let mut i: usize = 0;
    while i < listing.len()
        invariant
            i <= listing.len(),
            lv == listing_view(listing@),
            forall|j: int| 0 <= j < i ==> (#[trigger] lv[j]).id is Some,
            c@ == collected(rv, pv, lv.take(i as int)),
        decreases listing.len() - i,
    {
        match record_from_listing(&listing[i]) {
            None => {
                return Err(DiscoveryError::MissingInstanceId);
            },
            Some(rec) => {
                c.add_instance(rec);
            },
        }
        proof {
            assert(lv.take(i + 1).map_values(|l: ListedView| record_of(l)) =~= lv.take(
                i as int,
            ).map_values(|l: ListedView| record_of(l)).push(record_of(lv[i as int])));
        }
        i = i + 1;
    }
    proof {
        assert(lv.take(listing@.len() as int) =~= lv);
    }
    Ok(c)
}

/// Whether `v` holds a string equal to `s`.
fn contains_string(v: &Vec<String>, s: &String) -> (r: bool)
    ensures
        r == strings_view(v@).contains(s@),
{
    let mut i: usize = 0;
    while i < v.len()
        invariant
            i <= v.len(),
            forall|j: int| 0 <= j < i ==> (#[trigger] v@[j])@ != s@,
        decreases v.len() - i,
    {
        if v[i] == *s {
            assert(strings_view(v@)[i as int] == s@);
            return true;
        }
        i = i + 1;
    }
    proof {
        if strings_view(v@).contains(s@) {
            let k = choose|k: int| 0 <= k < strings_view(v@).len() && strings_view(v@)[k] == s@;
            assert(v@[k]@ == s@);
        }
    }
    false
}

/// The distinct non-empty group names that the records hold, each once.
pub fn groups_to_query(c: &EC2InstanceCollection) -> (r: Vec<String>)
    ensures
        strings_view(r@).no_duplicates(),
        strings_view(r@).to_set() == referenced_groups(c@.instances),
{
    let ghost iv = c@.instances;
    let mut groups: Vec<String> = Vec::new();
    let mut i: usize = 0;
    while i < c.instances.len()
        invariant
            i <= c.instances.len(),
            iv == c@.instances,
            strings_view(groups@).no_duplicates(),
            forall|g: Seq<char>|
                #![trigger strings_view(groups@).contains(g)]
                strings_view(groups@).contains(g) <==> (g.len() > 0 && exists|j: int|
                    0 <= j < i && (#[trigger] iv[j]).autoscaling_group_name == Some(g)),
        decreases c.instances.len() - i,
    {
        let ghost before = strings_view(groups@);
        assert(iv[i as int] == c.instances@[i as int]@);
        if let Some(g) = &c.instances[i].autoscaling_group_name {
            if !g.as_str().is_empty() && !contains_string(&groups, g) {
                groups.push(g.clone());
                assert(strings_view(groups@) =~= before.push(g@));
            }
        }
        proof {
            let after = strings_view(groups@);
            assert forall|g: Seq<char>|
                after.contains(g) <==> (g.len() > 0 && exists|j: int|
                    0 <= j < i + 1 && (#[trigger] iv[j]).autoscaling_group_name == Some(g)) by {
                if g.len() > 0 && iv[i as int].autoscaling_group_name == Some(g) {
                    if !before.contains(g) {
                        assert(after[after.len() - 1] == g);
                    }
                }
                if after.contains(g) && !before.contains(g) {
                    let k = choose|k: int| 0 <= k < after.len() && after[k] == g;
                    assert(k == after.len() - 1);
                    assert(iv[i as int].autoscaling_group_name == Some(g));
                }
                if before.contains(g) {
                    let k = choose|k: int| 0 <= k < before.len() && before[k] == g;
                    assert(after[k] == g);
                }
            }
        }
        i = i + 1;
    }
    proof {
        assert(strings_view(groups@).to_set() =~= referenced_groups(iv));
    }
    groups
}

/// The health that the last member with id `id` reports, if any does.
pub fn lookup_health(members: &Vec<GroupMember>, id: &String) -> (r: Option<String>)
    ensures
        opt_view(r) == reported_health(members_view(members@), id@),
{
    let ghost mv = members_view(members@);
    let mut found: Option<String> = None;
    let mut j: usize = 0;
    while j < members.len()
        invariant
            j <= members.len(),
            mv == members_view(members@),
            opt_view(found) == reported_health(mv.take(j as int), id@),
        decreases members.len() - j,
    {
        assert(mv.take(j + 1).drop_last() =~= mv.take(j as int));
        if let Some(m_id) = &members[j].instance_id {
            if *m_id == *id {
                found = clone_opt(&members[j].health_status);
            }
        }
        j = j + 1;
    }
    assert(mv.take(members@.len() as int) =~= mv);
    found
}

/// Whether every member of a reply carries an id and a health status.
pub fn reply_is_complete(members: &Vec<GroupMember>) -> (r: bool)
    ensures
        r == reply_well_formed(members_view(members@)),
{
    let ghost mv = members_view(members@);
    let mut j: usize = 0;
    while j < members.len()
        invariant
            j <= members.len(),
            mv == members_view(members@),
            forall|k: int|
                0 <= k < j ==> (#[trigger] mv[k]).instance_id is Some
                    && mv[k].health_status is Some,
        decreases members.len() - j,
    {
        if members[j].instance_id.is_none() || members[j].health_status.is_none() {
            assert(!(mv[j as int].instance_id is Some && mv[j as int].health_status is Some));
            return false;
        }
        j = j + 1;
    }
    true
}

/// Joins a group-health reply onto the records by exact id: each record whose id the
/// reply names takes the reported health; the others keep theirs. Ids of the reply
/// that no record holds are ignored. A malformed reply changes nothing and fails.
/// Each record's lookup scans the reply linearly; at the scale of the instances of one
/// account and region this is cheap, so no id index is built.
pub fn apply_group_health(c: &mut EC2InstanceCollection, members: &Vec<GroupMember>) -> (r: Result<
    (),
    DiscoveryError,
>)
    ensures
        reply_well_formed(members_view(members@)) ==> r is Ok && final(c)@ == joined(
            old(c)@,
            members_view(members@),
        ),
        !reply_well_formed(members_view(members@)) ==> r == Err::<(), DiscoveryError>(
            DiscoveryError::MalformedHealthReply,
        ) && final(c)@ == old(c)@,
{
    if !reply_is_complete(members) {
        return Err(DiscoveryError::MalformedHealthReply);
    }
    let ghost mv = members_view(members@);
    let ghost start = c@;
    let mut i: usize = 0;
    while i < c.instances.len()
        invariant
            i <= c.instances.len(),
            mv == members_view(members@),
            c@.region == start.region,
            c@.profile == start.profile,
            c@.instances.len() == start.instances.len(),
            forall|k: int| 0 <= k < i ==> c@.instances[k] == with_health(#[trigger] start.instances[k], mv),
            forall|k: int| i <= k < c@.instances.len() ==> c@.instances[k] == start.instances[k],
        decreases c.instances.len() - i,
    {
        assert(c@.instances[i as int] == c.instances@[i as int]@);
        let found = lookup_health(members, &c.instances[i].id);
        if let Some(h) = found {
            let mut rec = c.instances[i].clone();
            rec.set_health(h.as_str());
            c.instances.set(i, rec);
        }
        assert(c@.instances[i as int] == c.instances@[i as int]@);
        i = i + 1;
    }
    assert(c@.instances =~= joined(start, mv).instances);
    Ok(())
}

/// What a discovery run does once the listing is in.
pub enum DiscoveryStep {
    /// Ask the group-health gateway about exactly these groups, then call `after_health`.
    QueryHealth(EC2InstanceCollection, Vec<String>),
    /// No record names a group: discovery is complete without a health lookup.
    Done(EC2InstanceCollection),
}

/// Decides the run after the listing gateway answered. A failed listing fails the run,
/// as does an instance without an id. Otherwise the records are built in listing order;
/// the health lookup is asked for exactly when some record names a non-empty group.
pub fn after_listing(
    region: Option<String>,
    profile: Option<String>,
    listing: Result<Vec<ListedInstance>, String>,
) -> (r: Result<DiscoveryStep, DiscoveryError>)
    ensures
        listing is Err ==> r == Err::<DiscoveryStep, DiscoveryError>(
            DiscoveryError::RemoteCall(listing->Err_0),
        ),
        listing is Ok && !listing_well_formed(listing_view(listing->Ok_0@)) ==> r == Err::<
            DiscoveryStep,
            DiscoveryError,
        >(DiscoveryError::MissingInstanceId),
        listing is Ok && listing_well_formed(listing_view(listing->Ok_0@)) ==> r is Ok && ({
            let expected = collected(
                opt_view(region),
                opt_view(profile),
                listing_view(listing->Ok_0@),
            );
            let groups = referenced_groups(expected.instances);
            match r->Ok_0 {
                DiscoveryStep::Done(c) => c@ == expected && groups == Set::<Seq<char>>::empty(),
                DiscoveryStep::QueryHealth(c, g) => {
                    &&& c@ == expected
                    &&& groups != Set::<Seq<char>>::empty()
                    &&& g@.len() > 0
                    &&& strings_view(g@).no_duplicates()
                    &&& strings_view(g@).to_set() == groups
                },
            }
        }),
{
    match listing {
        Err(msg) => Err(DiscoveryError::RemoteCall(msg)),
        Ok(l) => {
            let c = match collect_instances(region, profile, &l) {
                Ok(c) => c,
                Err(e) => {
                    return Err(e);
                },
            };
            let groups = groups_to_query(&c);
            if groups.len() == 0 {
                assert(strings_view(groups@) =~= Seq::empty());
                assert(strings_view(groups@).to_set() =~= Set::empty());
                Ok(DiscoveryStep::Done(c))
            } else {
                assert(strings_view(groups@)[0] == groups@[0]@);
                assert(strings_view(groups@).contains(groups@[0]@));
                assert(strings_view(groups@).to_set().contains(groups@[0]@));
                Ok(DiscoveryStep::QueryHealth(c, groups))
            }
        },
    }
}

/// Finishes the run after the group-health gateway answered: a failed call or a
/// malformed reply fails the run; otherwise the reply is joined onto the records.
pub fn after_health(
    collection: EC2InstanceCollection,
    reply: Result<Vec<GroupMember>, String>,
) -> (r: Result<EC2InstanceCollection, DiscoveryError>)
    ensures
        reply is Err ==> r == Err::<EC2InstanceCollection, DiscoveryError>(
            DiscoveryError::RemoteCall(reply->Err_0),
        ),
        reply is Ok && !reply_well_formed(members_view(reply->Ok_0@)) ==> r == Err::<
            EC2InstanceCollection,
            DiscoveryError,
        >(DiscoveryError::MalformedHealthReply),
        reply is Ok && reply_well_formed(members_view(reply->Ok_0@)) ==> r is Ok && r->Ok_0@
            == joined(collection@, members_view(reply->Ok_0@)),
{
    match reply {
        Err(msg) => Err(DiscoveryError::RemoteCall(msg)),
        Ok(members) => {
            let mut c = collection;
            match apply_group_health(&mut c, &members) {
                Ok(()) => Ok(c),
                Err(e) => Err(e),
            }
        },
    }
}

} // verus!
