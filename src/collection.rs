use vstd::prelude::*;
use crate::instance::{EC2Instance, InstanceView, opt_view, clone_opt, display_line_of};
use vstd::std_specs::iter::IteratorSpec;

verus! {

/// The abstract value of a collection: the query context and the records in order.
pub struct CollectionView {
    pub region: Option<Seq<char>>,
    pub profile: Option<Seq<char>>,
    pub instances: Seq<InstanceView>,
}

/// The records of a discovery run, in the order they were discovered, with the
/// region and profile that produced them.
pub struct EC2InstanceCollection {
    pub region: Option<String>,
    pub profile: Option<String>,
    pub instances: Vec<EC2Instance>,
}

/// The abstract values of a vector of records.
pub open spec fn records_view(v: Seq<EC2Instance>) -> Seq<InstanceView> {
    v.map_values(|i: EC2Instance| i@)
}

impl View for EC2InstanceCollection {
    type V = CollectionView;

    open spec fn view(&self) -> CollectionView {
        CollectionView {
            region: opt_view(self.region),
            profile: opt_view(self.profile),
            instances: records_view(self.instances@),
        }
    }
}

impl EC2InstanceCollection {
    pub fn is_empty(&self) -> (r: bool)
        ensures
            r == (self@.instances.len() == 0),
    {
        self.instances.len() == 0
    }

    /// Appends a record at the end.
    pub fn add_instance(&mut self, instance: EC2Instance)
        ensures
            final(self)@ == (CollectionView {
                instances: old(self)@.instances.push(instance@),
                ..old(self)@
            }),
    {
        self.instances.push(instance);
        assert(records_view(self.instances@) =~= old(self)@.instances.push(instance@));
    }

    /// Iterates over the records in discovery order.
    pub fn iter(&self) -> (r: std::slice::Iter<'_, EC2Instance>)
        ensures
            r.remaining() == self.instances@.as_ref(),
    {
        self.instances.iter()
    }

    /// An empty collection with no region or profile.
    pub fn new() -> (r: Self)
        ensures
            r@ == (CollectionView { region: None, profile: None, instances: Seq::empty() }),
    {
        let r = Self { instances: Vec::new(), region: None, profile: None };
        assert(records_view(r.instances@) =~= Seq::empty());
        r
    }

    /// An empty collection recording the query context that will fill it.
    pub fn with_context(region: Option<String>, profile: Option<String>) -> (r: Self)
        ensures
            r@ == (CollectionView {
                region: opt_view(region),
                profile: opt_view(profile),
                instances: Seq::empty(),
            }),
    {
        let r = Self { instances: Vec::new(), region, profile };
        assert(records_view(r.instances@) =~= Seq::empty());
        r
    }

    pub fn len(&self) -> (r: usize)
        ensures
            r == self@.instances.len(),
    {
        self.instances.len()
    }

    pub fn get(&self, i: usize) -> (r: &EC2Instance)
        requires
            i < self@.instances.len(),
        ensures
            r@ == self@.instances[i as int],
    {
        &self.instances[i]
    }

    pub fn get_region(&self) -> (r: Option<String>)
        ensures
            opt_view(r) == self@.region,
    {
        clone_opt(&self.region)
    }

    pub fn get_profile(&self) -> (r: Option<String>)
        ensures
            opt_view(r) == self@.profile,
    {
        clone_opt(&self.profile)
    }
}

/// The records' display lines, each ended by a newline.
pub open spec fn lines_text(s: Seq<InstanceView>) -> Seq<char>
    decreases s.len(),
{
    if s.len() == 0 {
        Seq::empty()
    } else {
        lines_text(s.drop_last()) + display_line_of(s.last()) + seq!['\n']
    }
}

/// The text form of a collection: a header line, then one line per record.
pub open spec fn collection_text(c: CollectionView) -> Seq<char> {
    "Instances: \n"@ + lines_text(c.instances)
}

impl EC2InstanceCollection {
    /// The collection as text: `Instances: ` on its own line, then each record's
    /// display line, in order.
    pub fn display_text(&self) -> (r: String)
        ensures
            r@ == collection_text(self@),
    {
        proof {
            reveal_strlit("\n");
        }
        let mut out = String::from_str("Instances: \n");
        let ghost head = out@;
        let mut i: usize = 0;
        assert(lines_text(self@.instances.take(0)) == Seq::<char>::empty());
        while i < self.instances.len()
            invariant
                i <= self.instances.len(),
                head == "Instances: \n"@,
                out@ == head + lines_text(self@.instances.take(i as int)),
            decreases self.instances.len() - i,
        {
            let line = self.instances[i].display_line();
            out.append(line.as_str());
            out.append("\n");
            proof {
                let t = self@.instances.take(i + 1);
                assert(t.drop_last() =~= self@.instances.take(i as int));
                assert(t.last() == self.instances@[i as int]@);
                reveal_strlit("\n");
                assert("\n"@.len() == 1);
                assert("\n"@[0] == '\n');
                assert("\n"@ =~= seq!['\n']);
                assert(out@ =~= head + lines_text(t));
            }
            i = i + 1;
        }
        assert(self@.instances.take(self.instances@.len() as int) =~= self@.instances);
        out
    }
}

} // verus!
