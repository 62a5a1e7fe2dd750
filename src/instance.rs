use vstd::prelude::*;

verus! {

/// The label that getters hand out for a field that was never set.
pub open spec fn unknown_label() -> Seq<char> {
    "(Unknown)"@
}

/// The mathematical value of an optional string.
pub open spec fn opt_view(o: Option<String>) -> Option<Seq<char>> {
    match o {
        Some(s) => Some(s@),
        None => None,
    }
}

/// What a getter shows for an optional field: its value, or `fallback` when unset.
pub open spec fn shown_or(o: Option<Seq<char>>, fallback: Seq<char>) -> Seq<char> {
    match o {
        Some(s) => s,
        None => fallback,
    }
}

/// The abstract value of an instance record.
pub struct InstanceView {
    pub id: Seq<char>,
    pub state: Option<Seq<char>>,
    pub name: Option<Seq<char>>,
    pub autoscaling_group_name: Option<Seq<char>>,
    pub health: Option<Seq<char>>,
}

impl InstanceView {
    /// A record that holds an id and nothing else.
    pub open spec fn fresh(id: Seq<char>) -> InstanceView {
        InstanceView { id, state: None, name: None, autoscaling_group_name: None, health: None }
    }

    pub open spec fn shown_name(self) -> Seq<char> {
        shown_or(self.name, Seq::empty())
    }

    pub open spec fn shown_state(self) -> Seq<char> {
        shown_or(self.state, unknown_label())
    }

    pub open spec fn shown_group(self) -> Seq<char> {
        shown_or(self.autoscaling_group_name, unknown_label())
    }

    pub open spec fn shown_health(self) -> Seq<char> {
        shown_or(self.health, unknown_label())
    }
}

/// One compute instance: its id and the attributes discovered for it.
/// Every attribute but the id starts unset.
pub struct EC2Instance {
    pub id: String,
    pub state: Option<String>,
    pub name: Option<String>,
    pub autoscaling_group_name: Option<String>,
    pub health: Option<String>,
}

impl View for EC2Instance {
    type V = InstanceView;

    open spec fn view(&self) -> InstanceView {
        InstanceView {
            id: self.id@,
            state: opt_view(self.state),
            name: opt_view(self.name),
            autoscaling_group_name: opt_view(self.autoscaling_group_name),
            health: opt_view(self.health),
        }
    }
}

/// Copies an optional string.
pub fn clone_opt(o: &Option<String>) -> (r: Option<String>)
    ensures
        opt_view(r) == opt_view(*o),
{
    match o {
        Some(s) => Some(s.clone()),
        None => None,
    }
}

/// The value of an optional string, or a copy of `fallback` when it is unset.
fn shown_or_exec(o: &Option<String>, fallback: &str) -> (r: String)
    ensures
        r@ == shown_or(opt_view(*o), fallback@),
{
    match o {
        Some(s) => s.clone(),
        None => String::from_str(fallback),
    }
}

impl EC2Instance {
    /// A field-for-field copy.
    pub fn clone(&self) -> (r: EC2Instance)
        ensures
            r@ == self@,
    {
        EC2Instance {
            id: self.id.clone(),
            state: clone_opt(&self.state),
            name: clone_opt(&self.name),
            autoscaling_group_name: clone_opt(&self.autoscaling_group_name),
            health: clone_opt(&self.health),
        }
    }

    /// A record for `new_instance_id` with every other field unset.
    pub fn new(new_instance_id: &str) -> (r: Self)
        ensures
            r@ == InstanceView::fresh(new_instance_id@),
    {
        Self {
            id: String::from_str(new_instance_id),
            name: None,
            state: None,
            autoscaling_group_name: None,
            health: None,
        }
    }

    /// The name, or the empty string when none was set.
    pub fn get_name(&self) -> (r: String)
        ensures
            r@ == self@.shown_name(),
    {
        match &self.name {
            Some(name) => name.clone(),
            None => String::new(),
        }
    }

    pub fn set_name(&mut self, name: &str)
        ensures
            final(self)@ == (InstanceView { name: Some(name@), ..old(self)@ }),
    {
        self.name = Some(String::from_str(name));
    }

    /// The lifecycle state, or `(Unknown)` when none was set.
    pub fn get_state(&self) -> (r: String)
        ensures
            r@ == self@.shown_state(),
    {
        shown_or_exec(&self.state, "(Unknown)")
    }

    pub fn set_state(&mut self, state: &str)
        ensures
            final(self)@ == (InstanceView { state: Some(state@), ..old(self)@ }),
    {
        self.state = Some(String::from_str(state));
    }

    /// The autoscaling group's name, or `(Unknown)` when none was set.
    pub fn get_autoscaling_group_name(&self) -> (r: String)
        ensures
            r@ == self@.shown_group(),
    {
        shown_or_exec(&self.autoscaling_group_name, "(Unknown)")
    }

    pub fn set_autoscaling_group_name(&mut self, name: &str)
        ensures
            final(self)@ == (InstanceView { autoscaling_group_name: Some(name@), ..old(self)@ }),
    {
        self.autoscaling_group_name = Some(String::from_str(name));
    }

    /// The health reported by the instance's group, or `(Unknown)` when none was set.
    pub fn get_health(&self) -> (r: String)
        ensures
            r@ == self@.shown_health(),
    {
        shown_or_exec(&self.health, "(Unknown)")
    }

    pub fn set_health(&mut self, health: &str)
        ensures
            final(self)@ == (InstanceView { health: Some(health@), ..old(self)@ }),
    {
        self.health = Some(String::from_str(health));
    }
}

/// The text that Rust's `{:?}` formatting gives for a string: the characters
/// between double quotes, with quotes, backslashes and control characters escaped.
pub uninterp spec fn debug_text_of(s: Seq<char>) -> Seq<char>;

/// Relies on std's `Debug` impl for `str` (through `format!("{:?}", ..)`): the
/// escaped, quoted form depends on the characters of `s` alone.
#[verifier::external_body]
pub(crate) fn debug_text(s: &str) -> (r: String)
    ensures
        r@ == debug_text_of(s@),
{
    format!("{:?}", s)
}

/// The picker's line for a record: its id in debug form (quoted and escaped),
/// its health and its name, separated by single spaces.
pub open spec fn display_line_of(v: InstanceView) -> Seq<char> {
    debug_text_of(v.id) + seq![' '] + v.shown_health() + seq![' '] + v.shown_name()
}

impl EC2Instance {
    /// The line that shows this record in a list.
    pub fn display_line(&self) -> (r: String)
        ensures
            r@ == display_line_of(self@),
    {
        proof {
            reveal_strlit(" ");
        }
        let mut line = debug_text(self.id.as_str());
        line.append(" ");
        let health = self.get_health();
        line.append(health.as_str());
        line.append(" ");
        let name = self.get_name();
        line.append(name.as_str());
        proof {
            assert(" "@ =~= seq![' ']);
            assert(line@ =~= display_line_of(self@));
        }
        line
    }
}

} // verus!
