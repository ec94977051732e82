//! Plain-text debug rendering of the tree, for inspection while developing
//! a document.

use vstd::prelude::*;

use crate::ast::{
    Entry, EntryModel, Object, ObjectModel, Property, PropertyModel, PropertyValue,
    PropertyValueModel, Requirement, RequirementModel, RhaiEvent, RhaiEventModel, Root, RootModel,
    entry_model, object_model, property_model, requirement_model, requirements_model,
    rhai_event_model, root_model, entries_model, lemma_entries_model, lemma_requirements_model,
};
use crate::text::dec_seq;

verus! {

/// The debug rendering of a requirement.
pub open spec fn dbg_of_requirement(q: RequirementModel) -> Seq<char> {
    match q {
        RequirementModel::Gtk(version) => "Gtk("@ + version + ")"@,
        RequirementModel::Libadwaita(version) => "Libadwaita("@ + version + ")"@,
        RequirementModel::Other(lib, version) => "Other("@ + lib + ", "@ + version + ")"@,
    }
}

/// The debug renderings of a requirement sequence, each followed by a
/// separator.
pub open spec fn dbg_of_requirements(s: Seq<RequirementModel>) -> Seq<char>
    decreases s.len(),
{
    if s.len() == 0 {
        Seq::empty()
    } else {
        dbg_of_requirements(s.subrange(0, s.len() - 1)) + dbg_of_requirement(s[s.len() - 1])
            + ", "@
    }
}

/// The debug rendering of an event binding.
pub open spec fn dbg_of_rhai_event(ev: RhaiEventModel) -> Seq<char> {
    ev.name + " => RhaiEvent("@ + dec_seq(ev.event_id) + ")"@
}

/// The debug rendering of an object.
pub open spec fn dbg_of_object(o: ObjectModel) -> Seq<char>
    decreases o, 0int,
{
    "Object { class: "@ + o.class + ", name: "@ + (match o.name {
        Some(nm) => "Some("@ + nm + ")"@,
        None => "None"@,
    }) + ", children: ["@ + dbg_of_entries(o.children) + "] }"@
}

/// The debug rendering of a property value.
pub open spec fn dbg_of_property_value(v: PropertyValueModel) -> Seq<char>
    decreases v, 1int,
{
    match v {
        PropertyValueModel::Text(text) => text,
        PropertyValueModel::Entry(o) => dbg_of_object(o),
    }
}

/// The debug rendering of a property.
pub open spec fn dbg_of_property(p: PropertyModel) -> Seq<char>
    decreases p, 1int,
{
    "Property { name: "@ + p.name + ", value: "@ + dbg_of_property_value(p.value) + " }"@
}

/// The debug rendering of the root.
pub open spec fn dbg_of_root(r: RootModel) -> Seq<char>
    decreases r, 1int,
{
    "Root { requirements: ["@ + dbg_of_requirements(r.requirements) + "], children: ["@
        + dbg_of_entries(r.children) + "] }"@
}

/// The debug rendering of one entry.
pub open spec fn dbg_of_entry(e: EntryModel) -> Seq<char>
    decreases e, 0int,
{
    match e {
        EntryModel::Root(r) => dbg_of_root(r),
        EntryModel::Object(o) => dbg_of_object(o),
        EntryModel::Property(p) => dbg_of_property(p),
        EntryModel::RhaiEvent(ev) => dbg_of_rhai_event(ev),
    }
}

/// The debug renderings of an entry sequence, each followed by a separator.
pub open spec fn dbg_of_entries(s: Seq<EntryModel>) -> Seq<char>
    decreases s, 2int,
{
    if s.len() == 0 {
        Seq::empty()
    } else {
        dbg_of_entries(s.subrange(0, s.len() - 1)) + dbg_of_entry(s[s.len() - 1]) + ", "@
    }
}

/// Appends the debug renderings of `entries` to `out`.
fn dbg_entries_onto(entries: &Vec<Entry>, out: &mut String)
    ensures
        final(out)@ == old(out)@ + dbg_of_entries(entries_model(entries@)),
    decreases entries, 3int,
{
    proof {
        lemma_entries_model(entries@);
        assert(entries_model(entries@).subrange(0, 0) =~= Seq::<EntryModel>::empty());
    }
    let ghost em = entries_model(entries@);
    let mut k: usize = 0;
    while k < entries.len()
        invariant
            k <= entries.len(),
            em == entries_model(entries@),
            em.len() == entries@.len(),
            forall|l: int| 0 <= l < entries@.len() ==> em[l] == entry_model(entries@[l]),
            out@ == old(out)@ + dbg_of_entries(em.subrange(0, k as int)),
        decreases entries.len() - k,
    {
        proof {
            assert(em.subrange(0, k + 1).subrange(0, k as int) =~= em.subrange(0, k as int));
            assert(em.subrange(0, k + 1)[k as int] == em[k as int]);
        }
        let piece = entries[k].dbg();
        out.append(piece.as_str());
        out.append(", ");
        k = k + 1;
    }
    proof {
        assert(em.subrange(0, em.len() as int) =~= em);
    }
}

impl Requirement {
    /// A readable description of this requirement.
    pub fn dbg(&self) -> (r: String)
        ensures
            r@ == dbg_of_requirement(requirement_model(*self)),
    {
        match self {
            Requirement::Gtk(version) => {
                String::from_str("Gtk(").concat(version.as_str()).concat(")")
            },
            Requirement::Libadwaita(version) => {
                String::from_str("Libadwaita(").concat(version.as_str()).concat(")")
            },
            Requirement::Other(lib, version) => {
                String::from_str("Other(").concat(lib.as_str()).concat(", ").concat(
                    version.as_str(),
                ).concat(")")
            },
        }
    }
}

impl RhaiEvent {
    /// A readable description of this event binding.
    pub fn dbg(&self) -> (r: String)
        ensures
            r@ == dbg_of_rhai_event(rhai_event_model(*self)),
    {
        self.name.clone().concat(" => RhaiEvent(").concat(
            crate::text::usize_string(self.event_id).as_str(),
        ).concat(")")
    }
}

impl PropertyValue {
    /// A readable description of this property value.
    pub fn dbg(&self) -> (r: String)
        ensures
            r@ == dbg_of_property_value(crate::ast::property_value_model(*self)),
        decreases self,
    {
        match self {
            PropertyValue::Text(text) => text.clone(),
            PropertyValue::Entry(obj) => obj.dbg(),
        }
    }
}

impl Object {
    /// A readable description of this object and everything under it.
    pub fn dbg(&self) -> (r: String)
        ensures
            r@ == dbg_of_object(object_model(*self)),
        decreases self,
    {
        let mut out = String::from_str("Object { class: ");
        out.append(self.class.as_str());
        out.append(", name: ");
        match &self.name {
            Some(nm) => {
                out.append("Some(");
                out.append(nm.as_str());
                out.append(")");
            },
            None => {
                out.append("None");
            },
        }
        out.append(", children: [");
        dbg_entries_onto(&self.children, &mut out);
        out.append("] }");
        out
    }
}

impl Property {
    /// A readable description of this property.
    pub fn dbg(&self) -> (r: String)
        ensures
            r@ == dbg_of_property(property_model(*self)),
        decreases self,
    {
        let mut out = String::from_str("Property { name: ");
        out.append(self.name.as_str());
        out.append(", value: ");
        match &self.value {
            PropertyValue::Text(text) => out.append(text.as_str()),
            PropertyValue::Entry(obj) => {
                let inner = obj.dbg();
                out.append(inner.as_str());
            },
        }
        out.append(" }");
        out
    }
}

impl Root {
    /// A readable description of the whole tree.
    pub fn dbg(&self) -> (r: String)
        ensures
            r@ == dbg_of_root(root_model(*self)),
        decreases self,
    {
        let ghost reqs_m = requirements_model(self.requirements@);
        let mut out = String::from_str("Root { requirements: [");
        proof {
            lemma_requirements_model(self.requirements@);
            assert(reqs_m.subrange(0, 0) =~= Seq::<RequirementModel>::empty());
        }
        let mut k: usize = 0;
        while k < self.requirements.len()
            invariant
                k <= self.requirements.len(),
                reqs_m == requirements_model(self.requirements@),
                reqs_m.len() == self.requirements@.len(),
                forall|l: int|
                    0 <= l < self.requirements@.len() ==> reqs_m[l] == requirement_model(
                        self.requirements@[l],
                    ),
                out@ == "Root { requirements: ["@ + dbg_of_requirements(
                    reqs_m.subrange(0, k as int),
                ),
            decreases self.requirements.len() - k,
        {
            proof {
                assert(reqs_m.subrange(0, k + 1).subrange(0, k as int) =~= reqs_m.subrange(
                    0,
                    k as int,
                ));
                assert(reqs_m.subrange(0, k + 1)[k as int] == reqs_m[k as int]);
            }
            let piece = self.requirements[k].dbg();
            out.append(piece.as_str());
            out.append(", ");
            k = k + 1;
        }
        proof {
            assert(reqs_m.subrange(0, reqs_m.len() as int) =~= reqs_m);
        }
        out.append("], children: [");
        dbg_entries_onto(&self.children, &mut out);
        out.append("] }");
        out
    }
}

impl Entry {
    /// A readable description of this entry.
    pub fn dbg(&self) -> (r: String)
        ensures
            r@ == dbg_of_entry(entry_model(*self)),
        decreases self,
    {
        match self {
            Entry::Root(root) => root.dbg(),
            Entry::Object(obj) => obj.dbg(),
            Entry::Property(prop) => prop.dbg(),
            Entry::RhaiEvent(ev) => ev.dbg(),
        }
    }
}

} // verus!
