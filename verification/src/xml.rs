//! The XML serializer: renders a tree to the builder schema of the target
//! UI toolkit, byte for byte as the spec functions here say.

use vstd::prelude::*;

use crate::ast::{
    Entry, EntryModel, Object, ObjectModel, Property, PropertyModel, PropertyValue,
    PropertyValueModel, Requirement, RequirementModel, RhaiEvent, RhaiEventModel, Root, RootModel,
    Tree, entry_model, object_model, property_model, requirement_model, requirements_model,
    rhai_event_model, root_model, tree_model, entries_model, lemma_entries_model,
    lemma_requirements_model,
};

verus! {

/// `s` with every `.` removed.
pub open spec fn remove_dots(s: Seq<char>) -> Seq<char>
    decreases s.len(),
{
    if s.len() == 0 {
        Seq::empty()
    } else {
        remove_dots(s.subrange(0, s.len() - 1)) + (if s[s.len() - 1] == '.' {
            Seq::<char>::empty()
        } else {
            seq![s[s.len() - 1]]
        })
    }
}

/// Removing dots distributes over concatenation.
pub proof fn lemma_remove_dots_concat(a: Seq<char>, b: Seq<char>)
    ensures
        remove_dots(a + b) == remove_dots(a) + remove_dots(b),
    decreases b.len(),
{
    if b.len() == 0 {
        assert(a + b =~= a);
        assert(remove_dots(a) + remove_dots(b) =~= remove_dots(a));
    } else {
        lemma_remove_dots_concat(a, b.subrange(0, b.len() - 1));
        let ab = a + b;
        assert(ab.subrange(0, ab.len() - 1) =~= a + b.subrange(0, b.len() - 1));
        assert(ab[ab.len() - 1] == b[b.len() - 1]);
        assert(remove_dots(a + b) =~= remove_dots(a) + remove_dots(b));
    }
}

/// Removing dots from dot-free text changes nothing.
pub proof fn lemma_remove_dots_clean(s: Seq<char>)
    requires
        forall|i: int| 0 <= i < s.len() ==> s[i] != '.',
    ensures
        remove_dots(s) == s,
    decreases s.len(),
{
    if s.len() > 0 {
        lemma_remove_dots_clean(s.subrange(0, s.len() - 1));
        assert(remove_dots(s) =~= s);
    } else {
        assert(remove_dots(s) =~= s);
    }
}

/// `s` with every `.` removed.
pub fn remove_dots_exec(s: &str) -> (r: String)
    ensures
        r@ == remove_dots(s@),
{
    let n = s.unicode_len();
    let mut out = String::new();
    let mut seg: usize = 0;
    let mut k: usize = 0;
    while k < n
        invariant
            seg <= k <= n,
            n == s@.len(),
            out@ == remove_dots(s@.subrange(0, seg as int)),
            forall|l: int| seg <= l < k ==> s@[l] != '.',
        decreases n - k,
    {
        if s.get_char(k) == '.' {
            out.append(s.substring_char(seg, k));
            proof {
                let whole = s@.subrange(0, k + 1);
                let prefix = s@.subrange(0, seg as int);
                let clean = s@.subrange(seg as int, k as int);
                lemma_remove_dots_clean(clean);
                lemma_remove_dots_concat(prefix, clean);
                assert(prefix + clean =~= s@.subrange(0, k as int));
                lemma_remove_dots_concat(s@.subrange(0, k as int), seq![s@[k as int]]);
                assert(s@.subrange(0, k as int) + seq![s@[k as int]] =~= whole);
                let single = seq![s@[k as int]];
                assert(single.subrange(0, 0) =~= Seq::<char>::empty());
                assert(remove_dots(Seq::<char>::empty()) =~= Seq::<char>::empty());
                assert(remove_dots(single) =~= Seq::<char>::empty());
                assert(remove_dots(whole) =~= remove_dots(prefix) + clean);
            }
            seg = k + 1;
        }
        k = k + 1;
    }
    out.append(s.substring_char(seg, n));
    proof {
        let prefix = s@.subrange(0, seg as int);
        let clean = s@.subrange(seg as int, n as int);
        lemma_remove_dots_clean(clean);
        lemma_remove_dots_concat(prefix, clean);
        assert(prefix + clean =~= s@.subrange(0, n as int));
        assert(s@.subrange(0, n as int) =~= s@);
    }
    out
}

/// The `<requires/>` element of a requirement, `None` for the library that
/// has no requires-element form in the target schema.
pub open spec fn xml_of_requirement(q: RequirementModel) -> Option<Seq<char>> {
    match q {
        RequirementModel::Gtk(version) => Some(
            "<requires lib=\""@ + "gtk"@ + "\" version=\""@ + version + "\"/>"@,
        ),
        RequirementModel::Libadwaita(_) => None,
        RequirementModel::Other(lib, version) => Some(
            "<requires lib=\""@ + lib + "\" version=\""@ + version + "\"/>"@,
        ),
    }
}

/// The concatenation of the requirement elements that have one, in order.
pub open spec fn requirements_xml(s: Seq<RequirementModel>) -> Seq<char>
    decreases s.len(),
{
    if s.len() == 0 {
        Seq::empty()
    } else {
        requirements_xml(s.subrange(0, s.len() - 1)) + (match xml_of_requirement(s[s.len() - 1]) {
            Some(x) => x,
            None => Seq::<char>::empty(),
        })
    }
}

/// An event renders nothing in the XML output; it is bound to the live
/// object graph separately.
pub open spec fn xml_of_rhai_event(ev: RhaiEventModel) -> Seq<char> {
    Seq::empty()
}

/// The XML of one object: its opening tag (id attribute only when named,
/// class with the namespace separator stripped), the signal renderings of
/// its event children, its property children inline, every other child
/// wrapped in `<child>`, and the closing tag.
pub open spec fn xml_of_object(o: ObjectModel) -> Seq<char>
    decreases o, 0int,
{
    let class = remove_dots(o.class);
    let beginning = match o.name {
        Some(name) => "<object class=\""@ + class + "\" id=\""@ + name + "\">"@,
        None => "<object class=\""@ + class + "\">"@,
    };
    beginning + signals_xml(o.children) + properties_xml(o.children) + child_wraps_xml(o.children)
        + "</object>"@
}

/// The concatenation of the signal renderings of the event children.
pub open spec fn signals_xml(s: Seq<EntryModel>) -> Seq<char>
    decreases s, 1int,
{
    if s.len() == 0 {
        Seq::empty()
    } else {
        signals_xml(s.subrange(0, s.len() - 1)) + (match s[s.len() - 1] {
            EntryModel::RhaiEvent(ev) => xml_of_rhai_event(ev),
            _ => Seq::<char>::empty(),
        })
    }
}

/// The concatenation of the property children's elements, in order.
pub open spec fn properties_xml(s: Seq<EntryModel>) -> Seq<char>
    decreases s, 1int,
{
    if s.len() == 0 {
        Seq::empty()
    } else {
        properties_xml(s.subrange(0, s.len() - 1)) + (match s[s.len() - 1] {
            EntryModel::Property(p) => xml_of_property(p),
            _ => Seq::<char>::empty(),
        })
    }
}

/// The concatenation of the remaining children, each wrapped in `<child>`.
pub open spec fn child_wraps_xml(s: Seq<EntryModel>) -> Seq<char>
    decreases s, 1int,
{
    if s.len() == 0 {
        Seq::empty()
    } else {
        child_wraps_xml(s.subrange(0, s.len() - 1)) + (match s[s.len() - 1] {
            EntryModel::Property(_) => Seq::<char>::empty(),
            EntryModel::RhaiEvent(_) => Seq::<char>::empty(),
            e => "<child>"@ + xml_of_entry(e) + "</child>"@,
        })
    }
}

/// The XML of one property: its element around its literal text or its
/// nested object's XML.
pub open spec fn xml_of_property(p: PropertyModel) -> Seq<char>
    decreases p, 0int,
{
    "<property name=\""@ + p.name + "\">"@ + (match p.value {
        PropertyValueModel::Text(text) => text,
        PropertyValueModel::Entry(o) => xml_of_object(o),
    }) + "</property>"@
}

/// The XML of one entry.
pub open spec fn xml_of_entry(e: EntryModel) -> Seq<char>
    decreases e, 0int,
{
    match e {
        EntryModel::Root(r) => xml_of_root(r),
        EntryModel::Object(o) => xml_of_object(o),
        EntryModel::Property(p) => xml_of_property(p),
        EntryModel::RhaiEvent(ev) => xml_of_rhai_event(ev),
    }
}

/// The concatenation of the XML of a sequence of entries, in order.
pub open spec fn entries_xml(s: Seq<EntryModel>) -> Seq<char>
    decreases s, 2int,
{
    if s.len() == 0 {
        Seq::empty()
    } else {
        entries_xml(s.subrange(0, s.len() - 1)) + xml_of_entry(s[s.len() - 1])
    }
}

/// The XML of a whole document: the XML declaration, then one
/// `<interface>` element holding the requirement elements and then each
/// child's XML, in document order.
pub open spec fn xml_of_root(r: RootModel) -> Seq<char>
    decreases r, 1int,
{
    "<?xml version=\"1.0\" encoding=\"UTF-8\"?><interface>"@ + requirements_xml(r.requirements)
        + entries_xml(r.children) + "</interface>"@
}

impl Requirement {
    /// The `<requires/>` element of this requirement, if it has one.
    pub fn get_xml(&self) -> (r: Option<String>)
        ensures
            match xml_of_requirement(requirement_model(*self)) {
                Some(x) => r matches Some(out) && out@ == x,
                None => r is None,
            },
    {
        match self {
            Requirement::Gtk(version) => {
                let mut out = String::from_str("<requires lib=\"");
                out.append("gtk");
                out.append("\" version=\"");
                out.append(version.as_str());
                out.append("\"/>");
                Some(out)
            },
            Requirement::Libadwaita(_) => None,
            Requirement::Other(lib, version) => {
                let mut out = String::from_str("<requires lib=\"");
                out.append(lib.as_str());
                out.append("\" version=\"");
                out.append(version.as_str());
                out.append("\"/>");
                Some(out)
            },
        }
    }
}

impl RhaiEvent {
    /// The XML rendering of an event binding: nothing.
    pub fn get_xml(&self) -> (r: String)
        ensures
            r@ == xml_of_rhai_event(rhai_event_model(*self)),
    {
        String::new()
    }
}

impl Property {
    /// The XML element of this property.
    pub fn get_xml(&self) -> (r: String)
        ensures
            r@ == xml_of_property(property_model(*self)),
        decreases self,
    {
        let mut out = String::from_str("<property name=\"");
        out.append(self.name.as_str());
        out.append("\">");
        match &self.value {
            PropertyValue::Text(text) => out.append(text.as_str()),
            PropertyValue::Entry(obj) => {
                let inner = obj.get_xml();
                out.append(inner.as_str());
            },
        }
        out.append("</property>");
        out
    }
}

impl Object {
    /// The XML element of this object.
    pub fn get_xml(&self) -> (r: String)
        ensures
            r@ == xml_of_object(object_model(*self)),
        decreases self,
    {
        let ghost children_m = entries_model(self.children@);
        let class = remove_dots_exec(self.class.as_str());
        let mut out = String::from_str("<object class=\"");
        out.append(class.as_str());
        match &self.name {
            Some(name) => {
                out.append("\" id=\"");
                out.append(name.as_str());
                out.append("\">");
            },
            None => {
                out.append("\">");
            },
        }
        let ghost beginning = out@;

        let mut signals = String::new();
        let mut properties = String::new();
        let mut children = String::new();
        let mut k: usize = 0;
        proof {
            lemma_entries_model(self.children@);
            assert(children_m.subrange(0, 0) =~= Seq::<EntryModel>::empty());
        }
        while k < self.children.len()
            invariant
                k <= self.children.len(),
                children_m == entries_model(self.children@),
                children_m.len() == self.children@.len(),
                forall|i: int|
                    0 <= i < self.children@.len() ==> children_m[i] == entry_model(
                        self.children@[i],
                    ),
                signals@ == signals_xml(children_m.subrange(0, k as int)),
                properties@ == properties_xml(children_m.subrange(0, k as int)),
                children@ == child_wraps_xml(children_m.subrange(0, k as int)),
            decreases self.children.len() - k,
        {
            proof {
                assert(children_m.subrange(0, k + 1).subrange(0, k as int) =~= children_m.subrange(
                    0,
                    k as int,
                ));
                assert(children_m.subrange(0, k + 1)[k as int] == children_m[k as int]);
            }
            match &self.children[k] {
                Entry::RhaiEvent(ev) => {
                    let x = ev.get_xml();
                    signals.append(x.as_str());
                },
                Entry::Property(prop) => {
                    let x = prop.get_xml();
                    properties.append(x.as_str());
                },
                child => {
                    let x = child.get_xml();
                    children.append("<child>");
                    children.append(x.as_str());
                    children.append("</child>");
                },
            }
            k = k + 1;
        }
        proof {
            assert(children_m.subrange(0, children_m.len() as int) =~= children_m);
        }
        out.append(signals.as_str());
        out.append(properties.as_str());
        out.append(children.as_str());
        out.append("</object>");
        out
    }
}

impl Entry {
    /// The XML of this entry.
    pub fn get_xml(&self) -> (r: String)
        ensures
            r@ == xml_of_entry(entry_model(*self)),
        decreases self,
    {
        match self {
            Entry::Root(root) => root.get_xml(),
            Entry::Object(obj) => obj.get_xml(),
            Entry::Property(prop) => prop.get_xml(),
            Entry::RhaiEvent(ev) => ev.get_xml(),
        }
    }
}

impl Root {
    /// The XML of the whole document rooted here.
    pub fn get_xml(&self) -> (r: String)
        ensures
            r@ == xml_of_root(root_model(*self)),
        decreases self,
    {
        let ghost reqs_m = requirements_model(self.requirements@);
        let ghost children_m = entries_model(self.children@);
        let mut out = String::from_str("<?xml version=\"1.0\" encoding=\"UTF-8\"?><interface>");
        proof {
            lemma_requirements_model(self.requirements@);
            lemma_entries_model(self.children@);
            assert(reqs_m.subrange(0, 0) =~= Seq::<RequirementModel>::empty());
            assert(children_m.subrange(0, 0) =~= Seq::<EntryModel>::empty());
        }
        let mut k: usize = 0;
        while k < self.requirements.len()
            invariant
                k <= self.requirements.len(),
                reqs_m == requirements_model(self.requirements@),
                reqs_m.len() == self.requirements@.len(),
                forall|i: int|
                    0 <= i < self.requirements@.len() ==> reqs_m[i] == requirement_model(
                        self.requirements@[i],
                    ),
                out@ == "<?xml version=\"1.0\" encoding=\"UTF-8\"?><interface>"@
                    + requirements_xml(reqs_m.subrange(0, k as int)),
            decreases self.requirements.len() - k,
        {
            proof {
                assert(reqs_m.subrange(0, k + 1).subrange(0, k as int) =~= reqs_m.subrange(
                    0,
                    k as int,
                ));
                assert(reqs_m.subrange(0, k + 1)[k as int] == reqs_m[k as int]);
            }
            match self.requirements[k].get_xml() {
                Some(x) => out.append(x.as_str()),
                None => {},
            }
            k = k + 1;
        }
        proof {
            assert(reqs_m.subrange(0, reqs_m.len() as int) =~= reqs_m);
        }
        let ghost with_reqs = out@;
        let mut k: usize = 0;
        while k < self.children.len()
            invariant
                k <= self.children.len(),
                children_m == entries_model(self.children@),
                children_m.len() == self.children@.len(),
                forall|i: int|
                    0 <= i < self.children@.len() ==> children_m[i] == entry_model(
                        self.children@[i],
                    ),
                out@ == with_reqs + entries_xml(children_m.subrange(0, k as int)),
            decreases self.children.len() - k,
        {
            proof {
                assert(children_m.subrange(0, k + 1).subrange(0, k as int) =~= children_m.subrange(
                    0,
                    k as int,
                ));
                assert(children_m.subrange(0, k + 1)[k as int] == children_m[k as int]);
            }
            let x = self.children[k].get_xml();
            out.append(x.as_str());
            k = k + 1;
        }
        proof {
            assert(children_m.subrange(0, children_m.len() as int) =~= children_m);
        }
        out.append("</interface>");
        out
    }
}

impl Tree {
    /// The XML of the whole document.
    pub fn get_xml(&self) -> (r: String)
        ensures
            r@ == xml_of_root(tree_model(*self).root),
    {
        self.root.get_xml()
    }
}

} // verus!
