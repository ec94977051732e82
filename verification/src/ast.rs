//! The abstract syntax tree: a passive, ordered, acyclic tree of entries
//! built by the parser and owned by its caller.

use vstd::prelude::*;

verus! {

/// Mathematical model of a [`Requirement`].
pub enum RequirementModel {
    Gtk(Seq<char>),
    Libadwaita(Seq<char>),
    Other(Seq<char>, Seq<char>),
}

/// Mathematical model of an [`Object`].
pub struct ObjectModel {
    pub class: Seq<char>,
    pub name: Option<Seq<char>>,
    pub children: Seq<EntryModel>,
}

/// Mathematical model of a [`PropertyValue`].
pub enum PropertyValueModel {
    Text(Seq<char>),
    Entry(ObjectModel),
}

/// Mathematical model of a [`Property`].
pub struct PropertyModel {
    pub name: Seq<char>,
    pub value: PropertyValueModel,
}

/// Mathematical model of a [`RhaiEvent`].
pub struct RhaiEventModel {
    pub name: Seq<char>,
    pub code: Seq<char>,
    pub event_id: int,
}

/// Mathematical model of a [`Root`].
pub struct RootModel {
    pub requirements: Seq<RequirementModel>,
    pub children: Seq<EntryModel>,
}

/// Mathematical model of an [`Entry`].
pub enum EntryModel {
    Root(RootModel),
    Object(ObjectModel),
    Property(PropertyModel),
    RhaiEvent(RhaiEventModel),
}

/// Mathematical model of a [`Tree`].
pub struct TreeModel {
    pub root: RootModel,
}

/// A declared dependency on an external library, with normalized aliasing:
/// the two well-known libraries are recognized case-insensitively, anything
/// else passes through verbatim.
#[derive(Debug, Clone, PartialEq, Eq)]
pub enum Requirement {
    Gtk(String),
    Libadwaita(String),
    Other(String, String),
}

/// A UI object definition: a class, an optional id, and child entries.
#[derive(Debug, PartialEq, Eq)]
pub struct Object {
    pub class: String,
    pub name: Option<String>,
    pub children: Vec<Entry>,
}

/// The value of a property: literal text, or a single nested object.
#[derive(Debug, PartialEq, Eq)]
pub enum PropertyValue {
    Text(String),
    Entry(Object),
}

/// A property assignment: its name (separator stripped) and its value.
#[derive(Debug, PartialEq, Eq)]
pub struct Property {
    pub name: String,
    pub value: PropertyValue,
}

/// An event binding: a trigger name, raw script source, and a
/// process-unique handler identifier.
#[derive(Debug, PartialEq, Eq)]
pub struct RhaiEvent {
    pub name: String,
    pub code: String,
    pub event_id: usize,
}

/// The document root: its declared requirements and its child entries.
#[derive(Debug, PartialEq, Eq)]
pub struct Root {
    pub requirements: Vec<Requirement>,
    pub children: Vec<Entry>,
}

/// Any node of the tree.
#[derive(Debug, PartialEq, Eq)]
pub enum Entry {
    Root(Root),
    Object(Object),
    Property(Property),
    RhaiEvent(RhaiEvent),
}

/// A parsed document: a [`Root`] and the operations the parser needs.
#[derive(Debug, PartialEq, Eq)]
pub struct Tree {
    pub root: Root,
}

/// The model of an optional identifier.
pub open spec fn opt_string_model(s: Option<String>) -> Option<Seq<char>> {
    match s {
        Some(v) => Some(v@),
        None => None,
    }
}

/// The model of one requirement.
pub open spec fn requirement_model(q: Requirement) -> RequirementModel {
    match q {
        Requirement::Gtk(v) => RequirementModel::Gtk(v@),
        Requirement::Libadwaita(v) => RequirementModel::Libadwaita(v@),
        Requirement::Other(lib, v) => RequirementModel::Other(lib@, v@),
    }
}

/// The model of a requirement sequence, in order.
pub open spec fn requirements_model(s: Seq<Requirement>) -> Seq<RequirementModel>
    decreases s.len(),
{
    if s.len() == 0 {
        Seq::empty()
    } else {
        requirements_model(s.subrange(0, s.len() - 1)).push(requirement_model(s[s.len() - 1]))
    }
}

/// `requirements_model` maps each element to its model, keeping order.
pub proof fn lemma_requirements_model(s: Seq<Requirement>)
    ensures
        requirements_model(s).len() == s.len(),
        forall|i: int| 0 <= i < s.len() ==> requirements_model(s)[i] == requirement_model(s[i]),
    decreases s.len(),
{
    if s.len() > 0 {
        lemma_requirements_model(s.subrange(0, s.len() - 1));
    }
}

/// `requirements_model` commutes with `push`.
pub proof fn lemma_requirements_model_push(s: Seq<Requirement>, x: Requirement)
    ensures
        requirements_model(s.push(x)) == requirements_model(s).push(requirement_model(x)),
{
    let p = s.push(x);
    assert(p.subrange(0, p.len() - 1) =~= s);
}

/// The model of one event binding.
pub open spec fn rhai_event_model(ev: RhaiEvent) -> RhaiEventModel {
    RhaiEventModel { name: ev.name@, code: ev.code@, event_id: ev.event_id as int }
}

/// The model of one entry.
pub open spec fn entry_model(e: Entry) -> EntryModel
    decreases e, 0int,
{
    match e {
        Entry::Root(root) => EntryModel::Root(root_model(root)),
        Entry::Object(obj) => EntryModel::Object(object_model(obj)),
        Entry::Property(prop) => EntryModel::Property(property_model(prop)),
        Entry::RhaiEvent(ev) => EntryModel::RhaiEvent(rhai_event_model(ev)),
    }
}

/// The model of one object.
pub open spec fn object_model(o: Object) -> ObjectModel
    decreases o, 1int,
{
    ObjectModel {
        class: o.class@,
        name: opt_string_model(o.name),
        children: entries_model(o.children@),
    }
}

/// The model of one property.
pub open spec fn property_model(p: Property) -> PropertyModel
    decreases p, 1int,
{
    PropertyModel {
        name: p.name@,
        value: match p.value {
            PropertyValue::Text(text) => PropertyValueModel::Text(text@),
            PropertyValue::Entry(obj) => PropertyValueModel::Entry(object_model(obj)),
        },
    }
}

/// The model of one property value.
pub open spec fn property_value_model(v: PropertyValue) -> PropertyValueModel {
    match v {
        PropertyValue::Text(text) => PropertyValueModel::Text(text@),
        PropertyValue::Entry(obj) => PropertyValueModel::Entry(object_model(obj)),
    }
}

/// The model of the root.
pub open spec fn root_model(r: Root) -> RootModel
    decreases r, 1int,
{
    RootModel {
        requirements: requirements_model(r.requirements@),
        children: entries_model(r.children@),
    }
}

/// The model of an entry sequence, in order.
pub open spec fn entries_model(s: Seq<Entry>) -> Seq<EntryModel>
    decreases s, 2int,
{
    if s.len() == 0 {
        Seq::empty()
    } else {
        entries_model(s.subrange(0, s.len() - 1)).push(entry_model(s[s.len() - 1]))
    }
}

/// The model of a whole tree.
pub open spec fn tree_model(t: Tree) -> TreeModel {
    TreeModel { root: root_model(t.root) }
}

/// `entries_model` maps each element to its model, keeping order.
pub proof fn lemma_entries_model(s: Seq<Entry>)
    ensures
        entries_model(s).len() == s.len(),
        forall|i: int| 0 <= i < s.len() ==> entries_model(s)[i] == entry_model(s[i]),
    decreases s.len(),
{
    if s.len() > 0 {
        lemma_entries_model(s.subrange(0, s.len() - 1));
    }
}

/// `entries_model` commutes with `push`.
pub proof fn lemma_entries_model_push(s: Seq<Entry>, x: Entry)
    ensures
        entries_model(s.push(x)) == entries_model(s).push(entry_model(x)),
{
    let p = s.push(x);
    assert(p.subrange(0, p.len() - 1) =~= s);
}

/// How a requirement declaration normalizes its library name: three
/// spellings of the GTK library and five of libadwaita map to the two
/// canonical forms, every other name passes through verbatim.
pub open spec fn requirement_of(lib: Seq<char>, version: Seq<char>) -> RequirementModel {
    if lib == "gtk"@ || lib == "Gtk"@ || lib == "GTK"@ {
        RequirementModel::Gtk(version)
    } else if lib == "adw"@ || lib == "Adw"@ || lib == "ADW"@ || lib == "libadwaita"@ || lib
        == "Libadwaita"@ {
        RequirementModel::Libadwaita(version)
    } else {
        RequirementModel::Other(lib, version)
    }
}

impl Requirement {
    /// Builds the requirement for library `lib` at `version`, normalizing
    /// the well-known library names as [`requirement_of`] says.
    pub fn new(lib: String, version: String) -> (r: Self)
        ensures
            requirement_model(r) == requirement_of(lib@, version@),
    {
        if lib == String::from_str("gtk") || lib == String::from_str("Gtk") || lib
            == String::from_str("GTK") {
            Self::Gtk(version)
        } else if lib == String::from_str("adw") || lib == String::from_str("Adw") || lib
            == String::from_str("ADW") || lib == String::from_str("libadwaita") || lib
            == String::from_str("Libadwaita") {
            Self::Libadwaita(version)
        } else {
            Self::Other(lib, version)
        }
    }
}

impl Object {
    /// Wraps an object built from its parts into an [`Entry`].
    pub fn entry(class: String, name: Option<String>, children: Vec<Entry>) -> (r: Entry)
        ensures
            entry_model(r) == EntryModel::Object(
                ObjectModel {
                    class: class@,
                    name: opt_string_model(name),
                    children: entries_model(children@),
                },
            ),
    {
        Entry::Object(Self { class, name, children })
    }

    /// Appends `child` to this object's children.
    pub fn add_child(&mut self, child: Entry)
        ensures
            object_model(*final(self)) == (ObjectModel {
                children: object_model(*old(self)).children.push(entry_model(child)),
                ..object_model(*old(self))
            }),
    {
        proof {
            lemma_entries_model_push(self.children@, child);
        }
        self.children.push(child);
    }
}

impl Property {
    /// Wraps a property built from its parts into an [`Entry`].
    pub fn entry(name: String, value: PropertyValue) -> (r: Entry)
        ensures
            entry_model(r) == EntryModel::Property(property_model(Property { name, value })),
    {
        Entry::Property(Self { name, value })
    }
}

impl RhaiEvent {
    /// Wraps an event binding into an [`Entry`]. The handler identifier is
    /// threaded in explicitly so that the caller can keep it unique.
    pub fn entry(name: String, code: String, event_id: usize) -> (r: Entry)
        ensures
            entry_model(r) == EntryModel::RhaiEvent(
                RhaiEventModel { name: name@, code: code@, event_id: event_id as int },
            ),
    {
        Entry::RhaiEvent(Self { name, code, event_id })
    }

    /// The name under which this event's compiled handler is registered.
    pub fn get_signal_name(&self) -> (r: String)
        ensures
            r@ == "rhai_signal_"@ + crate::text::dec_seq(self.event_id as int),
    {
        String::from_str("rhai_signal_").concat(crate::text::usize_string(self.event_id).as_str())
    }
}

impl Root {
    /// Appends `child` to the root's children.
    pub fn add_child(&mut self, child: Entry)
        ensures
            root_model(*final(self)) == (RootModel {
                children: root_model(*old(self)).children.push(entry_model(child)),
                ..root_model(*old(self))
            }),
    {
        proof {
            lemma_entries_model_push(self.children@, child);
        }
        self.children.push(child);
    }

    /// Registers a requirement on the root.
    pub fn require(&mut self, requirement: Requirement)
        ensures
            root_model(*final(self)) == (RootModel {
                requirements: root_model(*old(self)).requirements.push(
                    requirement_model(requirement),
                ),
                ..root_model(*old(self))
            }),
    {
        proof {
            lemma_requirements_model_push(self.requirements@, requirement);
        }
        self.requirements.push(requirement);
    }
}

/// The model of a sequence of `(id, object)` pairs.
pub open spec fn pairs_model(s: Seq<(String, Object)>) -> Seq<(Seq<char>, ObjectModel)>
    decreases s.len(),
{
    if s.len() == 0 {
        Seq::empty()
    } else {
        pairs_model(s.subrange(0, s.len() - 1)).push(
            (s[s.len() - 1].0@, object_model(s[s.len() - 1].1)),
        )
    }
}

/// The model of a sequence of event bindings.
pub open spec fn rhai_events_model(s: Seq<RhaiEvent>) -> Seq<RhaiEventModel>
    decreases s.len(),
{
    if s.len() == 0 {
        Seq::empty()
    } else {
        rhai_events_model(s.subrange(0, s.len() - 1)).push(rhai_event_model(s[s.len() - 1]))
    }
}

/// The `(id, object)` pair of a named object, nothing for an anonymous one.
pub open spec fn maybe_named(o: ObjectModel) -> Seq<(Seq<char>, ObjectModel)> {
    match o.name {
        Some(nm) => seq![(nm, o)],
        None => Seq::empty(),
    }
}

/// The named objects found under a sequence of entries, in document order:
/// the pre-order walk of [`Root::filter`], restricted to objects with an
/// id, descending into object children and into object-valued properties.
pub open spec fn named_from(s: Seq<EntryModel>) -> Seq<(Seq<char>, ObjectModel)>
    decreases s, 1int,
{
    if s.len() == 0 {
        Seq::empty()
    } else {
        named_from(s.subrange(0, s.len() - 1)) + named_one(s[s.len() - 1])
    }
}

/// The named objects contributed by one entry of the walk.
pub open spec fn named_one(e: EntryModel) -> Seq<(Seq<char>, ObjectModel)>
    decreases e, 0int,
{
    match e {
        EntryModel::Object(o) => maybe_named(o) + named_from(o.children),
        EntryModel::Property(p) => match p.value {
            PropertyValueModel::Entry(o) => maybe_named(o) + named_from(o.children),
            _ => Seq::empty(),
        },
        _ => Seq::empty(),
    }
}

/// The event bindings found under a sequence of entries, in document order.
pub open spec fn events_from(s: Seq<EntryModel>) -> Seq<RhaiEventModel>
    decreases s, 1int,
{
    if s.len() == 0 {
        Seq::empty()
    } else {
        events_from(s.subrange(0, s.len() - 1)) + events_one(s[s.len() - 1])
    }
}

/// The event bindings contributed by one entry of the walk.
pub open spec fn events_one(e: EntryModel) -> Seq<RhaiEventModel>
    decreases e, 0int,
{
    match e {
        EntryModel::Object(o) => events_from(o.children),
        EntryModel::Property(p) => match p.value {
            PropertyValueModel::Entry(o) => events_from(o.children),
            _ => Seq::empty(),
        },
        EntryModel::RhaiEvent(ev) => seq![ev],
        _ => Seq::empty(),
    }
}

/// The pre-order walk of a tree-filter traversal: each entry is visited
/// before its descendants, and the object held by an object-valued
/// property is itself visited (wrapped as an object entry) before its own
/// children.
pub open spec fn visited_models(s: Seq<EntryModel>) -> Seq<EntryModel>
    decreases s, 1int,
{
    if s.len() == 0 {
        Seq::empty()
    } else {
        visited_models(s.subrange(0, s.len() - 1)) + visit_one_model(s[s.len() - 1])
    }
}

/// The visits contributed by one entry of the walk.
pub open spec fn visit_one_model(e: EntryModel) -> Seq<EntryModel>
    decreases e, 0int,
{
    seq![e] + match e {
        EntryModel::Object(o) => visited_models(o.children),
        EntryModel::Property(p) => match p.value {
            PropertyValueModel::Entry(o) => seq![EntryModel::Object(o)] + visited_models(
                o.children,
            ),
            _ => Seq::empty(),
        },
        _ => Seq::empty(),
    }
}

/// The values under `Some`, in order.
pub open spec fn somes_of<F>(s: Seq<Option<F>>) -> Seq<F>
    decreases s.len(),
{
    if s.len() == 0 {
        Seq::empty()
    } else {
        somes_of(s.subrange(0, s.len() - 1)) + (match s[s.len() - 1] {
            Some(x) => seq![x],
            None => Seq::<F>::empty(),
        })
    }
}

/// `somes_of` distributes over concatenation.
pub proof fn lemma_somes_of_concat<F>(a: Seq<Option<F>>, b: Seq<Option<F>>)
    ensures
        somes_of(a + b) == somes_of(a) + somes_of(b),
    decreases b.len(),
{
    if b.len() == 0 {
        assert(a + b =~= a);
        assert(somes_of(a) + somes_of(b) =~= somes_of(a));
    } else {
        lemma_somes_of_concat(a, b.subrange(0, b.len() - 1));
        let ab = a + b;
        assert(ab.subrange(0, ab.len() - 1) =~= a + b.subrange(0, b.len() - 1));
        assert(ab[ab.len() - 1] == b[b.len() - 1]);
        assert(somes_of(a + b) =~= somes_of(a) + somes_of(b));
    }
}

/// `entries_model` distributes over concatenation.
pub proof fn lemma_entries_model_concat(a: Seq<Entry>, b: Seq<Entry>)
    ensures
        entries_model(a + b) == entries_model(a) + entries_model(b),
    decreases b.len(),
{
    if b.len() == 0 {
        assert(a + b =~= a);
        assert(entries_model(a) + entries_model(b) =~= entries_model(a));
    } else {
        lemma_entries_model_concat(a, b.subrange(0, b.len() - 1));
        let ab = a + b;
        assert(ab.subrange(0, ab.len() - 1) =~= a + b.subrange(0, b.len() - 1));
        assert(ab[ab.len() - 1] == b[b.len() - 1]);
        assert(entries_model(a + b) =~= entries_model(a) + entries_model(b));
    }
}

/// A copy of a requirement sequence, element for element.
fn dup_requirements(v: &Vec<Requirement>) -> (r: Vec<Requirement>)
    ensures
        requirements_model(r@) == requirements_model(v@),
{
    proof {
        lemma_requirements_model(v@);
    }
    let mut out: Vec<Requirement> = Vec::new();
    let mut k: usize = 0;
    while k < v.len()
        invariant
            k <= v.len(),
            out@.len() == k,
            forall|l: int|
                0 <= l < k ==> requirement_model(out@[l]) == requirement_model(v@[l]),
        decreases v.len() - k,
    {
        let q = match &v[k] {
            Requirement::Gtk(ver) => Requirement::Gtk(ver.clone()),
            Requirement::Libadwaita(ver) => Requirement::Libadwaita(ver.clone()),
            Requirement::Other(lib, ver) => Requirement::Other(lib.clone(), ver.clone()),
        };
        out.push(q);
        k = k + 1;
    }
    proof {
        lemma_requirements_model(out@);
        lemma_tail_models_eq(out@, v@);
    }
    out
}

/// Two requirement sequences of equal length and element models have equal
/// sequence models.
proof fn lemma_tail_models_eq(a: Seq<Requirement>, b: Seq<Requirement>)
    requires
        a.len() == b.len(),
        forall|l: int| 0 <= l < a.len() ==> requirement_model(a[l]) == requirement_model(b[l]),
    ensures
        requirements_model(a) == requirements_model(b),
{
    lemma_requirements_model(a);
    lemma_requirements_model(b);
    assert(requirements_model(a) =~= requirements_model(b));
}

/// Two entry sequences of equal length and element models have equal
/// sequence models.
proof fn lemma_entry_models_eq(a: Seq<Entry>, b: Seq<Entry>)
    requires
        a.len() == b.len(),
        forall|l: int| 0 <= l < a.len() ==> entry_model(a[l]) == entry_model(b[l]),
    ensures
        entries_model(a) == entries_model(b),
{
    lemma_entries_model(a);
    lemma_entries_model(b);
    assert(entries_model(a) =~= entries_model(b));
}

/// A copy of an entry sequence, element for element.
fn dup_entries(v: &Vec<Entry>) -> (r: Vec<Entry>)
    ensures
        entries_model(r@) == entries_model(v@),
    decreases v, 2int,
{
    proof {
        lemma_entries_model(v@);
    }
    let mut out: Vec<Entry> = Vec::new();
    let mut k: usize = 0;
    while k < v.len()
        invariant
            k <= v.len(),
            out@.len() == k,
            forall|l: int| 0 <= l < k ==> entry_model(out@[l]) == entry_model(v@[l]),
        decreases v.len() - k,
    {
        let e = v[k].duplicate();
        out.push(e);
        k = k + 1;
    }
    proof {
        lemma_entry_models_eq(out@, v@);
    }
    out
}

impl Object {
    /// A copy of this object, equal to it in the model.
    pub fn duplicate(&self) -> (r: Object)
        ensures
            object_model(r) == object_model(*self),
        decreases self, 1int,
    {
        let name = match &self.name {
            Some(nm) => Some(nm.clone()),
            None => None,
        };
        Object { class: self.class.clone(), name, children: dup_entries(&self.children) }
    }
}

impl Entry {
    /// A copy of this entry, equal to it in the model.
    pub fn duplicate(&self) -> (r: Entry)
        ensures
            entry_model(r) == entry_model(*self),
        decreases self, 1int,
    {
        match self {
            Entry::Root(root) => Entry::Root(
                Root {
                    requirements: dup_requirements(&root.requirements),
                    children: dup_entries(&root.children),
                },
            ),
            Entry::Object(obj) => Entry::Object(obj.duplicate()),
            Entry::Property(prop) => Entry::Property(
                Property {
                    name: prop.name.clone(),
                    value: match &prop.value {
                        PropertyValue::Text(text) => PropertyValue::Text(text.clone()),
                        PropertyValue::Entry(obj) => PropertyValue::Entry(obj.duplicate()),
                    },
                },
            ),
            Entry::RhaiEvent(ev) => Entry::RhaiEvent(
                RhaiEvent { name: ev.name.clone(), code: ev.code.clone(), event_id: ev.event_id },
            ),
        }
    }
}

/// Appends to `out` the named objects found under `entries`, in document
/// order.
fn collect_named(entries: &Vec<Entry>, out: &mut Vec<(String, Object)>)
    ensures
        pairs_model(final(out)@) == pairs_model(old(out)@) + named_from(entries_model(entries@)),
    decreases entries, 3int,
{
    proof {
        lemma_entries_model(entries@);
    }
    let mut k: usize = 0;
    while k < entries.len()
        invariant
            k <= entries.len(),
            entries_model(entries@).len() == entries@.len(),
            forall|l: int|
                0 <= l < entries@.len() ==> entries_model(entries@)[l] == entry_model(
                    entries@[l],
                ),
            pairs_model(out@) == pairs_model(old(out)@) + named_from(
                entries_model(entries@).subrange(0, k as int),
            ),
        decreases entries.len() - k,
    {
        let ghost em = entries_model(entries@);
        proof {
            assert(em.subrange(0, k + 1).subrange(0, k as int) =~= em.subrange(0, k as int));
            assert(em.subrange(0, k + 1)[k as int] == em[k as int]);
        }
        match &entries[k] {
            Entry::Object(obj) => {
                let ghost before = out@;
                match &obj.name {
                    Some(nm) => {
                        let pair = (nm.clone(), obj.duplicate());
                        proof {
                            lemma_pairs_model_push(out@, pair);
                        }
                        out.push(pair);
                    },
                    None => {},
                }
                collect_named(&obj.children, out);
            },
            Entry::Property(prop) => {
                match &prop.value {
                    PropertyValue::Entry(obj) => {
                        match &obj.name {
                            Some(nm) => {
                                let pair = (nm.clone(), obj.duplicate());
                                proof {
                                    lemma_pairs_model_push(out@, pair);
                                }
                                out.push(pair);
                            },
                            None => {},
                        }
                        collect_named(&obj.children, out);
                    },
                    _ => {},
                }
            },
            _ => {},
        }
        proof {
            let em_k1 = em.subrange(0, k + 1);
            assert(em_k1.subrange(0, k as int) =~= em.subrange(0, k as int));
            assert(em_k1[k as int] == em[k as int]);
            assert(named_from(em_k1) == named_from(em.subrange(0, k as int)) + named_one(
                em[k as int],
            ));
            assert(em[k as int] == entry_model(entries@[k as int]));
            assert(pairs_model(out@) =~= pairs_model(old(out)@) + named_from(em_k1));
        }
        k = k + 1;
    }
    proof {
        let em = entries_model(entries@);
        assert(em.subrange(0, em.len() as int) =~= em);
    }
}

/// `pairs_model` commutes with `push`.
proof fn lemma_pairs_model_push(s: Seq<(String, Object)>, x: (String, Object))
    ensures
        pairs_model(s.push(x)) == pairs_model(s).push((x.0@, object_model(x.1))),
{
    let p = s.push(x);
    assert(p.subrange(0, p.len() - 1) =~= s);
}

/// `rhai_events_model` commutes with `push`.
proof fn lemma_rhai_events_model_push(s: Seq<RhaiEvent>, x: RhaiEvent)
    ensures
        rhai_events_model(s.push(x)) == rhai_events_model(s).push(rhai_event_model(x)),
{
    let p = s.push(x);
    assert(p.subrange(0, p.len() - 1) =~= s);
}

/// Appends to `out` the event bindings found under `entries`, in document
/// order.
fn collect_events(entries: &Vec<Entry>, out: &mut Vec<RhaiEvent>)
    ensures
        rhai_events_model(final(out)@) == rhai_events_model(old(out)@) + events_from(
            entries_model(entries@),
        ),
    decreases entries, 3int,
{
    proof {
        lemma_entries_model(entries@);
    }
    let mut k: usize = 0;
    while k < entries.len()
        invariant
            k <= entries.len(),
            entries_model(entries@).len() == entries@.len(),
            forall|l: int|
                0 <= l < entries@.len() ==> entries_model(entries@)[l] == entry_model(
                    entries@[l],
                ),
            rhai_events_model(out@) == rhai_events_model(old(out)@) + events_from(
                entries_model(entries@).subrange(0, k as int),
            ),
        decreases entries.len() - k,
    {
        let ghost em = entries_model(entries@);
        proof {
            assert(em.subrange(0, k + 1).subrange(0, k as int) =~= em.subrange(0, k as int));
            assert(em.subrange(0, k + 1)[k as int] == em[k as int]);
        }
        match &entries[k] {
            Entry::Object(obj) => {
                collect_events(&obj.children, out);
            },
            Entry::Property(prop) => {
                match &prop.value {
                    PropertyValue::Entry(obj) => {
                        collect_events(&obj.children, out);
                    },
                    _ => {},
                }
            },
            Entry::RhaiEvent(ev) => {
                let copy = RhaiEvent {
                    name: ev.name.clone(),
                    code: ev.code.clone(),
                    event_id: ev.event_id,
                };
                proof {
                    lemma_rhai_events_model_push(out@, copy);
                }
                out.push(copy);
            },
            _ => {},
        }
        proof {
            let em_k1 = em.subrange(0, k + 1);
            assert(em_k1.subrange(0, k as int) =~= em.subrange(0, k as int));
            assert(em_k1[k as int] == em[k as int]);
            assert(events_from(em_k1) == events_from(em.subrange(0, k as int)) + events_one(
                em[k as int],
            ));
            assert(em[k as int] == entry_model(entries@[k as int]));
            assert(rhai_events_model(out@) =~= rhai_events_model(old(out)@) + events_from(em_k1));
        }
        k = k + 1;
    }
    proof {
        let em = entries_model(entries@);
        assert(em.subrange(0, em.len() as int) =~= em);
    }
}

/// One step of the tree-filter traversal, with `visited` and `picked`
/// recording which entries the predicate was applied to and what it
/// answered each time.
fn filter_entries<F, T: Fn(&Entry) -> Option<F>>(
    entries: &Vec<Entry>,
    f: &T,
    out: &mut Vec<F>,
) -> (vp: Ghost<(Seq<Entry>, Seq<Option<F>>)>)
    requires
        forall|e: Entry| #[trigger] call_requires(f, (&e,)),
    ensures
        entries_model(vp@.0) == visited_models(entries_model(entries@)),
        vp@.1.len() == vp@.0.len(),
        forall|k: int| 0 <= k < vp@.1.len() ==> call_ensures(f, (&vp@.0[k],), #[trigger] vp@.1[k]),
        final(out)@ == old(out)@ + somes_of(vp@.1),
    decreases entries, 3int,
{
    proof {
        lemma_entries_model(entries@);
    }
    let ghost em = entries_model(entries@);
    let ghost mut visited: Seq<Entry> = Seq::empty();
    let ghost mut picked: Seq<Option<F>> = Seq::empty();
    proof {
        assert(entries_model(visited) =~= Seq::<EntryModel>::empty());
        assert(visited_models(em.subrange(0, 0)) =~= Seq::<EntryModel>::empty());
        assert(somes_of(picked) =~= Seq::<F>::empty());
        assert(out@ =~= old(out)@ + somes_of(picked));
    }
    let mut k: usize = 0;
    while k < entries.len()
        invariant
            k <= entries.len(),
            em == entries_model(entries@),
            em.len() == entries@.len(),
            forall|l: int| 0 <= l < entries@.len() ==> em[l] == entry_model(entries@[l]),
            forall|e: Entry| #[trigger] call_requires(f, (&e,)),
            entries_model(visited) == visited_models(em.subrange(0, k as int)),
            picked.len() == visited.len(),
            forall|l: int|
                0 <= l < picked.len() ==> call_ensures(f, (&visited[l],), #[trigger] picked[l]),
            out@ == old(out)@ + somes_of(picked),
        decreases entries.len() - k,
    {
        let ghost visited_before = visited;
        let ghost picked_before = picked;
        let found = f(&entries[k]);
        proof {
            visited = visited.push(entries@[k as int]);
            picked = picked.push(found);
            lemma_entries_model_push(visited_before, entries@[k as int]);
            lemma_somes_of_push(picked_before, found);
        }
        match found {
            Some(x) => out.push(x),
            None => {},
        }
        match &entries[k] {
            Entry::Object(obj) => {
                let sub = filter_entries(&obj.children, f, out);
                proof {
                    lemma_entries_model_concat(visited, sub@.0);
                    lemma_somes_of_concat(picked, sub@.1);
                    lemma_call_ensures_concat(f, visited, picked, sub@.0, sub@.1);
                    visited = visited + sub@.0;
                    picked = picked + sub@.1;
                }
            },
            Entry::Property(prop) => {
                match &prop.value {
                    PropertyValue::Entry(obj) => {
                        let wrapped = Entry::Object(obj.duplicate());
                        let ghost visited_mid = visited;
                        let ghost picked_mid = picked;
                        let found2 = f(&wrapped);
                        proof {
                            visited = visited.push(wrapped);
                            picked = picked.push(found2);
                            lemma_entries_model_push(visited_mid, wrapped);
                            lemma_somes_of_push(picked_mid, found2);
                        }
                        match found2 {
                            Some(x) => out.push(x),
                            None => {},
                        }
                        let sub = filter_entries(&obj.children, f, out);
                        proof {
                            lemma_entries_model_concat(visited, sub@.0);
                            lemma_somes_of_concat(picked, sub@.1);
                            lemma_call_ensures_concat(f, visited, picked, sub@.0, sub@.1);
                            visited = visited + sub@.0;
                            picked = picked + sub@.1;
                        }
                    },
                    _ => {},
                }
            },
            _ => {},
        }
        proof {
            let em_k1 = em.subrange(0, k + 1);
            assert(em_k1.subrange(0, k as int) =~= em.subrange(0, k as int));
            assert(em_k1[k as int] == em[k as int]);
            assert(visited_models(em_k1) == visited_models(em.subrange(0, k as int))
                + visit_one_model(em[k as int]));
            assert(em[k as int] == entry_model(entries@[k as int]));
            assert(entries_model(visited) =~= visited_models(em_k1));
            assert(out@ =~= old(out)@ + somes_of(picked));
        }
        k = k + 1;
    }
    proof {
        assert(em.subrange(0, em.len() as int) =~= em);
    }
    let ghost result = (visited, picked);
    Ghost(result)
}

/// `somes_of` commutes with `push`.
pub proof fn lemma_somes_of_push<F>(s: Seq<Option<F>>, x: Option<F>)
    ensures
        somes_of(s.push(x)) == somes_of(s) + (match x {
            Some(v) => seq![v],
            None => Seq::<F>::empty(),
        }),
{
    let p = s.push(x);
    assert(p.subrange(0, p.len() - 1) =~= s);
}

/// Concatenating two response records keeps every response valid.
proof fn lemma_call_ensures_concat<F, T: Fn(&Entry) -> Option<F>>(
    f: &T,
    v1: Seq<Entry>,
    p1: Seq<Option<F>>,
    v2: Seq<Entry>,
    p2: Seq<Option<F>>,
)
    requires
        p1.len() == v1.len(),
        p2.len() == v2.len(),
        forall|l: int| 0 <= l < p1.len() ==> call_ensures(f, (&v1[l],), #[trigger] p1[l]),
        forall|l: int| 0 <= l < p2.len() ==> call_ensures(f, (&v2[l],), #[trigger] p2[l]),
    ensures
        forall|l: int|
            0 <= l < p1.len() + p2.len() ==> call_ensures(
                f,
                (&(v1 + v2)[l],),
                #[trigger] (p1 + p2)[l],
            ),
{
    assert forall|l: int| 0 <= l < p1.len() + p2.len() implies call_ensures(
        f,
        (&(v1 + v2)[l],),
        (p1 + p2)[l],
    ) by {
        if l < p1.len() {
            assert((v1 + v2)[l] == v1[l]);
            assert((p1 + p2)[l] == p1[l]);
        } else {
            assert((v1 + v2)[l] == v2[l - p1.len()]);
            assert((p1 + p2)[l] == p2[l - p1.len()]);
        }
    }
}

impl Root {
    /// A pre-order tree-filter traversal: applies `filter` to every entry
    /// of the tree in document order — descending into object children and
    /// into the object held by an object-valued property, which is visited
    /// wrapped as an object entry — and gathers what it returned under
    /// `Some`, in visit order.
    ///
    /// The witnesses say exactly which entries (by model) were visited and
    /// that every collected value is one of `filter`'s possible answers for
    /// its visited entry.
    pub fn filter<F, T: Fn(&Entry) -> Option<F>>(&self, filter: &T) -> (r: Vec<F>)
        requires
            forall|e: Entry| #[trigger] call_requires(filter, (&e,)),
        ensures
            exists|visited: Seq<Entry>, picked: Seq<Option<F>>|
                {
                    &&& entries_model(visited) == visited_models(root_model(*self).children)
                    &&& picked.len() == visited.len()
                    &&& (forall|k: int|
                        0 <= k < picked.len() ==> call_ensures(
                            filter,
                            (&visited[k],),
                            #[trigger] picked[k],
                        ))
                    &&& r@ == somes_of(picked)
                },
    {
        let mut out: Vec<F> = Vec::new();
        let vp = filter_entries(&self.children, filter, &mut out);
        proof {
            let (visited, picked) = vp@;
            assert(out@ =~= somes_of(picked));
            assert({
                &&& entries_model(visited) == visited_models(root_model(*self).children)
                &&& picked.len() == visited.len()
                &&& (forall|k: int|
                    0 <= k < picked.len() ==> call_ensures(
                        filter,
                        (&visited[k],),
                        #[trigger] picked[k],
                    ))
                &&& out@ == somes_of(picked)
            });
        }
        out
    }

    /// Every named object of the tree with its id, in document order:
    /// exactly [`named_from`] of the root's children.
    pub fn get_named_objects(&self) -> (r: Vec<(String, Object)>)
        ensures
            pairs_model(r@) == named_from(root_model(*self).children),
    {
        let mut out: Vec<(String, Object)> = Vec::new();
        proof {
            assert(pairs_model(out@) =~= Seq::<(Seq<char>, ObjectModel)>::empty());
        }
        collect_named(&self.children, &mut out);
        out
    }

    /// Every event binding of the tree, in document order: exactly
    /// [`events_from`] of the root's children.
    pub fn get_rhai_events(&self) -> (r: Vec<RhaiEvent>)
        ensures
            rhai_events_model(r@) == events_from(root_model(*self).children),
    {
        let mut out: Vec<RhaiEvent> = Vec::new();
        proof {
            assert(rhai_events_model(out@) =~= Seq::<RhaiEventModel>::empty());
        }
        collect_events(&self.children, &mut out);
        out
    }
}

impl Tree {
    /// An empty tree: no requirements, no children.
    pub fn new() -> (r: Self)
        ensures
            tree_model(r) == (TreeModel {
                root: RootModel { requirements: Seq::empty(), children: Seq::empty() },
            }),
    {
        let r = Tree { root: Root { requirements: Vec::new(), children: Vec::new() } };
        proof {
            assert(requirements_model(r.root.requirements@) =~= Seq::<RequirementModel>::empty());
            assert(entries_model(r.root.children@) =~= Seq::<EntryModel>::empty());
        }
        r
    }

    /// Appends `child` to the root's children.
    pub fn add_child(&mut self, child: Entry)
        ensures
            tree_model(*final(self)) == (TreeModel {
                root: RootModel {
                    children: tree_model(*old(self)).root.children.push(entry_model(child)),
                    ..tree_model(*old(self)).root
                },
            }),
    {
        self.root.add_child(child);
    }

    /// Registers a requirement on the root.
    pub fn require(&mut self, requirement: Requirement)
        ensures
            tree_model(*final(self)) == (TreeModel {
                root: RootModel {
                    requirements: tree_model(*old(self)).root.requirements.push(
                        requirement_model(requirement),
                    ),
                    ..tree_model(*old(self)).root
                },
            }),
    {
        self.root.require(requirement);
    }
}

} // verus!
