//! The library's laws: properties that hold of the compiler as a whole,
//! stated over the spec-level models and proved once and for all.
//!
//! Three further laws live beside the tokenizer:
//! [`crate::tokenizer::lemma_spec_tokenize_wf`] (every token sequence the
//! tokenizer returns keeps its offsets within the input's bounds, ordered
//! and non-overlapping), [`crate::tokenizer::lemma_plain_text_tokenizes`]
//! (the tokenizer never fails on whitespace and unconditionally-legal
//! bareword characters) and [`crate::tokenizer::lemma_calm_text_tokenizes`]
//! (nor on text that adds balanced bracket groups and legally-placed
//! punctuation to those).

use vstd::prelude::*;

use crate::ast::{ObjectModel, PropertyModel, PropertyValueModel, RequirementModel, requirement_of};
use crate::parser::spec_parse;
use crate::xml::{child_wraps_xml, properties_xml, xml_of_object, xml_of_property, xml_of_root};

verus! {

/// Law: a requirement declaration normalizes each of the six case variants
/// of the two well-known library names (and the two long spellings of the
/// second) to its canonical form, and passes any other name through
/// verbatim together with its version.
pub proof fn lemma_requirement_normalization(lib: Seq<char>, version: Seq<char>)
    ensures
        requirement_of("gtk"@, version) == RequirementModel::Gtk(version),
        requirement_of("Gtk"@, version) == RequirementModel::Gtk(version),
        requirement_of("GTK"@, version) == RequirementModel::Gtk(version),
        requirement_of("adw"@, version) == RequirementModel::Libadwaita(version),
        requirement_of("Adw"@, version) == RequirementModel::Libadwaita(version),
        requirement_of("ADW"@, version) == RequirementModel::Libadwaita(version),
        requirement_of("libadwaita"@, version) == RequirementModel::Libadwaita(version),
        requirement_of("Libadwaita"@, version) == RequirementModel::Libadwaita(version),
        (lib != "gtk"@ && lib != "Gtk"@ && lib != "GTK"@ && lib != "adw"@ && lib != "Adw"@ && lib
            != "ADW"@ && lib != "libadwaita"@ && lib != "Libadwaita"@) ==> requirement_of(
            lib,
            version,
        ) == RequirementModel::Other(lib, version),
{
    reveal_strlit("gtk");
    reveal_strlit("Gtk");
    reveal_strlit("GTK");
    reveal_strlit("adw");
    reveal_strlit("Adw");
    reveal_strlit("ADW");
    reveal_strlit("libadwaita");
    reveal_strlit("Libadwaita");
    assert("Gtk"@[0] == 'G');
    assert("gtk"@[0] == 'g');
    assert("GTK"@[1] == 'T');
    assert("adw"@.len() == 3);
    assert("libadwaita"@.len() == 10);
    assert("Libadwaita"@[0] == 'L');
}

/// Law: a property whose value is itself an object serializes with the
/// nested object's XML placed inside the `<property>` element.
pub proof fn lemma_nested_object_inline(p: PropertyModel, inner: ObjectModel)
    requires
        p.value == PropertyValueModel::Entry(inner),
    ensures
        xml_of_property(p) == "<property name=\""@ + p.name + "\">"@ + xml_of_object(inner)
            + "</property>"@,
{
}

/// Law: within an object's serialization a property child renders inline
/// among the property elements and is never wrapped in `<child>`.
pub proof fn lemma_property_child_renders_inline(s: Seq<crate::ast::EntryModel>, p: PropertyModel)
    ensures
        child_wraps_xml(s.push(crate::ast::EntryModel::Property(p))) == child_wraps_xml(s),
        properties_xml(s.push(crate::ast::EntryModel::Property(p))) == properties_xml(s)
            + xml_of_property(p),
{
    let pushed = s.push(crate::ast::EntryModel::Property(p));
    assert(pushed.subrange(0, pushed.len() - 1) =~= s);
}

/// Law: compiling is deterministic. Equal inputs parse to equal trees and
/// handler-identifier counters, and serializing those trees yields
/// byte-identical output; every run of the same input therefore produces
/// the same document.
pub proof fn lemma_compile_deterministic(t1: Seq<char>, t2: Seq<char>, events: bool, next_id: int)
    requires
        t1 == t2,
    ensures
        spec_parse(t1, events, next_id) == spec_parse(t2, events, next_id),
        spec_parse(t1, events, next_id) matches Ok(p1) ==> (spec_parse(t2, events, next_id)
            matches Ok(p2) && xml_of_root(p1.0) == xml_of_root(p2.0)),
{
}

} // verus!
