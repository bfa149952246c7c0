//! Tokens whose text lives in the accumulation buffer, and their owned forms.

use vstd::prelude::*;

use crate::buffer::{BufCow, BufSlice, Buffer};

verus! {

/// The XML version a document declares.
#[derive(Clone, Copy, Debug, PartialEq, Eq, Structural)]
pub enum XmlVersion {
    Version10,
    Version11,
}

/// A qualified name whose parts are slices.
#[derive(Clone, Copy, Debug)]
pub struct Name {
    pub local_name: BufSlice,
    pub namespace: Option<BufSlice>,
    pub prefix: Option<BufSlice>,
}

/// A qualified name with owned parts.
#[derive(Clone, Debug, PartialEq, Eq)]
pub struct OwnedName {
    pub local_name: String,
    pub namespace: Option<String>,
    pub prefix: Option<String>,
}

/// An attribute whose name and value refer to the buffer.
#[derive(Clone, Debug)]
pub struct Attribute {
    pub name: Name,
    pub value: BufCow,
}

/// An attribute with owned name and value.
#[derive(Clone, Debug, PartialEq, Eq)]
pub struct OwnedAttribute {
    pub name: OwnedName,
    pub value: String,
}

/// An optional slice can be read from `b`.
pub open spec fn opt_held_by(s: Option<BufSlice>, b: &Buffer) -> bool {
    match s {
        Some(x) => b.holds(x),
        None => true,
    }
}

/// `o` is the owned text of the optional slice `s`, read from contents `b`.
pub open spec fn opt_reifies(s: Option<BufSlice>, b: Seq<char>, o: Option<String>) -> bool {
    match (s, o) {
        (Some(x), Some(y)) => y@ == x.text_in(b),
        (None, None) => true,
        _ => false,
    }
}

/// An owned copy of an optional slice.
fn reify_opt(s: Option<BufSlice>, buffer: &Buffer) -> (r: Option<String>)
    requires
        opt_held_by(s, buffer),
    ensures
        opt_reifies(s, buffer@, r),
{
    match s {
        Some(x) => Some(buffer.reify(x).to_owned()),
        None => None,
    }
}

impl Name {
    pub open spec fn held_by(&self, b: &Buffer) -> bool {
        &&& b.holds(self.local_name)
        &&& opt_held_by(self.namespace, b)
        &&& opt_held_by(self.prefix, b)
    }

    pub open spec fn reifies_as(&self, b: Seq<char>, n: OwnedName) -> bool {
        &&& n.local_name@ == self.local_name.text_in(b)
        &&& opt_reifies(self.namespace, b, n.namespace)
        &&& opt_reifies(self.prefix, b, n.prefix)
    }

    /// An owned copy of the name.
    pub fn as_reified(&self, buffer: &Buffer) -> (r: OwnedName)
        requires
            self.held_by(buffer),
        ensures
            self.reifies_as(buffer@, r),
    {
        OwnedName {
            local_name: buffer.reify(self.local_name).to_owned(),
            namespace: reify_opt(self.namespace, buffer),
            prefix: reify_opt(self.prefix, buffer),
        }
    }
}

impl Attribute {
    pub open spec fn held_by(&self, b: &Buffer) -> bool {
        self.name.held_by(b) && self.value.held_by(b)
    }

    pub open spec fn reifies_as(&self, b: Seq<char>, a: OwnedAttribute) -> bool {
        self.name.reifies_as(b, a.name) && a.value@ == self.value.text_in(b)
    }

    /// An owned copy of the attribute.
    pub fn as_reified(&self, buffer: &Buffer) -> (r: OwnedAttribute)
        requires
            self.held_by(buffer),
        ensures
            self.reifies_as(buffer@, r),
    {
        OwnedAttribute {
            name: self.name.as_reified(buffer),
            value: self.value.as_reified(buffer).to_owned(),
        }
    }
}

/// A token detached from the buffer: all its text is owned.
#[derive(Clone, Debug, PartialEq, Eq)]
pub enum ReifiedEvent {
    StartDocument { version: XmlVersion, encoding: String, standalone: Option<bool> },
    EndDocument,
    DoctypeDeclaration { content: String },
    ProcessingInstruction { name: String, data: Option<String> },
    StartElement { name: OwnedName, attributes: Vec<OwnedAttribute> },
    EndElement { name: OwnedName },
    CData(String),
    Comment(String),
    Text(String),
    Whitespace(String),
}

/// A token whose text refers to the accumulation buffer.
#[derive(Clone, Debug)]
pub enum Event {
    StartDocument { version: XmlVersion, encoding: BufSlice, standalone: Option<bool> },
    EndDocument,
    DoctypeDeclaration { content: BufSlice },
    ProcessingInstruction { name: BufSlice, data: Option<BufSlice> },
    StartElement { name: Name, attributes: Vec<Attribute> },
    EndElement { name: Name },
    CData(BufSlice),
    Comment(BufSlice),
    Text(BufSlice),
    Whitespace(BufSlice),
}

/// Every attribute of `a` is readable from `b`.
pub open spec fn attrs_held_by(a: Seq<Attribute>, b: &Buffer) -> bool {
    forall|i: int| 0 <= i < a.len() ==> (#[trigger] a[i]).held_by(b)
}

/// `o` holds the owned copies of the attributes `a`, in order.
pub open spec fn attrs_reify(a: Seq<Attribute>, b: Seq<char>, o: Seq<OwnedAttribute>) -> bool {
    &&& o.len() == a.len()
    &&& forall|i: int| 0 <= i < a.len() ==> (#[trigger] a[i]).reifies_as(b, o[i])
}

impl Event {
    /// Every slice of the event is readable from `b`.
    pub open spec fn held_by(&self, b: &Buffer) -> bool {
        match self {
            Event::StartDocument { encoding, .. } => b.holds(*encoding),
            Event::EndDocument => true,
            Event::DoctypeDeclaration { content } => b.holds(*content),
            Event::ProcessingInstruction { name, data } => b.holds(*name) && opt_held_by(*data, b),
            Event::StartElement { name, attributes } => name.held_by(b) && attrs_held_by(attributes@, b),
            Event::EndElement { name } => name.held_by(b),
            Event::CData(d) => b.holds(*d),
            Event::Comment(d) => b.holds(*d),
            Event::Text(d) => b.holds(*d),
            Event::Whitespace(d) => b.holds(*d),
        }
    }

    /// `r` is this event with its text read from contents `b`.
    pub open spec fn reifies_as(&self, b: Seq<char>, r: ReifiedEvent) -> bool {
        match (self, r) {
            (
                Event::StartDocument { version, encoding, standalone },
                ReifiedEvent::StartDocument { version: v, encoding: e, standalone: s },
            ) => *version == v && e@ == encoding.text_in(b) && *standalone == s,
            (Event::EndDocument, ReifiedEvent::EndDocument) => true,
            (Event::DoctypeDeclaration { content }, ReifiedEvent::DoctypeDeclaration { content: c }) => c@
                == content.text_in(b),
            (
                Event::ProcessingInstruction { name, data },
                ReifiedEvent::ProcessingInstruction { name: n, data: d },
            ) => n@ == name.text_in(b) && opt_reifies(*data, b, d),
            (
                Event::StartElement { name, attributes },
                ReifiedEvent::StartElement { name: n, attributes: a },
            ) => name.reifies_as(b, n) && attrs_reify(attributes@, b, a@),
            (Event::EndElement { name }, ReifiedEvent::EndElement { name: n }) => name.reifies_as(b, n),
            (Event::CData(d), ReifiedEvent::CData(o)) => o@ == d.text_in(b),
            (Event::Comment(d), ReifiedEvent::Comment(o)) => o@ == d.text_in(b),
            (Event::Text(d), ReifiedEvent::Text(o)) => o@ == d.text_in(b),
            (Event::Whitespace(d), ReifiedEvent::Whitespace(o)) => o@ == d.text_in(b),
            _ => false,
        }
    }

    pub fn start_document(version: XmlVersion, encoding: BufSlice, standalone: Option<bool>) -> (r: Event)
        ensures
            r == (Event::StartDocument { version, encoding, standalone }),
    {
        Event::StartDocument { version, encoding, standalone }
    }

    pub fn end_document() -> (r: Event)
        ensures
            r == Event::EndDocument,
    {
        Event::EndDocument
    }

    pub fn doctype_declaration(content: BufSlice) -> (r: Event)
        ensures
            r == (Event::DoctypeDeclaration { content }),
    {
        Event::DoctypeDeclaration { content }
    }

    pub fn processing_instruction(name: BufSlice, data: Option<BufSlice>) -> (r: Event)
        ensures
            r == (Event::ProcessingInstruction { name, data }),
    {
        Event::ProcessingInstruction { name, data }
    }

    pub fn start_element(name: Name, attributes: Vec<Attribute>) -> (r: Event)
        ensures
            r matches Event::StartElement { name: n, attributes: a } && n == name && a@ == attributes@,
    {
        Event::StartElement { name, attributes }
    }

    pub fn end_element(name: Name) -> (r: Event)
        ensures
            r == (Event::EndElement { name }),
    {
        Event::EndElement { name }
    }

    pub fn cdata(data: BufSlice) -> (r: Event)
        ensures
            r == Event::CData(data),
    {
        Event::CData(data)
    }

    pub fn comment(data: BufSlice) -> (r: Event)
        ensures
            r == Event::Comment(data),
    {
        Event::Comment(data)
    }

    pub fn text(data: BufSlice) -> (r: Event)
        ensures
            r == Event::Text(data),
    {
        Event::Text(data)
    }

    pub fn whitespace(data: BufSlice) -> (r: Event)
        ensures
            r == Event::Whitespace(data),
    {
        Event::Whitespace(data)
    }

    /// The name of a start element.
    pub fn start_element_name(&self) -> (r: Name)
        requires
            self is StartElement,
        ensures
            r == self->StartElement_name,
    {
        match self {
            Event::StartElement { name, .. } => *name,
            _ => vstd::pervasive::unreached(),
        }
    }

    /// The attributes of a start element.
    pub fn attributes(&self) -> (r: &[Attribute])
        requires
            self is StartElement,
        ensures
            r@ == self->StartElement_attributes@,
    {
        match self {
            Event::StartElement { attributes, .. } => attributes.as_slice(),
            _ => vstd::pervasive::unreached(),
        }
    }

    /// The attributes of a start element, for changing in place.
    pub fn attributes_mut(&mut self) -> (r: &mut Vec<Attribute>)
        requires
            (*old(self)) is StartElement,
        ensures
            *r == (*old(self))->StartElement_attributes,
            (*final(self)) is StartElement,
            (*final(self))->StartElement_name == (*old(self))->StartElement_name,
            (*final(self))->StartElement_attributes == *final(r),
    {
        match self {
            Event::StartElement { attributes, .. } => attributes,
            _ => vstd::pervasive::unreached(),
        }
    }

    /// The name of an end element.
    pub fn end_element_name(&self) -> (r: Name)
        requires
            self is EndElement,
        ensures
            r == self->EndElement_name,
    {
        match self {
            Event::EndElement { name } => *name,
            _ => vstd::pervasive::unreached(),
        }
    }

    /// The slice of a text event.
    pub fn as_text(&self) -> (r: BufSlice)
        requires
            self is Text,
        ensures
            r == self->Text_0,
    {
        match self {
            Event::Text(data) => *data,
            _ => vstd::pervasive::unreached(),
        }
    }

    /// The slice of a text event, for changing in place.
    pub fn as_text_ref_mut(&mut self) -> (r: &mut BufSlice)
        requires
            (*old(self)) is Text,
        ensures
            *r == (*old(self))->Text_0,
            *final(self) == Event::Text(*final(r)),
    {
        match self {
            Event::Text(data) => data,
            _ => vstd::pervasive::unreached(),
        }
    }

    /// An owned copy of the event, its text read from `buffer`.
    pub fn as_reified(&self, buffer: &Buffer) -> (r: ReifiedEvent)
        requires
            self.held_by(buffer),
        ensures
            self.reifies_as(buffer@, r),
    {
        match self {
            Event::StartDocument { version, encoding, standalone } => ReifiedEvent::StartDocument {
                version: *version,
                encoding: buffer.reify(*encoding).to_owned(),
                standalone: *standalone,
            },
            Event::EndDocument => ReifiedEvent::EndDocument,
            Event::DoctypeDeclaration { content } => ReifiedEvent::DoctypeDeclaration {
                content: buffer.reify(*content).to_owned(),
            },
            Event::ProcessingInstruction { name, data } => ReifiedEvent::ProcessingInstruction {
                name: buffer.reify(*name).to_owned(),
                data: reify_opt(*data, buffer),
            },
            Event::StartElement { name, attributes } => {
                let mut owned: Vec<OwnedAttribute> = Vec::new();
                let mut i: usize = 0;
                while i < attributes.len()
                    invariant
                        i <= attributes@.len(),
                        attrs_held_by(attributes@, buffer),
                        attrs_reify(attributes@.subrange(0, i as int), buffer@, owned@),
                    decreases attributes@.len() - i,
                {
                    let a = attributes[i].as_reified(buffer);
                    owned.push(a);
                    i = i + 1;
                    proof {
                        assert(attributes@.subrange(0, i as int)[i - 1] == attributes@[i - 1]);
                    }
                }
                proof {
                    assert(attributes@.subrange(0, i as int) =~= attributes@);
                }
                ReifiedEvent::StartElement { name: name.as_reified(buffer), attributes: owned }
            },
            Event::EndElement { name } => ReifiedEvent::EndElement { name: name.as_reified(buffer) },
            Event::CData(d) => ReifiedEvent::CData(buffer.reify(*d).to_owned()),
            Event::Comment(d) => ReifiedEvent::Comment(buffer.reify(*d).to_owned()),
            Event::Text(d) => ReifiedEvent::Text(buffer.reify(*d).to_owned()),
            Event::Whitespace(d) => ReifiedEvent::Whitespace(buffer.reify(*d).to_owned()),
        }
    }
}

/// A token that is either still tied to the buffer or already detached.
#[derive(Clone, Debug)]
pub enum CowEvent {
    Ephemeral(Event),
    Reified(ReifiedEvent),
}

impl CowEvent {
    pub open spec fn held_by(&self, b: &Buffer) -> bool {
        match self {
            CowEvent::Ephemeral(e) => e.held_by(b),
            CowEvent::Reified(_) => true,
        }
    }

    /// `r` is what reifying this token against contents `b` gives.
    pub open spec fn reifies_as(&self, b: Seq<char>, r: ReifiedEvent) -> bool {
        match self {
            CowEvent::Ephemeral(e) => e.reifies_as(b, r),
            CowEvent::Reified(o) => r == *o,
        }
    }

    /// Detaches the token from the buffer; a detached token stays as it is.
    pub fn reify_in_place(&mut self, buffer: &Buffer)
        requires
            old(self).held_by(buffer),
        ensures
            (*final(self)) is Reified,
            old(self).reifies_as(buffer@, (*final(self))->Reified_0),
            (*old(self)) is Reified ==> *final(self) == *old(self),
    {
        match self {
            CowEvent::Ephemeral(e) => {
                let reified = e.as_reified(buffer);
                *self = CowEvent::Reified(reified);
            },
            CowEvent::Reified(_) => {},
        }
    }

    /// The detached form of the token.
    pub fn reify(self, buffer: &Buffer) -> (r: ReifiedEvent)
        requires
            self.held_by(buffer),
        ensures
            self.reifies_as(buffer@, r),
    {
        match self {
            CowEvent::Ephemeral(e) => e.as_reified(buffer),
            CowEvent::Reified(e) => e,
        }
    }

    /// Whether the token is text.
    pub fn is_text(&self) -> (r: bool)
        ensures
            r == (self matches CowEvent::Ephemeral(Event::Text(_)) || self matches CowEvent::Reified(
                ReifiedEvent::Text(_),
            )),
    {
        match self {
            CowEvent::Ephemeral(Event::Text(_)) => true,
            CowEvent::Reified(ReifiedEvent::Text(_)) => true,
            _ => false,
        }
    }

    /// Whether the token ends an element.
    pub fn is_end_element(&self) -> (r: bool)
        ensures
            r == (self matches CowEvent::Ephemeral(Event::EndElement { .. }) || self matches CowEvent::Reified(
                ReifiedEvent::EndElement { .. },
            )),
    {
        match self {
            CowEvent::Ephemeral(Event::EndElement { .. }) => true,
            CowEvent::Reified(ReifiedEvent::EndElement { .. }) => true,
            _ => false,
        }
    }
}

impl From<Event> for CowEvent {
    fn from(e: Event) -> (r: CowEvent) {
        CowEvent::Ephemeral(e)
    }
}

impl vstd::std_specs::convert::FromSpecImpl<Event> for CowEvent {
    open spec fn obeys_from_spec() -> bool {
        true
    }

    open spec fn from_spec(e: Event) -> CowEvent {
        CowEvent::Ephemeral(e)
    }
}

impl From<ReifiedEvent> for CowEvent {
    fn from(e: ReifiedEvent) -> (r: CowEvent) {
        CowEvent::Reified(e)
    }
}

impl vstd::std_specs::convert::FromSpecImpl<ReifiedEvent> for CowEvent {
    open spec fn obeys_from_spec() -> bool {
        true
    }

    open spec fn from_spec(e: ReifiedEvent) -> CowEvent {
        CowEvent::Reified(e)
    }
}

} // verus!
