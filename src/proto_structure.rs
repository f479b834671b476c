//! The schema registry: messages, oneofs and enums read from a `.proto`
//! description, held as an arena of scopes plus a flat table of fields.
use vstd::prelude::*;

verus! {

/// The label written in front of a field.
#[derive(Debug, Clone, Copy, PartialEq, Eq, Structural)]
pub enum ProtoAnnotation {
    Optional,
    Repeated,
    Required,
    Mapped,
}

impl Default for ProtoAnnotation {
    fn default() -> (r: Self)
        ensures
            r == ProtoAnnotation::Optional,
    {
        ProtoAnnotation::Optional
    }
}

/// A word that is not one of the four labels.
#[derive(Debug, Clone, Copy, PartialEq, Eq, Structural)]
pub struct ParseProtoAnnotationError;

pub open spec fn chars_optional() -> Seq<char> {
    seq!['o', 'p', 't', 'i', 'o', 'n', 'a', 'l']
}

pub open spec fn chars_repeated() -> Seq<char> {
    seq!['r', 'e', 'p', 'e', 'a', 't', 'e', 'd']
}

pub open spec fn chars_required() -> Seq<char> {
    seq!['r', 'e', 'q', 'u', 'i', 'r', 'e', 'd']
}

pub open spec fn chars_map() -> Seq<char> {
    seq!['m', 'a', 'p']
}

/// The label that a word names.
pub open spec fn annotation_of(w: Seq<char>) -> Option<ProtoAnnotation> {
    if w == chars_optional() {
        Some(ProtoAnnotation::Optional)
    } else if w == chars_repeated() {
        Some(ProtoAnnotation::Repeated)
    } else if w == chars_required() {
        Some(ProtoAnnotation::Required)
    } else if w == chars_map() {
        Some(ProtoAnnotation::Mapped)
    } else {
        None
    }
}

/// Compares a sequence of characters with another.
pub fn chars_eq(a: &[char], b: &[char]) -> (r: bool)
    ensures
        r == (a@ == b@),
{
    if a.len() != b.len() {
        return false;
    }
    let mut i: usize = 0;
    while i < a.len()
        invariant
            a@.len() == b@.len(),
            i <= a@.len(),
            forall|k: int| 0 <= k < i ==> a@[k] == b@[k],
        decreases a@.len() - i,
    {
        if a[i] != b[i] {
            return false;
        }
        i += 1;
    }
    assert(a@ =~= b@);
    true
}

/// Whether the characters are exactly those of `lit`.
pub fn chars_is(w: &[char], lit: Vec<char>) -> (r: bool)
    ensures
        r == (w@ == lit@),
{
    chars_eq(w, lit.as_slice())
}

impl ProtoAnnotation {
    /// Reads a field label.
    pub fn from_word(w: &[char]) -> (r: Result<ProtoAnnotation, ParseProtoAnnotationError>)
        ensures
            r matches Ok(a) ==> annotation_of(w@) == Some(a),
            r is Err <==> annotation_of(w@) is None,
    {
        let optional = vec!['o', 'p', 't', 'i', 'o', 'n', 'a', 'l'];
        let repeated = vec!['r', 'e', 'p', 'e', 'a', 't', 'e', 'd'];
        let required = vec!['r', 'e', 'q', 'u', 'i', 'r', 'e', 'd'];
        let map = vec!['m', 'a', 'p'];
        assert(optional@ =~= chars_optional());
        assert(repeated@ =~= chars_repeated());
        assert(required@ =~= chars_required());
        assert(map@ =~= chars_map());
        if chars_eq(w, optional.as_slice()) {
            Ok(ProtoAnnotation::Optional)
        } else if chars_eq(w, repeated.as_slice()) {
            Ok(ProtoAnnotation::Repeated)
        } else if chars_eq(w, required.as_slice()) {
            Ok(ProtoAnnotation::Required)
        } else if chars_eq(w, map.as_slice()) {
            Ok(ProtoAnnotation::Mapped)
        } else {
            Err(ParseProtoAnnotationError)
        }
    }
}

/// One field of a message (or one constant of an enum): its label, its
/// name and the name of its type.
#[derive(Debug)]
pub struct ProtoAttribute {
    pub annotation: ProtoAnnotation,
    pub attribute_name: String,
    pub attribute_type: String,
}

impl View for ProtoAttribute {
    type V = (ProtoAnnotation, Seq<char>, Seq<char>);

    open spec fn view(&self) -> Self::V {
        (self.annotation, self.attribute_name@, self.attribute_type@)
    }
}

impl ProtoAttribute {
    /// An optional attribute with empty name and type.
    pub fn new() -> (r: Self)
        ensures
            r@ == (ProtoAnnotation::Optional, Seq::<char>::empty(), Seq::<char>::empty()),
    {
        ProtoAttribute {
            annotation: ProtoAnnotation::Optional,
            attribute_name: String::new(),
            attribute_type: String::new(),
        }
    }

    /// A copy with the same label, name and type.
    pub fn duplicate(&self) -> (r: Self)
        ensures
            r@ == self@,
    {
        ProtoAttribute {
            annotation: self.annotation,
            attribute_name: self.attribute_name.clone(),
            attribute_type: self.attribute_type.clone(),
        }
    }
}

/// What a scope of the schema declares.
#[derive(Debug, Clone, Copy, PartialEq, Eq, Structural)]
pub enum KindOf {
    Message,
    OneOf,
    Enum,
}

/// A named scope: a message, a oneof or an enum, with the index of the
/// enclosing scope (`None` at the top level).
#[derive(Debug)]
pub struct Scope {
    pub name: String,
    pub parent: Option<usize>,
    pub kind: KindOf,
}

/// A field (or enum constant) with the scope that declares it and its tag.
#[derive(Debug)]
pub struct FieldEntry {
    pub owner: usize,
    pub tag: i32,
    pub attribute: ProtoAttribute,
}

/// The parsed schema.
#[derive(Debug)]
pub struct Schema {
    pub version: u32,
    pub scopes: Vec<Scope>,
    pub fields: Vec<FieldEntry>,
}

/// The scope whose tag space a scope's fields use: a oneof shares the
/// numbering of its enclosing message.
pub open spec fn numbering_scope(s: &Schema, x: int) -> int {
    if s.scopes@[x].kind == KindOf::OneOf && s.scopes@[x].parent is Some {
        s.scopes@[x].parent->Some_0 as int
    } else {
        x
    }
}

/// Tags are unique within each message together with all its oneofs,
/// and within each enum.
pub open spec fn tags_unique(s: &Schema) -> bool {
    forall|i: int, j: int|
        0 <= i < j < s.fields@.len() && numbering_scope(s, s.fields@[i].owner as int)
            == numbering_scope(s, s.fields@[j].owner as int) ==> s.fields@[i].tag
            != s.fields@[j].tag
}

/// Scope names are unique among the children of each scope.
pub open spec fn names_unique(s: &Schema) -> bool {
    forall|i: int, j: int|
        0 <= i < j < s.scopes@.len() && s.scopes@[i].parent == s.scopes@[j].parent
            ==> s.scopes@[i].name@ != s.scopes@[j].name@
}

/// Every parent comes earlier and is a message or a oneof; oneofs sit
/// inside messages; every field belongs to an existing scope.
pub open spec fn links_valid(s: &Schema) -> bool {
    &&& forall|i: int|
        0 <= i < s.scopes@.len() ==> match #[trigger] s.scopes@[i].parent {
            Some(p) => p < i && s.scopes@[p as int].kind != KindOf::Enum && (s.scopes@[i].kind
                == KindOf::OneOf ==> s.scopes@[p as int].kind == KindOf::Message),
            None => s.scopes@[i].kind != KindOf::OneOf,
        }
    &&& forall|f: int| 0 <= f < s.fields@.len() ==> #[trigger] s.fields@[f].owner < s.scopes@.len()
}

/// Well-formedness of a schema.
pub open spec fn schema_wf(s: &Schema) -> bool {
    links_valid(s) && tags_unique(s) && names_unique(s)
}

/// The contents of a message as stored in the registry: its fields by tag
/// and its nested scopes by name, with their indices.
#[derive(Debug)]
pub struct Message {
    pub attributes: Vec<(i32, ProtoAttribute)>,
    pub contents: Vec<(String, usize)>,
}

/// The fields of a oneof (or the constants of an enum) by tag.
#[derive(Debug)]
pub struct OneOf {
    pub attributes: Vec<(i32, ProtoAttribute)>,
}

/// The tag table of a scope.
pub open spec fn table_view(t: Seq<(i32, ProtoAttribute)>) -> Seq<(i32, (ProtoAnnotation, Seq<char>, Seq<char>))> {
    t.map_values(|e: (i32, ProtoAttribute)| (e.0, e.1@))
}

/// `after` is `before` with `(key, val)` stored: it replaces the first
/// entry under `key`, or is appended when there is none.
pub open spec fn table_stored(
    before: Seq<(i32, (ProtoAnnotation, Seq<char>, Seq<char>))>,
    after: Seq<(i32, (ProtoAnnotation, Seq<char>, Seq<char>))>,
    key: i32,
    val: (ProtoAnnotation, Seq<char>, Seq<char>),
) -> bool {
    &&& forall|k: int|
        0 <= k < before.len() && #[trigger] before[k].0 == key && (forall|j: int|
            0 <= j < k ==> before[j].0 != key) ==> after == before.update(k, (key, val))
    &&& (forall|k: int| 0 <= k < before.len() ==> #[trigger] before[k].0 != key) ==> after
        == before.push((key, val))
}

/// A descriptor with a table of tagged attributes.
pub trait Proto: Sized {
    spec fn spec_attributes(&self) -> Seq<(i32, (ProtoAnnotation, Seq<char>, Seq<char>))>;

    /// An empty descriptor.
    fn new() -> (r: Self)
        ensures
            r.spec_attributes().len() == 0;

    /// The attribute stored under `key`, if any.
    fn get_attribute(&self, key: i32) -> (r: Option<&ProtoAttribute>)
        ensures
            r matches Some(a) ==> exists|k: int|
                0 <= k < self.spec_attributes().len() && #[trigger] self.spec_attributes()[k] == (
                key,
                a@,
            ),
            r is None ==> forall|k: int|
                0 <= k < self.spec_attributes().len() ==> #[trigger] self.spec_attributes()[k].0
                    != key;

    /// Stores `value` under `key`, replacing what was stored there.
    fn set_attributes(&mut self, key: i32, value: ProtoAttribute)
        ensures
            table_stored(old(self).spec_attributes(), final(self).spec_attributes(), key, value@);
}

fn table_get(t: &Vec<(i32, ProtoAttribute)>, key: i32) -> (r: Option<&ProtoAttribute>)
    ensures
        r matches Some(a) ==> exists|k: int|
            0 <= k < table_view(t@).len() && #[trigger] table_view(t@)[k] == (key, a@),
        r is None ==> forall|k: int|
            0 <= k < table_view(t@).len() ==> #[trigger] table_view(t@)[k].0 != key,
{
    let mut i: usize = 0;
    while i < t.len()
        invariant
            i <= t@.len(),
            forall|k: int| 0 <= k < i ==> #[trigger] t@[k].0 != key,
        decreases t@.len() - i,
    {
        if t[i].0 == key {
            let r = &t[i].1;
            assert(table_view(t@)[i as int] == (key, r@));
            return Some(r);
        }
        i += 1;
    }
    proof {
        assert forall|k: int| 0 <= k < table_view(t@).len() implies #[trigger] table_view(t@)[k].0
            != key by {
            assert(t@[k].0 != key);
        }
    }
    None
}

fn table_set(t: &mut Vec<(i32, ProtoAttribute)>, key: i32, value: ProtoAttribute)
    ensures
        table_stored(table_view(old(t)@), table_view(final(t)@), key, value@),
{
    let mut i: usize = 0;
    while i < t.len()
        invariant
            i <= t@.len(),
            t@ == old(t)@,
            forall|k: int| 0 <= k < i ==> #[trigger] t@[k].0 != key,
        decreases t@.len() - i,
    {
        if t[i].0 == key {
            let ghost before = t@;
            t.set(i, (key, value));
            proof {
                assert(table_view(t@) =~= table_view(before).update(i as int, (key, value@)));
                assert(table_view(before)[i as int].0 == key);
                assert forall|k: int|
                    0 <= k < table_view(before).len() && #[trigger] table_view(before)[k].0 == key
                        && (forall|j: int| 0 <= j < k ==> table_view(before)[j].0 != key) implies k
                        == i by {
                    if k < i {
                        assert(before[k].0 != key);
                    }
                }
            }
            return;
        }
        i += 1;
    }
    proof {
        assert forall|k: int| 0 <= k < table_view(t@).len() implies #[trigger] table_view(t@)[k].0
            != key by {
            assert(t@[k].0 != key);
        }
    }
    let ghost before = t@;
    t.push((key, value));
    assert(table_view(t@) =~= table_view(before).push((key, value@)));
}

impl Proto for Message {
    open spec fn spec_attributes(&self) -> Seq<(i32, (ProtoAnnotation, Seq<char>, Seq<char>))> {
        table_view(self.attributes@)
    }

    fn new() -> (r: Self) {
        Message { attributes: Vec::new(), contents: Vec::new() }
    }

    fn get_attribute(&self, key: i32) -> (r: Option<&ProtoAttribute>) {
        let r = table_get(&self.attributes, key);
        proof {
            if let Some(a) = r {
                let k = choose|k: int|
                    0 <= k < table_view(self.attributes@).len() && #[trigger] table_view(
                        self.attributes@,
                    )[k] == (key, a@);
                assert(self.spec_attributes()[k] == (key, a@));
            }
        }
        r
    }

    fn set_attributes(&mut self, key: i32, value: ProtoAttribute) {
        table_set(&mut self.attributes, key, value)
    }
}

impl Proto for OneOf {
    open spec fn spec_attributes(&self) -> Seq<(i32, (ProtoAnnotation, Seq<char>, Seq<char>))> {
        table_view(self.attributes@)
    }

    fn new() -> (r: Self) {
        OneOf { attributes: Vec::new() }
    }

    fn get_attribute(&self, key: i32) -> (r: Option<&ProtoAttribute>) {
        let r = table_get(&self.attributes, key);
        proof {
            if let Some(a) = r {
                let k = choose|k: int|
                    0 <= k < table_view(self.attributes@).len() && #[trigger] table_view(
                        self.attributes@,
                    )[k] == (key, a@);
                assert(self.spec_attributes()[k] == (key, a@));
            }
        }
        r
    }

    fn set_attributes(&mut self, key: i32, value: ProtoAttribute) {
        table_set(&mut self.attributes, key, value)
    }
}

} // verus!


verus! {

/// Scope `x` is message `m` itself or one of its oneofs.
pub open spec fn in_message(s: &Schema, m: int, x: int) -> bool {
    x == m || (s.scopes@[x].kind == KindOf::OneOf && s.scopes@[x].parent is Some
        && s.scopes@[x].parent->Some_0 as int == m)
}

/// In a schema with unique tags (as every well-formed schema has), the tags
/// of a message's own fields and of the fields of all its oneofs are
/// pairwise distinct.
pub proof fn lemma_message_tags_unique(s: &Schema, m: int, f: int, g: int)
    requires
        tags_unique(s),
        0 <= m < s.scopes@.len(),
        s.scopes@[m].kind == KindOf::Message,
        0 <= f < s.fields@.len(),
        0 <= g < s.fields@.len(),
        f != g,
        in_message(s, m, s.fields@[f].owner as int),
        in_message(s, m, s.fields@[g].owner as int),
    ensures
        s.fields@[f].tag != s.fields@[g].tag,
{
    let of = s.fields@[f].owner as int;
    let og = s.fields@[g].owner as int;
    assert(numbering_scope(s, of) == m);
    assert(numbering_scope(s, og) == m);
    if f < g {
        assert(s.fields@[f].tag != s.fields@[g].tag);
    } else {
        assert(s.fields@[g].tag != s.fields@[f].tag);
    }
}

} // verus!
