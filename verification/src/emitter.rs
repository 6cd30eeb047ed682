//! Emits parsed elements as protocol JSON.
use vstd::prelude::*;

use crate::ast::{Element, Multiplicity, PackagePath, SourceInfo, StereotypePtr, TaggedValue, Type};
use crate::parser::ParseError;
use crate::text::{decimal_spec, join, join_spec, u64_text, views};

verus! {

/// A JSON value; object members keep their order.
#[derive(Debug)]
pub enum Json {
    Null,
    Bool(bool),
    /// A number, by its JSON text.
    Number(String),
    String(String),
    Array(Vec<Json>),
    Object(Vec<(String, Json)>),
}

/// A JSON value as a mathematical object.
pub enum JsonView {
    Null,
    Bool(bool),
    Number(Seq<char>),
    Text(Seq<char>),
    List(Seq<JsonView>),
    Members(Seq<(Seq<char>, JsonView)>),
}

impl Json {
    /// The value this JSON denotes.
    pub open spec fn view(self) -> JsonView
        decreases self,
    {
        match self {
            Json::Null => JsonView::Null,
            Json::Bool(b) => JsonView::Bool(b),
            Json::Number(n) => JsonView::Number(n@),
            Json::String(s) => JsonView::Text(s@),
            Json::Array(v) => JsonView::List(
                Seq::new(
                    v@.len(),
                    |i: int|
                        if 0 <= i < v@.len() {
                            v@[i].view()
                        } else {
                            JsonView::Null
                        },
                ),
            ),
            Json::Object(m) => JsonView::Members(
                Seq::new(
                    m@.len(),
                    |i: int|
                        if 0 <= i < m@.len() {
                            (m@[i].0@, m@[i].1.view())
                        } else {
                            (Seq::empty(), JsonView::Null)
                        },
                ),
            ),
        }
    }
}


/// The values of a list of JSON values.
pub open spec fn list_view(v: Seq<Json>) -> Seq<JsonView> {
    Seq::new(v.len(), |i: int| v[i].view())
}

/// The members of a JSON object, as keys and values.
pub open spec fn members_view(m: Seq<(String, Json)>) -> Seq<(Seq<char>, JsonView)> {
    Seq::new(m.len(), |i: int| (m[i].0@, m[i].1.view()))
}

pub(crate) proof fn lemma_array_view(v: Vec<Json>)
    ensures
        Json::Array(v).view() == JsonView::List(list_view(v@)),
{
    let j = Json::Array(v);
    if let JsonView::List(lv) = j.view() {
        assert(lv =~= list_view(v@));
    }
}

pub(crate) proof fn lemma_object_view(m: Vec<(String, Json)>)
    ensures
        Json::Object(m).view() == JsonView::Members(members_view(m@)),
{
    let j = Json::Object(m);
    if let JsonView::Members(mv) = j.view() {
        assert(mv =~= members_view(m@));
    }
}

/// `serde_json`'s JSON value, carried through opaque.
#[verifier::external_type_specification]
#[verifier::external_body]
pub struct ExJsonValue(serde_json::Value);

/// Name for what `serde_json::from_str` makes of a text, as a JSON value
/// (numbers by their text): `None` where the text is not JSON.
pub uninterp spec fn parsed_json(text: Seq<char>) -> Option<JsonView>;

/// Calls `serde_json::from_str` into a `serde_json::Value` and converts
/// the value one for one (numbers by their text). Claimed: the result is
/// `parsed_json` of the text, `None` exactly where parsing fails.
#[verifier::external_body]
pub(crate) fn parse_json(text: &str) -> (r: Option<Json>)
    ensures
        r matches Some(j) ==> parsed_json(text@) == Some(j.view()),
        r is None <==> parsed_json(text@) is None,
{
    serde_json::from_str::<serde_json::Value>(text).ok().map(|v| json_of_value(&v))
}

/// Converts a `serde_json::Value` one for one (used by `parse_json` only;
/// nothing is claimed of it beyond `parse_json`'s contract).
#[verifier::external_body]
fn json_of_value(v: &serde_json::Value) -> Json {
    match v {
        serde_json::Value::Null => Json::Null,
        serde_json::Value::Bool(b) => Json::Bool(*b),
        serde_json::Value::Number(n) => Json::Number(n.to_string()),
        serde_json::Value::String(s) => Json::String(s.clone()),
        serde_json::Value::Array(a) => Json::Array(a.iter().map(json_of_value).collect()),
        serde_json::Value::Object(m) => Json::Object(m.iter().map(|(k, x)| (k.clone(), json_of_value(x))).collect()),
    }
}

/// Appends a value to a list of JSON values.
fn push_json(out: &mut Vec<Json>, j: Json)
    ensures
        list_view(final(out)@) == list_view(old(out)@).push(j.view()),
{
    out.push(j);
    assert(list_view(out@) =~= list_view(old(out)@).push(out@.last().view()));
}

/// A JSON object built from its members.
fn object(m: Vec<(String, Json)>) -> (r: Json)
    ensures
        r.view() == JsonView::Members(members_view(m@)),
{
    proof {
        lemma_object_view(m);
    }
    Json::Object(m)
}

/// A JSON array built from its values.
fn array(v: Vec<Json>) -> (r: Json)
    ensures
        r.view() == JsonView::List(list_view(v@)),
{
    proof {
        lemma_array_view(v);
    }
    Json::Array(v)
}

/// A member `key: value`.
fn member(key: &str, value: Json) -> (r: (String, Json))
    ensures
        r.0@ == key@,
        r.1 == value,
{
    (key.to_string(), value)
}

/// A JSON string.
fn text(s: &str) -> (r: Json)
    ensures
        r.view() == JsonView::Text(s@),
{
    Json::String(s.to_string())
}

/// Why emitting failed.
#[derive(Debug)]
pub enum EmitError {
    /// The JSON could not be serialized (the serializer's message).
    SerializationError(String),
    /// An extension element of a type no plugin emits.
    UnknownExtensionType(String),
}

/// The protocol location of a source location: nothing for a location
/// without a source, else its coordinates, the end column made
/// inclusive (one less, but not before the start column).
pub open spec fn source_info_json(s: SourceInfo) -> JsonView {
    if s.source_id@.len() == 0 {
        JsonView::Null
    } else {
        JsonView::Members(
            seq![
                ("sourceId"@, JsonView::Text(s.source_id@)),
                ("startLine"@, JsonView::Number(decimal_spec(s.start_line as nat))),
                ("startColumn"@, JsonView::Number(decimal_spec(s.start_column as nat))),
                ("endLine"@, JsonView::Number(decimal_spec(s.end_line as nat))),
                ("endColumn"@, JsonView::Number(decimal_spec(reported_end_column(s) as nat))),
            ],
        )
    }
}

/// The package as `a::b::c`.
pub open spec fn package_text(p: PackagePath) -> Seq<char> {
    join_spec(views(p.path@), "::"@)
}

/// A stereotype application.
pub open spec fn stereotype_json(s: StereotypePtr) -> JsonView {
    JsonView::Members(seq![("profile"@, JsonView::Text(s.profile@)), ("value"@, JsonView::Text(s.value@))])
}

/// A tagged value.
pub open spec fn tagged_value_json(t: TaggedValue) -> JsonView {
    JsonView::Members(
        seq![
            ("tag"@, JsonView::Members(
                seq![("profile"@, JsonView::Text(t.profile@)), ("value"@, JsonView::Text(t.tag@))],
            )),
            ("value"@, JsonView::Text(t.value@)),
        ],
    )
}

/// A multiplicity: its bounds, an absent upper bound as `null`.
pub open spec fn multiplicity_json(m: Multiplicity) -> JsonView {
    JsonView::Members(
        seq![
            ("lowerBound"@, JsonView::Number(decimal_spec(m.lower_bound as nat))),
            ("upperBound"@, match m.upper_bound {
                Some(u) => JsonView::Number(decimal_spec(u as nat)),
                None => JsonView::Null,
            }),
        ],
    )
}

/// The path of a type reference.
pub open spec fn type_path_text(t: Type) -> Seq<char> {
    match t {
        Type::Packageable(p) => p.full_path@,
    }
}

/// A property of a class.
pub open spec fn property_json(p: crate::ast::Property) -> JsonView {
    JsonView::Members(
        seq![
            ("name"@, JsonView::Text(p.name@)),
            ("type"@, JsonView::Text(type_path_text(p.property_type))),
            ("multiplicity"@, multiplicity_json(p.multiplicity)),
            ("sourceInformation"@, source_info_json(p.source_info)),
        ],
    )
}

/// A super type of a class.
pub open spec fn super_type_json(t: Type) -> JsonView {
    match t {
        Type::Packageable(p) => JsonView::Members(
            seq![
                ("type"@, JsonView::Text("CLASS"@)),
                ("path"@, JsonView::Text(p.full_path@)),
                ("sourceInformation"@, source_info_json(p.source_info)),
            ],
        ),
    }
}

/// A tag or stereotype declared by a profile.
pub open spec fn declared_json(value: Seq<char>, s: SourceInfo) -> JsonView {
    JsonView::Members(seq![("value"@, JsonView::Text(value)), ("sourceInformation"@, source_info_json(s))])
}

/// An element in protocol JSON: classes, profiles and extension elements
/// in full, other elements as `unknown_element`.
pub open spec fn element_json(e: Element) -> JsonView {
    match e {
        Element::Class(c) => JsonView::Members(
            seq![
                ("_type"@, JsonView::Text("class"@)),
                ("name"@, JsonView::Text(c.name@)),
                ("package"@, JsonView::Text(package_text(c.package))),
                ("superTypes"@, JsonView::List(Seq::new(c.super_types@.len(), |i: int| super_type_json(c.super_types@[i])))),
                ("properties"@, JsonView::List(Seq::new(c.properties@.len(), |i: int| property_json(c.properties@[i])))),
                ("stereotypes"@, JsonView::List(Seq::new(c.stereotypes@.len(), |i: int| stereotype_json(c.stereotypes@[i])))),
                ("taggedValues"@, JsonView::List(Seq::new(c.tagged_values@.len(), |i: int| tagged_value_json(c.tagged_values@[i])))),
                ("sourceInformation"@, source_info_json(c.source_info)),
            ],
        ),
        Element::Profile(p) => JsonView::Members(
            seq![
                ("_type"@, JsonView::Text("profile"@)),
                ("name"@, JsonView::Text(p.name@)),
                ("package"@, JsonView::Text(package_text(p.package))),
                ("stereotypes"@, JsonView::List(Seq::new(p.stereotypes@.len(), |i: int| declared_json(p.stereotypes@[i].value@, p.stereotypes@[i].source_info)))),
                ("tags"@, JsonView::List(Seq::new(p.tags@.len(), |i: int| declared_json(p.tags@[i].value@, p.tags@[i].source_info)))),
                ("sourceInformation"@, source_info_json(p.source_info)),
            ],
        ),
        Element::Extension(x) => JsonView::Members(
            seq![
                ("_type"@, JsonView::Text(x.element_type@)),
                ("package"@, JsonView::Text(package_text(x.package))),
                ("name"@, JsonView::Text(x.name@)),
            ],
        ),
        _ => JsonView::Members(seq![("_type"@, JsonView::Text("unknown_element"@))]),
    }
}

/// The end column an engine error reports: one less (the end made
/// inclusive), but not before the start column.
pub open spec fn reported_end_column(info: SourceInfo) -> int {
    let ec = if info.end_column > 0 {
        info.end_column - 1
    } else {
        info.end_column as int
    };
    if ec > info.start_column {
        ec
    } else {
        info.start_column as int
    }
}

/// Every location the emitter writes ends at or after its start column:
/// in a protocol source location and in an engine-error answer.
pub proof fn lemma_end_column_not_before_start(s: SourceInfo)
    ensures
        reported_end_column(s) >= s.start_column,
        s.source_id@.len() > 0 ==> source_info_json(s) == JsonView::Members(
            seq![
                ("sourceId"@, JsonView::Text(s.source_id@)),
                ("startLine"@, JsonView::Number(decimal_spec(s.start_line as nat))),
                ("startColumn"@, JsonView::Number(decimal_spec(s.start_column as nat))),
                ("endLine"@, JsonView::Number(decimal_spec(s.end_line as nat))),
                ("endColumn"@, JsonView::Number(decimal_spec(reported_end_column(s) as nat))),
            ],
        ),
{
}

/// The answer to a parse that the engine refused: the message and where.
pub open spec fn engine_error_json(msg: Seq<char>, info: SourceInfo) -> JsonView {
    JsonView::Members(
        seq![
            ("engineError"@, JsonView::Bool(true)),
            ("message"@, JsonView::Text(msg)),
            ("startLine"@, JsonView::Number(decimal_spec(info.start_line as nat))),
            ("startColumn"@, JsonView::Number(decimal_spec(info.start_column as nat))),
            ("endLine"@, JsonView::Number(decimal_spec(info.end_line as nat))),
            ("endColumn"@, JsonView::Number(decimal_spec(reported_end_column(info) as nat))),
        ],
    )
}

/// `engine_error_json`, built.
fn engine_error(msg: &String, info: &SourceInfo) -> (r: Json)
    ensures
        r.view() == engine_error_json(msg@, *info),
{
    let ec = if info.end_column > 0 {
        info.end_column - 1
    } else {
        info.end_column
    };
    let end = if ec > info.start_column {
        ec
    } else {
        info.start_column
    };
    let mut m: Vec<(String, Json)> = Vec::new();
    m.push(member("engineError", Json::Bool(true)));
    m.push(member("message", Json::String(msg.clone())));
    m.push(member("startLine", Json::Number(u64_text(info.start_line as u64))));
    m.push(member("startColumn", Json::Number(u64_text(info.start_column as u64))));
    m.push(member("endLine", Json::Number(u64_text(info.end_line as u64))));
    m.push(member("endColumn", Json::Number(u64_text(end as u64))));
    let r = object(m);
    proof {
        assert(members_view(m@) =~= match engine_error_json(msg@, *info) {
            JsonView::Members(x) => x,
            _ => Seq::empty(),
        });
    }
    r
}

/// Emits parsed elements as protocol JSON.
#[derive(Debug)]
pub struct Emitter;

impl Emitter {
    /// An emitter.
    pub fn new() -> (r: Emitter)
        ensures
            r == Emitter,
    {
        Emitter
    }

    /// Each element in protocol JSON, in order.
    pub fn emit_elements(&self, elements: &Vec<Element>) -> (r: Result<Vec<Json>, EmitError>)
        ensures
            r is Ok,
            list_view(r->Ok_0@) == Seq::new(elements@.len(), |i: int| element_json(elements@[i])),
    {
        let mut out: Vec<Json> = Vec::new();
        let mut i: usize = 0;
        while i < elements.len()
            invariant
                i <= elements@.len(),
                list_view(out@) =~= Seq::new(i as nat, |i: int| element_json(elements@[i])),
            decreases elements.len() - i,
        {
            let j = self.emit_element(&elements[i])?;
            push_json(&mut out, j);
            i = i + 1;
        }
        Ok(out)
    }

    /// An element in protocol JSON.
    pub fn emit_element(&self, element: &Element) -> (r: Result<Json, EmitError>)
        ensures
            r is Ok,
            r->Ok_0.view() == element_json(*element),
    {
        match element {
            Element::Class(c) => {
                let mut props: Vec<Json> = Vec::new();
                let mut k: usize = 0;
                while k < c.properties.len()
                    invariant
                        k <= c.properties@.len(),
                        list_view(props@) =~= Seq::new(k as nat, |i: int| property_json(c.properties@[i])),
                    decreases c.properties.len() - k,
                {
                    push_json(&mut props, self.emit_property(&c.properties[k]));
                    k = k + 1;
                }
                let mut supers: Vec<Json> = Vec::new();
                let mut k: usize = 0;
                while k < c.super_types.len()
                    invariant
                        k <= c.super_types@.len(),
                        list_view(supers@) =~= Seq::new(k as nat, |i: int| super_type_json(c.super_types@[i])),
                    decreases c.super_types.len() - k,
                {
                    push_json(&mut supers, self.emit_super_type(&c.super_types[k]));
                    k = k + 1;
                }
                let mut m: Vec<(String, Json)> = Vec::new();
                m.push(member("_type", text("class")));
                m.push(member("name", text(c.name.as_str())));
                let pkg = join(&c.package.path, "::");
                m.push(member("package", Json::String(pkg)));
                m.push(member("superTypes", array(supers)));
                m.push(member("properties", array(props)));
                m.push(member("stereotypes", array(self.emit_stereotypes(&c.stereotypes))));
                m.push(member("taggedValues", array(self.emit_tagged_values(&c.tagged_values))));
                m.push(member("sourceInformation", self.emit_source_info(&c.source_info)));
                let r = object(m);
                proof {
                    assert(members_view(m@) =~= match element_json(*element) {
                        JsonView::Members(s) => s,
                        _ => Seq::empty(),
                    });
                }
                Ok(r)
            },
            Element::Profile(p) => {
                let mut stereos: Vec<Json> = Vec::new();
                let mut k: usize = 0;
                while k < p.stereotypes.len()
                    invariant
                        k <= p.stereotypes@.len(),
                        list_view(stereos@) =~= Seq::new(k as nat, |i: int| declared_json(p.stereotypes@[i].value@, p.stereotypes@[i].source_info)),
                    decreases p.stereotypes.len() - k,
                {
                    push_json(&mut stereos, self.emit_declared(&p.stereotypes[k].value, &p.stereotypes[k].source_info));
                    k = k + 1;
                }
                let mut tags: Vec<Json> = Vec::new();
                let mut k: usize = 0;
                while k < p.tags.len()
                    invariant
                        k <= p.tags@.len(),
                        list_view(tags@) =~= Seq::new(k as nat, |i: int| declared_json(p.tags@[i].value@, p.tags@[i].source_info)),
                    decreases p.tags.len() - k,
                {
                    push_json(&mut tags, self.emit_declared(&p.tags[k].value, &p.tags[k].source_info));
                    k = k + 1;
                }
                let mut m: Vec<(String, Json)> = Vec::new();
                m.push(member("_type", text("profile")));
                m.push(member("name", text(p.name.as_str())));
                let pkg = join(&p.package.path, "::");
                m.push(member("package", Json::String(pkg)));
                m.push(member("stereotypes", array(stereos)));
                m.push(member("tags", array(tags)));
                m.push(member("sourceInformation", self.emit_source_info(&p.source_info)));
                let r = object(m);
                proof {
                    assert(members_view(m@) =~= match element_json(*element) {
                        JsonView::Members(s) => s,
                        _ => Seq::empty(),
                    });
                }
                Ok(r)
            },
            Element::Extension(x) => {
                let mut m: Vec<(String, Json)> = Vec::new();
                m.push(member("_type", text(x.element_type.as_str())));
                let pkg = join(&x.package.path, "::");
                m.push(member("package", Json::String(pkg)));
                m.push(member("name", text(x.name.as_str())));
                let r = object(m);
                proof {
                    assert(members_view(m@) =~= match element_json(*element) {
                        JsonView::Members(s) => s,
                        _ => Seq::empty(),
                    });
                }
                Ok(r)
            },
            _ => {
                let mut m: Vec<(String, Json)> = Vec::new();
                m.push(member("_type", text("unknown_element")));
                let r = object(m);
                proof {
                    assert(members_view(m@) =~= match element_json(*element) {
                        JsonView::Members(s) => s,
                        _ => Seq::empty(),
                    });
                }
                Ok(r)
            },
        }
    }

    /// A property of a class.
    fn emit_property(&self, p: &crate::ast::Property) -> (r: Json)
        ensures
            r.view() == property_json(*p),
    {
        let ty = match &p.property_type {
            Type::Packageable(t) => t.full_path.clone(),
        };
        let mut mult: Vec<(String, Json)> = Vec::new();
        mult.push(member("lowerBound", Json::Number(u64_text(p.multiplicity.lower_bound as u64))));
        let upper = match p.multiplicity.upper_bound {
            Some(u) => Json::Number(u64_text(u as u64)),
            None => Json::Null,
        };
        mult.push(member("upperBound", upper));
        let mj = object(mult);
        let mut m: Vec<(String, Json)> = Vec::new();
        m.push(member("name", text(p.name.as_str())));
        m.push(member("type", Json::String(ty)));
        m.push(member("multiplicity", mj));
        m.push(member("sourceInformation", self.emit_source_info(&p.source_info)));
        proof {
            assert(members_view(mult@) =~= match multiplicity_json(p.multiplicity) {
                JsonView::Members(s) => s,
                _ => Seq::empty(),
            });
        }
        let r = object(m);
        proof {
            assert(members_view(m@) =~= match property_json(*p) {
                JsonView::Members(s) => s,
                _ => Seq::empty(),
            });
        }
        r
    }

    /// A super type of a class.
    fn emit_super_type(&self, t: &Type) -> (r: Json)
        ensures
            r.view() == super_type_json(*t),
    {
        match t {
            Type::Packageable(p) => {
                let mut m: Vec<(String, Json)> = Vec::new();
                m.push(member("type", text("CLASS")));
                m.push(member("path", text(p.full_path.as_str())));
                m.push(member("sourceInformation", self.emit_source_info(&p.source_info)));
                let r = object(m);
                proof {
                    assert(members_view(m@) =~= match super_type_json(*t) {
                        JsonView::Members(s) => s,
                        _ => Seq::empty(),
                    });
                }
                r
            },
        }
    }

    /// A tag or stereotype declared by a profile.
    fn emit_declared(&self, value: &String, s: &SourceInfo) -> (r: Json)
        ensures
            r.view() == declared_json(value@, *s),
    {
        let mut m: Vec<(String, Json)> = Vec::new();
        m.push(member("value", text(value.as_str())));
        m.push(member("sourceInformation", self.emit_source_info(s)));
        let r = object(m);
        proof {
            assert(members_view(m@) =~= match declared_json(value@, *s) {
                JsonView::Members(x) => x,
                _ => Seq::empty(),
            });
        }
        r
    }

    /// A source location, `null` when it has no source.
    pub fn emit_source_info(&self, src: &SourceInfo) -> (r: Json)
        ensures
            r.view() == source_info_json(*src),
    {
        if src.source_id.as_str().unicode_len() == 0 {
            return Json::Null;
        }
        let end_col = if src.end_column > 0 {
            src.end_column - 1
        } else {
            src.end_column
        };
        let ec = if end_col > src.start_column {
            end_col
        } else {
            src.start_column
        };
        let mut m: Vec<(String, Json)> = Vec::new();
        m.push(member("sourceId", text(src.source_id.as_str())));
        m.push(member("startLine", Json::Number(u64_text(src.start_line as u64))));
        m.push(member("startColumn", Json::Number(u64_text(src.start_column as u64))));
        m.push(member("endLine", Json::Number(u64_text(src.end_line as u64))));
        m.push(member("endColumn", Json::Number(u64_text(ec as u64))));
        let r = object(m);
        proof {
            assert(members_view(m@) =~= match source_info_json(*src) {
                JsonView::Members(x) => x,
                _ => Seq::empty(),
            });
        }
        r
    }

    /// Stereotype applications.
    pub fn emit_stereotypes(&self, stereos: &Vec<StereotypePtr>) -> (r: Vec<Json>)
        ensures
            list_view(r@) == Seq::new(stereos@.len(), |i: int| stereotype_json(stereos@[i])),
    {
        let mut out: Vec<Json> = Vec::new();
        let mut k: usize = 0;
        while k < stereos.len()
            invariant
                k <= stereos@.len(),
                list_view(out@) =~= Seq::new(k as nat, |i: int| stereotype_json(stereos@[i])),
            decreases stereos.len() - k,
        {
            let s = &stereos[k];
            let mut m: Vec<(String, Json)> = Vec::new();
            m.push(member("profile", text(s.profile.as_str())));
            m.push(member("value", text(s.value.as_str())));
            let j = object(m);
            proof {
                assert(members_view(m@) =~= match stereotype_json(*s) {
                    JsonView::Members(x) => x,
                    _ => Seq::empty(),
                });
            }
            push_json(&mut out, j);
            k = k + 1;
        }
        out
    }

    /// Tagged values.
    pub fn emit_tagged_values(&self, tags: &Vec<TaggedValue>) -> (r: Vec<Json>)
        ensures
            list_view(r@) == Seq::new(tags@.len(), |i: int| tagged_value_json(tags@[i])),
    {
        let mut out: Vec<Json> = Vec::new();
        let mut k: usize = 0;
        while k < tags.len()
            invariant
                k <= tags@.len(),
                list_view(out@) =~= Seq::new(k as nat, |i: int| tagged_value_json(tags@[i])),
            decreases tags.len() - k,
        {
            let t = &tags[k];
            let mut tag: Vec<(String, Json)> = Vec::new();
            tag.push(member("profile", text(t.profile.as_str())));
            tag.push(member("value", text(t.tag.as_str())));
            let tj = object(tag);
            let mut m: Vec<(String, Json)> = Vec::new();
            m.push(member("tag", tj));
            m.push(member("value", text(t.value.as_str())));
            let j = object(m);
            proof {
                assert(members_view(tag@) =~= seq![("profile"@, JsonView::Text(t.profile@)), ("value"@, JsonView::Text(t.tag@))]);
                assert(members_view(m@) =~= match tagged_value_json(*t) {
                    JsonView::Members(x) => x,
                    _ => Seq::empty(),
                });
            }
            push_json(&mut out, j);
            k = k + 1;
        }
        out
    }

    /// The answer to a parse request: `{"_type": "data", "elements": [..]}`
    /// for a parsed document, the engine-error answer for an engine error;
    /// other errors get none here (their text is their debug rendering,
    /// which the caller writes).
    pub fn parse_response(&self, result: &Result<Vec<Element>, ParseError>) -> (r: Option<Json>)
        ensures
            match result {
                Ok(els) => r is Some && r->0.view() == JsonView::Members(
                    seq![
                        ("_type"@, JsonView::Text("data"@)),
                        ("elements"@, JsonView::List(Seq::new(els@.len(), |i: int| element_json(els@[i])))),
                    ],
                ),
                Err(ParseError::EngineError(msg, info)) => r is Some && r->0.view() == engine_error_json(
                    msg@,
                    *info,
                ),
                Err(_) => r is None,
            },
    {
        match result {
            Ok(els) => {
                let emitted = match self.emit_elements(els) {
                    Ok(v) => v,
                    Err(_) => {
                        return None;
                    },
                };
                let list = array(emitted);
                let mut m: Vec<(String, Json)> = Vec::new();
                m.push(member("_type", text("data")));
                m.push(member("elements", list));
                let r = object(m);
                proof {
                    assert(members_view(m@) =~= seq![
                        ("_type"@, JsonView::Text("data"@)),
                        ("elements"@, JsonView::List(Seq::new(els@.len(), |i: int| element_json(els@[i])))),
                    ]);
                }
                Some(r)
            },
            Err(ParseError::EngineError(msg, info)) => Some(engine_error(msg, info)),
            Err(_) => None,
        }
    }
}

} // verus!
