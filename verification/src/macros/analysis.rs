//! Checking the fields of a struct annotated with `mqtt_topic` against its
//! topic pattern, and pairing the pattern's wildcards with fields.
use vstd::prelude::*;

use crate::text::{append_chars, copy_string, decimal, decimal_string, owned_string, string_eq};
use crate::topic_pattern_item::{item_is_wildcard, item_name, ItemView, TopicPatternItem};
use crate::topic_pattern_path::TopicPatternPath;

verus! {

/// What the macro reads of a field's type.
#[derive(Debug, Clone, PartialEq, Eq)]
pub struct TypeShape {
    /// The last segment of a path type; `None` for any other type.
    pub last_segment: Option<String>,
    /// For a path type whose last segment carries `<...>` arguments whose
    /// first one is a path type: that argument's last segment.
    pub first_argument: Option<String>,
}

/// A named field of the annotated struct.
#[derive(Debug, Clone, PartialEq, Eq)]
pub struct FieldShape {
    /// The field's name.
    pub name: String,
    /// What the macro reads of its type.
    pub ty: TypeShape,
}

/// The mathematical content of a [`TypeShape`].
pub struct TypeView {
    pub last_segment: Option<Seq<char>>,
    pub first_argument: Option<Seq<char>>,
}

impl View for TypeShape {
    type V = TypeView;

    open spec fn view(&self) -> TypeView {
        TypeView {
            last_segment: match &self.last_segment {
                Some(s) => Some(s@),
                None => None,
            },
            first_argument: match &self.first_argument {
                Some(s) => Some(s@),
                None => None,
            },
        }
    }
}

/// The type is `Arc<inner>` (both matched by their last path segments).
pub open spec fn is_arc_of(t: TypeView, inner: Seq<char>) -> bool {
    t.last_segment == Some("Arc"@) && t.first_argument == Some(inner)
}

/// A field name that the macro fills itself.
pub open spec fn is_reserved(name: Seq<char>) -> bool {
    name == "payload"@ || name == "topic"@ || name == "meta"@
}

/// Some wildcard of the pattern is named `name`.
pub open spec fn is_param_name(items: Seq<ItemView>, name: Seq<char>) -> bool {
    exists|i: int| 0 <= i < items.len() && item_is_wildcard(#[trigger] items[i]) && item_name(items[i]) == Some(name)
}

/// The names of the named wildcards, in pattern order.
pub open spec fn wildcard_names(items: Seq<ItemView>) -> Seq<Seq<char>>
    decreases items.len(),
{
    if items.len() == 0 {
        Seq::empty()
    } else {
        let prev = wildcard_names(items.drop_last());
        match items.last() {
            ItemView::Lit(_) => prev,
            ItemView::Plus(Some(n)) => prev.push(n),
            ItemView::Hash(Some(n)) => prev.push(n),
            _ => prev,
        }
    }
}

/// The parts joined with `, `.
pub open spec fn comma_joined(parts: Seq<Seq<char>>) -> Seq<char>
    decreases parts.len(),
{
    if parts.len() == 0 {
        Seq::empty()
    } else if parts.len() == 1 {
        parts[0]
    } else {
        comma_joined(parts.drop_last()) + ", "@ + parts.last()
    }
}

/// The message for a reserved field name used as a named wildcard.
pub open spec fn reserved_wildcard_message(name: Seq<char>) -> Seq<char> {
    "topic pattern uses `{"@ + name + "}` as a named wildcard, but `"@ + name
        + "` is a reserved field name that the macro fills automatically (payload, topic, meta). Rename the wildcard, e.g. `{"@
        + name + "_id}`."@
}

/// The message for a `topic` field that is not `Arc<TopicMatch>`.
pub open spec fn topic_field_message() -> Seq<char> {
    "Field 'topic' must be of type Arc<TopicMatch>."@
}

/// For a `meta` field of type `MessageMeta` or `Arc<MessageMeta>`: whether it
/// is owned (the bare type); `None` for any other type.
pub open spec fn meta_owned(t: TypeView) -> Option<bool> {
    if is_arc_of(t, "MessageMeta"@) {
        Some(false)
    } else if t.last_segment == Some("MessageMeta"@) {
        Some(true)
    } else {
        None
    }
}

/// The message for a `meta` field of another type.
pub open spec fn meta_field_message() -> Seq<char> {
    "Field 'meta' must be of type `MessageMeta` or `Arc<MessageMeta>`."@
}

/// The message for fields that are neither reserved nor parameters.
pub open spec fn unknown_fields_message(unknown: Seq<Seq<char>>, params: Seq<Seq<char>>) -> Seq<char> {
    "Unknown fields: ["@ + comma_joined(unknown)
        + "]. Allowed fields: 'payload', 'topic', 'meta', and topic parameters: ["@ + comma_joined(params)
        + "]"@
}

/// The message for a struct without named fields.
pub open spec fn not_named_struct_message() -> Seq<char> {
    "mqtt_topic can only be applied to structs with named fields, not tuple structs or unit structs"@
}

/// Where the error of an analysis points.
#[derive(Debug, Clone, Copy, PartialEq, Eq, Structural)]
pub enum ErrorSpan {
    /// The whole struct.
    Struct,
    /// The type of the field at this position.
    FieldType(usize),
}

/// A rejected struct: where the error points and what it says.
#[derive(Debug, Clone, PartialEq, Eq)]
pub struct AnalysisError {
    /// Where the error points.
    pub span: ErrorSpan,
    /// What it says.
    pub message: String,
}

/// What the scan of the fields has found so far.
pub struct ScanState {
    pub payload_field: Option<int>,
    pub has_topic_field: bool,
    pub has_meta_field: bool,
    pub meta_field_owned: bool,
    pub unknown: Seq<Seq<char>>,
}

/// The scan before any field.
pub open spec fn scan_start() -> ScanState {
    ScanState {
        payload_field: None,
        has_topic_field: false,
        has_meta_field: false,
        meta_field_owned: false,
        unknown: Seq::empty(),
    }
}

/// One field of the scan: field `f`, at position `i`.
pub open spec fn scan_step(st: ScanState, f: FieldShape, i: int, items: Seq<ItemView>) -> Result<
    ScanState,
    (ErrorSpan, Seq<char>),
> {
    let name = f.name@;
    if name == "payload"@ || name == "topic"@ || name == "meta"@ {
        if is_param_name(items, name) {
            Err((ErrorSpan::Struct, reserved_wildcard_message(name)))
        } else if name == "payload"@ {
            Ok(ScanState { payload_field: Some(i), ..st })
        } else if name == "topic"@ {
            if is_arc_of(f.ty@, "TopicMatch"@) {
                Ok(ScanState { has_topic_field: true, ..st })
            } else {
                Err((ErrorSpan::FieldType(i as usize), topic_field_message()))
            }
        } else {
            match meta_owned(f.ty@) {
                Some(owned) => Ok(ScanState { has_meta_field: true, meta_field_owned: owned, ..st }),
                None => Err((ErrorSpan::FieldType(i as usize), meta_field_message())),
            }
        }
    } else if is_param_name(items, name) {
        Ok(st)
    } else {
        Ok(ScanState { unknown: st.unknown.push(name), ..st })
    }
}

/// The scan of the fields in order; it stops at the first error.
pub open spec fn scan_fields(fields: Seq<FieldShape>, items: Seq<ItemView>) -> Result<
    ScanState,
    (ErrorSpan, Seq<char>),
>
    decreases fields.len(),
{
    if fields.len() == 0 {
        Ok(scan_start())
    } else {
        match scan_fields(fields.drop_last(), items) {
            Err(e) => Err(e),
            Ok(st) => scan_step(st, fields.last(), fields.len() - 1, items),
        }
    }
}

/// Once the scan of a prefix of the fields fails, the scan of all of them
/// fails the same way.
proof fn lemma_scan_error_persists(fields: Seq<FieldShape>, items: Seq<ItemView>, k: int)
    requires
        0 <= k <= fields.len(),
        scan_fields(fields.take(k), items) is Err,
    ensures
        scan_fields(fields, items) == scan_fields(fields.take(k), items),
    decreases fields.len() - k,
{
    if k < fields.len() {
        assert(fields.take(k + 1).drop_last() =~= fields.take(k));
        lemma_scan_error_persists(fields, items, k + 1);
    } else {
        assert(fields.take(k) =~= fields);
    }
}

/// The last non-reserved field called `name`.
pub open spec fn field_for(fields: Seq<FieldShape>, name: Seq<char>) -> Option<int>
    decreases fields.len(),
{
    if fields.len() == 0 || is_reserved(name) {
        None
    } else if fields.last().name@ == name {
        Some(fields.len() - 1)
    } else {
        field_for(fields.drop_last(), name)
    }
}

proof fn lemma_field_for_range(fields: Seq<FieldShape>, name: Seq<char>)
    ensures
        match field_for(fields, name) {
            Some(i) => 0 <= i < fields.len() && fields[i].name@ == name && !is_reserved(name),
            None => true,
        },
    decreases fields.len(),
{
    if fields.len() > 0 && !is_reserved(name) && fields.last().name@ != name {
        lemma_field_for_range(fields.drop_last(), name);
    }
}

/// A wildcard of the pattern, as the generated code addresses it.
#[derive(Debug, Clone, PartialEq, Eq)]
pub struct TopicParam {
    /// The wildcard's name; `None` for an anonymous one.
    pub name: Option<String>,
    /// Its position among all the wildcards of the pattern.
    pub wildcard_index: usize,
    /// The field that carries it, by position among the struct's fields.
    pub struct_field: Option<usize>,
}

/// The mathematical content of a [`TopicParam`].
pub struct ParamView {
    pub name: Option<Seq<char>>,
    pub wildcard_index: int,
    pub struct_field: Option<int>,
}

impl View for TopicParam {
    type V = ParamView;

    open spec fn view(&self) -> ParamView {
        ParamView {
            name: match &self.name {
                Some(n) => Some(n@),
                None => None,
            },
            wildcard_index: self.wildcard_index as int,
            struct_field: match self.struct_field {
                Some(i) => Some(i as int),
                None => None,
            },
        }
    }
}

/// The parameters for the wildcards of the first `n` items, in order.
pub open spec fn topic_params_of(items: Seq<ItemView>, fields: Seq<FieldShape>, n: int) -> Seq<ParamView>
    decreases n,
{
    if n <= 0 {
        Seq::empty()
    } else {
        let prev = topic_params_of(items, fields, n - 1);
        if item_is_wildcard(items[n - 1]) {
            prev.push(
                ParamView {
                    name: item_name(items[n - 1]),
                    wildcard_index: prev.len() as int,
                    struct_field: match item_name(items[n - 1]) {
                        Some(nm) => field_for(fields, nm),
                        None => None,
                    },
                },
            )
        } else {
            prev
        }
    }
}

/// `field_for` gives the last non-reserved field of the name, if any.
proof fn lemma_field_for_exact(fields: Seq<FieldShape>, name: Seq<char>)
    ensures
        match field_for(fields, name) {
            Some(j) => 0 <= j < fields.len() && fields[j].name@ == name && !is_reserved(name) && forall|j2: int|
                j < j2 < fields.len() ==> (#[trigger] fields[j2]).name@ != name,
            None => is_reserved(name) || forall|j: int| 0 <= j < fields.len() ==> (#[trigger] fields[j]).name@ != name,
        },
    decreases fields.len(),
{
    if fields.len() > 0 && !is_reserved(name) {
        lemma_field_for_exact(fields.drop_last(), name);
        if fields.last().name@ != name {
            assert forall|j: int| 0 <= j < fields.len() - 1 implies fields.drop_last()[j] == fields[j] by {}
            match field_for(fields.drop_last(), name) {
                Some(j) => {
                    assert(fields.drop_last()[j] == fields[j]);
                    assert forall|j2: int| j < j2 < fields.len() implies (#[trigger] fields[j2]).name@ != name by {
                        if j2 < fields.len() - 1 {
                            assert(fields.drop_last()[j2] == fields[j2]);
                        }
                    }
                },
                None => {
                    assert forall|j: int| 0 <= j < fields.len() implies (#[trigger] fields[j]).name@ != name by {
                        if j < fields.len() - 1 {
                            assert(fields.drop_last()[j] == fields[j]);
                        }
                    }
                },
            }
        }
    }
}

/// The parameter at position `k` is the `k`-th wildcard; it carries a field
/// exactly when its wildcard (`{name}` or `{name:#}`) is named after a
/// field that the macro does not fill itself, and then the last such field.
pub open spec fn param_linked(p: ParamView, k: int, fields: Seq<FieldShape>) -> bool {
    &&& p.wildcard_index == k
    &&& match p.struct_field {
        Some(j) => 0 <= j < fields.len() && p.name == Some(fields[j].name@) && !is_reserved(fields[j].name@)
            && forall|j2: int| j < j2 < fields.len() ==> (#[trigger] fields[j2]).name@ != fields[j].name@,
        None => forall|nm: Seq<char>|
            p.name == Some(nm) && !is_reserved(nm) ==> forall|j: int|
                0 <= j < fields.len() ==> (#[trigger] fields[j]).name@ != nm,
    }
}

/// The parameters of a pattern pair each wildcard, in order, with its field:
/// every parameter is linked to the field named like its wildcard (named
/// `+` and named `#` alike), each named parameter comes from a named
/// wildcard, and every named wildcard has its parameter.
pub proof fn lemma_topic_params_link_fields(items: Seq<ItemView>, fields: Seq<FieldShape>, n: int)
    requires
        0 <= n <= items.len(),
    ensures
        forall|k: int|
            0 <= k < topic_params_of(items, fields, n).len() ==> param_linked(
                #[trigger] topic_params_of(items, fields, n)[k],
                k,
                fields,
            ),
        forall|k: int|
            0 <= k < topic_params_of(items, fields, n).len() && (#[trigger] topic_params_of(
                items,
                fields,
                n,
            )[k]).name is Some ==> exists|idx: int|
                0 <= idx < n && item_is_wildcard(#[trigger] items[idx]) && item_name(items[idx])
                    == topic_params_of(items, fields, n)[k].name,
        forall|idx: int|
            0 <= idx < n && item_is_wildcard(#[trigger] items[idx]) && item_name(items[idx]) is Some ==> exists|
                k: int,
            |
                0 <= k < topic_params_of(items, fields, n).len() && (#[trigger] topic_params_of(
                    items,
                    fields,
                    n,
                )[k]).name == item_name(items[idx]),
    decreases n,
{
    if n > 0 {
        lemma_topic_params_link_fields(items, fields, n - 1);
        let prev = topic_params_of(items, fields, n - 1);
        let ps = topic_params_of(items, fields, n);
        if item_is_wildcard(items[n - 1]) {
            assert(ps == prev.push(ps.last()));
            let p = ps.last();
            match item_name(items[n - 1]) {
                Some(nm) => {
                    lemma_field_for_exact(fields, nm);
                },
                None => {},
            }
            assert(param_linked(p, prev.len() as int, fields));
            assert forall|k: int| 0 <= k < ps.len() implies param_linked(#[trigger] ps[k], k, fields) by {
                if k < prev.len() {
                    assert(ps[k] == prev[k]);
                }
            }
            assert forall|k: int| 0 <= k < ps.len() && (#[trigger] ps[k]).name is Some implies exists|idx: int|
                0 <= idx < n && item_is_wildcard(#[trigger] items[idx]) && item_name(items[idx]) == ps[k].name by {
                if k < prev.len() {
                    assert(ps[k] == prev[k]);
                    let idx = choose|idx: int|
                        0 <= idx < n - 1 && item_is_wildcard(#[trigger] items[idx]) && item_name(items[idx])
                            == prev[k].name;
                    assert(item_is_wildcard(items[idx]));
                } else {
                    assert(item_is_wildcard(items[n - 1]));
                }
            }
            assert forall|idx: int|
                0 <= idx < n && item_is_wildcard(#[trigger] items[idx]) && item_name(items[idx]) is Some implies exists|
                k: int,
            | 0 <= k < ps.len() && (#[trigger] ps[k]).name == item_name(items[idx]) by {
                if idx < n - 1 {
                    let k = choose|k: int| 0 <= k < prev.len() && (#[trigger] prev[k]).name == item_name(items[idx]);
                    assert(ps[k] == prev[k]);
                } else {
                    assert(ps[prev.len() as int].name == item_name(items[idx]));
                }
            }
        } else {
            assert(ps == prev);
            assert forall|idx: int|
                0 <= idx < n && item_is_wildcard(#[trigger] items[idx]) && item_name(items[idx]) is Some implies exists|
                k: int,
            | 0 <= k < ps.len() && (#[trigger] ps[k]).name == item_name(items[idx]) by {
                assert(idx < n - 1);
            }
            assert forall|k: int| 0 <= k < ps.len() && (#[trigger] ps[k]).name is Some implies exists|idx: int|
                0 <= idx < n && item_is_wildcard(#[trigger] items[idx]) && item_name(items[idx]) == ps[k].name by {
                let idx = choose|idx: int|
                    0 <= idx < n - 1 && item_is_wildcard(#[trigger] items[idx]) && item_name(items[idx])
                        == prev[k].name;
                assert(item_is_wildcard(items[idx]));
            }
        }
    }
}

/// How a parameter is passed to the generated publisher methods.
#[derive(Debug, Clone, Copy, PartialEq, Eq, Structural)]
pub enum PublisherParamType {
    /// As `&str`.
    Str,
    /// With the type of the field at this position.
    Field(usize),
}

/// The name of a parameter in the generated publisher methods.
pub open spec fn publisher_param_name(p: ParamView) -> Seq<char> {
    match p.name {
        Some(n) => n,
        None => "wildcard_"@ + decimal(p.wildcard_index as nat),
    }
}

impl TopicParam {
    /// The parameter's name for publisher methods: its own, or
    /// `wildcard_<index>` for an anonymous wildcard.
    pub fn get_publisher_param_name(&self) -> (r: String)
        ensures
            r@ == publisher_param_name(self@),
    {
        match &self.name {
            Some(n) => copy_string(n),
            None => {
                let mut s = owned_string("wildcard_");
                let d = decimal_string(self.wildcard_index);
                append_chars(&mut s, d.as_str());
                s
            },
        }
    }

    /// The parameter's type for publisher methods: `&str` for a parameter
    /// without a field or with a `String` field, the field's type otherwise.
    pub fn get_publisher_param_type(&self, fields: &[FieldShape]) -> (r: PublisherParamType)
        ensures
            match self.struct_field {
                Some(i) => if i < fields.len() && fields@[i as int].ty@.last_segment != Some("String"@) {
                    r == PublisherParamType::Field(i)
                } else {
                    r == PublisherParamType::Str
                },
                None => r == PublisherParamType::Str,
            },
    {
        match self.struct_field {
            Some(i) => {
                if i < fields.len() && !last_segment_is(&fields[i].ty, "String") {
                    PublisherParamType::Field(i)
                } else {
                    PublisherParamType::Str
                }
            },
            None => PublisherParamType::Str,
        }
    }

    /// Whether a field of the struct carries the parameter.
    pub fn is_struct_field(&self) -> (r: bool)
        ensures
            r == (self.struct_field is Some),
    {
        self.struct_field.is_some()
    }

    /// Whether the wildcard is anonymous.
    pub fn is_anonymous(&self) -> (r: bool)
        ensures
            r == (self.name is None),
    {
        self.name.is_none()
    }

    /// The parameters for the wildcards of the pattern, in order, each with
    /// the non-reserved field of its name (the last one, if several).
    pub fn build_topic_params(topic_pattern: &TopicPatternPath, fields: &[FieldShape]) -> (r: Vec<
        TopicParam,
    >)
        ensures
            r@.map_values(|p: TopicParam| p@) == topic_params_of(
                topic_pattern@.items,
                fields@,
                topic_pattern@.items.len() as int,
            ),
            forall|k: int| 0 <= k < r.len() ==> param_linked(#[trigger] r@[k]@, k, fields@),
    {
        proof {
            lemma_topic_params_link_fields(topic_pattern@.items, fields@, topic_pattern@.items.len() as int);
        }
        let segs = topic_pattern.segments();
        let ghost items = topic_pattern@.items;
        let mut result: Vec<TopicParam> = Vec::new();
        let mut i: usize = 0;
        while i < segs.len()
            invariant
                i <= segs.len(),
                items == topic_pattern@.items,
                items == crate::topic_pattern_path::items_view(segs@),
                result@.map_values(|p: TopicParam| p@) == topic_params_of(items, fields@, i as int),
            decreases segs.len() - i,
        {
            let item = &segs[i];
            assert(items[i as int] == item@);
            if item.is_wildcard() {
                let name = match item.param_name() {
                    Some(n) => Some(copy_string(n)),
                    None => None,
                };
                let field = match &name {
                    Some(n) => field_position(fields, n),
                    None => None,
                };
                let ghost prev = result@.map_values(|p: TopicParam| p@);
                let p = TopicParam { name, wildcard_index: result.len(), struct_field: field };
                proof {
                    assert(p@.name == item_name(items[i as int]));
                    assert(p@.wildcard_index == prev.len());
                    assert(p@.struct_field == match item_name(items[i as int]) {
                        Some(nm) => field_for(fields@, nm),
                        None => None,
                    });
                }
                result.push(p);
                assert(result@.map_values(|p: TopicParam| p@) =~= prev.push(p@));
            }
            i += 1;
        }
        proof {
            let ps = topic_params_of(topic_pattern@.items, fields@, topic_pattern@.items.len() as int);
            assert forall|k: int| 0 <= k < result.len() implies param_linked(#[trigger] result@[k]@, k, fields@) by {
                assert(result@.map_values(|p: TopicParam| p@)[k] == result@[k]@);
                assert(param_linked(ps[k], k, fields@));
            }
        }
        result
    }
}

/// Whether the type's last segment is `name`.
fn last_segment_is(t: &TypeShape, name: &str) -> (r: bool)
    ensures
        r == (t@.last_segment == Some(name@)),
{
    match &t.last_segment {
        Some(s) => {
            let n = owned_string(name);
            string_eq(s, &n)
        },
        None => false,
    }
}

/// Whether the type's first argument is `name`.
fn first_argument_is(t: &TypeShape, name: &str) -> (r: bool)
    ensures
        r == (t@.first_argument == Some(name@)),
{
    match &t.first_argument {
        Some(s) => {
            let n = owned_string(name);
            string_eq(s, &n)
        },
        None => false,
    }
}

/// The last non-reserved field called `name`, by position.
fn field_position(fields: &[FieldShape], name: &String) -> (r: Option<usize>)
    ensures
        match field_for(fields@, name@) {
            Some(i) => r == Some(i as usize) && i < fields.len() && r->0 as int == i,
            None => r is None,
        },
{
    proof {
        lemma_field_for_range(fields@, name@);
    }
    if is_reserved_name(name) {
        return None;
    }
    let mut found: Option<usize> = None;
    let mut i: usize = 0;
    while i < fields.len()
        invariant
            i <= fields.len(),
            !is_reserved(name@),
            match field_for(fields@.take(i as int), name@) {
                Some(k) => found == Some(k as usize),
                None => found is None,
            },
        decreases fields.len() - i,
    {
        assert(fields@.take(i + 1).drop_last() =~= fields@.take(i as int));
        if string_eq(&fields[i].name, name) {
            found = Some(i);
        }
        i += 1;
    }
    assert(fields@.take(fields.len() as int) =~= fields@);
    found
}

/// Whether `name` is `payload`, `topic` or `meta`.
fn is_reserved_name(name: &String) -> (r: bool)
    ensures
        r == is_reserved(name@),
{
    text_is(name, "payload") || text_is(name, "topic") || text_is(name, "meta")
}

fn text_is(s: &String, t: &str) -> (r: bool)
    ensures
        r == (s@ == t@),
{
    let o = owned_string(t);
    string_eq(s, &o)
}

/// The mathematical content of a [`StructAnalysisContext`].
pub struct ContextView {
    pub payload_field: Option<int>,
    pub has_topic_field: bool,
    pub has_meta_field: bool,
    pub meta_field_owned: bool,
    pub topic_params: Seq<ParamView>,
}

/// What the analysis of a struct gives: its fields (`None` when it is not a
/// struct with named fields) against the pattern's items.
pub open spec fn analysis_result(fields: Option<Seq<FieldShape>>, items: Seq<ItemView>) -> Result<
    ContextView,
    (ErrorSpan, Seq<char>),
> {
    match fields {
        None => Err((ErrorSpan::Struct, not_named_struct_message())),
        Some(fs) => match scan_fields(fs, items) {
            Err(e) => Err(e),
            Ok(st) => if st.unknown.len() > 0 {
                Err((ErrorSpan::Struct, unknown_fields_message(st.unknown, wildcard_names(items))))
            } else {
                Ok(
                    ContextView {
                        payload_field: st.payload_field,
                        has_topic_field: st.has_topic_field,
                        has_meta_field: st.has_meta_field,
                        meta_field_owned: st.meta_field_owned,
                        topic_params: topic_params_of(items, fs, items.len() as int),
                    },
                )
            },
        },
    }
}

/// The validated relation between a struct and its topic pattern.
#[derive(Debug)]
pub struct StructAnalysisContext {
    /// The `payload` field, by position, if present.
    pub payload_field: Option<usize>,
    /// Whether the struct has a `topic` field (an `Arc<TopicMatch>`).
    pub has_topic_field: bool,
    /// Whether the struct has a `meta` field.
    pub has_meta_field: bool,
    /// Whether that field is the bare `MessageMeta` rather than `Arc<MessageMeta>`.
    pub meta_field_owned: bool,
    /// The pattern's wildcards, each with the field that carries it.
    pub topic_params: Vec<TopicParam>,
}

impl View for StructAnalysisContext {
    type V = ContextView;

    open spec fn view(&self) -> ContextView {
        ContextView {
            payload_field: match self.payload_field {
                Some(i) => Some(i as int),
                None => None,
            },
            has_topic_field: self.has_topic_field,
            has_meta_field: self.has_meta_field,
            meta_field_owned: self.meta_field_owned,
            topic_params: self.topic_params@.map_values(|p: TopicParam| p@),
        }
    }
}

/// Whether some wildcard item is named `name`.
fn names_a_wildcard(items: &Vec<TopicPatternItem>, name: &String) -> (r: bool)
    ensures
        r == is_param_name(crate::topic_pattern_path::items_view(items@), name@),
{
    let ghost iv = crate::topic_pattern_path::items_view(items@);
    let mut i: usize = 0;
    while i < items.len()
        invariant
            i <= items.len(),
            iv == crate::topic_pattern_path::items_view(items@),
            forall|j: int| 0 <= j < i ==> !(item_is_wildcard(#[trigger] iv[j]) && item_name(iv[j]) == Some(name@)),
        decreases items.len() - i,
    {
        assert(iv[i as int] == items@[i as int]@);
        if items[i].is_wildcard() {
            match items[i].param_name() {
                Some(n) => {
                    if string_eq(n, name) {
                        return true;
                    }
                },
                None => {},
            }
        }
        i += 1;
    }
    false
}

/// The names of the named wildcards, in pattern order.
fn wildcard_name_list(items: &Vec<TopicPatternItem>) -> (r: Vec<String>)
    ensures
        r@.map_values(|s: String| s@) == wildcard_names(crate::topic_pattern_path::items_view(items@)),
{
    let ghost iv = crate::topic_pattern_path::items_view(items@);
    let mut r: Vec<String> = Vec::new();
    let mut i: usize = 0;
    while i < items.len()
        invariant
            i <= items.len(),
            iv == crate::topic_pattern_path::items_view(items@),
            r@.map_values(|s: String| s@) == wildcard_names(iv.take(i as int)),
        decreases items.len() - i,
    {
        assert(iv.take(i + 1).drop_last() =~= iv.take(i as int));
        assert(iv.take(i + 1).last() == items@[i as int]@);
        let ghost prev = r@.map_values(|s: String| s@);
        if items[i].is_wildcard() {
            match items[i].param_name() {
                Some(n) => {
                    r.push(copy_string(n));
                    assert(r@.map_values(|s: String| s@) =~= prev.push(n@));
                },
                None => {},
            }
        }
        i += 1;
    }
    assert(iv.take(items.len() as int) =~= iv);
    r
}

/// The strings joined with `, `.
fn join_comma(parts: &Vec<String>) -> (r: String)
    ensures
        r@ == comma_joined(parts@.map_values(|s: String| s@)),
{
    let ghost ps = parts@.map_values(|s: String| s@);
    let mut r = String::new();
    let mut i: usize = 0;
    while i < parts.len()
        invariant
            i <= parts.len(),
            ps == parts@.map_values(|s: String| s@),
            r@ == comma_joined(ps.take(i as int)),
        decreases parts.len() - i,
    {
        assert(ps.take(i + 1).drop_last() =~= ps.take(i as int));
        assert(ps.take(i + 1).last() == parts@[i as int]@);
        if i > 0 {
            append_chars(&mut r, ", ");
        }
        append_chars(&mut r, parts[i].as_str());
        proof {
            if i == 0 {
                assert(r@ =~= ps.take(1)[0]);
            }
        }
        i += 1;
    }
    assert(ps.take(parts.len() as int) =~= ps);
    r
}

impl StructAnalysisContext {
    /// Checks the struct's fields against the pattern: `payload`, `topic`
    /// and `meta` are reserved (and may not name a wildcard), `topic` and
    /// `meta` must be `Arc<TopicMatch>` and `MessageMeta` or its `Arc`, and every
    /// other field must name a wildcard. `fields` is `None` when the struct
    /// has no named fields.
    pub fn analyze(fields: Option<&[FieldShape]>, topic_pattern: &TopicPatternPath) -> (r: Result<
        Self,
        AnalysisError,
    >)
        ensures
            match analysis_result(
                match fields {
                    Some(f) => Some(f@),
                    None => None,
                },
                topic_pattern@.items,
            ) {
                Ok(c) => r is Ok && r->Ok_0@ == c,
                Err(e) => r is Err && r->Err_0.span == e.0 && r->Err_0.message@ == e.1,
            },
    {
        let ghost fv = match fields {
            Some(f) => Some(f@),
            None => None::<Seq<FieldShape>>,
        };
        let fs = match fields {
            Some(f) => f,
            None => {
                return Err(
                    AnalysisError {
                        span: ErrorSpan::Struct,
                        message: owned_string(
                            "mqtt_topic can only be applied to structs with named fields, not tuple structs or unit structs",
                        ),
                    },
                );
            },
        };
        let segs = topic_pattern.segments();
        let ghost items = topic_pattern@.items;
        assert(items == crate::topic_pattern_path::items_view(segs@));
        let mut payload_field: Option<usize> = None;
        let mut has_topic_field = false;
        let mut has_meta_field = false;
        let mut meta_field_owned = false;
        let mut unknown: Vec<String> = Vec::new();
        let mut i: usize = 0;
        assert(fs@.take(0) =~= Seq::<FieldShape>::empty());
        assert(unknown@.map_values(|s: String| s@) =~= Seq::<Seq<char>>::empty());
        while i < fs.len()
            invariant
                i <= fs.len(),
                items == topic_pattern@.items,
                items == crate::topic_pattern_path::items_view(segs@),
                fv == Some(fs@),
                fv == match fields {
                    Some(f) => Some(f@),
                    None => None::<Seq<FieldShape>>,
                },
                scan_fields(fs@.take(i as int), items) == Ok::<ScanState, (ErrorSpan, Seq<char>)>(
                    ScanState {
                        payload_field: match payload_field {
                            Some(k) => Some(k as int),
                            None => None,
                        },
                        has_topic_field: has_topic_field,
                        has_meta_field: has_meta_field,
                        meta_field_owned: meta_field_owned,
                        unknown: unknown@.map_values(|s: String| s@),
                    },
                ),
            decreases fs.len() - i,
        {
            assert(fs@.take(i + 1).drop_last() =~= fs@.take(i as int));
            assert(fs@.take(i + 1).last() == fs@[i as int]);
            let name = &fs[i].name;
            let is_payload = text_is(name, "payload");
            let is_topic = text_is(name, "topic");
            let is_meta = text_is(name, "meta");
            if is_payload || is_topic || is_meta {
                if names_a_wildcard(segs, name) {
                    let mut msg = owned_string("topic pattern uses `{");
                    append_chars(&mut msg, name.as_str());
                    append_chars(&mut msg, "}` as a named wildcard, but `");
                    append_chars(&mut msg, name.as_str());
                    append_chars(
                        &mut msg,
                        "` is a reserved field name that the macro fills automatically (payload, topic, meta). Rename the wildcard, e.g. `{",
                    );
                    append_chars(&mut msg, name.as_str());
                    append_chars(&mut msg, "_id}`.");
                    proof {
                        lemma_scan_error_persists(fs@, items, i + 1);
                    }
                    return Err(AnalysisError { span: ErrorSpan::Struct, message: msg });
                }
                if is_payload {
                    payload_field = Some(i);
                } else {
                    let ty = &fs[i].ty;
                    if is_topic {
                        if !(last_segment_is(ty, "Arc") && first_argument_is(ty, "TopicMatch")) {
                            let msg = owned_string("Field 'topic' must be of type Arc<TopicMatch>.");
                            proof {
                                lemma_scan_error_persists(fs@, items, i + 1);
                            }
                            return Err(AnalysisError { span: ErrorSpan::FieldType(i), message: msg });
                        }
                        has_topic_field = true;
                    } else {
                        let owned = if last_segment_is(ty, "Arc") && first_argument_is(ty, "MessageMeta") {
                            false
                        } else if last_segment_is(ty, "MessageMeta") {
                            true
                        } else {
                            let msg = owned_string(
                                "Field 'meta' must be of type `MessageMeta` or `Arc<MessageMeta>`.",
                            );
                            proof {
                                lemma_scan_error_persists(fs@, items, i + 1);
                            }
                            return Err(AnalysisError { span: ErrorSpan::FieldType(i), message: msg });
                        };
                        has_meta_field = true;
                        meta_field_owned = owned;
                    }
                }
            } else if !names_a_wildcard(segs, name) {
                let ghost prev = unknown@.map_values(|s: String| s@);
                unknown.push(copy_string(name));
                assert(unknown@.map_values(|s: String| s@) =~= prev.push(name@));
            }
            i += 1;
        }
        assert(fs@.take(fs.len() as int) =~= fs@);
        if unknown.len() > 0 {
            let names = wildcard_name_list(segs);
            let mut msg = owned_string("Unknown fields: [");
            let a = join_comma(&unknown);
            append_chars(&mut msg, a.as_str());
            append_chars(&mut msg, "]. Allowed fields: 'payload', 'topic', 'meta', and topic parameters: [");
            let b = join_comma(&names);
            append_chars(&mut msg, b.as_str());
            append_chars(&mut msg, "]");
            return Err(AnalysisError { span: ErrorSpan::Struct, message: msg });
        }
        let topic_params = TopicParam::build_topic_params(topic_pattern, fs);
        Ok(
            StructAnalysisContext {
                payload_field,
                has_topic_field,
                has_meta_field,
                meta_field_owned,
                topic_params,
            },
        )
    }

    /// A context from its parts, with no `meta` field.
    pub fn from_components(payload_field: Option<usize>, has_topic_field: bool, topic_params: Vec<TopicParam>) -> (r:
        Self)
        ensures
            r.payload_field == payload_field,
            r.has_topic_field == has_topic_field,
            !r.has_meta_field,
            !r.meta_field_owned,
            r.topic_params == topic_params,
    {
        StructAnalysisContext {
            payload_field,
            has_topic_field,
            has_meta_field: false,
            meta_field_owned: false,
            topic_params,
        }
    }

    /// The number of wildcards.
    pub fn param_count(&self) -> (r: usize)
        ensures
            r == self.topic_params.len(),
    {
        self.topic_params.len()
    }

    /// Whether the struct has a `payload` or a `topic` field.
    pub fn has_special_fields(&self) -> (r: bool)
        ensures
            r == (self.payload_field is Some || self.has_topic_field),
    {
        self.payload_field.is_some() || self.has_topic_field
    }

    /// The names of the named wildcards, in order.
    pub fn param_names(&self) -> (r: Vec<String>)
        ensures
            r@.map_values(|s: String| s@) == named_params(self@.topic_params),
    {
        let ghost ps = self@.topic_params;
        let mut r: Vec<String> = Vec::new();
        let mut i: usize = 0;
        while i < self.topic_params.len()
            invariant
                i <= self.topic_params.len(),
                ps == self@.topic_params,
                r@.map_values(|s: String| s@) == named_params(ps.take(i as int)),
            decreases self.topic_params.len() - i,
        {
            assert(ps.take(i + 1).drop_last() =~= ps.take(i as int));
            assert(ps.take(i + 1).last() == self.topic_params@[i as int]@);
            let ghost prev = r@.map_values(|s: String| s@);
            match &self.topic_params[i].name {
                Some(n) => {
                    r.push(copy_string(n));
                    assert(r@.map_values(|s: String| s@) =~= prev.push(n@));
                },
                None => {},
            }
            i += 1;
        }
        assert(ps.take(self.topic_params.len() as int) =~= ps);
        r
    }
}

/// The names of the named parameters, in order.
pub open spec fn named_params(ps: Seq<ParamView>) -> Seq<Seq<char>>
    decreases ps.len(),
{
    if ps.len() == 0 {
        Seq::empty()
    } else {
        match ps.last().name {
            Some(n) => named_params(ps.drop_last()).push(n),
            None => named_params(ps.drop_last()),
        }
    }
}

} // verus!
