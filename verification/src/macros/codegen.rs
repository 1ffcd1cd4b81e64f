//! What the `mqtt_topic` macro generates, planned on plain values: which
//! sides are generated, the publisher topic format and parameters, and how
//! the subscriber fills the struct.
use vstd::prelude::*;

use crate::macros::analysis::{
    publisher_param_name, FieldShape, ParamView, PublisherParamType, StructAnalysisContext, TopicParam,
};
use crate::macros::args::MacroArgs;
use crate::text::{append_chars, join_levels, owned_string, push_char};
use crate::topic_pattern_item::{item_is_wildcard, item_mqtt_text, ItemView};

verus! {

/// How the generated subscriber fills one field of the struct.
#[derive(Debug, Clone, PartialEq, Eq)]
pub enum FieldAssignment {
    /// The field of this name takes the extracted parameter of that name.
    Param(String),
    /// `payload` takes the payload.
    Payload,
    /// `topic` takes the shared match.
    Topic,
    /// `meta` takes the message metadata; `owned` for a bare `MessageMeta`.
    Meta {
        /// The field is the bare `MessageMeta`.
        owned: bool,
    },
}

/// The levels of the publisher's topic format: `{}` for a wildcard, the
/// text of a literal.
pub open spec fn format_levels(items: Seq<ItemView>) -> Seq<Seq<char>> {
    items.map_values(|i: ItemView| if item_is_wildcard(i) { "{}"@ } else { item_mqtt_text(i) })
}

/// Number of wildcards in `items`.
pub open spec fn wildcard_count(items: Seq<ItemView>) -> nat
    decreases items.len(),
{
    if items.len() == 0 {
        0
    } else {
        wildcard_count(items.drop_last()) + if item_is_wildcard(items.last()) {
            1nat
        } else {
            0nat
        }
    }
}

/// The names of the publisher parameters that fill the format, in order.
pub open spec fn format_arg_names(items: Seq<ItemView>, params: Seq<ParamView>) -> Seq<Seq<char>> {
    let n = if wildcard_count(items) < params.len() {
        wildcard_count(items) as int
    } else {
        params.len() as int
    };
    params.take(n).map_values(|p: ParamView| publisher_param_name(p))
}

/// The parameters with a field, by name and wildcard position.
pub open spec fn extractions(params: Seq<ParamView>) -> Seq<(Seq<char>, int)>
    decreases params.len(),
{
    if params.len() == 0 {
        Seq::empty()
    } else {
        let prev = extractions(params.drop_last());
        let p = params.last();
        if p.struct_field is Some {
            prev.push(
                (
                    match p.name {
                        Some(n) => n,
                        None => Seq::empty(),
                    },
                    p.wildcard_index,
                ),
            )
        } else {
            prev
        }
    }
}

/// Plans the generated code for an analysed struct and its macro arguments.
#[derive(Debug)]
pub struct CodeGenerator {
    /// The analysis of the struct.
    pub context: StructAnalysisContext,
    /// The macro arguments.
    pub macro_args: MacroArgs,
}

impl CodeGenerator {
    /// A generator for the analysis and the arguments.
    pub fn new(context: StructAnalysisContext, macro_args: MacroArgs) -> (r: Self)
        ensures
            r.context == context,
            r.macro_args == macro_args,
    {
        CodeGenerator { context, macro_args }
    }

    /// Whether the subscriber side is generated.
    pub fn should_generate_subscriber(&self) -> (r: bool)
        ensures
            r == self.macro_args.generate_subscriber,
    {
        self.macro_args.generate_subscriber
    }

    /// Whether the publisher side is generated.
    pub fn should_generate_publisher(&self) -> (r: bool)
        ensures
            r == self.macro_args.generate_publisher,
    {
        self.macro_args.generate_publisher
    }

    /// Whether the typed client is generated: never with a custom
    /// serializer, whose concrete type conflicts with the client's generic
    /// serializer.
    pub fn should_generate_typed_client(&self) -> (r: bool)
        ensures
            r == (self.macro_args.custom_serializer is None && self.macro_args.generate_typed_client),
    {
        if self.macro_args.custom_serializer.is_some() {
            return false;
        }
        self.macro_args.generate_typed_client
    }

    /// Whether the last-will helpers are generated.
    pub fn should_generate_last_will(&self) -> (r: bool)
        ensures
            r == self.macro_args.generate_last_will,
    {
        self.macro_args.generate_last_will
    }

    /// The publisher's topic format string (`{}` for each wildcard, levels
    /// joined with `/`) and the names of the parameters that fill it.
    pub fn get_topic_format_and_args(&self) -> (r: (String, Vec<String>))
        ensures
            r.0@ == join_levels(format_levels(self.macro_args.pattern@.items)),
            r.1@.map_values(|s: String| s@) == format_arg_names(
                self.macro_args.pattern@.items,
                self.context@.topic_params,
            ),
    {
        let segs = self.macro_args.pattern.segments();
        let ghost items = self.macro_args.pattern@.items;
        let ghost levels = format_levels(items);
        let ghost ps = self.context@.topic_params;
        let params = &self.context.topic_params;
        let mut format = String::new();
        let mut names: Vec<String> = Vec::new();
        let mut param_index: usize = 0;
        let mut i: usize = 0;
        while i < segs.len()
            invariant
                i <= segs.len(),
                items == self.macro_args.pattern@.items,
                items == crate::topic_pattern_path::items_view(segs@),
                levels == format_levels(items),
                ps == self.context@.topic_params,
                ps == params@.map_values(|p: TopicParam| p@),
                format@ == join_levels(levels.take(i as int)),
                param_index as int == if wildcard_count(items.take(i as int)) < ps.len() {
                    wildcard_count(items.take(i as int)) as int
                } else {
                    ps.len() as int
                },
                names@.map_values(|s: String| s@) == ps.take(param_index as int).map_values(
                    |p: ParamView| publisher_param_name(p),
                ),
            decreases segs.len() - i,
        {
            let ghost prev_levels = levels.take(i as int);
            assert(levels.take(i + 1).drop_last() =~= prev_levels);
            assert(items.take(i + 1).drop_last() =~= items.take(i as int));
            assert(items.take(i + 1).last() == segs@[i as int]@);
            if i > 0 {
                push_char(&mut format, '/');
            }
            let item = &segs[i];
            if item.is_wildcard() {
                append_chars(&mut format, "{}");
                if param_index < params.len() {
                    let ghost before = names@.map_values(|s: String| s@);
                    let n = params[param_index].get_publisher_param_name();
                    names.push(n);
                    proof {
                        assert(ps[param_index as int] == params@[param_index as int]@);
                        assert(names@.map_values(|s: String| s@) =~= before.push(
                            publisher_param_name(ps[param_index as int]),
                        ));
                        assert(ps.take(param_index + 1).map_values(|p: ParamView| publisher_param_name(p))
                            =~= ps.take(param_index as int).map_values(|p: ParamView| publisher_param_name(p)).push(
                            publisher_param_name(ps[param_index as int]),
                        ));
                    }
                    param_index += 1;
                }
            } else {
                append_chars(&mut format, item.as_str());
            }
            proof {
                let cur = levels.take(i + 1);
                assert(cur.last() == levels[i as int]);
                if i == 0 {
                    assert(format@ =~= cur[0]);
                } else {
                    assert(format@ =~= join_levels(prev_levels) + seq!['/'] + cur.last());
                }
            }
            i += 1;
        }
        assert(levels.take(segs.len() as int) =~= levels);
        assert(items.take(segs.len() as int) =~= items);
        (format, names)
    }

    /// The publisher parameters, in wildcard order: name and type.
    pub fn get_publisher_method_params(&self, fields: &[FieldShape]) -> (r: Vec<(String, PublisherParamType)>)
        ensures
            r.len() == self.context.topic_params.len(),
            forall|i: int|
                0 <= i < r.len() ==> (#[trigger] r@[i]).0@ == publisher_param_name(
                    self.context.topic_params@[i]@,
                ) && (match self.context.topic_params@[i].struct_field {
                    Some(k) => if k < fields.len() && fields@[k as int].ty@.last_segment != Some(
                        "String"@,
                    ) {
                        r@[i].1 == PublisherParamType::Field(k)
                    } else {
                        r@[i].1 == PublisherParamType::Str
                    },
                    None => r@[i].1 == PublisherParamType::Str,
                }),
    {
        let params = &self.context.topic_params;
        let mut r: Vec<(String, PublisherParamType)> = Vec::new();
        let mut i: usize = 0;
        while i < params.len()
            invariant
                i <= params.len(),
                params == self.context.topic_params,
                r.len() == i,
                forall|j: int|
                    0 <= j < i ==> (#[trigger] r@[j]).0@ == publisher_param_name(params@[j]@) && (
                    match params@[j].struct_field {
                        Some(k) => if k < fields.len() && fields@[k as int].ty@.last_segment != Some(
                            "String"@,
                        ) {
                            r@[j].1 == PublisherParamType::Field(k)
                        } else {
                            r@[j].1 == PublisherParamType::Str
                        },
                        None => r@[j].1 == PublisherParamType::Str,
                    }),
            decreases params.len() - i,
        {
            let name = params[i].get_publisher_param_name();
            let ty = params[i].get_publisher_param_type(fields);
            r.push((name, ty));
            i += 1;
        }
        r
    }

    /// The parameters the subscriber extracts from a matched topic (those
    /// with a field): name and wildcard position.
    pub fn subscriber_param_extractions(&self) -> (r: Vec<(String, usize)>)
        ensures
            r@.map_values(|e: (String, usize)| (e.0@, e.1 as int)) == extractions(self.context@.topic_params),
    {
        let params = &self.context.topic_params;
        let ghost ps = self.context@.topic_params;
        let mut r: Vec<(String, usize)> = Vec::new();
        let mut i: usize = 0;
        while i < params.len()
            invariant
                i <= params.len(),
                params == self.context.topic_params,
                ps == params@.map_values(|p: TopicParam| p@),
                r@.map_values(|e: (String, usize)| (e.0@, e.1 as int)) == extractions(ps.take(i as int)),
            decreases params.len() - i,
        {
            assert(ps.take(i + 1).drop_last() =~= ps.take(i as int));
            assert(ps.take(i + 1).last() == params@[i as int]@);
            let ghost before = r@.map_values(|e: (String, usize)| (e.0@, e.1 as int));
            if params[i].is_struct_field() {
                let name = match &params[i].name {
                    Some(n) => crate::text::copy_string(n),
                    None => String::new(),
                };
                r.push((name, params[i].wildcard_index));
                assert(r@.map_values(|e: (String, usize)| (e.0@, e.1 as int)) =~= before.push(
                    (name@, params@[i as int].wildcard_index as int),
                ));
            }
            i += 1;
        }
        assert(ps.take(params.len() as int) =~= ps);
        r
    }

    /// How the subscriber fills the struct: the parameters with a field, in
    /// wildcard order, then `payload`, `topic` and `meta` when present.
    pub fn subscriber_field_assignments(&self) -> (r: Vec<FieldAssignment>)
        ensures
            ({
                let ex = extractions(self.context@.topic_params);
                let k = ex.len() as int;
                &&& r.len() == k + (if self.context.payload_field is Some {
                    1int
                } else {
                    0int
                }) + (if self.context.has_topic_field {
                    1int
                } else {
                    0int
                }) + (if self.context.has_meta_field {
                    1int
                } else {
                    0int
                })
                &&& forall|i: int|
                    0 <= i < k ==> ((#[trigger] r@[i]) matches FieldAssignment::Param(n) && n@ == ex[i].0)
                &&& self.context.payload_field is Some ==> r@[k] == FieldAssignment::Payload
                &&& self.context.has_topic_field ==> r@[k + (if self.context.payload_field is Some {
                    1int
                } else {
                    0int
                })] == FieldAssignment::Topic
                &&& self.context.has_meta_field ==> r@[r.len() - 1] == FieldAssignment::Meta {
                    owned: self.context.meta_field_owned,
                }
            }),
    {
        let ex = self.subscriber_param_extractions();
        let ghost exv = extractions(self.context@.topic_params);
        let mut r: Vec<FieldAssignment> = Vec::new();
        let mut i: usize = 0;
        while i < ex.len()
            invariant
                i <= ex.len(),
                ex@.map_values(|e: (String, usize)| (e.0@, e.1 as int)) == exv,
                r.len() == i,
                forall|j: int| 0 <= j < i ==> ((#[trigger] r@[j]) matches FieldAssignment::Param(n) && n@ == exv[j].0),
            decreases ex.len() - i,
        {
            assert(exv[i as int] == (ex@[i as int].0@, ex@[i as int].1 as int));
            r.push(FieldAssignment::Param(crate::text::copy_string(&ex[i].0)));
            i += 1;
        }
        if self.context.payload_field.is_some() {
            r.push(FieldAssignment::Payload);
        }
        if self.context.has_topic_field {
            r.push(FieldAssignment::Topic);
        }
        if self.context.has_meta_field {
            r.push(FieldAssignment::Meta { owned: self.context.meta_field_owned });
        }
        r
    }

    /// The binding methods of the subscription builder, one per parameter:
    /// the method name `for_<name>`, the binding key `<name>`, and the type.
    pub fn for_methods(&self, fields: &[FieldShape]) -> (r: Vec<(String, String, PublisherParamType)>)
        ensures
            r.len() == self.context.topic_params.len(),
            forall|i: int|
                0 <= i < r.len() ==> (#[trigger] r@[i]).0@ == "for_"@ + publisher_param_name(
                    self.context.topic_params@[i]@,
                ) && r@[i].1@ == publisher_param_name(self.context.topic_params@[i]@),
    {
        let params = &self.context.topic_params;
        let mut r: Vec<(String, String, PublisherParamType)> = Vec::new();
        let mut i: usize = 0;
        while i < params.len()
            invariant
                i <= params.len(),
                params == self.context.topic_params,
                r.len() == i,
                forall|j: int|
                    0 <= j < i ==> (#[trigger] r@[j]).0@ == "for_"@ + publisher_param_name(params@[j]@)
                        && r@[j].1@ == publisher_param_name(params@[j]@),
            decreases params.len() - i,
        {
            let key = params[i].get_publisher_param_name();
            let mut method = owned_string("for_");
            append_chars(&mut method, key.as_str());
            let ty = params[i].get_publisher_param_type(fields);
            r.push((method, key, ty));
            i += 1;
        }
        r
    }

    /// The payload field, by position; without one the payload is raw bytes.
    pub fn get_payload_field(&self) -> (r: Option<usize>)
        ensures
            r == self.context.payload_field,
    {
        self.context.payload_field
    }
}

} // verus!
