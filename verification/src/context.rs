//! The variables that an expression sees.
use crate::convert::{json_as_cel, json_to_cel};
use crate::engine::{bind, new_context, no_variables, variables};
use crate::entries::table;
use crate::error::ExprError;
use crate::template::texts;
use crate::value::{cel_entries, cel_items, cel_model, is_data, lemma_cel_items, lemma_data_is_plain};
use crate::value::{CelKey, CelModel, CelValue, JsonModel, JsonValue, KeyModel};
use std::sync::Arc;
use vstd::prelude::*;
use vstd::string::*;

verus! {

/// The part of a request that expressions may see.
#[derive(Debug, Clone)]
pub struct ExprRequestContext {
    pub principal_id: Option<String>,
    pub trust_level: String,
    pub auth_provider: Option<String>,
    pub session_id: Option<String>,
    pub transport: String,
    pub roles: Vec<String>,
    pub groups: Vec<String>,
    pub scopes: Vec<String>,
    /// Name-value pairs; where a name occurs twice, the later pair counts.
    pub attributes: Vec<(String, String)>,
}

/// All that expressions may see: built once per request.
#[derive(Debug, Clone)]
pub struct ExprContext {
    /// Tool call arguments (`arguments`, also `args`).
    pub arguments: JsonValue,
    /// Tool name (`tool_name`).
    pub tool_name: String,
    /// Request fields (`context.*`).
    pub context: ExprRequestContext,
    /// Results of earlier pipeline steps (`steps.*`), while a pipeline runs.
    pub steps: Option<JsonValue>,
    /// Environment variables taken at startup (`env.*`), as name-value pairs;
    /// where a name occurs twice, the later pair counts.
    pub env: Arc<Vec<(String, String)>>,
}

/// A request without any of the fields.
pub open spec fn is_blank(c: ExprRequestContext) -> bool {
    &&& c.principal_id is None
    &&& c.trust_level@.len() == 0
    &&& c.auth_provider is None
    &&& c.session_id is None
    &&& c.transport@.len() == 0
    &&& c.roles@.len() == 0
    &&& c.groups@.len() == 0
    &&& c.scopes@.len() == 0
    &&& c.attributes@.len() == 0
}

impl Default for ExprRequestContext {
    fn default() -> (r: Self)
        ensures
            is_blank(r),
    {
        ExprRequestContext {
            principal_id: None,
            trust_level: String::new(),
            auth_provider: None,
            session_id: None,
            transport: String::new(),
            roles: Vec::new(),
            groups: Vec::new(),
            scopes: Vec::new(),
            attributes: Vec::new(),
        }
    }
}

impl Default for ExprContext {
    fn default() -> (r: Self)
        ensures
            r.arguments@ == JsonModel::Null,
            r.tool_name@.len() == 0,
            is_blank(r.context),
            r.steps is None,
            r.env@.len() == 0,
    {
        ExprContext {
            arguments: JsonValue::Null,
            tool_name: String::new(),
            context: ExprRequestContext::default(),
            steps: None,
            env: Arc::new(Vec::new()),
        }
    }
}

/// Optional text: null where there is none.
pub open spec fn optional_text(text: Option<String>) -> CelModel {
    match text {
        Some(s) => CelModel::String(s@),
        None => CelModel::Null,
    }
}

/// A list of texts.
pub open spec fn text_list(texts: Seq<String>) -> CelModel {
    CelModel::List(Seq::new(texts.len(), |i: int| CelModel::String(texts[i]@)))
}

/// A table as a map from names to texts.
pub open spec fn text_map(t: Map<Seq<char>, Seq<char>>) -> CelModel {
    CelModel::Mapping(
        Map::new(
            |k: KeyModel| k is String && t.contains_key(k->String_0),
            |k: KeyModel| CelModel::String(t[k->String_0]),
        ),
    )
}

/// The fields of `context`.
pub open spec fn context_fields(c: ExprRequestContext) -> Map<KeyModel, CelModel> {
    Map::<KeyModel, CelModel>::empty()
        .insert(KeyModel::String("principal_id"@), optional_text(c.principal_id))
        .insert(KeyModel::String("trust_level"@), CelModel::String(c.trust_level@))
        .insert(KeyModel::String("auth_provider"@), optional_text(c.auth_provider))
        .insert(KeyModel::String("session_id"@), optional_text(c.session_id))
        .insert(KeyModel::String("transport"@), CelModel::String(c.transport@))
        .insert(KeyModel::String("roles"@), text_list(c.roles@))
        .insert(KeyModel::String("groups"@), text_list(c.groups@))
        .insert(KeyModel::String("scopes"@), text_list(c.scopes@))
        .insert(KeyModel::String("attributes"@), text_map(table(c.attributes@)))
}

/// The variables that are bound for every request.
pub open spec fn request_variables(c: ExprContext) -> Map<Seq<char>, CelModel> {
    no_variables()
        .insert("arguments"@, json_as_cel(c.arguments@))
        .insert("args"@, json_as_cel(c.arguments@))
        .insert("tool_name"@, CelModel::String(c.tool_name@))
        .insert("context"@, CelModel::Mapping(context_fields(c.context)))
        .insert("trust_level"@, CelModel::String(c.context.trust_level@))
        .insert("principal_id"@, optional_text(c.context.principal_id))
        .insert("auth_provider"@, optional_text(c.context.auth_provider))
        .insert("identity_kind"@, CelModel::String(c.context.transport@))
}

/// Every variable that an expression sees, and what it is bound to.
pub open spec fn standard_variables(c: ExprContext) -> Map<Seq<char>, CelModel> {
    let request = request_variables(c);
    let pipeline = match c.steps {
        Some(steps) => request.insert("steps"@, json_as_cel(steps@)),
        None => request,
    };
    pipeline.insert("env"@, text_map(table(c.env@)))
}

/// Whether each entry of a map is data.
spec fn data_entries(entries: Seq<(CelKey, CelValue)>) -> bool {
    forall|i: int| 0 <= i < entries.len() ==> is_data((#[trigger] entries[i]).1)
}

/// Adds an entry under a name.
fn add_entry(entries: &mut Vec<(CelKey, CelValue)>, name: &str, value: CelValue)
    requires
        is_data(value),
        data_entries(old(entries)@),
    ensures
        data_entries(final(entries)@),
        cel_entries(final(entries)@) == cel_entries(old(entries)@).insert(KeyModel::String(name@), value@),
{
    entries.push((CelKey::String(name.to_owned()), value));
    assert(entries@.drop_last() =~= old(entries)@);
}

/// Optional text as a value.
fn optional_value(text: &Option<String>) -> (r: CelValue)
    ensures
        r@ == optional_text(*text),
        is_data(r),
{
    match text {
        Some(s) => CelValue::String(s.clone()),
        None => CelValue::Null,
    }
}

/// Texts as a list.
fn text_list_value(texts: &Vec<String>) -> (r: CelValue)
    ensures
        r@ == text_list(texts@),
        is_data(r),
{
    let mut out: Vec<CelValue> = Vec::new();
    let mut i: usize = 0;
    while i < texts.len()
        invariant
            i <= texts.len(),
            out.len() == i,
            forall|k: int| 0 <= k < i ==> cel_model(#[trigger] out@[k]) == CelModel::String(texts@[k]@),
            forall|k: int| 0 <= k < i ==> is_data(#[trigger] out@[k]),
        decreases texts.len() - i,
    {
        out.push(CelValue::String(texts[i].clone()));
        i += 1;
    }
    proof {
        lemma_cel_items(out@);
        assert(cel_items(out@) =~= text_list(texts@)->List_0);
    }
    CelValue::List(out)
}

/// A table as a map.
fn text_map_value(pairs: &Vec<(String, String)>) -> (r: CelValue)
    ensures
        r@ == text_map(table(pairs@)),
        is_data(r),
{
    let mut out: Vec<(CelKey, CelValue)> = Vec::new();
    let mut i: usize = 0;
    assert(cel_entries(out@) =~= text_map(table(pairs@.take(0)))->Mapping_0);
    while i < pairs.len()
        invariant
            i <= pairs.len(),
            data_entries(out@),
            cel_entries(out@) == text_map(table(pairs@.take(i as int)))->Mapping_0,
        decreases pairs.len() - i,
    {
        let pair = &pairs[i];
        add_entry(&mut out, pair.0.as_str(), CelValue::String(pair.1.clone()));
        proof {
            assert(pairs@.take(i + 1).drop_last() =~= pairs@.take(i as int));
            let grown = text_map(table(pairs@.take(i + 1)))->Mapping_0;
            assert forall|k: KeyModel| grown.contains_key(k) implies #[trigger] grown[k] == cel_entries(out@)[k] by {
                if k->String_0 == pair.0@ {
                    assert(k == KeyModel::String(pair.0@));
                }
            }
            assert(cel_entries(out@) =~= grown);
        }
        i += 1;
    }
    assert(pairs@.take(pairs.len() as int) =~= pairs@);
    CelValue::Mapping(out)
}

/// Binds a variable to data.
fn bind_data(context: &mut cel::Context<'_, '_>, name: &str, value: &CelValue)
    requires
        is_data(*value),
    ensures
        variables(*final(context)) == variables(*old(context)).insert(name@, value@),
{
    proof {
        lemma_data_is_plain(*value);
    }
    bind(context, name, value.to_cel());
}

impl ExprContext {
    /// The value of `context`.
    fn build_context_map(&self) -> (r: CelValue)
        ensures
            r@ == CelModel::Mapping(context_fields(self.context)),
            is_data(r),
    {
        let mut map: Vec<(CelKey, CelValue)> = Vec::new();
        add_entry(&mut map, "principal_id", optional_value(&self.context.principal_id));
        add_entry(&mut map, "trust_level", CelValue::String(self.context.trust_level.clone()));
        add_entry(&mut map, "auth_provider", optional_value(&self.context.auth_provider));
        add_entry(&mut map, "session_id", optional_value(&self.context.session_id));
        add_entry(&mut map, "transport", CelValue::String(self.context.transport.clone()));
        add_entry(&mut map, "roles", text_list_value(&self.context.roles));
        add_entry(&mut map, "groups", text_list_value(&self.context.groups));
        add_entry(&mut map, "scopes", text_list_value(&self.context.scopes));
        add_entry(&mut map, "attributes", text_map_value(&self.context.attributes));
        CelValue::Mapping(map)
    }

    /// The value of `env`.
    fn build_env_map(&self) -> (r: CelValue)
        ensures
            r@ == text_map(table(self.env@)),
            is_data(r),
    {
        text_map_value(&self.env)
    }

    /// Builds the engine's context with every standard variable bound.
    /// Binding data cannot fail, so the result is never an error.
    ///
    /// The request fields are bound twice: nested under `context`, and some
    /// of them as bare aliases, for expressions written against a flat
    /// namespace.
    pub fn to_cel_context<'a>(&'a self) -> (r: Result<cel::Context<'a, 'a>, ExprError>)
        ensures
            r matches Ok(context) && variables(context) == standard_variables(*self),
    {
        let mut context: cel::Context<'a, 'a> = new_context();
        let arguments = json_to_cel(&self.arguments);
        bind_data(&mut context, "arguments", &arguments);
        bind_data(&mut context, "args", &arguments);
        bind_data(&mut context, "tool_name", &CelValue::String(self.tool_name.clone()));
        bind_data(&mut context, "context", &self.build_context_map());
        bind_data(&mut context, "trust_level", &CelValue::String(self.context.trust_level.clone()));
        bind_data(&mut context, "principal_id", &optional_value(&self.context.principal_id));
        bind_data(&mut context, "auth_provider", &optional_value(&self.context.auth_provider));
        bind_data(&mut context, "identity_kind", &CelValue::String(self.context.transport.clone()));
        if let Some(steps) = &self.steps {
            bind_data(&mut context, "steps", &json_to_cel(steps));
        }
        bind_data(&mut context, "env", &self.build_env_map());
        Ok(context)
    }
}

/// Each variable has its own part of the request, and each field of `context`
/// its own: no binding hides another.
pub proof fn law_bindings(c: ExprContext)
    ensures
        ({
            let vars = standard_variables(c);
            &&& vars["arguments"@] == json_as_cel(c.arguments@)
            &&& vars["tool_name"@] == CelModel::String(c.tool_name@)
            &&& vars["context"@] == CelModel::Mapping(context_fields(c.context))
            &&& c.steps matches Some(steps) ==> vars["steps"@] == json_as_cel(steps@)
            &&& vars["env"@] == text_map(table(c.env@))
        }),
        ({
            let fields = context_fields(c.context);
            &&& fields[KeyModel::String("principal_id"@)] == optional_text(c.context.principal_id)
            &&& fields[KeyModel::String("trust_level"@)] == CelModel::String(c.context.trust_level@)
            &&& fields[KeyModel::String("auth_provider"@)] == optional_text(c.context.auth_provider)
            &&& fields[KeyModel::String("session_id"@)] == optional_text(c.context.session_id)
            &&& fields[KeyModel::String("transport"@)] == CelModel::String(c.context.transport@)
            &&& fields[KeyModel::String("roles"@)] == text_list(c.context.roles@)
            &&& fields[KeyModel::String("groups"@)] == text_list(c.context.groups@)
            &&& fields[KeyModel::String("scopes"@)] == text_list(c.context.scopes@)
            &&& fields[KeyModel::String("attributes"@)] == text_map(table(c.context.attributes@))
        }),
{
    lemma_names();
}

/// The text of an optional string.
pub open spec fn optional_view(text: Option<String>) -> Option<Seq<char>> {
    match text {
        Some(s) => Some(s@),
        None => None,
    }
}

/// Two requests are the same field by field.
pub open spec fn same_fields(a: ExprRequestContext, b: ExprRequestContext) -> bool {
    &&& optional_view(a.principal_id) == optional_view(b.principal_id)
    &&& a.trust_level@ == b.trust_level@
    &&& optional_view(a.auth_provider) == optional_view(b.auth_provider)
    &&& optional_view(a.session_id) == optional_view(b.session_id)
    &&& a.transport@ == b.transport@
    &&& texts(a.roles@) == texts(b.roles@)
    &&& texts(a.groups@) == texts(b.groups@)
    &&& texts(a.scopes@) == texts(b.scopes@)
    &&& table(a.attributes@) == table(b.attributes@)
}

/// A list is told by its texts, in order.
proof fn lemma_text_list(a: Seq<String>, b: Seq<String>)
    requires
        texts(a) == texts(b),
    ensures
        text_list(a) == text_list(b),
{
    assert(texts(a).len() == a.len() && texts(b).len() == b.len());
    assert forall|i: int| 0 <= i < a.len() implies a[i]@ == b[i]@ by {
        assert(texts(a)[i] == a[i]@ && texts(b)[i] == b[i]@);
    }
    assert(text_list(a)->List_0 =~= text_list(b)->List_0);
}

/// `context` depends on the fields of the request alone: arguments, tool name,
/// steps and environment make no difference to it.
pub proof fn law_context_depends_on_request_alone(a: ExprContext, b: ExprContext)
    requires
        same_fields(a.context, b.context),
    ensures
        context_fields(a.context) == context_fields(b.context),
        standard_variables(a)["context"@] == standard_variables(b)["context"@],
{
    lemma_text_list(a.context.roles@, b.context.roles@);
    lemma_text_list(a.context.groups@, b.context.groups@);
    lemma_text_list(a.context.scopes@, b.context.scopes@);
    law_bindings(a);
    law_bindings(b);
}

/// `context` always has the same nine fields. One that the request does not
/// have is there and null, and a list keeps its texts, each at its place.
pub proof fn law_context_fields_are_fixed(c: ExprRequestContext)
    ensures
        context_fields(c).dom() =~= field_names(),
        c.principal_id is None ==> context_fields(c)[KeyModel::String("principal_id"@)] == CelModel::Null,
        c.auth_provider is None ==> context_fields(c)[KeyModel::String("auth_provider"@)] == CelModel::Null,
        c.session_id is None ==> context_fields(c)[KeyModel::String("session_id"@)] == CelModel::Null,
        lists_texts(context_fields(c)[KeyModel::String("roles"@)], c.roles@),
        lists_texts(context_fields(c)[KeyModel::String("groups"@)], c.groups@),
        lists_texts(context_fields(c)[KeyModel::String("scopes"@)], c.scopes@),
{
    lemma_names();
}

/// A value is a list of these texts, in this order.
pub open spec fn lists_texts(value: CelModel, all: Seq<String>) -> bool {
    &&& value matches CelModel::List(items)
    &&& items.len() == all.len()
    &&& forall|i: int| 0 <= i < all.len() ==> #[trigger] items[i] == CelModel::String(all[i]@)
}

/// The names of the fields of `context`.
pub open spec fn field_names() -> Set<KeyModel> {
    set![
        KeyModel::String("principal_id"@),
        KeyModel::String("trust_level"@),
        KeyModel::String("auth_provider"@),
        KeyModel::String("session_id"@),
        KeyModel::String("transport"@),
        KeyModel::String("roles"@),
        KeyModel::String("groups"@),
        KeyModel::String("scopes"@),
        KeyModel::String("attributes"@),
    ]
}

/// The aliases say what their full forms say: `args` is `arguments`, and
/// `trust_level`, `principal_id`, `auth_provider` and `identity_kind` are
/// fields of `context`, the last one its `transport`.
pub proof fn law_aliases(c: ExprContext)
    ensures
        ({
            let vars = standard_variables(c);
            let fields = vars["context"@]->Mapping_0;
            &&& vars["args"@] == vars["arguments"@]
            &&& vars["trust_level"@] == fields[KeyModel::String("trust_level"@)]
            &&& vars["principal_id"@] == fields[KeyModel::String("principal_id"@)]
            &&& vars["auth_provider"@] == fields[KeyModel::String("auth_provider"@)]
            &&& vars["identity_kind"@] == fields[KeyModel::String("transport"@)]
        }),
{
    lemma_names();
}

/// The variables of an expression are always the same ones, but for `steps`,
/// which is bound exactly while a pipeline runs.
pub proof fn law_bound_names(c: ExprContext)
    ensures
        standard_variables(c).dom() =~= (if c.steps is Some {
            standard_names().insert("steps"@)
        } else {
            standard_names()
        }),
        !standard_names().contains("steps"@),
{
    lemma_names();
}

/// The names that are bound for every request.
pub open spec fn standard_names() -> Set<Seq<char>> {
    set![
        "arguments"@,
        "args"@,
        "tool_name"@,
        "context"@,
        "trust_level"@,
        "principal_id"@,
        "auth_provider"@,
        "identity_kind"@,
        "env"@,
    ]
}

/// The names of variables and fields spelt out, so that they are told apart.
proof fn lemma_names()
    ensures
        "arguments"@.len() == 9 && "args"@.len() == 4 && "tool_name"@.len() == 9 && "context"@.len() == 7,
        "trust_level"@.len() == 11 && "principal_id"@.len() == 12 && "auth_provider"@.len() == 13,
        "identity_kind"@.len() == 13 && "env"@.len() == 3 && "steps"@.len() == 5,
        "session_id"@.len() == 10 && "transport"@.len() == 9 && "roles"@.len() == 5 && "groups"@.len() == 6,
        "scopes"@.len() == 6 && "attributes"@.len() == 10,
        "arguments"@[0] == 'a' && "tool_name"@[0] == 't' && "tool_name"@[1] == 'o' && "transport"@[1] == 'r',
        "auth_provider"@[0] == 'a' && "identity_kind"@[0] == 'i',
        "roles"@[0] == 'r' && "steps"@[0] == 's' && "groups"@[0] == 'g' && "scopes"@[0] == 's',
        "session_id"@[0] == 's' && "attributes"@[0] == 'a',
{
    reveal_strlit("arguments");
    reveal_strlit("args");
    reveal_strlit("tool_name");
    reveal_strlit("context");
    reveal_strlit("trust_level");
    reveal_strlit("principal_id");
    reveal_strlit("auth_provider");
    reveal_strlit("identity_kind");
    reveal_strlit("env");
    reveal_strlit("steps");
    reveal_strlit("session_id");
    reveal_strlit("transport");
    reveal_strlit("roles");
    reveal_strlit("groups");
    reveal_strlit("scopes");
    reveal_strlit("attributes");
}

/// Optional text is the text as it is, or null; a table is a map with its
/// names as keys, each with its text as it is, and with no other key.
pub proof fn law_texts_are_bound_as_they_are(
    text: String,
    t: Map<Seq<char>, Seq<char>>,
    name: Seq<char>,
    key: KeyModel,
    all: Seq<String>,
)
    ensures
        optional_text(Some(text)) == CelModel::String(text@),
        optional_text(None) == CelModel::Null,
        lists_texts(text_list(all), all),
        text_map(t) matches CelModel::Mapping(m) && {
            &&& m.contains_key(KeyModel::String(name)) == t.contains_key(name)
            &&& t.contains_key(name) ==> m[KeyModel::String(name)] == CelModel::String(t[name])
            &&& m.contains_key(key) ==> key is String
        },
{
}

/// A blank request has no names, no texts and no lists to offer.
pub proof fn law_blank_request(c: ExprRequestContext, name: Seq<char>)
    requires
        is_blank(c),
    ensures
        optional_text(c.principal_id) == CelModel::Null,
        optional_text(c.auth_provider) == CelModel::Null,
        optional_text(c.session_id) == CelModel::Null,
        c.trust_level@ == Seq::<char>::empty(),
        c.transport@ == Seq::<char>::empty(),
        text_list(c.roles@) == CelModel::List(seq![]),
        text_list(c.groups@) == CelModel::List(seq![]),
        text_list(c.scopes@) == CelModel::List(seq![]),
        !table(c.attributes@).contains_key(name),
{
    assert(c.trust_level@ =~= seq![]);
    assert(c.transport@ =~= seq![]);
    assert(text_list(c.roles@)->List_0 =~= seq![]);
    assert(text_list(c.groups@)->List_0 =~= seq![]);
    assert(text_list(c.scopes@)->List_0 =~= seq![]);
}

}
