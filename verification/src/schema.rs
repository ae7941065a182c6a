//! The schema data model: named bundles of typed field requirements, child
//! schema names and an output template, collected in a catalog keyed by name.

use vstd::prelude::*;
use vstd::string::StringExecFns;
use crate::format::{render_parts, template_parts, vars_of, FormatString};
use crate::numbers::{is_float_string, is_i32_string};
use crate::outside::yaml_doc_ok;
use crate::parser::word_run;
use crate::strutil::{chars_string, str_chars};

verus! {

/// The type of a schema field: drives the validity check of a raw value.
#[derive(Debug, Clone, Copy, PartialEq, Eq)]
pub enum FieldType {
    Text,
    Integer,
    Float,
    TagList,
}

/// Whether a raw string value satisfies a field type: text always does, an
/// integer must parse as a 32-bit signed integer, a float as a
/// floating-point number, and a tag list as a well-formed document.
pub open spec fn type_ok(ty: FieldType, value: Seq<char>) -> bool {
    match ty {
        FieldType::Text => true,
        FieldType::Integer => is_i32_string(value),
        FieldType::Float => is_float_string(value),
        FieldType::TagList => yaml_doc_ok(value),
    }
}

/// The compact name of a field type, as the schema text format writes it.
pub open spec fn type_label(ty: FieldType) -> Seq<char> {
    match ty {
        FieldType::Text => seq!['s', 't', 'r'],
        FieldType::Integer => seq!['n', 'u', 'm'],
        FieldType::Float => seq!['f', 'l', 'o'],
        FieldType::TagList => seq!['s', 't', 'r', '[', ']'],
    }
}

/// Reading a compact type name back; anything unknown reads as text.
pub open spec fn type_parse(s: Seq<char>) -> FieldType {
    if s == seq!['n', 'u', 'm'] {
        FieldType::Integer
    } else if s == seq!['f', 'l', 'o'] {
        FieldType::Float
    } else if s == seq!['s', 't', 'r', '[', ']'] {
        FieldType::TagList
    } else {
        FieldType::Text
    }
}

impl FieldType {
    /// Reads a compact type name; anything unknown reads as text.
    pub fn parse(format: &str) -> (r: FieldType)
        ensures
            r == type_parse(format@),
    {
        let v = str_chars(format);
        if v.len() == 3 && v[0] == 'n' && v[1] == 'u' && v[2] == 'm' {
            proof {
                assert(v@ =~= seq!['n', 'u', 'm']);
            }
            FieldType::Integer
        } else if v.len() == 3 && v[0] == 'f' && v[1] == 'l' && v[2] == 'o' {
            proof {
                assert(v@ =~= seq!['f', 'l', 'o']);
            }
            FieldType::Float
        } else if v.len() == 5 && v[0] == 's' && v[1] == 't' && v[2] == 'r' && v[3] == '['
            && v[4] == ']' {
            proof {
                assert(v@ =~= seq!['s', 't', 'r', '[', ']']);
            }
            FieldType::TagList
        } else {
            proof {
                assert(v@ != seq!['n', 'u', 'm']);
                assert(v@ != seq!['f', 'l', 'o']);
                assert(v@ != seq!['s', 't', 'r', '[', ']']);
            }
            FieldType::Text
        }
    }

    /// Writes the compact type name.
    pub fn to_string(&self) -> (r: String)
        ensures
            r@ == type_label(*self),
    {
        let mut v: Vec<char> = Vec::new();
        match self {
            FieldType::Text => {
                v.push('s');
                v.push('t');
                v.push('r');
                proof {
                    assert(v@ =~= seq!['s', 't', 'r']);
                }
            },
            FieldType::Integer => {
                v.push('n');
                v.push('u');
                v.push('m');
                proof {
                    assert(v@ =~= seq!['n', 'u', 'm']);
                }
            },
            FieldType::Float => {
                v.push('f');
                v.push('l');
                v.push('o');
                proof {
                    assert(v@ =~= seq!['f', 'l', 'o']);
                }
            },
            FieldType::TagList => {
                v.push('s');
                v.push('t');
                v.push('r');
                v.push('[');
                v.push(']');
                proof {
                    assert(v@ =~= seq!['s', 't', 'r', '[', ']']);
                }
            },
        }
        chars_string(&v)
    }
}

/// One declared field of a schema.
#[derive(Debug, Clone)]
pub struct Field {
    name: String,
    format: FieldType,
    forced: bool,
}

/// Specification view of a `Field`.
pub struct FieldV {
    pub name: Seq<char>,
    pub ty: FieldType,
    pub forced: bool,
}

impl View for Field {
    type V = FieldV;

    closed spec fn view(&self) -> FieldV {
        FieldV { name: self.name@, ty: self.format, forced: self.forced }
    }
}

/// The value bound to `key` among the extracted pairs; when a key occurs
/// more than once, the last occurrence wins.
pub open spec fn lookup_value(data: Seq<(Seq<char>, Seq<char>)>, key: Seq<char>) -> Option<
    Seq<char>,
>
    decreases data.len(),
{
    if data.len() == 0 {
        None
    } else if data[data.len() - 1].0 == key {
        Some(data[data.len() - 1].1)
    } else {
        lookup_value(data.take(data.len() - 1), key)
    }
}

/// One field's verdict on the extracted data: an absent field is fine
/// unless required; a present one must satisfy the type.
pub open spec fn field_fit(f: FieldV, data: Seq<(Seq<char>, Seq<char>)>) -> bool {
    match lookup_value(data, f.name) {
        None => !f.forced,
        Some(v) => type_ok(f.ty, v),
    }
}

/// Reading one compact field declaration `name[(type)][!]`: a name of word
/// characters, an optional parenthesised type, an optional `!` for required.
pub open spec fn field_format_parse(s: Seq<char>) -> Option<FieldV> {
    let w = word_run(s);
    if w == 0 {
        None
    } else {
        let name = s.take(w as int);
        let rest = s.skip(w as int);
        if rest.len() == 0 {
            Some(FieldV { name, ty: FieldType::Text, forced: false })
        } else if rest[0] == '(' {
            let w2 = word_run(rest.skip(1));
            if w2 == 0 || 1 + w2 >= rest.len() || rest[1 + w2 as int] != ')' {
                None
            } else {
                let ty = type_parse(rest.subrange(1, 1 + w2 as int));
                let rest2 = rest.skip(2 + w2 as int);
                if rest2.len() == 0 {
                    Some(FieldV { name, ty, forced: false })
                } else if rest2 == seq!['!'] {
                    Some(FieldV { name, ty, forced: true })
                } else {
                    None
                }
            }
        } else if rest == seq!['!'] {
            Some(FieldV { name, ty: FieldType::Text, forced: true })
        } else {
            None
        }
    }
}

/// Writing one compact field declaration back.
pub open spec fn field_format_of(f: FieldV) -> Seq<char> {
    f.name + (match f.ty {
        FieldType::Text => Seq::<char>::empty(),
        _ => seq!['('] + type_label(f.ty) + seq![')'],
    }) + (if f.forced {
        seq!['!']
    } else {
        Seq::<char>::empty()
    })
}

impl Field {
    /// A field declaration from its parts.
    pub fn new(name: String, format: FieldType, forced: bool) -> (r: Field)
        ensures
            r@ == (FieldV { name: name@, ty: format, forced }),
    {
        Field { name, format, forced }
    }

    /// The declared name of the field.
    pub fn get_name(&self) -> (r: &String)
        ensures
            r@ == self@.name,
    {
        &self.name
    }

    /// Whether the field is required.
    pub fn is_forced(&self) -> (r: bool)
        ensures
            r == self@.forced,
    {
        self.forced
    }

    /// Whether this field, looked up as `field`, accepts the raw value
    /// `data`: the names must agree and the value must satisfy the type.
    pub fn is_fit(&self, field: &String, data: &String) -> (r: bool)
        ensures
            r == (self@.name == field@ && type_ok(self@.ty, data@)),
    {
        let ok = match self.format {
            FieldType::Text => true,
            FieldType::Integer => crate::numbers::is_integer_value(data.as_str()),
            FieldType::Float => crate::numbers::is_float_value(data.as_str()),
            FieldType::TagList => crate::outside::yaml_parses(data.as_str()),
        };
        if !ok {
            return false;
        }
        self.name.eq(field)
    }

    /// Reads one compact field declaration.
    pub fn from_format(format: &str) -> (r: Option<Field>)
        ensures
            match r {
                Some(f) => field_format_parse(format@) == Some(f@),
                None => field_format_parse(format@) is None,
            },
    {
        let v = str_chars(format);
        proof {
            assert(v@.skip(0) =~= v@);
        }
        let we = crate::parser::scan_word(&v, 0);
        if we == 0 {
            return None;
        }
        let name = crate::parser::range_string(&v, 0, we);
        proof {
            assert(v@.take(we as int) =~= v@.subrange(0, we as int));
        }
        let ghost rest = v@.skip(we as int);
        if we == v.len() {
            proof {
                assert(rest.len() == 0);
            }
            return Some(Field { name, format: FieldType::Text, forced: false });
        }
        proof {
            assert(rest[0] == v@[we as int]);
        }
        let c = v[we];
        if c == '(' {
            let w2s = we + 1;
            let w2e = crate::parser::scan_word(&v, w2s);
            proof {
                assert(rest.skip(1) =~= v@.skip(w2s as int));
            }
            if w2e == w2s {
                return None;
            }
            if w2e >= v.len() {
                proof {
                    assert(1 + (w2e - w2s) >= rest.len());
                }
                return None;
            }
            proof {
                assert(rest[1 + (w2e - w2s) as int] == v@[w2e as int]);
            }
            if v[w2e] != ')' {
                return None;
            }
            let tys = crate::parser::range_string(&v, w2s, w2e);
            proof {
                assert(rest.subrange(1, 1 + (w2e - w2s) as int) =~= v@.subrange(
                    w2s as int,
                    w2e as int,
                ));
            }
            let ty = FieldType::parse(tys.as_str());
            let ghost rest2 = rest.skip(2 + (w2e - w2s) as int);
            proof {
                assert(rest2 =~= v@.skip(w2e as int + 1));
            }
            if w2e + 1 == v.len() {
                proof {
                    assert(rest2.len() == 0);
                }
                return Some(Field { name, format: ty, forced: false });
            }
            proof {
                assert(rest2[0] == v@[w2e as int + 1]);
            }
            if v[w2e + 1] == '!' && w2e + 2 == v.len() {
                proof {
                    assert(rest2 =~= seq!['!']);
                }
                return Some(Field { name, format: ty, forced: true });
            }
            proof {
                assert(rest2 != seq!['!']) by {
                    if rest2.len() == 1 {
                        assert(rest2[0] == v@[w2e as int + 1]);
                        assert(seq!['!'][0] == '!');
                    } else {
                        assert(rest2.len() != seq!['!'].len());
                    }
                }
            }
            return None;
        }
        if c == '!' && we + 1 == v.len() {
            proof {
                assert(rest =~= seq!['!']);
            }
            return Some(Field { name, format: FieldType::Text, forced: true });
        }
        proof {
            assert(rest != seq!['!']) by {
                if rest.len() == 1 {
                    assert(rest[0] == v@[we as int]);
                    assert(seq!['!'][0] == '!');
                } else {
                    assert(rest.len() != seq!['!'].len());
                }
            }
        }
        None
    }

    /// Writes this field as one compact declaration.
    pub fn to_format(&self) -> (r: String)
        ensures
            r@ == field_format_of(self@),
    {
        let mut out = self.name.clone();
        match self.format {
            FieldType::Text => {},
            _ => {
                crate::strutil::push_char(&mut out, '(');
                let tn = self.format.to_string();
                out.append(tn.as_str());
                crate::strutil::push_char(&mut out, ')');
            },
        }
        if self.forced {
            crate::strutil::push_char(&mut out, '!');
        }
        proof {
            assert(out@ =~= field_format_of(self@));
        }
        out
    }
}

/// A named schema: typed field requirements, child schema names in try
/// order, and an optional output template.
#[derive(Debug, Clone)]
pub struct Schema {
    pub name: String,
    pub fields: Vec<Field>,
    pub children: Vec<String>,
    pub filename: Option<String>,
}

/// Specification view of a `Schema`.
pub struct SchemaV {
    pub name: Seq<char>,
    pub fields: Seq<FieldV>,
    pub children: Seq<Seq<char>>,
    pub filename: Option<Seq<char>>,
}

impl View for Schema {
    type V = SchemaV;

    open spec fn view(&self) -> SchemaV {
        SchemaV {
            name: self.name@,
            fields: self.fields@.map_values(|f: Field| f@),
            children: self.children.deep_view(),
            filename: self.filename.deep_view(),
        }
    }
}

/// A schema with the given name and nothing else: the placeholder inserted
/// when a child is referenced before it is defined.
pub open spec fn empty_schema(name: Seq<char>) -> SchemaV {
    SchemaV { name, fields: Seq::empty(), children: Seq::empty(), filename: None }
}

/// A schema accepts the extracted data when every declared field does.
pub open spec fn schema_fit(s: SchemaV, data: Seq<(Seq<char>, Seq<char>)>) -> bool {
    forall|i: int| 0 <= i < s.fields.len() ==> field_fit(#[trigger] s.fields[i], data)
}

/// The value bound to `key`, or the empty string.
pub open spec fn lookup_or_empty(data: Seq<(Seq<char>, Seq<char>)>, key: Seq<char>) -> Seq<char> {
    match lookup_value(data, key) {
        None => Seq::empty(),
        Some(v) => v,
    }
}

/// What rendering a schema's template over the extracted data yields: each
/// template variable takes the value bound to its name, or the empty string;
/// a schema without a template renders as the empty string.
pub open spec fn schema_render(s: SchemaV, data: Seq<(Seq<char>, Seq<char>)>) -> Seq<char> {
    match s.filename {
        None => Seq::empty(),
        Some(f) => {
            let parts = template_parts(f);
            render_parts(parts, vars_of(parts).map_values(|v| lookup_or_empty(data, v)), 0)
        },
    }
}

/// The value bound to `key` among the pairs, the last occurrence winning.
pub fn lookup_last<'a>(data: &'a Vec<(String, String)>, key: &String) -> (r: Option<&'a String>)
    ensures
        match r {
            Some(v) => lookup_value(data.deep_view(), key@) == Some(v@),
            None => lookup_value(data.deep_view(), key@) is None,
        },
{
    let ghost dv = data.deep_view();
    let mut k: usize = data.len();
    proof {
        assert(dv.take(dv.len() as int) =~= dv);
    }
    while k > 0
        invariant
            k <= data.len(),
            dv == data.deep_view(),
            dv.len() == data.len(),
            lookup_value(dv, key@) == lookup_value(dv.take(k as int), key@),
        decreases k,
    {
        proof {
            assert(dv.take(k as int)[k - 1] == dv[k - 1]);
            assert(dv[k - 1].0 == data@[k - 1].0@);
            assert(dv[k - 1].1 == data@[k - 1].1@);
        }
        if data[k - 1].0.eq(key) {
            return Some(&data[k - 1].1);
        }
        proof {
            assert(dv.take(k as int).take(k - 1 as int) =~= dv.take(k - 1 as int));
        }
        k = k - 1;
    }
    proof {
        assert(dv.take(0) =~= Seq::<(Seq<char>, Seq<char>)>::empty());
    }
    None
}

impl Schema {
    /// A fresh schema with the given name and nothing else.
    pub fn new(name: String) -> (r: Schema)
        ensures
            r@ == empty_schema(name@),
    {
        let r = Schema { name, fields: Vec::new(), children: Vec::new(), filename: None };
        proof {
            assert(r@.fields =~= Seq::<FieldV>::empty());
            assert(r@.children =~= Seq::<Seq<char>>::empty());
        }
        r
    }

    /// Whether every declared field accepts the extracted data: a required
    /// field must be present, and a present field must satisfy its type.
    /// Fields present in the data but not declared here are ignored.
    pub fn is_fit(&self, data: &Vec<(String, String)>) -> (r: bool)
        ensures
            r == schema_fit(self@, data.deep_view()),
    {
        let ghost dv = data.deep_view();
        let mut i: usize = 0;
        while i < self.fields.len()
            invariant
                i <= self.fields.len(),
                dv == data.deep_view(),
                self@.fields.len() == self.fields.len(),
                forall|k: int| 0 <= k < i ==> field_fit(#[trigger] self@.fields[k], dv),
            decreases self.fields.len() - i,
        {
            let f = &self.fields[i];
            proof {
                assert(self@.fields[i as int] == f@);
            }
            match lookup_last(data, f.get_name()) {
                Some(value) => {
                    if !f.is_fit(f.get_name(), value) {
                        proof {
                            assert(!field_fit(self@.fields[i as int], dv));
                        }
                        return false;
                    }
                },
                None => {
                    if f.is_forced() {
                        proof {
                            assert(!field_fit(self@.fields[i as int], dv));
                        }
                        return false;
                    }
                },
            }
            i += 1;
        }
        true
    }

    /// Renders this schema's template over the extracted data; a schema
    /// without a template renders as the empty string, and so does every
    /// template variable with no bound value.
    pub fn generate_string(&self, data: &Vec<(String, String)>) -> (r: String)
        ensures
            r@ == schema_render(self@, data.deep_view()),
    {
        let filename = match &self.filename {
            None => {
                return String::new();
            },
            Some(f) => f,
        };
        let ghost dv = data.deep_view();
        let fmt = FormatString::parse(filename.as_str());
        let ghost parts = template_parts(filename@);
        let ghost varseq = vars_of(parts);
        let ghost mapped = varseq.map_values(|v| lookup_or_empty(dv, v));
        proof {
            assert(fmt.vars.deep_view() == varseq);
            assert(fmt.vars.deep_view().len() == fmt.vars@.len());
        }
        let mut vals: Vec<String> = Vec::new();
        let mut j: usize = 0;
        while j < fmt.vars.len()
            invariant
                j <= fmt.vars.len(),
                dv == data.deep_view(),
                fmt.vars.deep_view() == varseq,
                varseq.len() == fmt.vars.len(),
                mapped == varseq.map_values(|v| lookup_or_empty(dv, v)),
                vals@.len() == j,
                forall|k: int| 0 <= k < j ==> vals.deep_view()[k] == #[trigger] mapped[k],
            decreases fmt.vars.len() - j,
        {
            let var = &fmt.vars[j];
            proof {
                assert(varseq[j as int] == var@);
            }
            match lookup_last(data, var) {
                Some(v) => {
                    vals.push(v.clone());
                },
                None => {
                    vals.push(String::new());
                },
            }
            j += 1;
        }
        proof {
            assert(vals.deep_view() =~= mapped);
        }
        let out = fmt.generate_string(&vals);
        proof {
            assert(fmt.parts_view() == parts);
        }
        out
    }
}

/// The catalog: named schema definitions, in insertion order, names unique.
#[derive(Debug)]
pub struct SchemaList {
    pub list: Vec<Schema>,
}

impl View for SchemaList {
    type V = Seq<SchemaV>;

    open spec fn view(&self) -> Seq<SchemaV> {
        self.list@.map_values(|s: Schema| s@)
    }
}

/// The first schema of the given name in the catalog.
pub open spec fn catalog_lookup(cat: Seq<SchemaV>, name: Seq<char>) -> Option<SchemaV>
    decreases cat.len(),
{
    if cat.len() == 0 {
        None
    } else if cat[0].name == name {
        Some(cat[0])
    } else {
        catalog_lookup(cat.drop_first(), name)
    }
}

/// Index of the first schema of the given name, or -1.
pub open spec fn catalog_index(cat: Seq<SchemaV>, name: Seq<char>) -> int
    decreases cat.len(),
{
    if cat.len() == 0 {
        -1
    } else if cat[0].name == name {
        0
    } else {
        let r = catalog_index(cat.drop_first(), name);
        if r < 0 {
            -1
        } else {
            1 + r
        }
    }
}

pub proof fn lemma_catalog_index(cat: Seq<SchemaV>, name: Seq<char>)
    ensures
        catalog_index(cat, name) < 0 ==> catalog_lookup(cat, name) is None,
        catalog_index(cat, name) >= 0 ==> 0 <= catalog_index(cat, name) < cat.len()
            && cat[catalog_index(cat, name)].name == name && catalog_lookup(cat, name) == Some(
            cat[catalog_index(cat, name)],
        ),
    decreases cat.len(),
{
    if cat.len() > 0 && cat[0].name != name {
        lemma_catalog_index(cat.drop_first(), name);
    }
}

/// Defining a schema under a name that already exists replaces the existing
/// entry in place; a new name is appended.
pub open spec fn catalog_upsert(cat: Seq<SchemaV>, sch: SchemaV) -> Seq<SchemaV> {
    let i = catalog_index(cat, sch.name);
    if i < 0 {
        cat.push(sch)
    } else {
        cat.update(i, sch)
    }
}

impl SchemaList {
    /// An empty catalog.
    pub fn new() -> (r: SchemaList)
        ensures
            r@ == Seq::<SchemaV>::empty(),
    {
        let r = SchemaList { list: Vec::new() };
        proof {
            assert(r@ =~= Seq::<SchemaV>::empty());
        }
        r
    }

    /// The schema of the given name, if the catalog holds one.
    pub fn get<'a>(&'a self, name: &str) -> (r: Option<&'a Schema>)
        ensures
            match r {
                Some(s) => catalog_lookup(self@, name@) == Some(s@),
                None => catalog_lookup(self@, name@) is None,
            },
    {
        let ghost cat = self@;
        let mut i: usize = 0;
        proof {
            assert(cat.skip(0) =~= cat);
        }
        while i < self.list.len()
            invariant
                i <= self.list.len(),
                cat == self@,
                cat.len() == self.list.len(),
                catalog_lookup(cat, name@) == catalog_lookup(cat.skip(i as int), name@),
            decreases self.list.len() - i,
        {
            proof {
                assert(cat.skip(i as int)[0] == cat[i as int]);
                assert(cat.skip(i as int).drop_first() =~= cat.skip(i as int + 1));
            }
            if crate::strutil::str_eq_str(self.list[i].name.as_str(), name) {
                return Some(&self.list[i]);
            }
            i += 1;
        }
        proof {
            assert(cat.skip(i as int) =~= Seq::<SchemaV>::empty());
        }
        None
    }

    /// Whether the catalog holds a schema of the given name.
    fn has(&self, name: &str) -> (r: bool)
        ensures
            r == (catalog_lookup(self@, name@) is Some),
    {
        match self.get(name) {
            Some(_) => true,
            None => false,
        }
    }

    /// Inserts a placeholder for a name that is referenced but not defined.
    fn insert_empty(&mut self, name: String)
        ensures
            final(self)@ == old(self)@.push(empty_schema(name@)),
    {
        let ghost oldcat = self@;
        self.list.push(Schema::new(name));
        proof {
            assert(self@ =~= oldcat.push(empty_schema(name@)));
        }
    }

    /// Replaces the schema of the same name in place, or appends.
    fn upsert(&mut self, schema: Schema)
        ensures
            final(self)@ == catalog_upsert(old(self)@, schema@),
    {
        let ghost cat = self@;
        let ghost target = schema@;
        proof {
            lemma_catalog_index(cat, target.name);
        }
        let mut i: usize = 0;
        while i < self.list.len()
            invariant
                i <= self.list.len(),
                cat == self@,
                cat == old(self)@,
                cat.len() == self.list.len(),
                target == schema@,
                forall|k: int| 0 <= k < i ==> (#[trigger] cat[k]).name != target.name,
            decreases self.list.len() - i,
        {
            if crate::strutil::str_eq_str(self.list[i].name.as_str(), schema.name.as_str()) {
                proof {
                    lemma_catalog_index_first(cat, target.name, i as int);
                }
                self.list[i] = schema;
                proof {
                    assert(catalog_index(cat, target.name) == i as int);
                    assert(catalog_upsert(cat, target) == cat.update(i as int, target));
                    assert(self@ =~= cat.update(i as int, target));
                    assert(self@ == catalog_upsert(cat, target));
                }
                return;
            }
            i += 1;
        }
        proof {
            assert forall|idx: int| 0 <= idx < cat.len() implies cat[idx].name != target.name by {
                assert(cat[idx].name != target.name);
            }
            lemma_catalog_index_none(cat, target.name);
        }
        let ghost oldcat = self@;
        self.list.push(schema);
        proof {
            assert(self@ =~= oldcat.push(target));
        }
    }
}

/// When no entry bears the name, the index is negative.
proof fn lemma_catalog_index_none(cat: Seq<SchemaV>, name: Seq<char>)
    requires
        forall|k: int| 0 <= k < cat.len() ==> (#[trigger] cat[k]).name != name,
    ensures
        catalog_index(cat, name) < 0,
    decreases cat.len(),
{
    if cat.len() > 0 {
        assert(cat[0].name != name);
        assert(forall|k: int| 0 <= k < cat.drop_first().len() ==> (#[trigger] cat.drop_first()[k])
            == cat[k + 1]);
        lemma_catalog_index_none(cat.drop_first(), name);
    }
}

/// The first index whose entry bears the name is the catalog index.
proof fn lemma_catalog_index_first(cat: Seq<SchemaV>, name: Seq<char>, i: int)
    requires
        0 <= i < cat.len(),
        cat[i].name == name,
        forall|k: int| 0 <= k < i ==> (#[trigger] cat[k]).name != name,
    ensures
        catalog_index(cat, name) == i,
    decreases i,
{
    if i == 0 {
    } else {
        assert(cat[0].name != name);
        assert(forall|k: int| 0 <= k < cat.drop_first().len() ==> (#[trigger] cat.drop_first()[k])
            == cat[k + 1]);
        lemma_catalog_index_first(cat.drop_first(), name, i - 1);
    }
}

/// Length of the run before the first occurrence of `c`.
pub open spec fn until_char(s: Seq<char>, c: char) -> nat
    decreases s.len(),
{
    if s.len() == 0 {
        0nat
    } else if s[0] == c {
        0nat
    } else {
        (1 + until_char(s.drop_first(), c)) as nat
    }
}

proof fn lemma_until_char(s: Seq<char>, c: char, j: int)
    requires
        0 <= j <= s.len(),
        forall|k: int| 0 <= k < j ==> #[trigger] s[k] != c,
        j == s.len() || s[j] == c,
    ensures
        until_char(s, c) == j,
    decreases j,
{
    if j > 0 {
        assert(forall|k: int| 0 <= k < s.drop_first().len() ==> #[trigger] s.drop_first()[k]
            == s[k + 1]);
        lemma_until_char(s.drop_first(), c, j - 1);
    }
}

/// Count of trailing spaces and tabs.
pub open spec fn trailing_blanks(s: Seq<char>) -> nat
    decreases s.len(),
{
    if s.len() > 0 && (s[s.len() - 1] == ' ' || s[s.len() - 1] == '\t') {
        (1 + trailing_blanks(s.take(s.len() - 1))) as nat
    } else {
        0nat
    }
}

proof fn lemma_trailing_blanks(s: Seq<char>, n: int)
    requires
        0 <= n <= s.len(),
        forall|k: int| s.len() - n <= k < s.len() ==> #[trigger] s[k] == ' ' || s[k] == '\t',
        n == s.len() || !(s[s.len() - n - 1] == ' ' || s[s.len() - n - 1] == '\t'),
    ensures
        trailing_blanks(s) == n,
    decreases n,
{
    if n > 0 {
        let pre = s.take(s.len() - 1);
        assert(forall|k: int| 0 <= k < pre.len() ==> #[trigger] pre[k] == s[k]);
        lemma_trailing_blanks(pre, n - 1);
    }
}

/// A string with leading and trailing spaces and tabs removed.
pub open spec fn trim_spaces(s: Seq<char>) -> Seq<char> {
    let f = crate::parser::space_run(s);
    let m = s.skip(f as int);
    m.take(m.len() - trailing_blanks(m))
}

/// Index of the first declared field of the given name, or -1.
pub open spec fn field_index(fs: Seq<FieldV>, name: Seq<char>) -> int
    decreases fs.len(),
{
    if fs.len() == 0 {
        -1
    } else if fs[0].name == name {
        0
    } else {
        let r = field_index(fs.drop_first(), name);
        if r < 0 {
            -1
        } else {
            1 + r
        }
    }
}

/// Declaring a field under a name that was already declared replaces the
/// earlier declaration in place; a new name is appended.
pub open spec fn upsert_field(fs: Seq<FieldV>, f: FieldV) -> Seq<FieldV> {
    let i = field_index(fs, f.name);
    if i < 0 {
        fs.push(f)
    } else {
        fs.update(i, f)
    }
}

pub(crate) proof fn lemma_field_index_none(fs: Seq<FieldV>, name: Seq<char>)
    requires
        forall|k: int| 0 <= k < fs.len() ==> (#[trigger] fs[k]).name != name,
    ensures
        field_index(fs, name) < 0,
    decreases fs.len(),
{
    if fs.len() > 0 {
        assert(forall|k: int| 0 <= k < fs.drop_first().len() ==> (#[trigger] fs.drop_first()[k])
            == fs[k + 1]);
        lemma_field_index_none(fs.drop_first(), name);
    }
}

pub(crate) proof fn lemma_field_index_first(fs: Seq<FieldV>, name: Seq<char>, i: int)
    requires
        0 <= i < fs.len(),
        fs[i].name == name,
        forall|k: int| 0 <= k < i ==> (#[trigger] fs[k]).name != name,
    ensures
        field_index(fs, name) == i,
    decreases i,
{
    if i > 0 {
        assert(forall|k: int| 0 <= k < fs.drop_first().len() ==> (#[trigger] fs.drop_first()[k])
            == fs[k + 1]);
        lemma_field_index_first(fs.drop_first(), name, i - 1);
    }
}

/// Reading the space-separated field declarations of one token run:
/// malformed tokens are dropped, and a repeated name keeps the last
/// declaration in the first declaration's place.
pub open spec fn parse_fields_from(s: Seq<char>, acc: Seq<FieldV>) -> Seq<FieldV>
    decreases s.len(),
{
    let w = until_char(s, ' ');
    let tok = s.take(w as int);
    let acc2 = match field_format_parse(tok) {
        None => acc,
        Some(f) => upsert_field(acc, f),
    };
    if w < s.len() {
        parse_fields_from(s.skip(w as int + 1), acc2)
    } else {
        acc2
    }
}

/// Reading the space-separated child names of one token run: empty tokens
/// are dropped, every name is recorded in order (repeats kept), and a name
/// the catalog does not know yet gets a placeholder entry.
pub open spec fn parse_children_from(
    s: Seq<char>,
    kids: Seq<Seq<char>>,
    cat: Seq<SchemaV>,
) -> (Seq<Seq<char>>, Seq<SchemaV>)
    decreases s.len(),
{
    let w = until_char(s, ' ');
    let tok = s.take(w as int);
    let kc = if tok.len() == 0 {
        (kids, cat)
    } else {
        (
            kids.push(tok),
            if catalog_lookup(cat, tok) is Some {
                cat
            } else {
                cat.push(empty_schema(tok))
            },
        )
    };
    if w < s.len() {
        parse_children_from(s.skip(w as int + 1), kc.0, kc.1)
    } else {
        kc
    }
}

/// What defining a schema from its compact text format does to the catalog:
/// the format is `fields | children | template`, and without at least one
/// pipe nothing happens.  Tokens past the third pipe are ignored.
pub open spec fn parse_format_spec(cat: Seq<SchemaV>, name: Seq<char>, s: Seq<char>) -> Option<
    Seq<SchemaV>,
> {
    let p1 = until_char(s, '|');
    if p1 >= s.len() {
        None
    } else {
        let t1 = s.take(p1 as int);
        let rest1 = s.skip(p1 as int + 1);
        let fields = parse_fields_from(t1, Seq::empty());
        let p2 = until_char(rest1, '|');
        let t2 = rest1.take(p2 as int);
        let kc = parse_children_from(t2, Seq::empty(), cat);
        let filename = if p2 < rest1.len() {
            let rest2 = rest1.skip(p2 as int + 1);
            let t3 = rest2.take(until_char(rest2, '|') as int);
            let tr = trim_spaces(t3);
            if tr.len() == 0 {
                Option::<Seq<char>>::None
            } else {
                Some(tr)
            }
        } else {
            Option::<Seq<char>>::None
        };
        Some(catalog_upsert(kc.1, SchemaV { name, fields, children: kc.0, filename }))
    }
}

/// Reading field declarations given as a list of tokens.
pub open spec fn parse_fields_list(toks: Seq<Seq<char>>, acc: Seq<FieldV>) -> Seq<FieldV>
    decreases toks.len(),
{
    if toks.len() == 0 {
        acc
    } else {
        let acc2 = match field_format_parse(toks[0]) {
            None => acc,
            Some(f) => upsert_field(acc, f),
        };
        parse_fields_list(toks.drop_first(), acc2)
    }
}

/// Recording child names given as a list of tokens: every entry is kept,
/// and unknown names get placeholder entries.
pub open spec fn add_children_list(toks: Seq<Seq<char>>, cat: Seq<SchemaV>) -> Seq<SchemaV>
    decreases toks.len(),
{
    if toks.len() == 0 {
        cat
    } else {
        let cat2 = if catalog_lookup(cat, toks[0]) is Some {
            cat
        } else {
            cat.push(empty_schema(toks[0]))
        };
        add_children_list(toks.drop_first(), cat2)
    }
}

/// What defining a schema from an already-split configuration fragment does
/// to the catalog.
pub open spec fn parse_config_spec(
    cat: Seq<SchemaV>,
    name: Seq<char>,
    item: crate::config::ItemV,
) -> Seq<SchemaV> {
    let fields = parse_fields_list(item.fields, Seq::empty());
    let cat2 = add_children_list(item.children, cat);
    Some(catalog_upsert(
        cat2,
        SchemaV { name, fields, children: item.children, filename: item.filename },
    ))->0
}

/// The schemas that a list of names resolves to, unknown names dropped.
pub open spec fn resolve_names(cat: Seq<SchemaV>, names: Seq<Seq<char>>) -> Seq<SchemaV>
    decreases names.len(),
{
    if names.len() == 0 {
        Seq::empty()
    } else {
        (match catalog_lookup(cat, names[0]) {
            None => Seq::<SchemaV>::empty(),
            Some(sch) => seq![sch],
        }) + resolve_names(cat, names.drop_first())
    }
}

/// Scan to the first occurrence of `stop` in `v[pos..to]`.
pub(crate) fn scan_to(v: &Vec<char>, pos: usize, to: usize, stop: char) -> (end: usize)
    requires
        pos <= to <= v@.len(),
    ensures
        pos <= end <= to,
        until_char(v@.subrange(pos as int, to as int), stop) == (end - pos) as nat,
        end < to ==> v@[end as int] == stop,
{
    let ghost sub = v@.subrange(pos as int, to as int);
    let mut e: usize = pos;
    while e < to && v[e] != stop
        invariant
            pos <= e <= to <= v@.len(),
            sub == v@.subrange(pos as int, to as int),
            forall|k: int| pos <= k < e ==> #[trigger] v@[k] != stop,
        decreases to - e,
    {
        e += 1;
    }
    proof {
        assert(forall|k: int| 0 <= k < e - pos ==> #[trigger] sub[k] == v@[k + pos]);
        lemma_until_char(sub, stop, e - pos as int);
    }
    e
}

/// Replaces the field of the same name in place, or appends.
fn upsert_field_exec(fs: &mut Vec<Field>, f: Field)
    ensures
        final(fs)@.map_values(|x: Field| x@) == upsert_field(
            old(fs)@.map_values(|x: Field| x@),
            f@,
        ),
{
    let ghost fv = fs@.map_values(|x: Field| x@);
    let ghost target = f@;
    let mut i: usize = 0;
    while i < fs.len()
        invariant
            i <= fs.len(),
            fv == fs@.map_values(|x: Field| x@),
            fv == old(fs)@.map_values(|x: Field| x@),
            fv.len() == fs.len(),
            target == f@,
            forall|k: int| 0 <= k < i ==> (#[trigger] fv[k]).name != target.name,
        decreases fs.len() - i,
    {
        proof {
            assert(fv[i as int] == fs@[i as int]@);
        }
        if crate::strutil::str_eq_str(fs[i].get_name().as_str(), f.get_name().as_str()) {
            proof {
                lemma_field_index_first(fv, target.name, i as int);
            }
            fs[i] = f;
            proof {
                assert(fs@.map_values(|x: Field| x@) =~= fv.update(i as int, target));
            }
            return;
        }
        i += 1;
    }
    proof {
        lemma_field_index_none(fv, target.name);
    }
    fs.push(f);
    proof {
        assert(fs@.map_values(|x: Field| x@) =~= fv.push(target));
    }
}

/// Reads the space-separated field declarations in `v[from..to]`.
fn parse_fields_range(v: &Vec<char>, from: usize, to: usize) -> (r: Vec<Field>)
    requires
        from <= to <= v@.len(),
    ensures
        r@.map_values(|x: Field| x@) == parse_fields_from(
            v@.subrange(from as int, to as int),
            Seq::empty(),
        ),
{
    let ghost full = v@.subrange(from as int, to as int);
    let mut acc: Vec<Field> = Vec::new();
    let mut cur: usize = from;
    proof {
        assert(acc@.map_values(|x: Field| x@) =~= Seq::<FieldV>::empty());
        assert(full =~= v@.subrange(from as int, to as int));
    }
    loop
        invariant
            from <= cur <= to <= v@.len(),
            full == v@.subrange(from as int, to as int),
            parse_fields_from(full, Seq::empty()) == parse_fields_from(
                v@.subrange(cur as int, to as int),
                acc@.map_values(|x: Field| x@),
            ),
        decreases to - cur + 1,
    {
        let ghost rem = v@.subrange(cur as int, to as int);
        let ghost accv = acc@.map_values(|x: Field| x@);
        let e = scan_to(v, cur, to, ' ');
        proof {
            assert(rem.take((e - cur) as int) =~= v@.subrange(cur as int, e as int));
        }
        let tok = crate::parser::range_string(v, cur, e);
        let parsed = Field::from_format(tok.as_str());
        match parsed {
            Some(f) => {
                upsert_field_exec(&mut acc, f);
            },
            None => {},
        }
        if e < to {
            proof {
                assert(rem.skip((e - cur) as int + 1) =~= v@.subrange(e as int + 1, to as int));
            }
            cur = e + 1;
        } else {
            proof {
                assert((e - cur) as nat >= rem.len());
            }
            return acc;
        }
    }
}

impl SchemaList {
    /// Records the space-separated child names in `v[from..to]`: inserts a
    /// placeholder for each unknown name and returns the names in order.
    fn add_children_range(&mut self, v: &Vec<char>, from: usize, to: usize) -> (kids: Vec<String>)
        requires
            from <= to <= v@.len(),
        ensures
            kids.deep_view() == parse_children_from(
                v@.subrange(from as int, to as int),
                Seq::empty(),
                old(self)@,
            ).0,
            final(self)@ == parse_children_from(
                v@.subrange(from as int, to as int),
                Seq::empty(),
                old(self)@,
            ).1,
    {
        let ghost full = v@.subrange(from as int, to as int);
        let ghost cat0 = self@;
        let mut kids: Vec<String> = Vec::new();
        let mut cur: usize = from;
        proof {
            assert(kids.deep_view() =~= Seq::<Seq<char>>::empty());
        }
        loop
            invariant
                from <= cur <= to <= v@.len(),
                full == v@.subrange(from as int, to as int),
                cat0 == old(self)@,
                parse_children_from(full, Seq::empty(), cat0) == parse_children_from(
                    v@.subrange(cur as int, to as int),
                    kids.deep_view(),
                    self@,
                ),
            decreases to - cur + 1,
        {
            let ghost rem = v@.subrange(cur as int, to as int);
            let ghost kv = kids.deep_view();
            let ghost cv = self@;
            let e = scan_to(v, cur, to, ' ');
            proof {
                assert(rem.take((e - cur) as int) =~= v@.subrange(cur as int, e as int));
            }
            if e > cur {
                let tok = crate::parser::range_string(v, cur, e);
                if !self.has(tok.as_str()) {
                    self.insert_empty(tok.clone());
                }
                let ghost pre_kids = kids.deep_view();
                kids.push(tok);
                proof {
                    assert(kids.deep_view() =~= pre_kids.push(rem.take((e - cur) as int)));
                }
            } else {
                proof {
                    assert(rem.take((e - cur) as int).len() == 0);
                }
            }
            if e < to {
                proof {
                    assert(rem.skip((e - cur) as int + 1) =~= v@.subrange(e as int + 1, to as int));
                }
                cur = e + 1;
            } else {
                proof {
                    assert((e - cur) as nat >= rem.len());
                }
                return kids;
            }
        }
    }

    /// Defines a schema from its compact text format
    /// `field1 field2! field3(num) | child1 child2 | template`.  Fails,
    /// changing nothing, when the format holds no pipe at all; otherwise
    /// replaces any schema of the same name and gives every referenced
    /// child a placeholder entry.
    #[verifier::rlimit(100)]
    pub fn parse_format(&mut self, name: String, format: &str) -> (r: Option<()>)
        ensures
            match parse_format_spec(old(self)@, name@, format@) {
                None => r is None && final(self)@ == old(self)@,
                Some(cat) => r is Some && final(self)@ == cat,
            },
    {
        let v = str_chars(format);
        proof {
            assert(v@.subrange(0, v@.len() as int) =~= format@);
        }
        let p1 = scan_to(&v, 0, v.len(), '|');
        proof {
            assert(until_char(format@, '|') == p1 as nat);
        }
        if p1 == v.len() {
            return None;
        }
        let ghost rest1 = format@.skip(p1 as int + 1);
        proof {
            assert(format@.take(p1 as int) =~= v@.subrange(0, p1 as int));
            assert(rest1 =~= v@.subrange(p1 as int + 1, v@.len() as int));
        }
        let fields = parse_fields_range(&v, 0, p1);
        let p2 = scan_to(&v, p1 + 1, v.len(), '|');
        proof {
            assert(until_char(rest1, '|') == (p2 - (p1 + 1)) as nat);
            assert(rest1.take((p2 - (p1 + 1)) as int) =~= v@.subrange(p1 as int + 1, p2 as int));
        }
        let children = self.add_children_range(&v, p1 + 1, p2);
        let filename: Option<String> = if p2 < v.len() {
            let ghost rest2 = rest1.skip((p2 - (p1 + 1)) as int + 1);
            proof {
                assert(rest2 =~= v@.subrange(p2 as int + 1, v@.len() as int));
            }
            let p3 = scan_to(&v, p2 + 1, v.len(), '|');
            proof {
                assert(until_char(rest2, '|') == (p3 - (p2 + 1)) as nat);
                assert(rest2.take((p3 - (p2 + 1)) as int) =~= v@.subrange(p2 as int + 1, p3 as int));
            }
            let ghost t3 = rest2.take((p3 - (p2 + 1)) as int);
            // trim the template token
            let mut a: usize = p2 + 1;
            while a < p3 && (v[a] == ' ' || v[a] == '\t')
                invariant
                    p2 + 1 <= a <= p3 <= v@.len(),
                    forall|k: int| p2 + 1 <= k < a ==> #[trigger] v@[k] == ' ' || v@[k] == '\t',
                decreases p3 - a,
            {
                a += 1;
            }
            proof {
                assert(forall|k: int| 0 <= k < a - (p2 + 1) ==> #[trigger] t3[k] == v@[k + p2 + 1]);
                crate::parser::lemma_space_run_exact(t3, a - (p2 + 1) as int);
            }
            let mut b: usize = p3;
            while b > a && (v[b - 1] == ' ' || v[b - 1] == '\t')
                invariant
                    a <= b <= p3 <= v@.len(),
                    forall|k: int| b <= k < p3 ==> #[trigger] v@[k] == ' ' || v@[k] == '\t',
                decreases b,
            {
                b -= 1;
            }
            let ghost m = t3.skip(a - (p2 + 1) as int);
            proof {
                assert(m =~= v@.subrange(a as int, p3 as int));
                assert(forall|k: int| 0 <= k < m.len() ==> #[trigger] m[k] == v@[k + a]);
                lemma_trailing_blanks(m, p3 - b as int);
                assert(m.take(m.len() - (p3 - b) as int) =~= v@.subrange(a as int, b as int));
                assert(trim_spaces(t3) == v@.subrange(a as int, b as int));
            }
            if b == a {
                proof {
                    assert(trim_spaces(t3).len() == 0);
                }
                None
            } else {
                Some(crate::parser::range_string(&v, a, b))
            }
        } else {
            None
        };
        let schema = Schema { name, fields, children, filename };
        self.upsert(schema);
        Some(())
    }

    /// Defines a schema from an already-split configuration fragment:
    /// replaces any schema of the same name and gives every referenced
    /// child a placeholder entry.
    pub fn parse_config_item(&mut self, name: String, config: &crate::config::SchemaConfigItem)
        -> (r: Option<()>)
        ensures
            r is Some,
            final(self)@ == parse_config_spec(old(self)@, name@, config@),
    {
        let ghost cat0 = self@;
        let mut fields: Vec<Field> = Vec::new();
        let mut i: usize = 0;
        let ghost ftoks = config.fields@;
        proof {
            assert(fields@.map_values(|x: Field| x@) =~= Seq::<FieldV>::empty());
            assert(ftoks.skip(0) =~= ftoks);
        }
        while i < config.fields.0.len()
            invariant
                i <= config.fields.0.len(),
                ftoks == config.fields@,
                ftoks.len() == config.fields.0.len(),
                parse_fields_list(ftoks, Seq::empty()) == parse_fields_list(
                    ftoks.skip(i as int),
                    fields@.map_values(|x: Field| x@),
                ),
            decreases config.fields.0.len() - i,
        {
            proof {
                assert(ftoks.skip(i as int)[0] == ftoks[i as int]);
                assert(ftoks.skip(i as int).drop_first() =~= ftoks.skip(i as int + 1));
                assert(ftoks[i as int] == config.fields.0@[i as int]@);
            }
            match Field::from_format(config.fields.0[i].as_str()) {
                Some(f) => {
                    upsert_field_exec(&mut fields, f);
                },
                None => {},
            }
            i += 1;
        }
        proof {
            assert(ftoks.skip(i as int) =~= Seq::<Seq<char>>::empty());
        }
        let ghost ctoks = config.children@;
        let mut children: Vec<String> = Vec::new();
        let mut j: usize = 0;
        proof {
            assert(ctoks.skip(0) =~= ctoks);
            assert(children.deep_view() =~= Seq::<Seq<char>>::empty());
        }
        while j < config.children.0.len()
            invariant
                j <= config.children.0.len(),
                cat0 == old(self)@,
                ctoks == config.children@,
                ctoks.len() == config.children.0.len(),
                children.deep_view() == ctoks.take(j as int),
                add_children_list(ctoks, cat0) == add_children_list(ctoks.skip(j as int), self@),
            decreases config.children.0.len() - j,
        {
            proof {
                assert(ctoks.skip(j as int)[0] == ctoks[j as int]);
                assert(ctoks.skip(j as int).drop_first() =~= ctoks.skip(j as int + 1));
                assert(ctoks[j as int] == config.children.0@[j as int]@);
            }
            let c = &config.children.0[j];
            if !self.has(c.as_str()) {
                self.insert_empty(c.clone());
            }
            let ghost pre = children.deep_view();
            children.push(c.clone());
            proof {
                assert(children.deep_view() =~= pre.push(ctoks[j as int]));
                assert(children.deep_view() =~= ctoks.take(j as int + 1));
            }
            j += 1;
        }
        proof {
            assert(ctoks.skip(j as int) =~= Seq::<Seq<char>>::empty());
            assert(children.deep_view() =~= ctoks);
        }
        let filename = match &config.filename {
            Some(f) => Some(f.clone()),
            None => None,
        };
        let schema = Schema { name, fields, children, filename };
        proof {
            assert(schema@.children == config@.children);
            assert(schema@.filename == config@.filename);
        }
        self.upsert(schema);
        Some(())
    }

    /// The schemas that the children of the named schema resolve to, in
    /// order, names the catalog does not know dropped; `None` when the
    /// name itself is unknown.
    pub fn get_children<'a>(&'a self, name: &str) -> (r: Option<Vec<&'a Schema>>)
        ensures
            match r {
                Some(v) => catalog_lookup(self@, name@) matches Some(sch) && v@.map_values(
                    |s: &Schema| s@,
                ) == resolve_names(self@, sch.children),
                None => catalog_lookup(self@, name@) is None,
            },
    {
        let sch = match self.get(name) {
            None => {
                return None;
            },
            Some(s) => s,
        };
        let ghost names = sch@.children;
        let mut out: Vec<&Schema> = Vec::new();
        let mut j: usize = 0;
        proof {
            assert(out@.map_values(|s: &Schema| s@) =~= Seq::<SchemaV>::empty());
            assert(names.skip(0) =~= names);
            assert(Seq::<SchemaV>::empty() + resolve_names(self@, names) =~= resolve_names(
                self@,
                names,
            ));
        }
        while j < sch.children.len()
            invariant
                j <= sch.children.len(),
                names == sch@.children,
                names.len() == sch.children.len(),
                resolve_names(self@, names) == out@.map_values(|s: &Schema| s@) + resolve_names(
                    self@,
                    names.skip(j as int),
                ),
            decreases sch.children.len() - j,
        {
            let ghost outv = out@.map_values(|s: &Schema| s@);
            proof {
                assert(names.skip(j as int)[0] == names[j as int]);
                assert(names.skip(j as int).drop_first() =~= names.skip(j as int + 1));
                assert(names[j as int] == sch.children@[j as int]@);
            }
            match self.get(sch.children[j].as_str()) {
                Some(c) => {
                    out.push(c);
                    proof {
                        assert(out@.map_values(|s: &Schema| s@) =~= outv.push(c@));
                        assert(outv + (seq![c@] + resolve_names(self@, names.skip(j as int + 1)))
                            =~= outv.push(c@) + resolve_names(self@, names.skip(j as int + 1)));
                    }
                },
                None => {
                    proof {
                        assert(outv + (Seq::<SchemaV>::empty() + resolve_names(
                            self@,
                            names.skip(j as int + 1),
                        )) =~= outv + resolve_names(self@, names.skip(j as int + 1)));
                    }
                },
            }
            j += 1;
        }
        proof {
            assert(names.skip(j as int) =~= Seq::<Seq<char>>::empty());
            assert(out@.map_values(|s: &Schema| s@) + Seq::<SchemaV>::empty() =~= out@.map_values(
                |s: &Schema| s@,
            ));
        }
        Some(out)
    }
}

/// Required-field invariant: as long as every declared field that is
/// present in the data satisfies its type, a schema is fit exactly when
/// none of its required fields is absent.  (Without that proviso the
/// equivalence fails: an optional integer field present with a non-numeric
/// value makes the schema unfit even though no required field is missing.)
pub proof fn lemma_required_field_invariant(s: SchemaV, data: Seq<(Seq<char>, Seq<char>)>)
    requires
        forall|i: int|
            0 <= i < s.fields.len() ==> match lookup_value(data, (#[trigger] s.fields[i]).name) {
                None => true,
                Some(v) => type_ok(s.fields[i].ty, v),
            },
    ensures
        schema_fit(s, data) <==> (forall|i: int|
            0 <= i < s.fields.len() && (#[trigger] s.fields[i]).forced ==> lookup_value(
                data,
                s.fields[i].name,
            ) is Some),
{
    if schema_fit(s, data) {
        assert forall|i: int|
            0 <= i < s.fields.len() && (#[trigger] s.fields[i]).forced implies lookup_value(
            data,
            s.fields[i].name,
        ) is Some by {
            assert(field_fit(s.fields[i], data));
        }
    }
    if forall|i: int|
        0 <= i < s.fields.len() && (#[trigger] s.fields[i]).forced ==> lookup_value(
            data,
            s.fields[i].name,
        ) is Some {
        assert forall|i: int| 0 <= i < s.fields.len() implies field_fit(
            #[trigger] s.fields[i],
            data,
        ) by {
            match lookup_value(data, s.fields[i].name) {
                None => {
                    assert(!s.fields[i].forced);
                },
                Some(v) => {
                    assert(type_ok(s.fields[i].ty, v));
                },
            }
        }
    }
}

/// Pieces joined with a separator character.
pub open spec fn join_sep(xs: Seq<Seq<char>>, sep: char) -> Seq<char>
    decreases xs.len(),
{
    if xs.len() == 0 {
        Seq::empty()
    } else if xs.len() == 1 {
        xs[0]
    } else {
        xs[0] + seq![sep] + join_sep(xs.drop_first(), sep)
    }
}

/// Splitting the join at the last piece.
proof fn lemma_join_sep_split(xs: Seq<Seq<char>>, sep: char)
    requires
        xs.len() > 0,
    ensures
        join_sep(xs, sep) == join_sep(xs.take(xs.len() - 1), sep) + (if xs.len() > 1 {
            seq![sep]
        } else {
            Seq::<char>::empty()
        }) + xs.last(),
    decreases xs.len(),
{
    if xs.len() == 1 {
        assert(xs.take(0) =~= Seq::<Seq<char>>::empty());
        assert(Seq::<char>::empty() + Seq::<char>::empty() + xs[0] =~= xs[0]);
    } else {
        lemma_join_sep_split(xs.drop_first(), sep);
        assert(xs.drop_first().take(xs.drop_first().len() - 1) =~= xs.take(
            xs.len() - 1,
        ).drop_first());
        assert(xs.drop_first().last() == xs.last());
        assert(xs.take(xs.len() - 1)[0] == xs[0]);
        if xs.len() == 2 {
            assert(join_sep(xs.take(xs.len() - 1), sep) == xs[0]);
            assert(join_sep(xs, sep) =~= join_sep(xs.take(xs.len() - 1), sep) + seq![sep]
                + xs.last());
        } else {
            assert(join_sep(xs, sep) =~= join_sep(xs.take(xs.len() - 1), sep) + seq![sep]
                + xs.last());
        }
    }
}

/// The compact text format of a whole schema:
/// `fields | children | template`, fields and children space-separated.
pub open spec fn schema_format_of(s: SchemaV) -> Seq<char> {
    join_sep(s.fields.map_values(|f: FieldV| field_format_of(f)), ' ') + seq!['|'] + join_sep(
        s.children,
        ' ',
    ) + seq!['|'] + (match s.filename {
        None => Seq::<char>::empty(),
        Some(f) => f,
    })
}

impl Schema {
    /// Writes this schema in its compact text format.
    pub fn to_format(&self) -> (r: String)
        ensures
            r@ == schema_format_of(self@),
    {
        let ghost fparts = self@.fields.map_values(|f: FieldV| field_format_of(f));
        let mut out = String::new();
        let mut i: usize = 0;
        proof {
            assert(out@ =~= join_sep(fparts.take(0), ' '));
        }
        while i < self.fields.len()
            invariant
                i <= self.fields.len(),
                fparts == self@.fields.map_values(|f: FieldV| field_format_of(f)),
                fparts.len() == self.fields.len(),
                out@ == join_sep(fparts.take(i as int), ' '),
            decreases self.fields.len() - i,
        {
            proof {
                assert(self@.fields[i as int] == self.fields@[i as int]@);
                assert(fparts[i as int] == field_format_of(self.fields@[i as int]@));
            }
            if i > 0 {
                crate::strutil::push_char(&mut out, ' ');
            }
            let piece = self.fields[i].to_format();
            out.append(piece.as_str());
            proof {
                lemma_join_sep_split(fparts.take(i as int + 1), ' ');
                assert(fparts.take(i as int + 1).take(i as int) =~= fparts.take(i as int));
                assert(fparts.take(i as int + 1).last() == fparts[i as int]);
                assert(out@ =~= join_sep(fparts.take(i as int + 1), ' '));
            }
            i += 1;
        }
        proof {
            assert(fparts.take(self.fields.len() as int) =~= fparts);
        }
        crate::strutil::push_char(&mut out, '|');
        let ghost kids = self@.children;
        let ghost base = out@;
        let mut j: usize = 0;
        proof {
            assert(base + join_sep(kids.take(0), ' ') =~= base);
        }
        while j < self.children.len()
            invariant
                j <= self.children.len(),
                kids == self@.children,
                kids.len() == self.children.len(),
                out@ == base + join_sep(kids.take(j as int), ' '),
            decreases self.children.len() - j,
        {
            proof {
                assert(kids[j as int] == self.children@[j as int]@);
            }
            if j > 0 {
                crate::strutil::push_char(&mut out, ' ');
            }
            out.append(self.children[j].as_str());
            proof {
                lemma_join_sep_split(kids.take(j as int + 1), ' ');
                assert(kids.take(j as int + 1).take(j as int) =~= kids.take(j as int));
                assert(kids.take(j as int + 1).last() == kids[j as int]);
                assert(out@ =~= base + join_sep(kids.take(j as int + 1), ' '));
            }
            j += 1;
        }
        proof {
            assert(kids.take(self.children.len() as int) =~= kids);
        }
        crate::strutil::push_char(&mut out, '|');
        match &self.filename {
            Some(f) => {
                out.append(f.as_str());
            },
            None => {},
        }
        proof {
            assert(out@ =~= schema_format_of(self@));
        }
        out
    }
}

/// Folding each fragment of a configuration source into a catalog, in
/// order.
pub open spec fn catalog_from_config(
    cat: Seq<SchemaV>,
    items: Seq<(Seq<char>, crate::config::ItemV)>,
) -> Seq<SchemaV>
    decreases items.len(),
{
    if items.len() == 0 {
        cat
    } else {
        catalog_from_config(
            parse_config_spec(cat, items[0].0, items[0].1),
            items.drop_first(),
        )
    }
}

impl SchemaList {
    /// Builds a catalog from the schema fragments of one configuration
    /// source, in order.
    pub fn from_config(config: &crate::config::SchemaConfig) -> (r: SchemaList)
        ensures
            r@ == catalog_from_config(Seq::empty(), config@),
    {
        let ghost items = config@;
        let mut sl = SchemaList::new();
        let mut i: usize = 0;
        proof {
            assert(items.skip(0) =~= items);
        }
        while i < config.items.len()
            invariant
                i <= config.items.len(),
                items == config@,
                items.len() == config.items.len(),
                catalog_from_config(Seq::empty(), items) == catalog_from_config(
                    sl@,
                    items.skip(i as int),
                ),
            decreases config.items.len() - i,
        {
            proof {
                assert(items.skip(i as int)[0] == items[i as int]);
                assert(items.skip(i as int).drop_first() =~= items.skip(i as int + 1));
                assert(items[i as int].0 == config.items@[i as int].0@);
                assert(items[i as int].1 == config.items@[i as int].1@);
            }
            let name = config.items[i].0.clone();
            sl.parse_config_item(name, &config.items[i].1);
            i += 1;
        }
        proof {
            assert(items.skip(config.items.len() as int) =~= Seq::<(
                Seq<char>,
                crate::config::ItemV,
            )>::empty());
        }
        sl
    }
}

} // verus!
