//! The classification resolver: matches extracted, possibly
//! namespace-qualified fields against a catalog of schemas, recursively
//! builds a linear classification chain, and renders the chain into a
//! destination path.

use vstd::prelude::*;
use vstd::string::StrSliceExecFns;
use vstd::string::StringExecFns;
use crate::config::{CommaSeperated, Config, ImportConfig};
use crate::error::FOError;
use crate::format::{bind_slots, extract_pairs, PatternString};
use crate::helper::{match_text, prefix_related};
use crate::outside::{regex_compiles, regex_groups_of};
use crate::parser::pattern_compile;
use crate::schema::{
    catalog_lookup, field_index, schema_fit, schema_render, until_char, Schema, SchemaList,
    SchemaV,
};
use crate::strutil::lower_of;

verus! {

/// Whether the key carries a namespace qualifier.
pub open spec fn has_dot(key: Seq<char>) -> bool {
    until_char(key, '.') < key.len()
}

/// The namespace of a qualified key: everything before the first dot.
pub open spec fn key_namespace(key: Seq<char>) -> Seq<char> {
    key.take(until_char(key, '.') as int)
}

/// The bare name of a qualified key: the segment between the first dot and
/// the next dot or the end.
pub open spec fn key_bare(key: Seq<char>) -> Seq<char> {
    let r = key.skip(until_char(key, '.') as int + 1);
    r.take(until_char(r, '.') as int)
}

/// Whether a namespace reaches a schema: the two names, case-folded, must
/// agree for as long as both last (`an` reaches `anime`, and vice versa).
pub open spec fn ns_matches(schema_name: Seq<char>, ns: Seq<char>) -> bool {
    prefix_related(lower_of(schema_name), lower_of(ns))
}

/// One level of namespace stripping: a qualified key is replaced by its
/// bare name, an unqualified key stays.
pub open spec fn strip_key(key: Seq<char>) -> Seq<char> {
    if has_dot(key) {
        key_bare(key)
    } else {
        key
    }
}

/// Namespace stripping over a whole field list.
pub open spec fn remove_dot_spec(data: Seq<(Seq<char>, Seq<char>)>) -> Seq<(Seq<char>, Seq<char>)> {
    data.map_values(|p: (Seq<char>, Seq<char>)| (strip_key(p.0), p.1))
}

/// The fields a schema sees: unqualified fields as they are, qualified
/// fields stripped to their bare name when their namespace reaches the
/// schema, and hidden entirely when it does not.
pub open spec fn visible_fields(
    data: Seq<(Seq<char>, Seq<char>)>,
    schema_name: Seq<char>,
) -> Seq<(Seq<char>, Seq<char>)>
    decreases data.len(),
{
    if data.len() == 0 {
        Seq::empty()
    } else {
        let p = data[0];
        (if !has_dot(p.0) {
            seq![p]
        } else if ns_matches(schema_name, key_namespace(p.0)) {
            seq![(key_bare(p.0), p.1)]
        } else {
            Seq::<(Seq<char>, Seq<char>)>::empty()
        }) + visible_fields(data.drop_first(), schema_name)
    }
}

/// The fields a matching schema consumes: unqualified fields it declares,
/// and qualified fields whose namespace reaches it and whose bare name it
/// declares (still carrying their qualifier here; the node strips it).
pub open spec fn consumed_fields(data: Seq<(Seq<char>, Seq<char>)>, sch: SchemaV) -> Seq<
    (Seq<char>, Seq<char>),
>
    decreases data.len(),
{
    if data.len() == 0 {
        Seq::empty()
    } else {
        let p = data[0];
        (if !has_dot(p.0) {
            if field_index(sch.fields, p.0) >= 0 {
                seq![p]
            } else {
                Seq::<(Seq<char>, Seq<char>)>::empty()
            }
        } else if ns_matches(sch.name, key_namespace(p.0)) {
            if field_index(sch.fields, key_bare(p.0)) >= 0 {
                seq![p]
            } else {
                Seq::<(Seq<char>, Seq<char>)>::empty()
            }
        } else {
            Seq::<(Seq<char>, Seq<char>)>::empty()
        }) + consumed_fields(data.drop_first(), sch)
    }
}

/// The fields that travel on to the rest of the chain: unqualified fields
/// the schema does not declare, and qualified fields whose namespace does
/// not reach it.  A qualified field whose namespace reaches the schema but
/// whose bare name it does not declare is dropped.
pub open spec fn rest_fields(data: Seq<(Seq<char>, Seq<char>)>, sch: SchemaV) -> Seq<
    (Seq<char>, Seq<char>),
>
    decreases data.len(),
{
    if data.len() == 0 {
        Seq::empty()
    } else {
        let p = data[0];
        (if !has_dot(p.0) {
            if field_index(sch.fields, p.0) >= 0 {
                Seq::<(Seq<char>, Seq<char>)>::empty()
            } else {
                seq![p]
            }
        } else if ns_matches(sch.name, key_namespace(p.0)) {
            Seq::<(Seq<char>, Seq<char>)>::empty()
        } else {
            seq![p]
        }) + rest_fields(data.drop_first(), sch)
    }
}

/// Splits a qualified key into its namespace and its bare name.
fn split_key(key: &String) -> (r: Option<(String, String)>)
    ensures
        match r {
            Some(nb) => has_dot(key@) && nb.0@ == key_namespace(key@) && nb.1@ == key_bare(key@),
            None => !has_dot(key@),
        },
{
    let v = crate::strutil::str_chars(key.as_str());
    proof {
        assert(v@.subrange(0, v@.len() as int) =~= key@);
    }
    let d = crate::schema::scan_to(&v, 0, v.len(), '.');
    if d == v.len() {
        return None;
    }
    let ns = crate::parser::range_string(&v, 0, d);
    let ghost rest = key@.skip(d as int + 1);
    proof {
        assert(key@.take(d as int) =~= v@.subrange(0, d as int));
        assert(rest =~= v@.subrange(d as int + 1, v@.len() as int));
    }
    let e = crate::schema::scan_to(&v, d + 1, v.len(), '.');
    let bare = crate::parser::range_string(&v, d + 1, e);
    proof {
        assert(rest.take((e - (d + 1)) as int) =~= v@.subrange(d as int + 1, e as int));
    }
    Some((ns, bare))
}

/// Strips namespace qualifiers from every field key.
pub fn remove_dot(data: &Vec<(String, String)>) -> (r: Vec<(String, String)>)
    ensures
        r.deep_view() == remove_dot_spec(data.deep_view()),
{
    let ghost dv = data.deep_view();
    let mut out: Vec<(String, String)> = Vec::new();
    let mut i: usize = 0;
    while i < data.len()
        invariant
            i <= data.len(),
            dv == data.deep_view(),
            dv.len() == data.len(),
            out@.len() == i,
            forall|k: int| 0 <= k < i ==> out.deep_view()[k] == (
            #[trigger] remove_dot_spec(dv)[k]),
        decreases data.len() - i,
    {
        let p = &data[i];
        proof {
            assert(dv[i as int] == (data@[i as int].0@, data@[i as int].1@));
        }
        match split_key(&p.0) {
            Some((_, bare)) => {
                out.push((bare, p.1.clone()));
            },
            None => {
                out.push((p.0.clone(), p.1.clone()));
            },
        }
        i += 1;
    }
    proof {
        assert(out.deep_view() =~= remove_dot_spec(dv));
    }
    out
}

/// Builds the field list a schema sees, as `visible_fields` says.
pub fn prune_unrelated_data(data: &Vec<(String, String)>, schema_name: &str) -> (r: Vec<
    (String, String),
>)
    ensures
        r.deep_view() == visible_fields(data.deep_view(), schema_name@),
{
    let ghost dv = data.deep_view();
    let mut out: Vec<(String, String)> = Vec::new();
    let mut i: usize = 0;
    proof {
        assert(dv.skip(0) =~= dv);
        assert(out.deep_view() + visible_fields(dv, schema_name@) =~= visible_fields(
            dv,
            schema_name@,
        ));
    }
    while i < data.len()
        invariant
            i <= data.len(),
            dv == data.deep_view(),
            dv.len() == data.len(),
            visible_fields(dv, schema_name@) == out.deep_view() + visible_fields(
                dv.skip(i as int),
                schema_name@,
            ),
        decreases data.len() - i,
    {
        let ghost outv = out.deep_view();
        let ghost tail = visible_fields(dv.skip(i as int + 1), schema_name@);
        proof {
            assert(dv.skip(i as int)[0] == dv[i as int]);
            assert(dv.skip(i as int).drop_first() =~= dv.skip(i as int + 1));
            assert(dv[i as int] == (data@[i as int].0@, data@[i as int].1@));
        }
        let p = &data[i];
        match split_key(&p.0) {
            Some((ns, bare)) => {
                if match_text(schema_name, ns.as_str()) {
                    out.push((bare, p.1.clone()));
                    proof {
                        assert(out.deep_view() =~= outv.push((key_bare(dv[i as int].0), dv[
                            i as int].1)));
                        assert(outv + (seq![(key_bare(dv[i as int].0), dv[i as int].1)] + tail)
                            =~= out.deep_view() + tail);
                    }
                } else {
                    proof {
                        assert(outv + (Seq::<(Seq<char>, Seq<char>)>::empty() + tail) =~= outv
                            + tail);
                    }
                }
            },
            None => {
                out.push((p.0.clone(), p.1.clone()));
                proof {
                    assert(out.deep_view() =~= outv.push(dv[i as int]));
                    assert(outv + (seq![dv[i as int]] + tail) =~= out.deep_view() + tail);
                }
            },
        }
        i += 1;
    }
    proof {
        assert(dv.skip(data.len() as int) =~= Seq::<(Seq<char>, Seq<char>)>::empty());
        assert(out.deep_view() + Seq::<(Seq<char>, Seq<char>)>::empty() =~= out.deep_view());
    }
    out
}

/// Whether the schema declares a field of the given name.
fn declares(sch: &Schema, name: &str) -> (r: bool)
    ensures
        r == (field_index(sch@.fields, name@) >= 0),
{
    let ghost fv = sch@.fields;
    let mut i: usize = 0;
    while i < sch.fields.len()
        invariant
            i <= sch.fields.len(),
            fv == sch@.fields,
            fv.len() == sch.fields.len(),
            forall|k: int| 0 <= k < i ==> (#[trigger] fv[k]).name != name@,
        decreases sch.fields.len() - i,
    {
        proof {
            assert(fv[i as int] == sch.fields@[i as int]@);
        }
        if crate::strutil::str_eq_str(sch.fields[i].get_name().as_str(), name) {
            proof {
                crate::schema::lemma_field_index_first(fv, name@, i as int);
            }
            return true;
        }
        i += 1;
    }
    proof {
        crate::schema::lemma_field_index_none(fv, name@);
    }
    false
}

/// Partitions the extracted fields into the pair `(consumed, rest)`, as
/// `consumed_fields` and `rest_fields` say.
pub fn prune_data(data: &Vec<(String, String)>, schema: &Schema) -> (r: (
    Vec<(String, String)>,
    Vec<(String, String)>,
))
    ensures
        r.0.deep_view() == consumed_fields(data.deep_view(), schema@),
        r.1.deep_view() == rest_fields(data.deep_view(), schema@),
{
    let ghost dv = data.deep_view();
    let ghost sv = schema@;
    let mut cons: Vec<(String, String)> = Vec::new();
    let mut rest: Vec<(String, String)> = Vec::new();
    let mut i: usize = 0;
    proof {
        assert(dv.skip(0) =~= dv);
        assert(cons.deep_view() + consumed_fields(dv, sv) =~= consumed_fields(dv, sv));
        assert(rest.deep_view() + rest_fields(dv, sv) =~= rest_fields(dv, sv));
    }
    while i < data.len()
        invariant
            i <= data.len(),
            dv == data.deep_view(),
            sv == schema@,
            dv.len() == data.len(),
            consumed_fields(dv, sv) == cons.deep_view() + consumed_fields(dv.skip(i as int), sv),
            rest_fields(dv, sv) == rest.deep_view() + rest_fields(dv.skip(i as int), sv),
        decreases data.len() - i,
    {
        let ghost cv = cons.deep_view();
        let ghost rv = rest.deep_view();
        let ghost ctail = consumed_fields(dv.skip(i as int + 1), sv);
        let ghost rtail = rest_fields(dv.skip(i as int + 1), sv);
        proof {
            assert(dv.skip(i as int)[0] == dv[i as int]);
            assert(dv.skip(i as int).drop_first() =~= dv.skip(i as int + 1));
            assert(dv[i as int] == (data@[i as int].0@, data@[i as int].1@));
        }
        let p = &data[i];
        match split_key(&p.0) {
            Some((ns, bare)) => {
                if match_text(schema.name.as_str(), ns.as_str()) {
                    if declares(schema, bare.as_str()) {
                        cons.push((p.0.clone(), p.1.clone()));
                        proof {
                            assert(cons.deep_view() =~= cv.push(dv[i as int]));
                            assert(cv + (seq![dv[i as int]] + ctail) =~= cons.deep_view() + ctail);
                            assert(rv + (Seq::<(Seq<char>, Seq<char>)>::empty() + rtail) =~= rv
                                + rtail);
                        }
                    } else {
                        proof {
                            assert(cv + (Seq::<(Seq<char>, Seq<char>)>::empty() + ctail) =~= cv
                                + ctail);
                            assert(rv + (Seq::<(Seq<char>, Seq<char>)>::empty() + rtail) =~= rv
                                + rtail);
                        }
                    }
                } else {
                    rest.push((p.0.clone(), p.1.clone()));
                    proof {
                        assert(rest.deep_view() =~= rv.push(dv[i as int]));
                        assert(cv + (Seq::<(Seq<char>, Seq<char>)>::empty() + ctail) =~= cv
                            + ctail);
                        assert(rv + (seq![dv[i as int]] + rtail) =~= rest.deep_view() + rtail);
                    }
                }
            },
            None => {
                if declares(schema, p.0.as_str()) {
                    cons.push((p.0.clone(), p.1.clone()));
                    proof {
                        assert(cons.deep_view() =~= cv.push(dv[i as int]));
                        assert(cv + (seq![dv[i as int]] + ctail) =~= cons.deep_view() + ctail);
                        assert(rv + (Seq::<(Seq<char>, Seq<char>)>::empty() + rtail) =~= rv
                            + rtail);
                    }
                } else {
                    rest.push((p.0.clone(), p.1.clone()));
                    proof {
                        assert(rest.deep_view() =~= rv.push(dv[i as int]));
                        assert(cv + (Seq::<(Seq<char>, Seq<char>)>::empty() + ctail) =~= cv
                            + ctail);
                        assert(rv + (seq![dv[i as int]] + rtail) =~= rest.deep_view() + rtail);
                    }
                }
            },
        }
        i += 1;
    }
    proof {
        assert(dv.skip(data.len() as int) =~= Seq::<(Seq<char>, Seq<char>)>::empty());
        assert(cons.deep_view() + Seq::<(Seq<char>, Seq<char>)>::empty() =~= cons.deep_view());
        assert(rest.deep_view() + Seq::<(Seq<char>, Seq<char>)>::empty() =~= rest.deep_view());
    }
    (cons, rest)
}

/// One node of the classification chain.
pub struct MoveTree {
    pub name: String,
    pub fields: Vec<(String, String)>,
    pub children: Option<Box<MoveTree>>,
}

/// Specification view of a classification chain.
pub struct TreeV {
    pub name: Seq<char>,
    pub fields: Seq<(Seq<char>, Seq<char>)>,
    pub next: Option<Box<TreeV>>,
}

impl View for MoveTree {
    type V = TreeV;

    open spec fn view(&self) -> TreeV
        decreases self,
    {
        TreeV {
            name: self.name@,
            fields: self.fields.deep_view(),
            next: match &self.children {
                None => None,
                Some(b) => Some(Box::new((**b)@)),
            },
        }
    }
}

/// The terminal node used when no schema matches: it holds every remaining
/// field, qualifiers intact.
pub open spec fn uncategorized(data: Seq<(Seq<char>, Seq<char>)>) -> TreeV {
    TreeV { name: "_Uncategorized"@, fields: data, next: None }
}

/// The chain the resolver builds: candidates are tried in order, and the
/// first one in the catalog that is type-fit on its visible fields wins
/// outright; its consumed fields (qualifiers stripped) bind to the node and
/// the rest feed the recursion over its children.  When no candidate fits,
/// or the recursion cap runs out, the uncategorized terminal holds all
/// remaining fields.
pub open spec fn finder_spec(
    cat: Seq<SchemaV>,
    candidates: Seq<Seq<char>>,
    data: Seq<(Seq<char>, Seq<char>)>,
    fuel: nat,
) -> TreeV
    decreases fuel, candidates.len(),
{
    if fuel == 0 || candidates.len() == 0 {
        uncategorized(data)
    } else {
        match catalog_lookup(cat, candidates[0]) {
            None => finder_spec(cat, candidates.drop_first(), data, fuel),
            Some(sch) => {
                if schema_fit(sch, visible_fields(data, sch.name)) {
                    TreeV {
                        name: sch.name,
                        fields: remove_dot_spec(consumed_fields(data, sch)),
                        next: Some(
                            Box::new(
                                finder_spec(
                                    cat,
                                    sch.children,
                                    rest_fields(data, sch),
                                    (fuel - 1) as nat,
                                ),
                            ),
                        ),
                    }
                } else {
                    finder_spec(cat, candidates.drop_first(), data, fuel)
                }
            },
        }
    }
}

/// The recursion cap handed to the resolver: generous enough that any
/// resolution the uncapped algorithm completes is reproduced, since a
/// terminating run shrinks the field list at least once per pass through
/// the catalog.
pub open spec fn finder_fuel(dlen: nat, clen: nat) -> nat {
    (capped32(dlen) + 1) * (capped32(clen) + 1)
}

/// A length capped to fit comfortably in the cap arithmetic.
pub open spec fn capped32(n: nat) -> nat {
    if n < 0xFFFF_FFFF {
        n
    } else {
        0xFFFF_FFFF
    }
}

/// Rendering a chain: each node renders its schema's template over its
/// bound fields (nothing when the catalog does not know the name, as with
/// the uncategorized terminal), and non-empty continuations join with `/`.
pub open spec fn render_chain(t: TreeV, cat: Seq<SchemaV>) -> Seq<char>
    decreases t,
{
    let here = match catalog_lookup(cat, t.name) {
        None => Seq::<char>::empty(),
        Some(sch) => schema_render(sch, t.fields),
    };
    match t.next {
        None => here,
        Some(b) => {
            let rest = render_chain(*b, cat);
            if rest.len() == 0 {
                here
            } else {
                here + seq!['/'] + rest
            }
        },
    }
}

impl MoveTree {
    /// Renders this chain into a destination path.
    pub fn to_path(&self, sl: &SchemaList) -> (r: String)
        ensures
            r@ == render_chain(self@, sl@),
        decreases *self,
    {
        let here = match sl.get(self.name.as_str()) {
            None => String::new(),
            Some(sch) => sch.generate_string(&self.fields),
        };
        match &self.children {
            None => here,
            Some(b) => {
                let rest = b.to_path(sl);
                if rest.as_str().unicode_len() == 0 {
                    proof {
                        assert(rest@.len() == 0);
                    }
                    here
                } else {
                    let mut out = here;
                    crate::strutil::push_char(&mut out, '/');
                    out.append(rest.as_str());
                    proof {
                        assert(out@ =~= render_chain(self@, sl@));
                    }
                    out
                }
            },
        }
    }
}

/// Copies a field list, preserving its content.
fn clone_pairs(data: &Vec<(String, String)>) -> (r: Vec<(String, String)>)
    ensures
        r.deep_view() == data.deep_view(),
{
    let ghost dv = data.deep_view();
    let mut out: Vec<(String, String)> = Vec::new();
    let mut i: usize = 0;
    while i < data.len()
        invariant
            i <= data.len(),
            dv == data.deep_view(),
            dv.len() == data.len(),
            out@.len() == i,
            forall|k: int| 0 <= k < i ==> out.deep_view()[k] == #[trigger] dv[k],
        decreases data.len() - i,
    {
        proof {
            assert(dv[i as int] == (data@[i as int].0@, data@[i as int].1@));
        }
        out.push((data[i].0.clone(), data[i].1.clone()));
        i += 1;
    }
    proof {
        assert(out.deep_view() =~= dv);
    }
    out
}

/// The uncategorized terminal over a copy of the remaining fields.
fn make_uncategorized(data: &Vec<(String, String)>) -> (r: MoveTree)
    ensures
        r@ == uncategorized(data.deep_view()),
{
    let fields = clone_pairs(data);
    let name = String::from_str("_Uncategorized");
    MoveTree { name, fields, children: None }
}

fn schema_finder_rec(
    schemalist: &SchemaList,
    candidates: &Vec<String>,
    data: &Vec<(String, String)>,
    fuel: u128,
) -> (r: MoveTree)
    ensures
        r@ == finder_spec(schemalist@, candidates.deep_view(), data.deep_view(), fuel as nat),
    decreases fuel, candidates@.len(),
{
    let ghost cat = schemalist@;
    let ghost cands = candidates.deep_view();
    let ghost dv = data.deep_view();
    if fuel == 0 {
        return make_uncategorized(data);
    }
    let mut i: usize = 0;
    proof {
        assert(cands.skip(0) =~= cands);
    }
    while i < candidates.len()
        invariant
            i <= candidates.len(),
            cat == schemalist@,
            cands == candidates.deep_view(),
            dv == data.deep_view(),
            cands.len() == candidates.len(),
            fuel >= 1,
            finder_spec(cat, cands, dv, fuel as nat) == finder_spec(
                cat,
                cands.skip(i as int),
                dv,
                fuel as nat,
            ),
        decreases candidates.len() - i,
    {
        proof {
            assert(cands.skip(i as int)[0] == cands[i as int]);
            assert(cands.skip(i as int).drop_first() =~= cands.skip(i as int + 1));
            assert(cands[i as int] == candidates@[i as int]@);
        }
        match schemalist.get(candidates[i].as_str()) {
            None => {},
            Some(sch) => {
                let visible = prune_unrelated_data(data, sch.name.as_str());
                if sch.is_fit(&visible) {
                    let pruned = prune_data(data, sch);
                    let tail = schema_finder_rec(schemalist, &sch.children, &pruned.1, fuel - 1);
                    let fields = remove_dot(&pruned.0);
                    return MoveTree {
                        name: sch.name.clone(),
                        fields,
                        children: Some(Box::new(tail)),
                    };
                }
            },
        }
        i += 1;
    }
    proof {
        assert(cands.skip(candidates.len() as int) =~= Seq::<Seq<char>>::empty());
    }
    make_uncategorized(data)
}

/// Resolves the candidate schema names against the catalog and the
/// extracted fields into a classification chain.  The result is a function
/// of the catalog, the candidate order and the field list alone, and is
/// never `None`: when nothing matches it is the uncategorized terminal.
pub fn schema_finder(
    schemalist: &SchemaList,
    candidates: &Vec<String>,
    data: &Vec<(String, String)>,
) -> (r: Option<MoveTree>)
    ensures
        r matches Some(t) && t@ == finder_spec(
            schemalist@,
            candidates.deep_view(),
            data.deep_view(),
            finder_fuel(data@.len() as nat, schemalist@.len() as nat),
        ),
{
    let d: u128 = if data.len() < 0xFFFF_FFFFusize {
        data.len() as u128
    } else {
        0xFFFF_FFFF
    };
    let c: u128 = if schemalist.list.len() < 0xFFFF_FFFFusize {
        schemalist.list.len() as u128
    } else {
        0xFFFF_FFFF
    };
    proof {
        assert((d as int + 1) * (c as int + 1) <= 0x1_0000_0000 * 0x1_0000_0000)
            by (nonlinear_arith)
            requires
                0 <= d as int <= 0xFFFF_FFFF,
                0 <= c as int <= 0xFFFF_FFFF,
        ;
    }
    let fuel: u128 = (d + 1) * (c + 1);
    proof {
        assert(fuel as nat == finder_fuel(data@.len() as nat, schemalist@.len() as nat));
        assert(data.deep_view().len() == data@.len());
    }
    Some(schema_finder_rec(schemalist, candidates, data, fuel))
}

/// Declared variable names as capture bindings: `_` and the empty string
/// mean "leave the slot anonymous".
pub open spec fn declared_of(vars: Seq<Seq<char>>) -> Seq<Option<Seq<char>>> {
    vars.map_values(
        |v: Seq<char>|
            if v == seq!['_'] || v.len() == 0 {
                Option::<Seq<char>>::None
            } else {
                Some(v)
            },
    )
}

/// What one import rule yields on the input: `None` when its pattern is
/// malformed, when the compiled regex is rejected, or when the regex does
/// not match; otherwise the rendered path of the resolved chain.
pub open spec fn rule_result(
    pattern: Seq<char>,
    vars: Seq<Seq<char>>,
    cat: Seq<SchemaV>,
    roots: Seq<Seq<char>>,
    input: Seq<char>,
) -> Option<Seq<char>> {
    match pattern_compile(pattern) {
        None => None,
        Some(cr) => {
            if !regex_compiles(cr.1) {
                None
            } else {
                match regex_groups_of(cr.1, input) {
                    None => None,
                    Some(groups) => {
                        let pairs = extract_pairs(bind_slots(cr.0, declared_of(vars), 0), groups, 0);
                        Some(
                            render_chain(
                                finder_spec(cat, roots, pairs, finder_fuel(pairs.len(), cat.len())),
                                cat,
                            ),
                        )
                    },
                }
            }
        },
    }
}

/// What classification yields: the result of the first import rule that
/// compiles and matches, or nothing.
pub open spec fn classify_spec(
    rules: Seq<(Seq<char>, Seq<Seq<char>>)>,
    cat: Seq<SchemaV>,
    roots: Seq<Seq<char>>,
    input: Seq<char>,
) -> Option<Seq<char>>
    decreases rules.len(),
{
    if rules.len() == 0 {
        None
    } else {
        match rule_result(rules[0].0, rules[0].1, cat, roots, input) {
            Some(out) => Some(out),
            None => classify_spec(rules.drop_first(), cat, roots, input),
        }
    }
}

/// Turns one rule's declared variable list into capture bindings.
fn declared_vars(vars: &CommaSeperated) -> (r: Vec<Option<String>>)
    ensures
        r.deep_view() == declared_of(vars@),
{
    let ghost vv = vars@;
    let mut out: Vec<Option<String>> = Vec::new();
    let mut i: usize = 0;
    proof {
        reveal_strlit("_");
    }
    while i < vars.0.len()
        invariant
            i <= vars.0.len(),
            vv == vars@,
            vv.len() == vars.0.len(),
            out@.len() == i,
            "_"@ == seq!['_'],
            forall|k: int| 0 <= k < i ==> out.deep_view()[k] == #[trigger] declared_of(vv)[k],
        decreases vars.0.len() - i,
    {
        let v = &vars.0[i];
        proof {
            assert(vv[i as int] == vars.0@[i as int]@);
        }
        if crate::strutil::str_eq_str(v.as_str(), "_") || v.as_str().is_empty() {
            out.push(None);
        } else {
            out.push(Some(v.clone()));
        }
        i += 1;
    }
    proof {
        assert(out.deep_view() =~= declared_of(vv));
    }
    out
}

/// Classifies a file name: the import rules are tried in order; the first
/// whose pattern compiles and matches has its extracted fields resolved
/// against the catalog from the root candidates, and the resolved chain is
/// rendered into the destination path.  A malformed rule is skipped.  When
/// no rule matches at all the result is `NoPatternMatch`; a match that
/// resolves to nothing but the uncategorized terminal still succeeds, with
/// the empty path.
pub fn classify(
    rules: &ImportConfig,
    catalog: &SchemaList,
    root_candidates: &Vec<String>,
    file_name: &str,
) -> (r: Result<String, FOError>)
    ensures
        match classify_spec(rules@, catalog@, root_candidates.deep_view(), file_name@) {
            None => r matches Err(e) && e == FOError::NoPatternMatch,
            Some(out) => r matches Ok(s) && s@ == out,
        },
{
    let ghost rv = rules@;
    let ghost cat = catalog@;
    let ghost roots = root_candidates.deep_view();
    let mut i: usize = 0;
    proof {
        assert(rv.skip(0) =~= rv);
    }
    while i < rules.list.len()
        invariant
            i <= rules.list.len(),
            rv == rules@,
            cat == catalog@,
            roots == root_candidates.deep_view(),
            rv.len() == rules.list.len(),
            classify_spec(rv, cat, roots, file_name@) == classify_spec(
                rv.skip(i as int),
                cat,
                roots,
                file_name@,
            ),
        decreases rules.list.len() - i,
    {
        proof {
            assert(rv.skip(i as int)[0] == rv[i as int]);
            assert(rv.skip(i as int).drop_first() =~= rv.skip(i as int + 1));
            assert(rv[i as int].0 == rules.list@[i as int].0@);
            assert(rv[i as int].1 == rules.list@[i as int].1@);
        }
        let pattern = &rules.list[i].0;
        let vars = declared_vars(&rules.list[i].1);
        match PatternString::parse(pattern.as_str(), vars) {
            Err(_) => {},
            Ok(ps) => {
                match ps.get_data(file_name) {
                    None => {},
                    Some(pairs) => {
                        let tree = schema_finder(catalog, root_candidates, &pairs);
                        match tree {
                            Some(t) => {
                                let path = t.to_path(catalog);
                                return Ok(path);
                            },
                            None => {},
                        }
                    },
                }
            },
        }
        i += 1;
    }
    proof {
        assert(rv.skip(rules.list.len() as int) =~= Seq::<(Seq<char>, Seq<Seq<char>>)>::empty());
    }
    Err(FOError::NoPatternMatch)
}

/// One file name to classify.
pub struct Mover {
    path: String,
}

impl Mover {
    /// The file name this mover classifies.
    pub closed spec fn target(&self) -> Seq<char> {
        self.path@
    }

    /// A mover for the given file name.
    pub fn new(path: String) -> (r: Mover)
        ensures
            r.target() == path@,
    {
        Mover { path }
    }

    /// Classifies this mover's file name with the configuration's import
    /// rules, root candidates and the catalog.
    pub fn get_path(&self, config: &Config, schemalist: &SchemaList) -> (r: Result<
        String,
        FOError,
    >)
        ensures
            match classify_spec(
                config.import@,
                schemalist@,
                config.meta@.other.children,
                self.target(),
            ) {
                None => r matches Err(e) && e == FOError::NoPatternMatch,
                Some(out) => r matches Ok(s) && s@ == out,
            },
    {
        classify(&config.import, schemalist, &config.meta.other.children.0, self.path.as_str())
    }
}

/// Resolver fallback: when no candidate is both present in the catalog and
/// type-fit on its visible fields, the resolver yields the single
/// uncategorized terminal holding all original fields; and as long as the
/// catalog has no entry under the terminal's reserved name, rendering that
/// terminal yields the empty path.
pub proof fn lemma_resolver_fallback(
    cat: Seq<SchemaV>,
    candidates: Seq<Seq<char>>,
    data: Seq<(Seq<char>, Seq<char>)>,
    fuel: nat,
)
    requires
        forall|i: int|
            0 <= i < candidates.len() ==> match catalog_lookup(cat, #[trigger] candidates[i]) {
                None => true,
                Some(sch) => !schema_fit(sch, visible_fields(data, sch.name)),
            },
        catalog_lookup(cat, "_Uncategorized"@) is None,
    ensures
        finder_spec(cat, candidates, data, fuel) == uncategorized(data),
        render_chain(uncategorized(data), cat) == Seq::<char>::empty(),
    decreases candidates.len(),
{
    if fuel != 0 && candidates.len() > 0 {
        assert(forall|i: int| 0 <= i < candidates.drop_first().len() ==> (
        #[trigger] candidates.drop_first()[i]) == candidates[i + 1]);
        lemma_resolver_fallback(cat, candidates.drop_first(), data, fuel);
    }
}

/// Greedy matching: the first candidate (in order) that is present in the
/// catalog and type-fit on its visible fields wins outright, whatever its
/// subtree resolves to; candidates after it are never considered.
pub proof fn lemma_resolver_greedy(
    cat: Seq<SchemaV>,
    candidates: Seq<Seq<char>>,
    data: Seq<(Seq<char>, Seq<char>)>,
    fuel: nat,
    i: int,
)
    requires
        fuel > 0,
        0 <= i < candidates.len(),
        catalog_lookup(cat, candidates[i]) is Some,
        schema_fit(
            catalog_lookup(cat, candidates[i])->0,
            visible_fields(data, catalog_lookup(cat, candidates[i])->0.name),
        ),
        forall|j: int|
            0 <= j < i ==> match catalog_lookup(cat, #[trigger] candidates[j]) {
                None => true,
                Some(sch) => !schema_fit(sch, visible_fields(data, sch.name)),
            },
    ensures
        ({
            let sch = catalog_lookup(cat, candidates[i])->0;
            finder_spec(cat, candidates, data, fuel) == TreeV {
                name: sch.name,
                fields: remove_dot_spec(consumed_fields(data, sch)),
                next: Some(
                    Box::new(
                        finder_spec(cat, sch.children, rest_fields(data, sch), (fuel - 1) as nat),
                    ),
                ),
            }
        }),
    decreases i,
{
    if i > 0 {
        assert(forall|k: int| 0 <= k < candidates.drop_first().len() ==> (
        #[trigger] candidates.drop_first()[k]) == candidates[k + 1]);
        lemma_resolver_greedy(cat, candidates.drop_first(), data, fuel, i - 1);
    }
}

/// Namespace scoping: a qualified field whose namespace does not reach a
/// schema's name is invisible to it, so adding such a field changes
/// neither the schema's visible fields nor its fit.
pub proof fn lemma_namespace_scoping(
    data: Seq<(Seq<char>, Seq<char>)>,
    key: Seq<char>,
    value: Seq<char>,
    sch: SchemaV,
)
    requires
        has_dot(key),
        !ns_matches(sch.name, key_namespace(key)),
    ensures
        visible_fields(data.push((key, value)), sch.name) == visible_fields(data, sch.name),
        schema_fit(sch, visible_fields(data.push((key, value)), sch.name)) == schema_fit(
            sch,
            visible_fields(data, sch.name),
        ),
    decreases data.len(),
{
    let ext = data.push((key, value));
    if data.len() == 0 {
        assert(ext[0] == (key, value));
        assert(ext.drop_first() =~= Seq::<(Seq<char>, Seq<char>)>::empty());
        assert(visible_fields(Seq::<(Seq<char>, Seq<char>)>::empty(), sch.name) =~= Seq::<(
            Seq<char>,
            Seq<char>,
        )>::empty());
        assert(visible_fields(ext, sch.name) =~= Seq::<(Seq<char>, Seq<char>)>::empty());
        assert(visible_fields(ext, sch.name) =~= visible_fields(data, sch.name));
    } else {
        assert(ext[0] == data[0]);
        assert(ext.drop_first() =~= data.drop_first().push((key, value)));
        lemma_namespace_scoping(data.drop_first(), key, value, sch);
    }
}

} // verus!
