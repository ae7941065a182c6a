//! Small shared helpers: the case-insensitive prefix matcher that namespace
//! scoping rests on, and the builder that folds namespaced fields into a
//! plain map.

use vstd::prelude::*;
use vstd::string::StringExecFns;
use vstd::string::StrSliceExecFns;
use crate::strutil::{lower_of, lowercase, str_chars};
use crate::schema::until_char;

verus! {

/// Whether one sequence is a prefix of the other, either way round: the two
/// agree on every position both of them have.
pub open spec fn prefix_related(a: Seq<char>, b: Seq<char>) -> bool {
    forall|i: int| 0 <= i < a.len() && i < b.len() ==> a[i] == #[trigger] b[i]
}

/// Whether one name matches the other as a case-insensitive prefix, in
/// either direction: `an` matches `anime`, and `anime` matches `an`.
pub fn match_text(full: &str, short: &str) -> (r: bool)
    ensures
        r == prefix_related(lower_of(full@), lower_of(short@)),
{
    let lf = lowercase(full);
    let ls = lowercase(short);
    let vf = str_chars(lf.as_str());
    let vs = str_chars(ls.as_str());
    let mut i: usize = 0;
    while i < vf.len() && i < vs.len()
        invariant
            i <= vf.len(),
            i <= vs.len(),
            vf@ == lower_of(full@),
            vs@ == lower_of(short@),
            forall|k: int| 0 <= k < i ==> vf@[k] == #[trigger] vs@[k],
        decreases vf.len() - i,
    {
        if vf[i] != vs[i] {
            return false;
        }
        i += 1;
    }
    true
}

/// The namespace notation of a key: what stands before the first dot, or
/// the empty string for an unqualified key.
pub open spec fn notation_of(key: Seq<char>) -> Seq<char> {
    if until_char(key, '.') < key.len() {
        key.take(until_char(key, '.') as int)
    } else {
        Seq::empty()
    }
}

/// The field part of a key: everything after the first dot, dots and all,
/// or the whole key when it is unqualified.
pub open spec fn field_of(key: Seq<char>) -> Seq<char> {
    if until_char(key, '.') < key.len() {
        key.skip(until_char(key, '.') as int + 1)
    } else {
        key
    }
}

/// Index of the entry with the given field name, or -1.
pub open spec fn entry_index(
    list: Seq<(Seq<char>, (Seq<char>, Seq<char>))>,
    field: Seq<char>,
) -> int
    decreases list.len(),
{
    if list.len() == 0 {
        -1
    } else if list[0].0 == field {
        0
    } else {
        let r = entry_index(list.drop_first(), field);
        if r < 0 {
            -1
        } else {
            1 + r
        }
    }
}

/// Folding one raw field into the builder's map: a key whose notation does
/// not reach the builder's schema name is ignored; otherwise the entry is
/// created, or replaced when the new notation is strictly longer than the
/// one already held.
pub open spec fn builder_insert_one(
    list: Seq<(Seq<char>, (Seq<char>, Seq<char>))>,
    schema_name: Seq<char>,
    key: Seq<char>,
    value: Seq<char>,
) -> Seq<(Seq<char>, (Seq<char>, Seq<char>))> {
    let ns = notation_of(key);
    let f = field_of(key);
    if !prefix_related(lower_of(ns), lower_of(schema_name)) {
        list
    } else {
        let i = entry_index(list, f);
        if i < 0 {
            list.push((f, (ns, value)))
        } else if ns.len() > list[i].1.0.len() {
            list.update(i, (f, (ns, value)))
        } else {
            list
        }
    }
}

/// Folding a whole raw field list into the builder's map, in order.
pub open spec fn builder_insert_list(
    list: Seq<(Seq<char>, (Seq<char>, Seq<char>))>,
    schema_name: Seq<char>,
    data: Seq<(Seq<char>, Seq<char>)>,
) -> Seq<(Seq<char>, (Seq<char>, Seq<char>))>
    decreases data.len(),
{
    if data.len() == 0 {
        list
    } else {
        builder_insert_list(
            builder_insert_one(list, schema_name, data[0].0, data[0].1),
            schema_name,
            data.drop_first(),
        )
    }
}

/// The plain map of a builder: each field name with its value.
pub open spec fn builder_map(list: Seq<(Seq<char>, (Seq<char>, Seq<char>))>) -> Seq<
    (Seq<char>, Seq<char>),
> {
    list.map_values(|e: (Seq<char>, (Seq<char>, Seq<char>))| (e.0, e.1.1))
}

proof fn lemma_entry_index_none(list: Seq<(Seq<char>, (Seq<char>, Seq<char>))>, field: Seq<char>)
    requires
        forall|k: int| 0 <= k < list.len() ==> (#[trigger] list[k]).0 != field,
    ensures
        entry_index(list, field) < 0,
    decreases list.len(),
{
    if list.len() > 0 {
        assert(forall|k: int| 0 <= k < list.drop_first().len() ==> (
        #[trigger] list.drop_first()[k]) == list[k + 1]);
        lemma_entry_index_none(list.drop_first(), field);
    }
}

proof fn lemma_entry_index_first(
    list: Seq<(Seq<char>, (Seq<char>, Seq<char>))>,
    field: Seq<char>,
    i: int,
)
    requires
        0 <= i < list.len(),
        list[i].0 == field,
        forall|k: int| 0 <= k < i ==> (#[trigger] list[k]).0 != field,
    ensures
        entry_index(list, field) == i,
    decreases i,
{
    if i > 0 {
        assert(forall|k: int| 0 <= k < list.drop_first().len() ==> (
        #[trigger] list.drop_first()[k]) == list[k + 1]);
        lemma_entry_index_first(list.drop_first(), field, i - 1);
    }
}

/// Collects namespaced fields into one plain map for a given schema name:
/// only fields whose notation reaches the name take part, and among
/// entries for the same field name the one with the longest notation wins.
#[derive(Debug)]
pub struct FieldHashMapBuilder {
    list: Vec<(String, (String, String))>,
    schema_name: String,
}

impl FieldHashMapBuilder {
    /// The entries collected so far.
    pub closed spec fn entries(&self) -> Seq<(Seq<char>, (Seq<char>, Seq<char>))> {
        self.list.deep_view()
    }

    /// The schema name the builder filters for.
    pub closed spec fn name_view(&self) -> Seq<char> {
        self.schema_name@
    }

    /// An empty builder for the given schema name.
    pub fn new(name: &str) -> (r: FieldHashMapBuilder)
        ensures
            r.entries() == Seq::<(Seq<char>, (Seq<char>, Seq<char>))>::empty(),
            r.name_view() == name@,
    {
        let r = FieldHashMapBuilder {
            list: Vec::new(),
            schema_name: String::from_str(name),
        };
        proof {
            assert(r.entries() =~= Seq::<(Seq<char>, (Seq<char>, Seq<char>))>::empty());
        }
        r
    }

    /// Folds a raw field list into the builder, as `builder_insert_list`
    /// says.
    pub fn insert(self, data: &Vec<(String, String)>) -> (r: FieldHashMapBuilder)
        ensures
            r.name_view() == self.name_view(),
            r.entries() == builder_insert_list(self.entries(), self.name_view(), data.deep_view()),
    {
        let ghost name = self.name_view();
        let ghost init = self.entries();
        let ghost dv = data.deep_view();
        let mut me = self;
        let mut i: usize = 0;
        proof {
            assert(dv.skip(0) =~= dv);
        }
        while i < data.len()
            invariant
                i <= data.len(),
                dv == data.deep_view(),
                dv.len() == data.len(),
                me.name_view() == name,
                builder_insert_list(init, name, dv) == builder_insert_list(
                    me.entries(),
                    name,
                    dv.skip(i as int),
                ),
            decreases data.len() - i,
        {
            proof {
                assert(dv.skip(i as int)[0] == dv[i as int]);
                assert(dv.skip(i as int).drop_first() =~= dv.skip(i as int + 1));
                assert(dv[i as int] == (data@[i as int].0@, data@[i as int].1@));
            }
            me.insert_one(&data[i].0, &data[i].1);
            i += 1;
        }
        proof {
            assert(dv.skip(data.len() as int) =~= Seq::<(Seq<char>, Seq<char>)>::empty());
        }
        me
    }

    /// Folds one raw field in.
    fn insert_one(&mut self, key: &String, value: &String)
        ensures
            final(self).name_view() == old(self).name_view(),
            final(self).entries() == builder_insert_one(
                old(self).entries(),
                old(self).name_view(),
                key@,
                value@,
            ),
    {
        let ghost lv = self.entries();
        let ghost name = self.name_view();
        let v = str_chars(key.as_str());
        proof {
            assert(v@.subrange(0, v@.len() as int) =~= key@);
        }
        let d = crate::schema::scan_to(&v, 0, v.len(), '.');
        let (ns, field): (String, String) = if d < v.len() {
            proof {
                assert(key@.take(d as int) =~= v@.subrange(0, d as int));
                assert(key@.skip(d as int + 1) =~= v@.subrange(d as int + 1, v@.len() as int));
            }
            (
                crate::parser::range_string(&v, 0, d),
                crate::parser::range_string(&v, d + 1, v.len()),
            )
        } else {
            proof {
                assert(notation_of(key@) =~= Seq::<char>::empty());
            }
            (String::new(), key.clone())
        };
        if !match_text(ns.as_str(), self.schema_name.as_str()) {
            return;
        }
        let ghost f = field_of(key@);
        let mut j: usize = 0;
        while j < self.list.len()
            invariant
                j <= self.list.len(),
                lv == self.entries(),
                lv == old(self).entries(),
                name == old(self).name_view(),
                self.name_view() == name,
                lv.len() == self.list.len(),
                f == field@,
                f == field_of(key@),
                ns@ == notation_of(key@),
                prefix_related(lower_of(notation_of(key@)), lower_of(name)),
                forall|k: int| 0 <= k < j ==> (#[trigger] lv[k]).0 != f,
            decreases self.list.len() - j,
        {
            proof {
                assert(lv[j as int] == (self.list@[j as int].0@, (self.list@[j as int].1.0@,
                self.list@[j as int].1.1@)));
            }
            if crate::strutil::str_eq_str(self.list[j].0.as_str(), field.as_str()) {
                proof {
                    lemma_entry_index_first(lv, f, j as int);
                }
                if self.list[j].1.0.as_str().unicode_len() < ns.as_str().unicode_len() {
                    proof {
                        assert(self.list@[j as int].1.0@.len() == self.list[j as int].1.0@.len());
                    }
                    self.list[j] = (field, (ns, value.clone()));
                    proof {
                        assert(self.entries() =~= lv.update(j as int, (f, (notation_of(key@),
                        value@))));
                    }
                    proof {
                        assert(builder_insert_one(lv, name, key@, value@) =~= lv.update(
                            j as int,
                            (f, (notation_of(key@), value@)),
                        ));
                        assert(self.entries() == builder_insert_one(lv, name, key@, value@));
                    }
                } else {
                    proof {
                        assert(!(notation_of(key@).len() > lv[j as int].1.0.len()));
                        assert(builder_insert_one(lv, name, key@, value@) == lv);
                        assert(self.entries() == builder_insert_one(lv, name, key@, value@));
                    }
                }
                proof {
                    assert(self.name_view() == name);
                }
                return;
            }
            j += 1;
        }
        proof {
            lemma_entry_index_none(lv, f);
        }
        self.list.push((field, (ns, value.clone())));
        proof {
            assert(self.entries() =~= lv.push((f, (notation_of(key@), value@))));
        }
    }

    /// The collected entries as one plain field-to-value list.
    pub fn to_map(self) -> (r: Vec<(String, String)>)
        ensures
            r.deep_view() == builder_map(self.entries()),
    {
        let ghost lv = self.entries();
        let mut out: Vec<(String, String)> = Vec::new();
        let mut i: usize = 0;
        while i < self.list.len()
            invariant
                i <= self.list.len(),
                lv == self.entries(),
                lv.len() == self.list.len(),
                out@.len() == i,
                forall|k: int| 0 <= k < i ==> out.deep_view()[k] == #[trigger] builder_map(lv)[k],
            decreases self.list.len() - i,
        {
            proof {
                assert(lv[i as int] == (self.list@[i as int].0@, (self.list@[i as int].1.0@,
                self.list@[i as int].1.1@)));
            }
            out.push((self.list[i].0.clone(), self.list[i].1.1.clone()));
            i += 1;
        }
        proof {
            assert(out.deep_view() =~= builder_map(lv));
        }
        out
    }
}

} // verus!
