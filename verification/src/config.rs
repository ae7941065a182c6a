//! Plain configuration data as the engine consumes it: schema fragments,
//! import rules and the meta section, already parsed from whatever document
//! format the host application reads.

use vstd::prelude::*;

verus! {

/// A list of strings that the host may have written as one comma-separated
/// string or as a sequence.
#[derive(Debug, Clone)]
pub struct CommaSeperated(pub Vec<String>);

impl View for CommaSeperated {
    type V = Seq<Seq<char>>;

    open spec fn view(&self) -> Seq<Seq<char>> {
        self.0.deep_view()
    }
}

/// One schema fragment: field declarations, child names and a template.
#[derive(Debug, Clone)]
pub struct SchemaConfigItem {
    pub fields: CommaSeperated,
    pub children: CommaSeperated,
    pub filename: Option<String>,
}

/// Specification view of a `SchemaConfigItem`.
pub struct ItemV {
    pub fields: Seq<Seq<char>>,
    pub children: Seq<Seq<char>>,
    pub filename: Option<Seq<char>>,
}

impl View for SchemaConfigItem {
    type V = ItemV;

    open spec fn view(&self) -> ItemV {
        ItemV {
            fields: self.fields@,
            children: self.children@,
            filename: self.filename.deep_view(),
        }
    }
}

/// The named schema fragments of one configuration source, in order.
#[derive(Debug)]
pub struct SchemaConfig {
    pub items: Vec<(String, SchemaConfigItem)>,
}

impl View for SchemaConfig {
    type V = Seq<(Seq<char>, ItemV)>;

    open spec fn view(&self) -> Seq<(Seq<char>, ItemV)> {
        self.items@.map_values(|p: (String, SchemaConfigItem)| (p.0@, p.1@))
    }
}

/// The import rules: pattern strings with their declared variable names,
/// tried in order.
#[derive(Debug)]
pub struct ImportConfig {
    pub list: Vec<(String, CommaSeperated)>,
}

impl View for ImportConfig {
    type V = Seq<(Seq<char>, Seq<Seq<char>>)>;

    open spec fn view(&self) -> Seq<(Seq<char>, Seq<Seq<char>>)> {
        self.list@.map_values(|p: (String, CommaSeperated)| (p.0@, p.1@))
    }
}

/// The meta section: where the root of the catalog is declared.
#[derive(Debug)]
pub struct MetaConfig {
    pub schema: Option<String>,
    pub ignore_schema: bool,
    pub other: SchemaConfigItem,
}

/// Specification view of a `MetaConfig`.
pub struct MetaV {
    pub schema: Option<Seq<char>>,
    pub ignore_schema: bool,
    pub other: ItemV,
}

impl View for MetaConfig {
    type V = MetaV;

    open spec fn view(&self) -> MetaV {
        MetaV {
            schema: self.schema.deep_view(),
            ignore_schema: self.ignore_schema,
            other: self.other@,
        }
    }
}

impl MetaConfig {
    /// Folds another meta section into this one: the schema reference and
    /// the template are filled only if absent, and the field and child
    /// lists of the other section are appended to this one's.
    pub fn combine(&mut self, other: &MetaConfig)
        ensures
            final(self)@.schema == (if old(self)@.schema is Some {
                old(self)@.schema
            } else {
                other@.schema
            }),
            final(self)@.ignore_schema == old(self)@.ignore_schema,
            final(self)@.other.fields == old(self)@.other.fields + other@.other.fields,
            final(self)@.other.children == old(self)@.other.children + other@.other.children,
            final(self)@.other.filename == (if old(self)@.other.filename is Some {
                old(self)@.other.filename
            } else {
                other@.other.filename
            }),
    {
        if self.schema.is_none() {
            self.schema = match &other.schema {
                Some(s) => Some(s.clone()),
                None => None,
            };
        }
        extend_strings(&mut self.other.fields.0, &other.other.fields.0);
        extend_strings(&mut self.other.children.0, &other.other.children.0);
        if self.other.filename.is_none() {
            self.other.filename = match &other.other.filename {
                Some(s) => Some(s.clone()),
                None => None,
            };
        }
    }
}

/// Appends clones of the entries of `src` to `dst`.
fn extend_strings(dst: &mut Vec<String>, src: &Vec<String>)
    ensures
        final(dst).deep_view() == old(dst).deep_view() + src.deep_view(),
{
    let ghost base = dst.deep_view();
    let ghost add = src.deep_view();
    let mut i: usize = 0;
    proof {
        assert(base + add.take(0) =~= base);
        assert(dst.deep_view() =~= base + add.take(0));
    }
    while i < src.len()
        invariant
            i <= src.len(),
            add == src.deep_view(),
            add.len() == src.len(),
            dst.deep_view() == base + add.take(i as int),
        decreases src.len() - i,
    {
        let ghost pre_deep = dst.deep_view();
        dst.push(src[i].clone());
        proof {
            assert(add[i as int] == src@[i as int]@);
            assert(dst.deep_view() =~= pre_deep.push(add[i as int]));
            assert(base + add.take(i as int + 1) =~= (base + add.take(i as int)).push(
                add[i as int],
            ));
            assert(dst.deep_view() =~= base + add.take(i as int + 1));
        }
        i += 1;
    }
    proof {
        assert(add.take(src.len() as int) =~= add);
    }
}

/// One whole configuration source: schema fragments, import rules, meta.
#[derive(Debug)]
pub struct Config {
    pub schema: SchemaConfig,
    pub import: ImportConfig,
    pub meta: MetaConfig,
}

/// Index of the first fragment of the given name, or -1.
pub open spec fn items_index(items: Seq<(Seq<char>, ItemV)>, key: Seq<char>) -> int
    decreases items.len(),
{
    if items.len() == 0 {
        -1
    } else if items[0].0 == key {
        0
    } else {
        let r = items_index(items.drop_first(), key);
        if r < 0 {
            -1
        } else {
            1 + r
        }
    }
}

/// Merging one named fragment: a higher-priority fragment replaces an
/// existing entry of the same name, a lower-priority one fills only an
/// absent name.
pub open spec fn items_merge_one(
    items: Seq<(Seq<char>, ItemV)>,
    key: Seq<char>,
    item: ItemV,
    higher: bool,
) -> Seq<(Seq<char>, ItemV)> {
    let i = items_index(items, key);
    if i < 0 {
        items.push((key, item))
    } else if higher {
        items.update(i, (key, item))
    } else {
        items
    }
}

/// Merging a list of named fragments, in order.
pub open spec fn items_merge(
    items: Seq<(Seq<char>, ItemV)>,
    other: Seq<(Seq<char>, ItemV)>,
    higher: bool,
) -> Seq<(Seq<char>, ItemV)>
    decreases other.len(),
{
    if other.len() == 0 {
        items
    } else {
        items_merge(items_merge_one(items, other[0].0, other[0].1, higher), other.drop_first(), higher)
    }
}

/// Merging import rule lists: a higher-priority source has each of its
/// rules inserted at the front, one after the other (which reverses their
/// order there); a lower-priority source is appended in order.
pub open spec fn import_merge(
    list: Seq<(Seq<char>, Seq<Seq<char>>)>,
    other: Seq<(Seq<char>, Seq<Seq<char>>)>,
    higher: bool,
) -> Seq<(Seq<char>, Seq<Seq<char>>)>
    decreases other.len(),
{
    if other.len() == 0 {
        list
    } else if higher {
        import_merge(seq![other[0]] + list, other.drop_first(), higher)
    } else {
        import_merge(list.push(other[0]), other.drop_first(), higher)
    }
}

proof fn lemma_items_index_none(items: Seq<(Seq<char>, ItemV)>, key: Seq<char>)
    requires
        forall|k: int| 0 <= k < items.len() ==> (#[trigger] items[k]).0 != key,
    ensures
        items_index(items, key) < 0,
    decreases items.len(),
{
    if items.len() > 0 {
        assert(forall|k: int| 0 <= k < items.drop_first().len() ==> (
        #[trigger] items.drop_first()[k]) == items[k + 1]);
        lemma_items_index_none(items.drop_first(), key);
    }
}

proof fn lemma_items_index_first(items: Seq<(Seq<char>, ItemV)>, key: Seq<char>, i: int)
    requires
        0 <= i < items.len(),
        items[i].0 == key,
        forall|k: int| 0 <= k < i ==> (#[trigger] items[k]).0 != key,
    ensures
        items_index(items, key) == i,
    decreases i,
{
    if i > 0 {
        assert(forall|k: int| 0 <= k < items.drop_first().len() ==> (
        #[trigger] items.drop_first()[k]) == items[k + 1]);
        lemma_items_index_first(items.drop_first(), key, i - 1);
    }
}

impl Config {
    /// Folds another configuration source into this one.  Schema fragments
    /// merge by name: with `higher_priority` the other source replaces
    /// entries of the same name, without it the other source only fills
    /// absent names.  Import rules from a higher-priority source go to the
    /// front, others to the back.  The meta section absorbs the other one
    /// only from a lower-priority source.
    pub fn combine_config(&mut self, other: &Config, higher_priority: bool)
        ensures
            final(self).schema@ == items_merge(old(self).schema@, other.schema@, higher_priority),
            final(self).import@ == import_merge(old(self).import@, other.import@, higher_priority),
            higher_priority ==> final(self).meta@ == old(self).meta@,
            !higher_priority ==> {
                &&& final(self).meta@.schema == (if old(self).meta@.schema is Some {
                    old(self).meta@.schema
                } else {
                    other.meta@.schema
                })
                &&& final(self).meta@.ignore_schema == old(self).meta@.ignore_schema
                &&& final(self).meta@.other.fields == old(self).meta@.other.fields
                    + other.meta@.other.fields
                &&& final(self).meta@.other.children == old(self).meta@.other.children
                    + other.meta@.other.children
                &&& final(self).meta@.other.filename == (if old(self).meta@.other.filename
                    is Some {
                    old(self).meta@.other.filename
                } else {
                    other.meta@.other.filename
                })
            },
    {
        let ghost oitems = other.schema@;
        let mut i: usize = 0;
        proof {
            assert(oitems.skip(0) =~= oitems);
        }
        while i < other.schema.items.len()
            invariant
                i <= other.schema.items.len(),
                oitems == other.schema@,
                oitems.len() == other.schema.items.len(),
                items_merge(old(self).schema@, oitems, higher_priority) == items_merge(
                    self.schema@,
                    oitems.skip(i as int),
                    higher_priority,
                ),
                self.import@ == old(self).import@,
                self.meta@ == old(self).meta@,
            decreases other.schema.items.len() - i,
        {
            let ghost pre = self.schema@;
            proof {
                assert(oitems.skip(i as int)[0] == oitems[i as int]);
                assert(oitems.skip(i as int).drop_first() =~= oitems.skip(i as int + 1));
                assert(oitems[i as int].0 == other.schema.items@[i as int].0@);
                assert(oitems[i as int].1 == other.schema.items@[i as int].1@);
            }
            let key = &other.schema.items[i].0;
            let item = &other.schema.items[i].1;
            self.merge_schema_item(key, item, higher_priority);
            proof {
                assert(self.schema@ == items_merge_one(
                    pre,
                    oitems[i as int].0,
                    oitems[i as int].1,
                    higher_priority,
                ));
            }
            i += 1;
        }
        proof {
            assert(oitems.skip(i as int) =~= Seq::<(Seq<char>, ItemV)>::empty());
        }
        let ghost oimp = other.import@;
        let mut j: usize = 0;
        proof {
            assert(oimp.skip(0) =~= oimp);
        }
        while j < other.import.list.len()
            invariant
                j <= other.import.list.len(),
                oimp == other.import@,
                oimp.len() == other.import.list.len(),
                import_merge(old(self).import@, oimp, higher_priority) == import_merge(
                    self.import@,
                    oimp.skip(j as int),
                    higher_priority,
                ),
                self.schema@ == items_merge(old(self).schema@, other.schema@, higher_priority),
                self.meta@ == old(self).meta@,
            decreases other.import.list.len() - j,
        {
            let ghost pre = self.import@;
            proof {
                assert(oimp.skip(j as int)[0] == oimp[j as int]);
                assert(oimp.skip(j as int).drop_first() =~= oimp.skip(j as int + 1));
                assert(oimp[j as int].0 == other.import.list@[j as int].0@);
                assert(oimp[j as int].1 == other.import.list@[j as int].1@);
            }
            let pat = other.import.list[j].0.clone();
            let vars = clone_comma(&other.import.list[j].1);
            if higher_priority {
                self.import.list.insert(0, (pat, vars));
                proof {
                    assert(self.import@ =~= seq![oimp[j as int]] + pre);
                }
            } else {
                self.import.list.push((pat, vars));
                proof {
                    assert(self.import@ =~= pre.push(oimp[j as int]));
                }
            }
            j += 1;
        }
        proof {
            assert(oimp.skip(j as int) =~= Seq::<(Seq<char>, Seq<Seq<char>>)>::empty());
        }
        if !higher_priority {
            self.meta.combine(&other.meta);
        }
    }

    /// Merges one named schema fragment, as `items_merge_one` says.
    fn merge_schema_item(&mut self, key: &String, item: &SchemaConfigItem, higher: bool)
        ensures
            final(self).schema@ == items_merge_one(old(self).schema@, key@, item@, higher),
            final(self).import@ == old(self).import@,
            final(self).meta@ == old(self).meta@,
    {
        let ghost items = self.schema@;
        let mut i: usize = 0;
        while i < self.schema.items.len()
            invariant
                i <= self.schema.items.len(),
                items == self.schema@,
                items == old(self).schema@,
                self.import@ == old(self).import@,
                self.meta@ == old(self).meta@,
                items.len() == self.schema.items.len(),
                forall|k: int| 0 <= k < i ==> (#[trigger] items[k]).0 != key@,
            decreases self.schema.items.len() - i,
        {
            proof {
                assert(items[i as int].0 == self.schema.items@[i as int].0@);
            }
            if self.schema.items[i].0.eq(key) {
                proof {
                    lemma_items_index_first(items, key@, i as int);
                }
                if higher {
                    self.schema.items[i] = (key.clone(), clone_item(item));
                    proof {
                        assert(self.schema@ =~= items.update(i as int, (key@, item@)));
                    }
                }
                return;
            }
            i += 1;
        }
        proof {
            lemma_items_index_none(items, key@);
        }
        let ghost pre = self.schema@;
        self.schema.items.push((key.clone(), clone_item(item)));
        proof {
            assert(self.schema@ =~= pre.push((key@, item@)));
        }
    }
}

/// A content-preserving copy of a comma-separated list.
fn clone_comma(c: &CommaSeperated) -> (r: CommaSeperated)
    ensures
        r@ == c@,
{
    let mut v: Vec<String> = Vec::new();
    extend_strings(&mut v, &c.0);
    proof {
        assert(v.deep_view() =~= c.0.deep_view());
    }
    CommaSeperated(v)
}

/// A content-preserving copy of a schema fragment.
fn clone_item(item: &SchemaConfigItem) -> (r: SchemaConfigItem)
    ensures
        r@ == item@,
{
    let filename = match &item.filename {
        Some(f) => Some(f.clone()),
        None => None,
    };
    SchemaConfigItem {
        fields: clone_comma(&item.fields),
        children: clone_comma(&item.children),
        filename,
    }
}

} // verus!
