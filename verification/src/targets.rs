use vstd::prelude::*;

use crate::lookup::{first_key_idx, has_key, lemma_first_key_idx_bounds, lemma_first_key_idx_prefix,
    lemma_has_key_exists, unique_keys};

verus! {

/// One column of a target's schema snapshot: column name and declared type.
pub struct TableField {
    pub name: String,
    pub data_type: String,
}

impl View for TableField {
    type V = (Seq<char>, Seq<char>);

    open spec fn view(&self) -> (Seq<char>, Seq<char>) {
        (self.name@, self.data_type@)
    }
}

impl Clone for TableField {
    fn clone(&self) -> (r: TableField)
        ensures
            r@ == self@,
    {
        TableField { name: self.name.clone(), data_type: self.data_type.clone() }
    }
}

/// Mathematical model of a `Target`: every field as a sequence or integer.
#[verifier::ext_equal]
pub struct TargetView {
    pub name: Seq<char>,
    /// Column name to declared type, in insertion order.
    pub fields: Seq<(Seq<char>, Seq<char>)>,
    /// Highest row identifier already captured; 0 means no rows seen.
    pub last_id: int,
    /// Seconds since the epoch when this target last yielded rows.
    pub last_updated: int,
    /// Seconds since the epoch when this target was last examined.
    pub last_checked: int,
    pub enabled: bool,
}

impl TargetView {
    pub open spec fn field_keys(self) -> Seq<Seq<char>> {
        self.fields.map_values(|p: (Seq<char>, Seq<char>)| p.0)
    }

    /// Well-formed: column names are unique.
    pub open spec fn wf(self) -> bool {
        unique_keys(self.field_keys())
    }

    /// The schema map after inserting a column: an existing column of the
    /// same name has its type replaced in place, a new column is appended.
    pub open spec fn upsert_field(self, name: Seq<char>, value: Seq<char>) -> TargetView {
        TargetView {
            fields: if has_key(self.field_keys(), name) {
                self.fields.update(first_key_idx(self.field_keys(), name), (name, value))
            } else {
                self.fields.push((name, value))
            },
            ..self
        }
    }

    /// `upsert_field` applied to each pair of `adds` in order.
    pub open spec fn upsert_fields(self, adds: Seq<(Seq<char>, Seq<char>)>) -> TargetView
        decreases adds.len(),
    {
        if adds.len() == 0 {
            self
        } else {
            self.upsert_field(adds[0].0, adds[0].1).upsert_fields(adds.drop_first())
        }
    }

    /// A target is due when it is enabled and its interval has elapsed
    /// since it was last examined.
    pub open spec fn is_due(self, interval: int, now: int) -> bool {
        self.enabled && now >= self.last_checked + interval
    }
}

pub proof fn lemma_upsert_field_wf(t: TargetView, name: Seq<char>, value: Seq<char>)
    requires
        t.wf(),
    ensures
        t.upsert_field(name, value).wf(),
        t.upsert_field(name, value).field_keys() == if has_key(t.field_keys(), name) {
            t.field_keys()
        } else {
            t.field_keys().push(name)
        },
{
    let keys = t.field_keys();
    let u = t.upsert_field(name, value);
    lemma_first_key_idx_bounds(keys, name);
    if has_key(keys, name) {
        let i = first_key_idx(keys, name);
        assert(u.field_keys() =~= keys);
    } else {
        lemma_has_key_exists(keys, name);
        assert(u.field_keys() =~= keys.push(name));
        assert forall|i: int, j: int| 0 <= i < j < u.field_keys().len() implies u.field_keys()[i]
            != u.field_keys()[j] by {
            if j == keys.len() {
                assert(u.field_keys()[i] == keys[i]);
            }
        }
    }
}

/// One pollable table within a source database.
pub struct Target {
    name: String,
    fields: Vec<TableField>,
    last_id: i64,
    last_updated: u64,
    last_checked: u64,
    enabled: bool,
}

impl View for Target {
    type V = TargetView;

    closed spec fn view(&self) -> TargetView {
        TargetView {
            name: self.name@,
            fields: self.fields@.map_values(|f: TableField| f@),
            last_id: self.last_id as int,
            last_updated: self.last_updated as int,
            last_checked: self.last_checked as int,
            enabled: self.enabled,
        }
    }
}

impl Clone for Target {
    fn clone(&self) -> (r: Target)
        ensures
            r@ == self@,
    {
        let mut fields: Vec<TableField> = Vec::new();
        let mut i: usize = 0;
        while i < self.fields.len()
            invariant
                i <= self.fields.len(),
                fields@.len() == i as int,
                forall|k: int| 0 <= k < i ==> fields@[k]@ == self.fields@[k]@,
            decreases self.fields.len() - i,
        {
            fields.push(self.fields[i].clone());
            i = i + 1;
        }
        let r = Target {
            name: self.name.clone(),
            fields,
            last_id: self.last_id,
            last_updated: self.last_updated,
            last_checked: self.last_checked,
            enabled: self.enabled,
        };
        proof {
            assert(r@.fields =~~= self@.fields);
            assert(r@ =~~= self@);
        }
        r
    }
}

impl Target {
    /// A fresh target discovered at time `now` (seconds since the
    /// epoch): no schema, cursor 0 (no rows seen), both stamps set to
    /// `now`, enabled.
    pub fn new(name: String, now: u64) -> (r: Target)
        ensures
            r@ == (TargetView {
                name: name@,
                fields: Seq::<(Seq<char>, Seq<char>)>::empty(),
                last_id: 0,
                last_updated: now as int,
                last_checked: now as int,
                enabled: true,
            }),
            r@.wf(),
    {
        let r = Target {
            name,
            fields: Vec::new(),
            last_id: 0,
            last_updated: now,
            last_checked: now,
            enabled: true,
        };
        proof {
            assert(r@.field_keys() =~= Seq::<Seq<char>>::empty());
            assert(r@ =~= (TargetView {
                name: r.name@,
                fields: Seq::<(Seq<char>, Seq<char>)>::empty(),
                last_id: 0,
                last_updated: now as int,
                last_checked: now as int,
                enabled: true,
            }));
        }
        r
    }

    /// Rebuild a target from persisted parts. The schema columns are
    /// inserted one by one, so the result is well-formed even when the
    /// given column list repeats a name (the last type wins).
    pub fn construct(
        name: String,
        fields: Vec<TableField>,
        last_id: i64,
        last_updated: u64,
        last_checked: u64,
        enabled: bool,
    ) -> (r: Target)
        ensures
            r@ == (TargetView {
                name: name@,
                fields: Seq::<(Seq<char>, Seq<char>)>::empty(),
                last_id: last_id as int,
                last_updated: last_updated as int,
                last_checked: last_checked as int,
                enabled,
            }).upsert_fields(fields@.map_values(|f: TableField| f@)),
            r@.wf(),
    {
        let ghost base = TargetView {
            name: name@,
            fields: Seq::<(Seq<char>, Seq<char>)>::empty(),
            last_id: last_id as int,
            last_updated: last_updated as int,
            last_checked: last_checked as int,
            enabled,
        };
        let ghost adds = fields@.map_values(|f: TableField| f@);
        let mut r = Target {
            name,
            fields: Vec::new(),
            last_id,
            last_updated,
            last_checked,
            enabled,
        };
        proof {
            assert(r@.field_keys() =~= Seq::<Seq<char>>::empty());
            assert(r@ =~= base);
            assert(adds.skip(0) =~= adds);
        }
        let mut i: usize = 0;
        while i < fields.len()
            invariant
                i <= fields.len(),
                adds == fields@.map_values(|f: TableField| f@),
                r@.wf(),
                r@.upsert_fields(adds.skip(i as int)) == base.upsert_fields(adds),
            decreases fields.len() - i,
        {
            let ghost before = r@;
            let f = &fields[i];
            r.add_field(f.name.clone(), f.data_type.clone());
            proof {
                assert(adds.skip(i as int).drop_first() =~= adds.skip(i as int + 1));
                assert(adds.skip(i as int)[0] == adds[i as int]);
                assert(r@ == before.upsert_field(adds[i as int].0, adds[i as int].1));
            }
            i = i + 1;
        }
        proof {
            assert(adds.skip(fields@.len() as int) =~= Seq::<(Seq<char>, Seq<char>)>::empty());
        }
        r
    }

    /// Insert a schema column: replace the type of an existing column of
    /// the same name, or append a new column.
    pub fn add_field(&mut self, name: String, value: String)
        ensures
            final(self)@ == old(self)@.upsert_field(name@, value@),
            old(self)@.wf() ==> final(self)@.wf(),
    {
        let ghost keys = self@.field_keys();
        proof {
            assert(keys.len() == self.fields@.len());
        }
        let n = self.fields.len();
        let mut i: usize = 0;
        while i < n
            invariant
                n == self.fields.len(),
                i <= n,
                *self == *old(self),
                keys == self@.field_keys(),
                keys.len() == n as int,
                forall|k: int| 0 <= k < i ==> self@.field_keys()[k] != name@,
            decreases n - i,
        {
            if self.fields[i].name == name {
                proof {
                    assert(self@.field_keys()[i as int] == name@);
                    lemma_first_key_idx_prefix(keys, name@, i as int);
                    if old(self)@.wf() {
                        lemma_upsert_field_wf(old(self)@, name@, value@);
                    }
                }
                self.fields[i] = TableField { name, data_type: value };
                proof {
                    assert(self@.fields =~~= old(self)@.fields.update(
                        i as int,
                        (name@, value@),
                    ));
                    assert(self@ =~~= old(self)@.upsert_field(name@, value@));
                }
                return ;
            }
            i = i + 1;
        }
        proof {
            lemma_first_key_idx_prefix(keys, name@, n as int);
            if old(self)@.wf() {
                lemma_upsert_field_wf(old(self)@, name@, value@);
            }
        }
        self.fields.push(TableField { name, data_type: value });
        proof {
            assert(self@.fields =~~= old(self)@.fields.push((name@, value@)));
            assert(self@ =~~= old(self)@.upsert_field(name@, value@));
        }
    }

    /// Insert every given column, in order, with `add_field` semantics.
    pub fn set_fields(&mut self, fields: Vec<TableField>)
        ensures
            final(self)@ == old(self)@.upsert_fields(fields@.map_values(|f: TableField| f@)),
            old(self)@.wf() ==> final(self)@.wf(),
    {
        let ghost base = old(self)@;
        let ghost adds = fields@.map_values(|f: TableField| f@);
        proof {
            assert(adds.skip(0) =~= adds);
        }
        let mut i: usize = 0;
        while i < fields.len()
            invariant
                i <= fields.len(),
                adds == fields@.map_values(|f: TableField| f@),
                base.wf() ==> self@.wf(),
                self@.upsert_fields(adds.skip(i as int)) == base.upsert_fields(adds),
            decreases fields.len() - i,
        {
            let ghost before = self@;
            let f = &fields[i];
            self.add_field(f.name.clone(), f.data_type.clone());
            proof {
                assert(adds.skip(i as int).drop_first() =~= adds.skip(i as int + 1));
                assert(adds.skip(i as int)[0] == adds[i as int]);
                assert(self@ == before.upsert_field(adds[i as int].0, adds[i as int].1));
            }
            i = i + 1;
        }
        proof {
            assert(adds.skip(fields@.len() as int) =~= Seq::<(Seq<char>, Seq<char>)>::empty());
        }
    }

    /// The declared type of the named column, when present.
    pub fn get_field(&self, name: String) -> (r: Option<&String>)
        ensures
            has_key(self@.field_keys(), name@) ==> (r matches Some(v) && v@ == self@.fields[
                first_key_idx(self@.field_keys(), name@)].1),
            !has_key(self@.field_keys(), name@) ==> r is None,
    {
        let ghost keys = self@.field_keys();
        proof {
            assert(keys.len() == self.fields@.len());
        }
        let n = self.fields.len();
        let mut i: usize = 0;
        while i < n
            invariant
                n == self.fields.len(),
                i <= n,
                keys == self@.field_keys(),
                keys.len() == n as int,
                forall|k: int| 0 <= k < i ==> self@.field_keys()[k] != name@,
            decreases n - i,
        {
            if self.fields[i].name == name {
                proof {
                    assert(self@.field_keys()[i as int] == name@);
                    lemma_first_key_idx_prefix(keys, name@, i as int);
                    assert(self@.fields[i as int].1 == self.fields@[i as int].data_type@);
                }
                return Some(&self.fields[i].data_type);
            }
            i = i + 1;
        }
        proof {
            lemma_first_key_idx_prefix(keys, name@, n as int);
        }
        None
    }


    /// Decide well-formedness at run time: true exactly when the column
    /// names are unique.
    pub fn check_wf(&self) -> (r: bool)
        ensures
            r == self@.wf(),
    {
        let ghost keys = self@.field_keys();
        proof {
            assert(keys.len() == self.fields@.len());
        }
        let n = self.fields.len();
        let mut i: usize = 0;
        while i < n
            invariant
                n == self.fields.len(),
                i <= n,
                keys == self@.field_keys(),
                keys.len() == n as int,
                forall|a: int, b: int| 0 <= a < b < n && a < i ==> keys[a] != keys[b],
            decreases n - i,
        {
            let mut j: usize = i + 1;
            while j < n
                invariant
                    n == self.fields.len(),
                    i < n,
                    i < j <= n,
                    keys == self@.field_keys(),
                    keys.len() == n as int,
                    forall|b: int| i < b < j ==> keys[i as int] != keys[b],
                decreases n - j,
            {
                if self.fields[i].name == self.fields[j].name {
                    proof {
                        assert(keys[i as int] == keys[j as int]);
                        assert(!unique_keys(keys));
                    }
                    return false;
                }
                j = j + 1;
            }
            i = i + 1;
        }
        proof {
            assert(unique_keys(keys));
        }
        true
    }

    pub fn get_fields(&self) -> (r: &Vec<TableField>)
        ensures
            r@.map_values(|f: TableField| f@) == self@.fields,
    {
        &self.fields
    }

    pub fn get_name(&self) -> (r: &String)
        ensures
            r@ == self@.name,
    {
        &self.name
    }

    pub fn get_last_id(&self) -> (r: i64)
        ensures
            r as int == self@.last_id,
    {
        self.last_id
    }

    pub fn set_last_id(&mut self, last_id: i64)
        ensures
            final(self)@ == (TargetView { last_id: last_id as int, ..old(self)@ }),
    {
        self.last_id = last_id;
    }

    pub fn get_last_updated(&self) -> (r: u64)
        ensures
            r as int == self@.last_updated,
    {
        self.last_updated
    }

    pub fn set_last_updated(&mut self, last_updated: u64)
        ensures
            final(self)@ == (TargetView { last_updated: last_updated as int, ..old(self)@ }),
    {
        self.last_updated = last_updated;
    }

    pub fn get_last_checked(&self) -> (r: u64)
        ensures
            r as int == self@.last_checked,
    {
        self.last_checked
    }

    pub fn set_last_checked(&mut self, last_checked: u64)
        ensures
            final(self)@ == (TargetView { last_checked: last_checked as int, ..old(self)@ }),
    {
        self.last_checked = last_checked;
    }

    pub fn get_enabled(&self) -> (r: bool)
        ensures
            r == self@.enabled,
    {
        self.enabled
    }

    pub fn set_enabled(&mut self, enabled: bool)
        ensures
            final(self)@ == (TargetView { enabled, ..old(self)@ }),
    {
        self.enabled = enabled;
    }
}

} // verus!
