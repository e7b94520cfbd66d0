use vstd::prelude::*;

use crate::errors::PbusError;
use crate::lookup::{first_key_idx, has_key, lemma_first_key_idx_bounds, lemma_first_key_idx_prefix,
    lemma_has_key_exists, unique_keys};
use crate::targets::{TableField, Target, TargetView};

verus! {

/// Mathematical model of a `Database`.
#[verifier::ext_equal]
pub struct DatabaseView {
    pub database_host: Seq<char>,
    pub server_port: int,
    pub database_user: Seq<char>,
    pub database_name: Seq<char>,
    pub database_password: Seq<char>,
    pub targets: Seq<TargetView>,
    pub update_interval: int,
    pub last_updated: int,
}

impl DatabaseView {
    pub open spec fn target_keys(self) -> Seq<Seq<char>> {
        self.targets.map_values(|t: TargetView| t.name)
    }

    pub open spec fn has_target(self, name: Seq<char>) -> bool {
        has_key(self.target_keys(), name)
    }

    pub open spec fn target_idx(self, name: Seq<char>) -> int {
        first_key_idx(self.target_keys(), name)
    }

    pub open spec fn target_at(self, name: Seq<char>) -> TargetView {
        self.targets[self.target_idx(name)]
    }

    /// Well-formed: target names unique, every target well-formed.
    pub open spec fn wf(self) -> bool {
        &&& unique_keys(self.target_keys())
        &&& forall|i: int| 0 <= i < self.targets.len() ==> self.targets[i].wf()
    }

    pub open spec fn with_target_updated(self, i: int, t: TargetView) -> DatabaseView {
        DatabaseView { targets: self.targets.update(i, t), ..self }
    }
}

/// Replacing a target by one of the same name, or appending one under a
/// fresh name, keeps a database well-formed.
pub proof fn lemma_db_update_wf(d: DatabaseView, i: int, t: TargetView)
    requires
        d.wf(),
        0 <= i < d.targets.len(),
        t.name == d.targets[i].name,
        t.wf(),
    ensures
        d.with_target_updated(i, t).wf(),
        d.with_target_updated(i, t).target_keys() == d.target_keys(),
{
    assert(d.with_target_updated(i, t).target_keys() =~= d.target_keys());
}

pub proof fn lemma_db_push_wf(d: DatabaseView, t: TargetView)
    requires
        d.wf(),
        !d.has_target(t.name),
        t.wf(),
    ensures
        (DatabaseView { targets: d.targets.push(t), ..d }).wf(),
{
    let u = DatabaseView { targets: d.targets.push(t), ..d };
    lemma_has_key_exists(d.target_keys(), t.name);
    assert(u.target_keys() =~= d.target_keys().push(t.name));
    assert forall|i: int, j: int| 0 <= i < j < u.target_keys().len() implies u.target_keys()[i]
        != u.target_keys()[j] by {
        if j == d.target_keys().len() {
            assert(u.target_keys()[i] == d.target_keys()[i]);
        }
    }
}

/// One source database: connection coordinates, poll interval, and its
/// pollable targets.
pub struct Database {
    pub database_host: String,
    pub server_port: u16,
    pub database_user: String,
    pub database_name: String,
    pub database_password: String,
    pub targets: Vec<Target>,
    pub update_interval: u64,
    pub last_updated: u64,
}

impl View for Database {
    type V = DatabaseView;

    open spec fn view(&self) -> DatabaseView {
        DatabaseView {
            database_host: self.database_host@,
            server_port: self.server_port as int,
            database_user: self.database_user@,
            database_name: self.database_name@,
            database_password: self.database_password@,
            targets: self.targets@.map_values(|t: Target| t@),
            update_interval: self.update_interval as int,
            last_updated: self.last_updated as int,
        }
    }
}

impl Clone for Database {
    fn clone(&self) -> (r: Database)
        ensures
            r@ == self@,
    {
        let mut targets: Vec<Target> = Vec::new();
        let mut i: usize = 0;
        while i < self.targets.len()
            invariant
                i <= self.targets.len(),
                targets@.len() == i as int,
                forall|k: int| 0 <= k < i ==> targets@[k]@ == self.targets@[k]@,
            decreases self.targets.len() - i,
        {
            targets.push(self.targets[i].clone());
            i = i + 1;
        }
        let r = Database {
            database_host: self.database_host.clone(),
            server_port: self.server_port,
            database_user: self.database_user.clone(),
            database_name: self.database_name.clone(),
            database_password: self.database_password.clone(),
            targets,
            update_interval: self.update_interval,
            last_updated: self.last_updated,
        };
        proof {
            assert(r@.targets =~~= self@.targets);
            assert(r@ =~~= self@);
        }
        r
    }
}

impl Database {
    pub fn new(
        database_host: String,
        server_port: u16,
        database_user: String,
        database_name: String,
        database_password: String,
        targets: Vec<Target>,
        update_interval: u64,
        last_updated: u64,
    ) -> (r: Database)
        ensures
            r@ == (DatabaseView {
                database_host: database_host@,
                server_port: server_port as int,
                database_user: database_user@,
                database_name: database_name@,
                database_password: database_password@,
                targets: targets@.map_values(|t: Target| t@),
                update_interval: update_interval as int,
                last_updated: last_updated as int,
            }),
    {
        Database {
            database_host,
            server_port,
            database_user,
            database_name,
            database_password,
            targets,
            update_interval,
            last_updated,
        }
    }

    pub fn add_target(&mut self, target: Target)
        ensures
            final(self)@ == (DatabaseView {
                targets: old(self)@.targets.push(target@),
                ..old(self)@
            }),
    {
        self.targets.push(target);
        proof {
            assert(self@.targets =~~= old(self)@.targets.push(target@));
            assert(self@ =~~= (DatabaseView { targets: old(self)@.targets.push(target@), ..old(
                self,
            )@ }));
        }
    }

    pub fn get_targets(&self) -> (r: &Vec<Target>)
        ensures
            r@.map_values(|t: Target| t@) == self@.targets,
    {
        proof {
            assert(self.targets@.map_values(|t: Target| t@) =~~= self@.targets);
        }
        &self.targets
    }

    /// Index of the named target, scanning in order; `None` when absent.
    fn find_target_index(&self, target_name: &String) -> (r: Option<usize>)
        ensures
            self@.has_target(target_name@) ==> (r matches Some(i) && i as int == self@.target_idx(
                target_name@,
            )),
            !self@.has_target(target_name@) ==> r is None,
    {
        let ghost keys = self@.target_keys();
        proof {
            assert(keys.len() == self.targets@.len());
        }
        let n = self.targets.len();
        let mut i: usize = 0;
        while i < n
            invariant
                n == self.targets.len(),
                i <= n,
                keys == self@.target_keys(),
                keys.len() == n as int,
                forall|k: int| 0 <= k < i ==> self@.target_keys()[k] != target_name@,
            decreases n - i,
        {
            if *self.targets[i].get_name() == *target_name {
                proof {
                    assert(self@.target_keys()[i as int] == target_name@);
                    lemma_first_key_idx_prefix(keys, target_name@, i as int);
                }
                return Some(i);
            }
            i = i + 1;
        }
        proof {
            lemma_first_key_idx_prefix(keys, target_name@, n as int);
        }
        None
    }

    pub fn get_target(&self, target_name: String) -> (r: Option<&Target>)
        ensures
            self@.has_target(target_name@) ==> (r matches Some(t) && t@ == self@.target_at(
                target_name@,
            )),
            !self@.has_target(target_name@) ==> r is None,
    {
        match self.find_target_index(&target_name) {
            Some(i) => Some(&self.targets[i]),
            None => None,
        }
    }

    pub fn get_target_fields(&self, target_name: String) -> (r: Option<&Vec<TableField>>)
        ensures
            self@.has_target(target_name@) ==> (r matches Some(fs) && fs@.map_values(
                |f: TableField| f@,
            ) == self@.target_at(target_name@).fields),
            !self@.has_target(target_name@) ==> r is None,
    {
        match self.find_target_index(&target_name) {
            Some(i) => Some(self.targets[i].get_fields()),
            None => None,
        }
    }

    pub fn get_target_field(&self, target_name: String, field_name: String) -> (r: Option<&String>)
        ensures
            ({
                let dv = self@;
                if dv.has_target(target_name@) {
                    let tv = dv.target_at(target_name@);
                    if has_key(tv.field_keys(), field_name@) {
                        r matches Some(v) && v@ == tv.fields[first_key_idx(
                            tv.field_keys(),
                            field_name@,
                        )].1
                    } else {
                        r is None
                    }
                } else {
                    r is None
                }
            }),
    {
        match self.find_target_index(&target_name) {
            Some(i) => self.targets[i].get_field(field_name),
            None => None,
        }
    }

    pub fn get_target_last_id(&self, target_name: String) -> (r: Option<i64>)
        ensures
            self@.has_target(target_name@) ==> (r matches Some(v) && v as int == self@.target_at(
                target_name@,
            ).last_id),
            !self@.has_target(target_name@) ==> r is None,
    {
        match self.find_target_index(&target_name) {
            Some(i) => Some(self.targets[i].get_last_id()),
            None => None,
        }
    }

    /// Advance the named target's cursor. A value lower than the stored
    /// one is an invariant violation: rejected as `StaleCursor`, never
    /// silently applied.
    pub fn set_target_last_id(&mut self, target_name: String, last_id: &i64) -> (r: Result<
        (),
        PbusError,
    >)
        ensures
            ({
                let dv = old(self)@;
                if !dv.has_target(target_name@) {
                    r == Err::<(), PbusError>(PbusError::NotFound) && final(self)@ == dv
                } else if (*last_id as int) < dv.target_at(target_name@).last_id {
                    r == Err::<(), PbusError>(PbusError::StaleCursor) && final(self)@ == dv
                } else {
                    r == Ok::<(), PbusError>(()) && final(self)@ == dv.with_target_updated(
                        dv.target_idx(target_name@),
                        (TargetView { last_id: *last_id as int, ..dv.target_at(target_name@) }),
                    )
                }
            }),
            old(self)@.wf() ==> final(self)@.wf(),
    {
        let ghost dv = self@;
        match self.find_target_index(&target_name) {
            Some(i) => {
                let stored = self.targets[i].get_last_id();
                if *last_id < stored {
                    proof {
                        assert(self@ =~~= dv);
                    }
                    Err(PbusError::StaleCursor)
                } else {
                    let mut t = self.targets.remove(i);
                    t.set_last_id(*last_id);
                    self.targets.insert(i, t);
                    proof {
                        let j = dv.target_idx(target_name@);
                        let tv = (TargetView {
                            last_id: *last_id as int,
                            ..dv.target_at(target_name@)
                        });
                        assert(self@.targets =~~= dv.targets.update(j, tv));
                        assert(self@ =~~= dv.with_target_updated(j, tv));
                        if dv.wf() {
                            lemma_db_update_wf(dv, j, tv);
                        }
                    }
                    Ok(())
                }
            },
            None => {
                proof {
                    assert(self@ =~~= dv);
                }
                Err(PbusError::NotFound)
            },
        }
    }

    pub fn get_target_last_updated(&self, target_name: String) -> (r: Option<u64>)
        ensures
            self@.has_target(target_name@) ==> (r matches Some(v) && v as int == self@.target_at(
                target_name@,
            ).last_updated),
            !self@.has_target(target_name@) ==> r is None,
    {
        match self.find_target_index(&target_name) {
            Some(i) => Some(self.targets[i].get_last_updated()),
            None => None,
        }
    }

    pub fn set_target_last_updated(&mut self, target_name: String, last_updated: u64)
        ensures
            ({
                let dv = old(self)@;
                if dv.has_target(target_name@) {
                    final(self)@ == dv.with_target_updated(
                        dv.target_idx(target_name@),
                        (TargetView {
                            last_updated: last_updated as int,
                            ..dv.target_at(target_name@)
                        }),
                    )
                } else {
                    final(self)@ == dv
                }
            }),
            old(self)@.wf() ==> final(self)@.wf(),
    {
        let ghost dv = self@;
        match self.find_target_index(&target_name) {
            Some(i) => {
                let mut t = self.targets.remove(i);
                t.set_last_updated(last_updated);
                self.targets.insert(i, t);
                proof {
                    let j = dv.target_idx(target_name@);
                    let tv = (TargetView {
                        last_updated: last_updated as int,
                        ..dv.target_at(target_name@)
                    });
                    assert(self@.targets =~~= dv.targets.update(j, tv));
                    assert(self@ =~~= dv.with_target_updated(j, tv));
                    if dv.wf() {
                        lemma_db_update_wf(dv, j, tv);
                    }
                }
            },
            None => {
                proof {
                    assert(self@ =~~= dv);
                }
            },
        }
    }

    pub fn get_target_last_checked(&self, target_name: String) -> (r: Option<u64>)
        ensures
            self@.has_target(target_name@) ==> (r matches Some(v) && v as int == self@.target_at(
                target_name@,
            ).last_checked),
            !self@.has_target(target_name@) ==> r is None,
    {
        match self.find_target_index(&target_name) {
            Some(i) => Some(self.targets[i].get_last_checked()),
            None => None,
        }
    }

    pub fn set_target_last_checked(&mut self, target_name: String, last_checked: u64)
        ensures
            ({
                let dv = old(self)@;
                if dv.has_target(target_name@) {
                    final(self)@ == dv.with_target_updated(
                        dv.target_idx(target_name@),
                        (TargetView {
                            last_checked: last_checked as int,
                            ..dv.target_at(target_name@)
                        }),
                    )
                } else {
                    final(self)@ == dv
                }
            }),
            old(self)@.wf() ==> final(self)@.wf(),
    {
        let ghost dv = self@;
        match self.find_target_index(&target_name) {
            Some(i) => {
                let mut t = self.targets.remove(i);
                t.set_last_checked(last_checked);
                self.targets.insert(i, t);
                proof {
                    let j = dv.target_idx(target_name@);
                    let tv = (TargetView {
                        last_checked: last_checked as int,
                        ..dv.target_at(target_name@)
                    });
                    assert(self@.targets =~~= dv.targets.update(j, tv));
                    assert(self@ =~~= dv.with_target_updated(j, tv));
                    if dv.wf() {
                        lemma_db_update_wf(dv, j, tv);
                    }
                }
            },
            None => {
                proof {
                    assert(self@ =~~= dv);
                }
            },
        }
    }

    /// Same as `set_target_last_checked`, for callers that carry the time
    /// as plain seconds since the epoch.
    pub fn set_target_last_checked_time(&mut self, target_name: String, last_checked: u64)
        ensures
            ({
                let dv = old(self)@;
                if dv.has_target(target_name@) {
                    final(self)@ == dv.with_target_updated(
                        dv.target_idx(target_name@),
                        (TargetView {
                            last_checked: last_checked as int,
                            ..dv.target_at(target_name@)
                        }),
                    )
                } else {
                    final(self)@ == dv
                }
            }),
            old(self)@.wf() ==> final(self)@.wf(),
    {
        self.set_target_last_checked(target_name, last_checked);
    }

    /// The effective poll interval of the named target: inherited from the
    /// database.
    pub fn get_target_update_interval(&self, target_name: String) -> (r: Option<u64>)
        ensures
            self@.has_target(target_name@) ==> (r matches Some(v) && v as int
                == self@.update_interval),
            !self@.has_target(target_name@) ==> r is None,
    {
        match self.find_target_index(&target_name) {
            Some(_) => Some(self.update_interval),
            None => None,
        }
    }

    /// The named target's own last-updated stamp, for callers that carry
    /// the time as plain seconds since the epoch.
    pub fn get_target_last_updated_time(&self, target_name: String) -> (r: Option<u64>)
        ensures
            self@.has_target(target_name@) ==> (r matches Some(v) && v as int == self@.target_at(
                target_name@,
            ).last_updated),
            !self@.has_target(target_name@) ==> r is None,
    {
        self.get_target_last_updated(target_name)
    }

    /// Stamp the named target's own last-updated time, for callers that
    /// carry the time as plain seconds since the epoch.
    pub fn set_target_last_updated_time(&mut self, target_name: String, last_updated: u64)
        ensures
            ({
                let dv = old(self)@;
                if dv.has_target(target_name@) {
                    final(self)@ == dv.with_target_updated(
                        dv.target_idx(target_name@),
                        (TargetView {
                            last_updated: last_updated as int,
                            ..dv.target_at(target_name@)
                        }),
                    )
                } else {
                    final(self)@ == dv
                }
            }),
            old(self)@.wf() ==> final(self)@.wf(),
    {
        self.set_target_last_updated(target_name, last_updated);
    }

    pub fn get_target_enabled(&self, target_name: String) -> (r: Option<bool>)
        ensures
            self@.has_target(target_name@) ==> (r matches Some(v) && v == self@.target_at(
                target_name@,
            ).enabled),
            !self@.has_target(target_name@) ==> r is None,
    {
        match self.find_target_index(&target_name) {
            Some(i) => Some(self.targets[i].get_enabled()),
            None => None,
        }
    }

    pub fn set_target_enabled(&mut self, target_name: String, enabled: bool)
        ensures
            ({
                let dv = old(self)@;
                if dv.has_target(target_name@) {
                    final(self)@ == dv.with_target_updated(
                        dv.target_idx(target_name@),
                        (TargetView { enabled, ..dv.target_at(target_name@) }),
                    )
                } else {
                    final(self)@ == dv
                }
            }),
            old(self)@.wf() ==> final(self)@.wf(),
    {
        let ghost dv = self@;
        match self.find_target_index(&target_name) {
            Some(i) => {
                let mut t = self.targets.remove(i);
                t.set_enabled(enabled);
                self.targets.insert(i, t);
                proof {
                    let j = dv.target_idx(target_name@);
                    let tv = (TargetView { enabled, ..dv.target_at(target_name@) });
                    assert(self@.targets =~~= dv.targets.update(j, tv));
                    assert(self@ =~~= dv.with_target_updated(j, tv));
                    if dv.wf() {
                        lemma_db_update_wf(dv, j, tv);
                    }
                }
            },
            None => {
                proof {
                    assert(self@ =~~= dv);
                }
            },
        }
    }


    /// Decide well-formedness at run time: target names unique and every
    /// target well-formed.
    pub fn check_wf(&self) -> (r: bool)
        ensures
            r == self@.wf(),
    {
        let ghost keys = self@.target_keys();
        proof {
            assert(keys.len() == self.targets@.len());
        }
        let n = self.targets.len();
        let mut i: usize = 0;
        while i < n
            invariant
                n == self.targets.len(),
                i <= n,
                keys == self@.target_keys(),
                keys.len() == n as int,
                forall|a: int, b: int| 0 <= a < b < n && a < i ==> keys[a] != keys[b],
                forall|a: int| 0 <= a < i ==> (#[trigger] self@.targets[a]).wf(),
            decreases n - i,
        {
            if !self.targets[i].check_wf() {
                proof {
                    assert(!self@.targets[i as int].wf());
                }
                return false;
            }
            let mut j: usize = i + 1;
            while j < n
                invariant
                    n == self.targets.len(),
                    i < n,
                    i < j <= n,
                    keys == self@.target_keys(),
                    keys.len() == n as int,
                    forall|b: int| i < b < j ==> keys[i as int] != keys[b],
                decreases n - j,
            {
                if *self.targets[i].get_name() == *self.targets[j].get_name() {
                    proof {
                        assert(keys[i as int] == keys[j as int]);
                        assert(!unique_keys(keys));
                    }
                    return false;
                }
                j = j + 1;
            }
            i = i + 1;
        }
        proof {
            assert(unique_keys(keys));
        }
        true
    }

    pub fn get_update_interval(&self) -> (r: u64)
        ensures
            r as int == self@.update_interval,
    {
        self.update_interval
    }
}

/// Mathematical model of the registry.
#[verifier::ext_equal]
pub struct ConfigView {
    pub databases: Seq<DatabaseView>,
    /// Reload flag: 1 means a reload of the persisted registry is pending.
    pub update: int,
    pub base_path: Seq<char>,
}

impl ConfigView {
    pub open spec fn db_keys(self) -> Seq<Seq<char>> {
        self.databases.map_values(|d: DatabaseView| d.database_name)
    }

    pub open spec fn has_db(self, name: Seq<char>) -> bool {
        has_key(self.db_keys(), name)
    }

    pub open spec fn db_idx(self, name: Seq<char>) -> int {
        first_key_idx(self.db_keys(), name)
    }

    pub open spec fn db_at(self, name: Seq<char>) -> DatabaseView {
        self.databases[self.db_idx(name)]
    }

    /// Well-formed: database names unique, every database well-formed.
    pub open spec fn wf(self) -> bool {
        &&& unique_keys(self.db_keys())
        &&& forall|i: int| 0 <= i < self.databases.len() ==> self.databases[i].wf()
    }

    pub open spec fn with_db_updated(self, i: int, d: DatabaseView) -> ConfigView {
        ConfigView { databases: self.databases.update(i, d), ..self }
    }

    /// The named target's state, when both the database and the target
    /// exist.
    pub open spec fn target_of(self, db_name: Seq<char>, target_name: Seq<char>) -> Option<
        TargetView,
    > {
        if self.has_db(db_name) && self.db_at(db_name).has_target(target_name) {
            Some(self.db_at(db_name).target_at(target_name))
        } else {
            None
        }
    }

    /// The named target's cursor, when it exists.
    pub open spec fn cursor_of(self, db_name: Seq<char>, target_name: Seq<char>) -> Option<int> {
        match self.target_of(db_name, target_name) {
            Some(t) => Some(t.last_id),
            None => None,
        }
    }
}

pub proof fn lemma_config_update_wf(c: ConfigView, i: int, d: DatabaseView)
    requires
        c.wf(),
        0 <= i < c.databases.len(),
        d.database_name == c.databases[i].database_name,
        d.wf(),
    ensures
        c.with_db_updated(i, d).wf(),
        c.with_db_updated(i, d).db_keys() == c.db_keys(),
{
    assert(c.with_db_updated(i, d).db_keys() =~= c.db_keys());
}

/// The registry of source databases, the reload flag, and the storage
/// path. The root persisted object.
pub struct Config {
    databases: Vec<Database>,
    update: i32,
    base_path: String,
}

impl View for Config {
    type V = ConfigView;

    closed spec fn view(&self) -> ConfigView {
        ConfigView {
            databases: self.databases@.map_values(|d: Database| d@),
            update: self.update as int,
            base_path: self.base_path@,
        }
    }
}

impl Clone for Config {
    fn clone(&self) -> (r: Config)
        ensures
            r@ == self@,
    {
        let mut databases: Vec<Database> = Vec::new();
        let mut i: usize = 0;
        while i < self.databases.len()
            invariant
                i <= self.databases.len(),
                databases@.len() == i as int,
                forall|k: int| 0 <= k < i ==> databases@[k]@ == self.databases@[k]@,
            decreases self.databases.len() - i,
        {
            databases.push(self.databases[i].clone());
            i = i + 1;
        }
        let r = Config {
            databases,
            update: self.update,
            base_path: self.base_path.clone(),
        };
        proof {
            assert(r@.databases =~~= self@.databases);
            assert(r@ =~~= self@);
        }
        r
    }
}

impl Config {
    /// A registry over the given databases, reload flag clear.
    pub fn new(databases: Vec<Database>, basepath: &str) -> (r: Config)
        ensures
            r@ == (ConfigView {
                databases: databases@.map_values(|d: Database| d@),
                update: 0,
                base_path: basepath@,
            }),
    {
        Config { databases, update: 0, base_path: basepath.to_owned() }
    }

    pub fn add_database(&mut self, database: Database)
        ensures
            final(self)@ == (ConfigView {
                databases: old(self)@.databases.push(database@),
                ..old(self)@
            }),
    {
        self.databases.push(database);
        proof {
            assert(self@.databases =~~= old(self)@.databases.push(database@));
            assert(self@ =~~= (ConfigView {
                databases: old(self)@.databases.push(database@),
                ..old(self)@
            }));
        }
    }

    /// Index of the named database; `None` when absent.
    fn find_db_index(&self, database_name: &String) -> (r: Option<usize>)
        ensures
            self@.has_db(database_name@) ==> (r matches Some(i) && i as int == self@.db_idx(
                database_name@,
            )),
            !self@.has_db(database_name@) ==> r is None,
    {
        let ghost keys = self@.db_keys();
        proof {
            assert(keys.len() == self.databases@.len());
        }
        let n = self.databases.len();
        let mut i: usize = 0;
        while i < n
            invariant
                n == self.databases.len(),
                i <= n,
                keys == self@.db_keys(),
                keys.len() == n as int,
                forall|k: int| 0 <= k < i ==> self@.db_keys()[k] != database_name@,
            decreases n - i,
        {
            if self.databases[i].database_name == *database_name {
                proof {
                    assert(self@.db_keys()[i as int] == database_name@);
                    lemma_first_key_idx_prefix(keys, database_name@, i as int);
                }
                return Some(i);
            }
            i = i + 1;
        }
        proof {
            lemma_first_key_idx_prefix(keys, database_name@, n as int);
        }
        None
    }

    pub fn get_database(&self, database_name: &String) -> (r: Option<&Database>)
        ensures
            self@.has_db(database_name@) ==> (r matches Some(d) && d@ == self@.db_at(
                database_name@,
            )),
            !self@.has_db(database_name@) ==> r is None,
    {
        match self.find_db_index(database_name) {
            Some(i) => Some(&self.databases[i]),
            None => None,
        }
    }

    pub fn get_databases(&self) -> (r: &Vec<Database>)
        ensures
            r@.map_values(|d: Database| d@) == self@.databases,
    {
        proof {
            assert(self.databases@.map_values(|d: Database| d@) =~~= self@.databases);
        }
        &self.databases
    }

    pub fn set_databases(&mut self, databases: Vec<Database>)
        ensures
            final(self)@ == (ConfigView {
                databases: databases@.map_values(|d: Database| d@),
                ..old(self)@
            }),
    {
        self.databases = databases;
        proof {
            assert(self@ =~~= (ConfigView {
                databases: self.databases@.map_values(|d: Database| d@),
                ..old(self)@
            }));
        }
    }

    /// Replace the database of the same name, when present; a registry
    /// with unique names holds at most one such entry.
    pub fn replace_database(&mut self, database: Database)
        requires
            old(self)@.wf(),
        ensures
            ({
                let cv = old(self)@;
                if cv.has_db(database@.database_name) {
                    final(self)@ == cv.with_db_updated(cv.db_idx(database@.database_name), database@)
                } else {
                    final(self)@ == cv
                }
            }),
            database@.wf() ==> final(self)@.wf(),
    {
        let ghost cv = self@;
        match self.find_db_index(&database.database_name) {
            Some(i) => {
                let ghost dvnew = database@;
                let _old = self.databases.remove(i);
                self.databases.insert(i, database);
                proof {
                    let j = cv.db_idx(database@.database_name);
                    lemma_first_key_idx_bounds(cv.db_keys(), database@.database_name);
                    assert(cv.databases[j].database_name == database@.database_name);
                    assert(self@.databases =~~= cv.databases.update(j, dvnew));
                    assert(self@ =~~= cv.with_db_updated(j, dvnew));
                    if dvnew.wf() {
                        lemma_config_update_wf(cv, j, dvnew);
                    }
                }
            },
            None => {
                proof {
                    assert(self@ =~~= cv);
                }
            },
        }
    }

    /// All database names, in registry order.
    pub fn get_database_names(&self) -> (r: Vec<String>)
        ensures
            r@.map_values(|s: String| s@) == self@.db_keys(),
    {
        let mut names: Vec<String> = Vec::new();
        let mut i: usize = 0;
        while i < self.databases.len()
            invariant
                i <= self.databases.len(),
                names@.len() == i as int,
                forall|k: int| 0 <= k < i ==> names@[k]@ == self.databases@[k]@.database_name,
            decreases self.databases.len() - i,
        {
            names.push(self.databases[i].database_name.clone());
            i = i + 1;
        }
        proof {
            assert(names@.map_values(|s: String| s@) =~~= self@.db_keys());
        }
        names
    }

    /// Every target of every database, flattened in registry order.
    pub fn get_targets(&self) -> (r: Vec<Target>)
        ensures
            r@.map_values(|t: Target| t@) == flat_targets(self@.databases),
    {
        let mut out: Vec<Target> = Vec::new();
        let mut i: usize = 0;
        while i < self.databases.len()
            invariant
                i <= self.databases.len(),
                out@.map_values(|t: Target| t@) == flat_targets(self@.databases.take(i as int)),
            decreases self.databases.len() - i,
        {
            let ghost outer_before = out@.map_values(|t: Target| t@);
            let db = &self.databases[i];
            let mut j: usize = 0;
            while j < db.targets.len()
                invariant
                    i < self.databases.len(),
                    db == &self.databases[i as int],
                    j <= db.targets.len(),
                    out@.map_values(|t: Target| t@) =~= outer_before + db@.targets.take(j as int),
                decreases db.targets.len() - j,
            {
                let ghost inner_before = out@.map_values(|t: Target| t@);
                out.push(db.targets[j].clone());
                proof {
                    assert(out@.map_values(|t: Target| t@) =~= inner_before.push(
                        db@.targets[j as int],
                    ));
                    assert(db@.targets.take(j as int + 1) =~= db@.targets.take(j as int).push(
                        db@.targets[j as int],
                    ));
                    assert((outer_before + db@.targets.take(j as int)).push(
                        db@.targets[j as int],
                    ) =~= outer_before + db@.targets.take(j as int + 1));
                    assert(out@.map_values(|t: Target| t@) =~= outer_before + db@.targets.take(
                        j as int + 1,
                    ));
                }
                j = j + 1;
            }
            proof {
                assert(db@.targets.take(db.targets@.len() as int) =~= db@.targets);
                lemma_flat_targets_take(self@.databases, i as int);
                assert(out@.map_values(|t: Target| t@) =~= flat_targets(
                    self@.databases.take(i as int + 1),
                ));
            }
            i = i + 1;
        }
        proof {
            assert(self@.databases.take(self.databases@.len() as int) =~= self@.databases);
        }
        out
    }

    /// The target list of the named database, when present.
    pub fn get_database_targets(&self, database_name: String) -> (r: Option<&Vec<Target>>)
        ensures
            self@.has_db(database_name@) ==> (r matches Some(ts) && ts@.map_values(|t: Target| t@)
                == self@.db_at(database_name@).targets),
            !self@.has_db(database_name@) ==> r is None,
    {
        match self.find_db_index(&database_name) {
            Some(i) => {
                proof {
                    assert(self.databases@[i as int].targets@.map_values(|t: Target| t@)
                        =~~= self@.db_at(database_name@).targets);
                }
                Some(&self.databases[i].targets)
            },
            None => None,
        }
    }

    /// Upsert a target by name within the named database, rejecting a
    /// cursor lower than the stored one. The write path by which every
    /// cursor advance is persisted.
    pub fn replace_target(&mut self, db_name: &String, target: Target) -> (r: Result<
        (),
        PbusError,
    >)
        requires
            old(self)@.wf(),
            target@.wf(),
        ensures
            final(self)@.wf(),
            ({
                let cv = old(self)@;
                if !cv.has_db(db_name@) {
                    r == Err::<(), PbusError>(PbusError::NotFound) && final(self)@ == cv
                } else {
                    let dv = cv.db_at(db_name@);
                    if !dv.has_target(target@.name) {
                        r == Ok::<(), PbusError>(()) && final(self)@ == cv.with_db_updated(
                            cv.db_idx(db_name@),
                            (DatabaseView { targets: dv.targets.push(target@), ..dv }),
                        )
                    } else if target@.last_id < dv.target_at(target@.name).last_id {
                        r == Err::<(), PbusError>(PbusError::StaleCursor) && final(self)@ == cv
                    } else {
                        r == Ok::<(), PbusError>(()) && final(self)@ == cv.with_db_updated(
                            cv.db_idx(db_name@),
                            dv.with_target_updated(dv.target_idx(target@.name), target@),
                        )
                    }
                }
            }),
    {
        let ghost cv = self@;
        let idx = self.find_db_index(db_name);
        match idx {
            None => {
                proof {
                    assert(self@ =~~= cv);
                }
                Err(PbusError::NotFound)
            },
            Some(i) => {
                let ghost j = cv.db_idx(db_name@);
                let ghost dv = cv.db_at(db_name@);
                let mut db = self.databases.remove(i);
                let tidx = db.find_target_index(target.get_name());
                match tidx {
                    None => {
                        let ghost tv = target@;
                        db.add_target(target);
                        self.databases.insert(i, db);
                        proof {
                            let dnew = (DatabaseView { targets: dv.targets.push(tv), ..dv });
                            lemma_first_key_idx_bounds(cv.db_keys(), db_name@);
                            assert(cv.databases[j].database_name == db_name@);
                            assert(self@.databases =~~= cv.databases.update(j, dnew));
                            assert(self@ =~~= cv.with_db_updated(j, dnew));
                            lemma_db_push_wf(dv, tv);
                            lemma_config_update_wf(cv, j, dnew);
                        }
                        Ok(())
                    },
                    Some(k) => {
                        let stored = db.targets[k].get_last_id();
                        if target.get_last_id() < stored {
                            self.databases.insert(i, db);
                            proof {
                                assert(self@.databases =~~= cv.databases);
                                assert(self@ =~~= cv);
                            }
                            Err(PbusError::StaleCursor)
                        } else {
                            let ghost tv = target@;
                            let _old_t = db.targets.remove(k);
                            db.targets.insert(k, target);
                            self.databases.insert(i, db);
                            proof {
                                let kk = dv.target_idx(tv.name);
                                let dnew = dv.with_target_updated(kk, tv);
                                lemma_first_key_idx_bounds(dv.target_keys(), tv.name);
                                assert(dv.targets[kk].name == tv.name);
                                lemma_first_key_idx_bounds(cv.db_keys(), db_name@);
                                assert(cv.databases[j].database_name == db_name@);
                                assert(db@.targets =~~= dv.targets.update(kk, tv));
                                assert(db@ =~~= dnew);
                                assert(self@.databases =~~= cv.databases.update(j, dnew));
                                assert(self@ =~~= cv.with_db_updated(j, dnew));
                                lemma_db_update_wf(dv, kk, tv);
                                lemma_config_update_wf(cv, j, dnew);
                            }
                            Ok(())
                        }
                    },
                }
            },
        }
    }

    pub fn get_update(&self) -> (r: i32)
        ensures
            r as int == self@.update,
    {
        self.update
    }

    pub fn set_update(&mut self, update: i32)
        ensures
            final(self)@ == (ConfigView { update: update as int, ..old(self)@ }),
    {
        self.update = update;
        proof {
            assert(self@ =~~= (ConfigView { update: update as int, ..old(self)@ }));
        }
    }

    /// Request that the engine reread the registry before its next cycle.
    pub fn mark_reload_pending(&mut self)
        ensures
            final(self)@ == (ConfigView { update: 1, ..old(self)@ }),
    {
        self.set_update(1);
    }

    /// Read and clear the reload flag in one step.
    pub fn consume_reload_flag(&mut self) -> (r: bool)
        ensures
            r == (old(self)@.update == 1),
            final(self)@ == (ConfigView { update: 0, ..old(self)@ }),
    {
        let r = self.update == 1;
        self.set_update(0);
        r
    }

    pub fn get_base_path(&self) -> (r: &String)
        ensures
            r@ == self@.base_path,
    {
        &self.base_path
    }

    pub fn set_base_path(&mut self, base_path: String)
        ensures
            final(self)@ == (ConfigView { base_path: base_path@, ..old(self)@ }),
    {
        self.base_path = base_path;
        proof {
            assert(self@ =~~= (ConfigView { base_path: self.base_path@, ..old(self)@ }));
        }
    }
}

/// All targets of a database sequence, flattened in order.
pub open spec fn flat_targets(dbs: Seq<DatabaseView>) -> Seq<TargetView>
    decreases dbs.len(),
{
    if dbs.len() == 0 {
        Seq::<TargetView>::empty()
    } else {
        flat_targets(dbs.drop_last()) + dbs.last().targets
    }
}

pub proof fn lemma_flat_targets_take(dbs: Seq<DatabaseView>, i: int)
    requires
        0 <= i < dbs.len(),
    ensures
        flat_targets(dbs.take(i + 1)) == flat_targets(dbs.take(i)) + dbs[i].targets,
{
    let p = dbs.take(i + 1);
    assert(p.drop_last() =~= dbs.take(i));
    assert(p.last() == dbs[i]);
}


/// Decide the registry invariant at run time: database names unique and
/// every database well-formed. A caller establishes this before handing
/// a parsed registry to the engine.
pub fn check_registry_wf(config: &Config) -> (r: bool)
    ensures
        r == config@.wf(),
{
    let ghost cv = config@;
    let ghost keys = cv.db_keys();
    let dbs = config.get_databases();
    proof {
        assert(keys.len() == dbs@.len());
    }
    let n = dbs.len();
    let mut i: usize = 0;
    while i < n
        invariant
            cv == config@,
            n == dbs.len(),
            i <= n,
            dbs@.map_values(|d: Database| d@) == cv.databases,
            keys == cv.db_keys(),
            keys.len() == n as int,
            forall|a: int, b: int| 0 <= a < b < n && a < i ==> keys[a] != keys[b],
            forall|a: int| 0 <= a < i ==> (#[trigger] cv.databases[a]).wf(),
        decreases n - i,
    {
        if !dbs[i].check_wf() {
            proof {
                assert(!cv.databases[i as int].wf());
            }
            return false;
        }
        let mut j: usize = i + 1;
        while j < n
            invariant
                cv == config@,
                n == dbs.len(),
                i < n,
                i < j <= n,
                dbs@.map_values(|d: Database| d@) == cv.databases,
                keys == cv.db_keys(),
                keys.len() == n as int,
                forall|b: int| i < b < j ==> keys[i as int] != keys[b],
            decreases n - j,
        {
            if dbs[i].database_name == dbs[j].database_name {
                proof {
                    assert(keys[i as int] == keys[j as int]);
                    assert(!unique_keys(keys));
                }
                return false;
            }
            j = j + 1;
        }
        i = i + 1;
    }
    proof {
        assert(unique_keys(keys));
    }
    true
}

/// Whether the registry's reload flag is raised.
pub fn check_config_update(config: &Config) -> (r: bool)
    ensures
        r == (config@.update == 1),
{
    config.get_update() == 1
}

/// Whether a persisted registry already existed at startup, or a fresh
/// empty one was just created.
#[derive(Clone, Copy, Debug, PartialEq, Eq, Structural)]
pub enum ConfigStatus {
    New,
    Existing,
}

} // verus!
