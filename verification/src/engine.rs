use vstd::prelude::*;

use crate::config::{Config, ConfigView};
use crate::errors::PbusError;
use crate::lookup::{lemma_first_key_idx_bounds, lemma_has_key_exists};
use crate::schedule::{due_pairs, due_targets};
use crate::targets::{Target, TargetView};

verus! {

/// The engine's control state: polling, about to reread the registry, or
/// shut down for good.
#[derive(Clone, Copy, Debug, PartialEq, Eq, Structural)]
pub enum EngineState {
    Running,
    ReloadPending,
    Stopped,
}

/// A target after a successful fetch: cursor moved to `new_cursor`,
/// `last_checked` stamped with the cycle's time, and `last_updated`
/// stamped too when at least one row came back.
pub open spec fn advanced_target(t: TargetView, new_cursor: int, row_count: int, now: int)
    -> TargetView {
    TargetView {
        last_id: new_cursor,
        last_checked: now,
        last_updated: if row_count > 0 {
            now
        } else {
            t.last_updated
        },
        ..t
    }
}

/// The registry with the named target's state replaced by `tv`.
pub open spec fn with_target_replaced(
    cv: ConfigView,
    dn: Seq<char>,
    tn: Seq<char>,
    tv: TargetView,
) -> ConfigView {
    let dv = cv.db_at(dn);
    cv.with_db_updated(cv.db_idx(dn), dv.with_target_updated(dv.target_idx(tn), tv))
}

/// Replacing one target changes exactly that target and nothing else.
pub proof fn lemma_replace_frame(cv: ConfigView, dn: Seq<char>, tn: Seq<char>, tv: TargetView)
    requires
        cv.wf(),
        cv.target_of(dn, tn) is Some,
        tv.name == tn,
        tv.wf(),
    ensures
        with_target_replaced(cv, dn, tn, tv).wf(),
        with_target_replaced(cv, dn, tn, tv).target_of(dn, tn) == Some(tv),
        forall|d2: Seq<char>, t2: Seq<char>|
            !(d2 == dn && t2 == tn) ==> #[trigger] with_target_replaced(
                cv,
                dn,
                tn,
                tv,
            ).target_of(d2, t2) == cv.target_of(d2, t2),
{
    let j = cv.db_idx(dn);
    let dv = cv.db_at(dn);
    let k = dv.target_idx(tn);
    let cv2 = with_target_replaced(cv, dn, tn, tv);
    lemma_first_key_idx_bounds(cv.db_keys(), dn);
    lemma_first_key_idx_bounds(dv.target_keys(), tn);
    assert(dv.targets[k].name == tn);
    crate::config::lemma_db_update_wf(dv, k, tv);
    let dv2 = dv.with_target_updated(k, tv);
    crate::config::lemma_config_update_wf(cv, j, dv2);
    assert(cv2.db_keys() == cv.db_keys());
    assert(cv2.db_at(dn) == dv2);
    assert(dv2.target_keys() == dv.target_keys());
    assert(cv2.target_of(dn, tn) == Some(tv));
    assert forall|d2: Seq<char>, t2: Seq<char>| !(d2 == dn && t2 == tn) implies #[trigger] cv2
        .target_of(d2, t2) == cv.target_of(d2, t2) by {
        lemma_first_key_idx_bounds(cv.db_keys(), d2);
        if cv.has_db(d2) {
            let j2 = cv.db_idx(d2);
            if d2 != dn {
                assert(cv.db_keys()[j2] == d2);
                assert(cv.db_keys()[j] == dn);
                assert(j2 != j);
                assert(cv2.databases[j2] == cv.databases[j2]);
            } else {
                assert(j2 == j);
                lemma_first_key_idx_bounds(dv.target_keys(), t2);
                if dv.has_target(t2) {
                    let k2 = dv.target_idx(t2);
                    assert(dv.target_keys()[k2] == t2);
                    assert(dv.target_keys()[k] == tn);
                    assert(k2 != k);
                    assert(dv2.targets[k2] == dv.targets[k2]);
                }
            }
        }
    }
}

/// Every target of the working registry is persisted in the stored one,
/// with a stored cursor at least as far along.
pub open spec fn cursors_covered(w: ConfigView, s: ConfigView) -> bool {
    forall|dn: Seq<char>, tn: Seq<char>|
        #[trigger] w.target_of(dn, tn) is Some ==> s.target_of(dn, tn) is Some && s.target_of(
            dn,
            tn,
        )->Some_0.last_id >= w.target_of(dn, tn)->Some_0.last_id
}


spec fn covered_at(w: ConfigView, l: ConfigView, a: int, b: int) -> bool {
    &&& l.target_of(w.databases[a].database_name, w.databases[a].targets[b].name) is Some
    &&& l.target_of(
        w.databases[a].database_name,
        w.databases[a].targets[b].name,
    )->Some_0.last_id >= w.databases[a].targets[b].last_id
}

/// Decide at run time whether `loaded` keeps every cursor of `w`: each
/// target of `w` must be present in `loaded` with a cursor at least as
/// far along.
#[verifier::loop_isolation(false)]
pub fn check_cursors_covered(w: &Config, loaded: &Config) -> (r: bool)
    requires
        w@.wf(),
    ensures
        r == cursors_covered(w@, loaded@),
{
    let dbs = w.get_databases();
    let n = dbs.len();
    let mut i: usize = 0;
    while i < n
        invariant
            forall|a: int, b: int|
                0 <= a < i && 0 <= b < w@.databases[a].targets.len() ==> #[trigger] covered_at(
                    w@,
                    loaded@,
                    a,
                    b,
                ),
        decreases n - i,
    {
        let db = &dbs[i];
        proof {
            assert(db@ == w@.databases[i as int]);
        }
        let m = db.targets.len();
        let mut j: usize = 0;
        while j < m
            invariant
                i < n,
                db@ == w@.databases[i as int],
                m == db.targets.len(),
                forall|b: int|
                    0 <= b < j ==> #[trigger] covered_at(w@, loaded@, i as int, b),
            decreases m - j,
        {
            let t = &db.targets[j];
            proof {
                assert(t@ == w@.databases[i as int].targets[j as int]);
            }
            let ok = match loaded.get_database(&db.database_name) {
                None => false,
                Some(ld) => match ld.get_target_last_id(t.get_name().clone()) {
                    None => false,
                    Some(lc) => lc >= t.get_last_id(),
                },
            };
            if !ok {
                proof {
                    let dn = db@.database_name;
                    let tn = t@.name;
                    let keys = w@.db_keys();
                    assert(keys[i as int] == dn);
                    lemma_has_key_exists(keys, dn);
                    lemma_first_key_idx_bounds(keys, dn);
                    assert(keys[w@.db_idx(dn)] == dn);
                    assert(w@.db_idx(dn) == i as int);
                    let dv = w@.databases[i as int];
                    let tkeys = dv.target_keys();
                    assert(tkeys[j as int] == tn);
                    lemma_has_key_exists(tkeys, tn);
                    lemma_first_key_idx_bounds(tkeys, tn);
                    assert(tkeys[dv.target_idx(tn)] == tn);
                    assert(dv.target_idx(tn) == j as int);
                    assert(w@.target_of(dn, tn) == Some(t@));
                    assert(!(loaded@.target_of(dn, tn) is Some && loaded@.target_of(
                        dn,
                        tn,
                    )->Some_0.last_id >= t@.last_id));
                    assert(!cursors_covered(w@, loaded@));
                }
                return false;
            }
            proof {
                assert(covered_at(w@, loaded@, i as int, j as int));
            }
            j = j + 1;
        }
        i = i + 1;
    }
    proof {
        assert forall|dn: Seq<char>, tn: Seq<char>| #[trigger] w@.target_of(dn, tn) is Some
            implies loaded@.target_of(dn, tn) is Some && loaded@.target_of(
            dn,
            tn,
        )->Some_0.last_id >= w@.target_of(dn, tn)->Some_0.last_id by {
            lemma_first_key_idx_bounds(w@.db_keys(), dn);
            let a = w@.db_idx(dn);
            let dv = w@.databases[a];
            lemma_first_key_idx_bounds(dv.target_keys(), tn);
            let b = dv.target_idx(tn);
            assert(dv.database_name == dn);
            assert(dv.targets[b].name == tn);
            assert(covered_at(w@, loaded@, a, b));
        }
    }
    true
}

/// Two registries with the same databases agree on every lookup.
pub proof fn lemma_same_databases(a: ConfigView, b: ConfigView)
    requires
        a.databases == b.databases,
    ensures
        a.wf() == b.wf(),
        forall|dn: Seq<char>, tn: Seq<char>| #[trigger] a.target_of(dn, tn) == b.target_of(dn, tn),
{
    assert(a.db_keys() =~= b.db_keys());
    assert forall|dn: Seq<char>, tn: Seq<char>| #[trigger] a.target_of(dn, tn) == b.target_of(
        dn,
        tn,
    ) by {
        assert(a.db_keys() == b.db_keys());
        if a.has_db(dn) {
            assert(a.db_at(dn) == b.db_at(dn));
        }
    }
}

/// Monotonicity: a successful fetch with a cursor no lower than the
/// stored one moves exactly that cursor forward, and stamps
/// `last_checked` with the cycle's time — so over any run of successful
/// fetches, with the clock never read backwards, both the cursor and
/// `last_checked` are non-decreasing, and every other target is
/// untouched.
pub proof fn lemma_cursor_monotonic(
    w: ConfigView,
    dn: Seq<char>,
    tn: Seq<char>,
    c: int,
    rows: int,
    now: int,
)
    requires
        w.wf(),
        w.target_of(dn, tn) is Some,
        c >= w.target_of(dn, tn)->Some_0.last_id,
    ensures
        ({
            let t = w.target_of(dn, tn)->Some_0;
            let w2 = with_target_replaced(w, dn, tn, advanced_target(t, c, rows, now));
            &&& w2.cursor_of(dn, tn) == Some(c)
            &&& w.cursor_of(dn, tn)->Some_0 <= c
            &&& w2.target_of(dn, tn)->Some_0.last_checked == now
            &&& now >= t.last_checked ==> w2.target_of(dn, tn)->Some_0.last_checked
                >= t.last_checked
            &&& forall|d2: Seq<char>, t2: Seq<char>|
                !(d2 == dn && t2 == tn) ==> #[trigger] w2.cursor_of(d2, t2) == w.cursor_of(d2, t2)
        }),
{
    let t = w.target_of(dn, tn)->Some_0;
    lemma_first_key_idx_bounds(w.db_keys(), dn);
    lemma_first_key_idx_bounds(w.db_at(dn).target_keys(), tn);
    assert(t.name == tn);
    assert(t.wf()) by {
        let dv = w.db_at(dn);
        assert(dv.targets[dv.target_idx(tn)].wf());
    }
    lemma_replace_frame(w, dn, tn, advanced_target(t, c, rows, now));
}

/// Isolation: a failed fetch leaves the registry untouched, so a later
/// successful fetch of a different target in the same cycle advances that
/// target exactly as it would have alone, and the failed target's state
/// is unchanged.
pub proof fn lemma_isolation(
    w: ConfigView,
    dn_b: Seq<char>,
    tn_b: Seq<char>,
    dn_a: Seq<char>,
    tn_a: Seq<char>,
    c: int,
    rows: int,
    now: int,
)
    requires
        w.wf(),
        !(dn_a == dn_b && tn_a == tn_b),
        w.target_of(dn_a, tn_a) is Some,
        c >= w.target_of(dn_a, tn_a)->Some_0.last_id,
    ensures
        ({
            let t = w.target_of(dn_a, tn_a)->Some_0;
            let w2 = with_target_replaced(w, dn_a, tn_a, advanced_target(t, c, rows, now));
            &&& w2.cursor_of(dn_a, tn_a) == Some(c)
            &&& w2.target_of(dn_b, tn_b) == w.target_of(dn_b, tn_b)
        }),
{
    lemma_cursor_monotonic(w, dn_a, tn_a, c, rows, now);
    let t = w.target_of(dn_a, tn_a)->Some_0;
    lemma_first_key_idx_bounds(w.db_keys(), dn_a);
    lemma_first_key_idx_bounds(w.db_at(dn_a).target_keys(), tn_a);
    assert(t.name == tn_a);
    assert(t.wf()) by {
        let dv = w.db_at(dn_a);
        assert(dv.targets[dv.target_idx(tn_a)].wf());
    }
    lemma_replace_frame(w, dn_a, tn_a, advanced_target(t, c, rows, now));
}


/// The cursor after a fetch that returned the given row identifiers: the
/// greatest identifier seen, or the old cursor when none exceeds it.
pub open spec fn spec_rows_cursor(cursor: int, ids: Seq<i64>) -> int
    decreases ids.len(),
{
    if ids.len() == 0 {
        cursor
    } else {
        let m = spec_rows_cursor(cursor, ids.drop_last());
        if ids.last() > m {
            ids.last() as int
        } else {
            m
        }
    }
}

/// Fold a fetch's row identifiers into the cursor value to persist.
pub fn rows_cursor(cursor: i64, ids: &Vec<i64>) -> (r: i64)
    ensures
        r as int == spec_rows_cursor(cursor as int, ids@),
        r >= cursor,
{
    let mut r = cursor;
    let mut i: usize = 0;
    proof {
        assert(ids@.take(0) =~= Seq::<i64>::empty());
    }
    while i < ids.len()
        invariant
            i <= ids.len(),
            r as int == spec_rows_cursor(cursor as int, ids@.take(i as int)),
            r >= cursor,
        decreases ids.len() - i,
    {
        if ids[i] > r {
            r = ids[i];
        }
        proof {
            assert(ids@.take(i as int + 1).drop_last() =~= ids@.take(i as int));
            assert(ids@.take(i as int + 1).last() == ids@[i as int]);
        }
        i = i + 1;
    }
    proof {
        assert(ids@.take(ids@.len() as int) =~= ids@);
    }
    r
}

/// The polling engine: a working copy of the registry that scheduling
/// reads, the stored copy that every cursor advance is written through
/// to, and the control state. The caller persists the stored copy after
/// each call that changes it; a reload replaces the working copy with the
/// stored one, so no persisted cursor is ever lost.
pub struct PollEngine {
    state: EngineState,
    store: Config,
    working: Config,
}

impl PollEngine {
    pub closed spec fn state_v(self) -> EngineState {
        self.state
    }

    pub closed spec fn working_v(self) -> ConfigView {
        self.working@
    }

    pub closed spec fn store_v(self) -> ConfigView {
        self.store@
    }

    /// Both registries well-formed, and every working target persisted
    /// with a stored cursor at least as far along.
    pub open spec fn inv(self) -> bool {
        &&& self.working_v().wf()
        &&& self.store_v().wf()
        &&& cursors_covered(self.working_v(), self.store_v())
    }

    pub fn new(initial: Config) -> (r: PollEngine)
        requires
            initial@.wf(),
        ensures
            r.inv(),
            r.state_v() is Running,
            r.working_v() == initial@,
            r.store_v() == initial@,
    {
        let working = initial.clone();
        let r = PollEngine { state: EngineState::Running, store: initial, working };
        proof {
            assert forall|dn: Seq<char>, tn: Seq<char>| #[trigger] r.working_v().target_of(
                dn,
                tn,
            ) is Some implies r.store_v().target_of(dn, tn) is Some && r.store_v().target_of(
                dn,
                tn,
            )->Some_0.last_id >= r.working_v().target_of(dn, tn)->Some_0.last_id by {
                assert(r.working_v() == r.store_v());
            }
        }
        r
    }

    pub fn get_state(&self) -> (r: EngineState)
        ensures
            r == self.state_v(),
    {
        self.state
    }

    pub fn get_working(&self) -> (r: &Config)
        ensures
            r@ == self.working_v(),
    {
        &self.working
    }

    pub fn get_store(&self) -> (r: &Config)
        ensures
            r@ == self.store_v(),
    {
        &self.store
    }

    /// The reload-supervisor surface: raise the stored registry's reload
    /// flag so the engine rereads it before its next cycle.
    pub fn request_reload(&mut self)
        requires
            old(self).inv(),
        ensures
            final(self).inv(),
            final(self).state_v() == old(self).state_v(),
            final(self).working_v() == old(self).working_v(),
            final(self).store_v() == (ConfigView { update: 1, ..old(self).store_v() }),
    {
        self.store.mark_reload_pending();
        proof {
            lemma_same_databases(self.store@, old(self).store@);
        }
    }

    /// Start one cycle: consume the reload flag first — if it was raised,
    /// go to `ReloadPending` and poll nothing; otherwise return the due
    /// set of the working registry at `now`.
    pub fn begin_cycle(&mut self, now: u64) -> (r: Vec<(String, String)>)
        requires
            old(self).inv(),
            old(self).state_v() is Running,
        ensures
            final(self).inv(),
            final(self).working_v() == old(self).working_v(),
            final(self).store_v() == (ConfigView { update: 0, ..old(self).store_v() }),
            old(self).store_v().update == 1 ==> final(self).state_v() is ReloadPending && r@.len()
                == 0,
            old(self).store_v().update != 1 ==> final(self).state_v() is Running
                && r@.map_values(|p: (String, String)| (p.0@, p.1@)) == due_pairs(
                old(self).working_v(),
                now as int,
            ),
    {
        let reload = self.store.consume_reload_flag();
        proof {
            lemma_same_databases(self.store@, old(self).store@);
        }
        if reload {
            self.state = EngineState::ReloadPending;
            Vec::new()
        } else {
            due_targets(&self.working, now)
        }
    }

    /// Record one successful fetch: advance the named target's cursor to
    /// `new_cursor`, stamp `last_checked` (and `last_updated` when rows
    /// came back) with `now`, writing the stored registry first and the
    /// working copy only after the store accepted the advance. A cursor
    /// lower than either stored value is rejected as `StaleCursor`; an
    /// unknown target as `NotFound`; nothing changes on an error.
    pub fn handle_fetch_success(
        &mut self,
        db_name: &String,
        target_name: &String,
        new_cursor: i64,
        row_count: usize,
        now: u64,
    ) -> (r: Result<(), PbusError>)
        requires
            old(self).inv(),
            old(self).state_v() is Running,
        ensures
            final(self).inv(),
            final(self).state_v() is Running,
            r is Err ==> final(self).working_v() == old(self).working_v() && final(self).store_v()
                == old(self).store_v(),
            r == Err::<(), PbusError>(PbusError::NotFound) <==> old(self).working_v().target_of(
                db_name@,
                target_name@,
            ) is None,
            old(self).working_v().target_of(db_name@, target_name@) is Some ==> (r == Err::<
                (),
                PbusError,
            >(PbusError::StaleCursor) <==> (new_cursor as int) < old(self).working_v().target_of(db_name@, target_name@)->Some_0.last_id || (new_cursor as int)
                < old(self).store_v().target_of(db_name@, target_name@)->Some_0.last_id),
            (old(self).working_v().target_of(db_name@, target_name@) is Some && new_cursor as int
                >= old(self).working_v().target_of(db_name@, target_name@)->Some_0.last_id
                && new_cursor as int >= old(self).store_v().target_of(
                db_name@,
                target_name@,
            )->Some_0.last_id) ==> r is Ok,
            r is Ok ==> ({
                let t = old(self).working_v().target_of(db_name@, target_name@)->Some_0;
                let tv = advanced_target(t, new_cursor as int, row_count as int, now as int);
                &&& final(self).working_v() == with_target_replaced(
                    old(self).working_v(),
                    db_name@,
                    target_name@,
                    tv,
                )
                &&& final(self).store_v() == with_target_replaced(
                    old(self).store_v(),
                    db_name@,
                    target_name@,
                    tv,
                )
                &&& final(self).working_v().cursor_of(db_name@, target_name@) == Some(
                    new_cursor as int,
                )
            }),
    {
        let ghost w = self.working@;
        let ghost s = self.store@;
        let ghost dn = db_name@;
        let ghost tn = target_name@;
        let t_found: Option<Target> = match self.working.get_database(db_name) {
            None => None,
            Some(db) => match db.get_target(target_name.clone()) {
                None => None,
                Some(t) => Some(t.clone()),
            },
        };
        match t_found {
            None => {
                proof {
                    assert(w.target_of(dn, tn) is None);
                }
                Err(PbusError::NotFound)
            },
            Some(mut t2) => {
                let ghost wt = w.target_of(dn, tn)->Some_0;
                proof {
                    assert(t2@ == wt);
                    lemma_first_key_idx_bounds(w.db_keys(), dn);
                    lemma_first_key_idx_bounds(w.db_at(dn).target_keys(), tn);
                    assert(wt.name == tn);
                    assert(wt.wf()) by {
                        let dv = w.db_at(dn);
                        assert(dv.targets[dv.target_idx(tn)].wf());
                    }
                    assert(s.target_of(dn, tn) is Some);
                }
                let cur = t2.get_last_id();
                if new_cursor < cur {
                    Err(PbusError::StaleCursor)
                } else {
                    t2.set_last_id(new_cursor);
                    t2.set_last_checked(now);
                    if row_count > 0 {
                        t2.set_last_updated(now);
                    }
                    let ghost tv = advanced_target(
                        wt,
                        new_cursor as int,
                        row_count as int,
                        now as int,
                    );
                    proof {
                        assert(t2@ =~~= tv);
                        assert(tv.wf());
                    }
                    let t3 = t2.clone();
                    let res = self.store.replace_target(db_name, t3);
                    match res {
                        Err(e) => {
                            proof {
                                lemma_first_key_idx_bounds(s.db_keys(), dn);
                                lemma_first_key_idx_bounds(s.db_at(dn).target_keys(), tn);
                                assert(e == PbusError::StaleCursor);
                                assert(self.store@ == s);
                            }
                            Err(e)
                        },
                        Ok(()) => {
                            let ghost st = s.target_of(dn, tn)->Some_0;
                            proof {
                                lemma_first_key_idx_bounds(s.db_keys(), dn);
                                lemma_first_key_idx_bounds(s.db_at(dn).target_keys(), tn);
                                assert(self.store@ == with_target_replaced(s, dn, tn, tv));
                            }
                            let res2 = self.working.replace_target(db_name, t2);
                            match res2 {
                                Ok(()) => {
                                    proof {
                                        assert(self.working@ == with_target_replaced(w, dn, tn, tv));
                                        lemma_replace_frame(w, dn, tn, tv);
                                        lemma_replace_frame(s, dn, tn, tv);
                                        assert forall|d2: Seq<char>, t2x: Seq<char>|
                                            #[trigger] self.working@.target_of(d2, t2x) is Some
                                            implies self.store@.target_of(d2, t2x) is Some
                                            && self.store@.target_of(d2, t2x)->Some_0.last_id
                                            >= self.working@.target_of(d2, t2x)->Some_0.last_id by {
                                            if !(d2 == dn && t2x == tn) {
                                                assert(self.working@.target_of(d2, t2x)
                                                    == w.target_of(d2, t2x));
                                                assert(self.store@.target_of(d2, t2x)
                                                    == s.target_of(d2, t2x));
                                            }
                                        }
                                    }
                                    Ok(())
                                },
                                Err(e2) => {
                                    // The working copy holds this target with a cursor
                                    // no higher than the one the store just accepted,
                                    // so its own write cannot be refused.
                                    proof {
                                        assert(false);
                                    }
                                    Err(e2)
                                },
                            }
                        },
                    }
                }
            },
        }
    }

    /// Record one failed fetch: by design nothing changes — the target
    /// keeps its cursor and `last_checked`, stays due, and the rest of
    /// the cycle goes on. The error is handed back for reporting.
    pub fn handle_fetch_failure(
        &mut self,
        db_name: &String,
        target_name: &String,
        err: PbusError,
    ) -> (r: PbusError)
        requires
            old(self).inv(),
        ensures
            final(self).inv(),
            final(self).state_v() == old(self).state_v(),
            final(self).working_v() == old(self).working_v(),
            final(self).store_v() == old(self).store_v(),
            r == err,
    {
        let _ = db_name;
        let _ = target_name;
        err
    }


    /// Absorb an externally edited registry as the new stored copy: the
    /// re-load half of the `ReloadPending` path, so configuration edits
    /// made behind the engine's back reach it. Rejected as `StaleCursor`
    /// — with nothing changed — when the edit would revert any cursor
    /// the working copy has already advanced past.
    pub fn reload_store(&mut self, loaded: Config) -> (r: Result<(), PbusError>)
        requires
            old(self).inv(),
            loaded@.wf(),
        ensures
            final(self).inv(),
            final(self).state_v() == old(self).state_v(),
            final(self).working_v() == old(self).working_v(),
            r == Ok::<(), PbusError>(()) <==> cursors_covered(old(self).working_v(), loaded@),
            r is Ok ==> final(self).store_v() == loaded@,
            r is Err ==> r == Err::<(), PbusError>(PbusError::StaleCursor) && final(self).store_v()
                == old(self).store_v(),
    {
        if check_cursors_covered(&self.working, &loaded) {
            self.store = loaded;
            Ok(())
        } else {
            Err(PbusError::StaleCursor)
        }
    }

    /// Leave `ReloadPending`: the working copy becomes the stored
    /// registry. Reload safety: every target of the old working copy is
    /// still present with a cursor at least as far along, because every
    /// advance was written through the store.
    pub fn apply_reload(&mut self)
        requires
            old(self).inv(),
            old(self).state_v() is ReloadPending,
        ensures
            final(self).inv(),
            final(self).state_v() is Running,
            final(self).store_v() == old(self).store_v(),
            final(self).working_v() == old(self).store_v(),
            forall|dn: Seq<char>, tn: Seq<char>|
                #[trigger] old(self).working_v().target_of(dn, tn) is Some ==> final(self).working_v().target_of(dn, tn) is Some && final(self).working_v().target_of(
                    dn,
                    tn,
                )->Some_0.last_id >= old(self).working_v().target_of(dn, tn)->Some_0.last_id,
    {
        self.working = self.store.clone();
        self.state = EngineState::Running;
        proof {
            assert forall|dn: Seq<char>, tn: Seq<char>| #[trigger] self.working@.target_of(
                dn,
                tn,
            ) is Some implies self.store@.target_of(dn, tn) is Some && self.store@.target_of(
                dn,
                tn,
            )->Some_0.last_id >= self.working@.target_of(dn, tn)->Some_0.last_id by {
                assert(self.working@ == self.store@);
            }
        }
    }

    /// Clean shutdown: stop pulling due targets; everything already
    /// persisted stays as it is.
    pub fn stop(&mut self)
        requires
            old(self).inv(),
        ensures
            final(self).inv(),
            final(self).state_v() is Stopped,
            final(self).working_v() == old(self).working_v(),
            final(self).store_v() == old(self).store_v(),
    {
        self.state = EngineState::Stopped;
    }
}

} // verus!
