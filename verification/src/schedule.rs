use vstd::prelude::*;

use crate::config::{Config, ConfigView, Database, DatabaseView};
use crate::lookup::{lemma_first_key_idx_bounds, lemma_has_key_exists};

verus! {

/// Model of one schedule entry.
#[verifier::ext_equal]
pub struct HitTargetsView {
    pub name: Seq<char>,
    pub database_name: Seq<char>,
    pub last_hit: int,
    pub interval: int,
    pub next_hit: int,
}

/// One derived schedule entry: a target, its owning database, when it was
/// last hit, its poll interval, and the computed next due time. Rebuilt
/// from the registry; never itself a source of truth.
pub struct HitTargets {
    name: String,
    database_name: String,
    last_hit: u64,
    interval: u64,
    next_hit: u64,
}

impl View for HitTargets {
    type V = HitTargetsView;

    closed spec fn view(&self) -> HitTargetsView {
        HitTargetsView {
            name: self.name@,
            database_name: self.database_name@,
            last_hit: self.last_hit as int,
            interval: self.interval as int,
            next_hit: self.next_hit as int,
        }
    }
}

impl HitTargets {
    /// A schedule entry anchored at `now`: the next hit is one interval
    /// later, saturating at the largest representable time.
    pub fn new(name: String, db_name: String, interval: u64, now: u64) -> (r: HitTargets)
        ensures
            r@ == (HitTargetsView {
                name: name@,
                database_name: db_name@,
                last_hit: now as int,
                interval: interval as int,
                next_hit: if now + interval <= u64::MAX { now as int + interval as int } else {
                    u64::MAX as int
                },
            }),
    {
        let next_hit = match now.checked_add(interval) {
            Some(v) => v,
            None => u64::MAX,
        };
        let r = HitTargets { name, database_name: db_name, last_hit: now, interval, next_hit };
        proof {
            assert(r@ =~~= (HitTargetsView {
                name: r.name@,
                database_name: r.database_name@,
                last_hit: now as int,
                interval: interval as int,
                next_hit: next_hit as int,
            }));
        }
        r
    }

    pub fn get_name(&self) -> (r: String)
        ensures
            r@ == self@.name,
    {
        self.name.clone()
    }

    pub fn get_last_hit(&self) -> (r: u64)
        ensures
            r as int == self@.last_hit,
    {
        self.last_hit
    }

    pub fn get_interval(&self) -> (r: u64)
        ensures
            r as int == self@.interval,
    {
        self.interval
    }

    pub fn get_next_hit(&self) -> (r: u64)
        ensures
            r as int == self@.next_hit,
    {
        self.next_hit
    }

    pub fn set_last_hit(&mut self, last_hit: u64)
        ensures
            final(self)@ == (HitTargetsView { last_hit: last_hit as int, ..old(self)@ }),
    {
        self.last_hit = last_hit;
        proof {
            assert(self@ =~~= (HitTargetsView { last_hit: last_hit as int, ..old(self)@ }));
        }
    }

    pub fn set_next_hit(&mut self, next_hit: u64)
        ensures
            final(self)@ == (HitTargetsView { next_hit: next_hit as int, ..old(self)@ }),
    {
        self.next_hit = next_hit;
        proof {
            assert(self@ =~~= (HitTargetsView { next_hit: next_hit as int, ..old(self)@ }));
        }
    }

    pub fn copy(&self) -> (r: HitTargets)
        ensures
            r@ == self@,
    {
        let r = HitTargets {
            name: self.name.clone(),
            database_name: self.database_name.clone(),
            last_hit: self.last_hit,
            interval: self.interval,
            next_hit: self.next_hit,
        };
        proof {
            assert(r@ =~~= self@);
        }
        r
    }

    pub fn get_database_name(&self) -> (r: String)
        ensures
            r@ == self@.database_name,
    {
        self.database_name.clone()
    }
}

/// The due entries among the first `j` targets of one database, in order:
/// a pair (database name, target name) for each enabled target whose
/// interval has elapsed.
pub open spec fn due_pairs_db_prefix(d: DatabaseView, j: int, now: int) -> Seq<
    (Seq<char>, Seq<char>),
>
    decreases j,
{
    if j <= 0 {
        Seq::<(Seq<char>, Seq<char>)>::empty()
    } else {
        due_pairs_db_prefix(d, j - 1, now) + if d.targets[j - 1].is_due(d.update_interval, now) {
            seq![(d.database_name, d.targets[j - 1].name)]
        } else {
            Seq::<(Seq<char>, Seq<char>)>::empty()
        }
    }
}

pub open spec fn due_pairs_db(d: DatabaseView, now: int) -> Seq<(Seq<char>, Seq<char>)> {
    due_pairs_db_prefix(d, d.targets.len() as int, now)
}

/// The due entries of the first `i` databases of the registry, in order.
pub open spec fn due_pairs_prefix(cv: ConfigView, i: int, now: int) -> Seq<
    (Seq<char>, Seq<char>),
>
    decreases i,
{
    if i <= 0 {
        Seq::<(Seq<char>, Seq<char>)>::empty()
    } else {
        due_pairs_prefix(cv, i - 1, now) + due_pairs_db(cv.databases[i - 1], now)
    }
}

/// The due set: every (database, target) pair, in registry order, whose
/// target is enabled and whose interval has elapsed since it was last
/// checked.
pub open spec fn due_pairs(cv: ConfigView, now: int) -> Seq<(Seq<char>, Seq<char>)> {
    due_pairs_prefix(cv, cv.databases.len() as int, now)
}

proof fn lemma_due_pairs_db_member(d: DatabaseView, j: int, now: int, p: (Seq<char>, Seq<char>))
    requires
        0 <= j <= d.targets.len(),
    ensures
        due_pairs_db_prefix(d, j, now).contains(p) <==> exists|k: int|
            0 <= k < j && #[trigger] d.targets[k].is_due(d.update_interval, now) && p == (
                d.database_name,
                d.targets[k].name,
            ),
    decreases j,
{
    if j > 0 {
        lemma_due_pairs_db_member(d, j - 1, now, p);
        let pre = due_pairs_db_prefix(d, j - 1, now);
        let whole = due_pairs_db_prefix(d, j, now);
        if d.targets[j - 1].is_due(d.update_interval, now) {
            assert(whole == pre + seq![(d.database_name, d.targets[j - 1].name)]);
            if whole.contains(p) {
                let x = choose|x: int| 0 <= x < whole.len() && whole[x] == p;
                if x < pre.len() {
                    assert(pre[x] == p);
                    assert(pre.contains(p));
                } else {
                    assert(p == (d.database_name, d.targets[j - 1].name));
                }
            }
            if exists|k: int|
                0 <= k < j && #[trigger] d.targets[k].is_due(d.update_interval, now) && p == (
                    d.database_name,
                    d.targets[k].name,
                ) {
                let k = choose|k: int|
                    0 <= k < j && #[trigger] d.targets[k].is_due(d.update_interval, now) && p == (
                        d.database_name,
                        d.targets[k].name,
                    );
                if k < j - 1 {
                    assert(pre.contains(p));
                    let x = choose|x: int| 0 <= x < pre.len() && pre[x] == p;
                    assert(whole[x] == p);
                } else {
                    assert(whole[whole.len() - 1] == p);
                }
            }
        } else {
            assert(whole =~= pre);
            if whole.contains(p) {
                let x = choose|x: int| 0 <= x < whole.len() && whole[x] == p;
                assert(pre[x] == p);
                assert(pre.contains(p));
            }
        }
    }
}

proof fn lemma_due_pairs_prefix_member(cv: ConfigView, i: int, now: int, p: (Seq<char>, Seq<char>))
    requires
        0 <= i <= cv.databases.len(),
    ensures
        due_pairs_prefix(cv, i, now).contains(p) <==> exists|di: int, k: int|
            0 <= di < i && 0 <= k < cv.databases[di].targets.len()
                && #[trigger] cv.databases[di].targets[k].is_due(
                cv.databases[di].update_interval,
                now,
            ) && p == (cv.databases[di].database_name, cv.databases[di].targets[k].name),
    decreases i,
{
    if i > 0 {
        lemma_due_pairs_prefix_member(cv, i - 1, now, p);
        let d = cv.databases[i - 1];
        lemma_due_pairs_db_member(d, d.targets.len() as int, now, p);
        let pre = due_pairs_prefix(cv, i - 1, now);
        let tail = due_pairs_db(d, now);
        let whole = due_pairs_prefix(cv, i, now);
        assert(whole == pre + tail);
        if whole.contains(p) {
            let x = choose|x: int| 0 <= x < whole.len() && whole[x] == p;
            if x < pre.len() {
                assert(pre[x] == p);
                assert(pre.contains(p));
            } else {
                assert(tail[x - pre.len()] == p);
                assert(tail.contains(p));
            }
        }
        if exists|di: int, k: int|
            0 <= di < i && 0 <= k < cv.databases[di].targets.len()
                && #[trigger] cv.databases[di].targets[k].is_due(
                cv.databases[di].update_interval,
                now,
            ) && p == (cv.databases[di].database_name, cv.databases[di].targets[k].name) {
            let (di, k) = choose|di: int, k: int|
                0 <= di < i && 0 <= k < cv.databases[di].targets.len()
                    && #[trigger] cv.databases[di].targets[k].is_due(
                    cv.databases[di].update_interval,
                    now,
                ) && p == (cv.databases[di].database_name, cv.databases[di].targets[k].name);
            if di < i - 1 {
                assert(pre.contains(p));
                let x = choose|x: int| 0 <= x < pre.len() && pre[x] == p;
                assert(whole[x] == p);
            } else {
                assert(tail.contains(p));
                let x = choose|x: int| 0 <= x < tail.len() && tail[x] == p;
                assert(whole[pre.len() + x] == p);
            }
        }
    }
}

/// Due-set correctness: a pair is in the due set exactly when the named
/// target exists, is enabled, and `now` has reached `last_checked +
/// interval`; in particular a disabled target is in no due set.
pub proof fn lemma_due_pairs_member(cv: ConfigView, now: int, dn: Seq<char>, tn: Seq<char>)
    requires
        cv.wf(),
    ensures
        due_pairs(cv, now).contains((dn, tn)) <==> (cv.target_of(dn, tn) matches Some(t)
            && t.is_due(cv.db_at(dn).update_interval, now)),
{
    lemma_due_pairs_prefix_member(cv, cv.databases.len() as int, now, (dn, tn));
    if due_pairs(cv, now).contains((dn, tn)) {
        let (di, k) = choose|di: int, k: int|
            0 <= di < cv.databases.len() && 0 <= k < cv.databases[di].targets.len()
                && #[trigger] cv.databases[di].targets[k].is_due(
                cv.databases[di].update_interval,
                now,
            ) && (dn, tn) == (cv.databases[di].database_name, cv.databases[di].targets[k].name);
        assert(cv.db_keys()[di] == dn);
        lemma_has_key_exists(cv.db_keys(), dn);
        lemma_first_key_idx_bounds(cv.db_keys(), dn);
        assert(cv.db_keys()[cv.db_idx(dn)] == dn);
        assert(cv.db_idx(dn) == di);
        let d = cv.databases[di];
        assert(d.target_keys()[k] == tn);
        lemma_has_key_exists(d.target_keys(), tn);
        lemma_first_key_idx_bounds(d.target_keys(), tn);
        assert(d.target_keys()[d.target_idx(tn)] == tn);
        assert(d.target_idx(tn) == k);
    }
    if cv.target_of(dn, tn) matches Some(t) && t.is_due(cv.db_at(dn).update_interval, now) {
        lemma_first_key_idx_bounds(cv.db_keys(), dn);
        let di = cv.db_idx(dn);
        let d = cv.databases[di];
        lemma_first_key_idx_bounds(d.target_keys(), tn);
        let k = d.target_idx(tn);
        assert(d.targets[k].is_due(d.update_interval, now));
        assert((dn, tn) == (cv.databases[di].database_name, cv.databases[di].targets[k].name));
    }
}

/// A disabled target is never selected, whatever the clock says.
pub proof fn lemma_disabled_never_due(cv: ConfigView, now: int, dn: Seq<char>, tn: Seq<char>)
    requires
        cv.wf(),
        cv.target_of(dn, tn) matches Some(t) && !t.enabled,
    ensures
        !due_pairs(cv, now).contains((dn, tn)),
{
    lemma_due_pairs_member(cv, now, dn, tn);
}

/// Compute the due set of the registry at time `now`, in registry order:
/// each pair names a database and one of its targets that is enabled and
/// whose interval has elapsed since it was last checked.
pub fn due_targets(config: &Config, now: u64) -> (r: Vec<(String, String)>)
    ensures
        r@.map_values(|p: (String, String)| (p.0@, p.1@)) == due_pairs(config@, now as int),
{
    let ghost cv = config@;
    let mut out: Vec<(String, String)> = Vec::new();
    let dbs = config.get_databases();
    proof {
        assert(dbs@.len() == cv.databases.len());
    }
    let mut i: usize = 0;
    while i < dbs.len()
        invariant
            dbs@.map_values(|d: Database| d@) == cv.databases,
            dbs@.len() == cv.databases.len(),
            i <= dbs@.len(),
            out@.map_values(|p: (String, String)| (p.0@, p.1@)) == due_pairs_prefix(
                cv,
                i as int,
                now as int,
            ),
        decreases dbs@.len() - i,
    {
        let ghost outer_before = out@.map_values(|p: (String, String)| (p.0@, p.1@));
        let db = &dbs[i];
        proof {
            assert(db@ == cv.databases[i as int]);
            assert(db.targets@.len() == db@.targets.len());
        }
        let interval = db.update_interval;
        let mut j: usize = 0;
        while j < db.targets.len()
            invariant
                db@ == cv.databases[i as int],
                db.targets@.len() == db@.targets.len(),
                j <= db.targets@.len(),
                interval as int == db@.update_interval,
                out@.map_values(|p: (String, String)| (p.0@, p.1@)) == outer_before
                    + due_pairs_db_prefix(db@, j as int, now as int),
            decreases db.targets@.len() - j,
        {
            let ghost inner_before = out@.map_values(|p: (String, String)| (p.0@, p.1@));
            let t = &db.targets[j];
            proof {
                assert(t@ == db@.targets[j as int]);
            }
            let lc = t.get_last_checked();
            if t.get_enabled() && lc <= now && now - lc >= interval {
                proof {
                    assert(t@.is_due(db@.update_interval, now as int));
                }
                out.push((db.database_name.clone(), t.get_name().clone()));
                proof {
                    assert(out@.map_values(|p: (String, String)| (p.0@, p.1@))
                        =~= inner_before.push((db@.database_name, t@.name)));
                    assert(due_pairs_db_prefix(db@, j as int + 1, now as int)
                        =~= due_pairs_db_prefix(db@, j as int, now as int).push(
                        (db@.database_name, t@.name),
                    ));
                    assert(out@.map_values(|p: (String, String)| (p.0@, p.1@)) =~= outer_before
                        + due_pairs_db_prefix(db@, j as int + 1, now as int));
                }
            } else {
                proof {
                    assert(!t@.is_due(db@.update_interval, now as int));
                    assert(due_pairs_db_prefix(db@, j as int + 1, now as int)
                        =~= due_pairs_db_prefix(db@, j as int, now as int));
                }
            }
            j = j + 1;
        }
        proof {
            assert(due_pairs_prefix(cv, i as int + 1, now as int) == due_pairs_prefix(
                cv,
                i as int,
                now as int,
            ) + due_pairs_db(cv.databases[i as int], now as int));
            assert(out@.map_values(|p: (String, String)| (p.0@, p.1@)) =~= due_pairs_prefix(
                cv,
                i as int + 1,
                now as int,
            ));
        }
        i = i + 1;
    }
    out
}

} // verus!
