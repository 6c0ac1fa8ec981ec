//! What is going on right now.

use std::collections::HashMap;
use vstd::prelude::*;

verus! {

/// How many things are going on and, where that is kept, what is known of each.
pub struct ActiveSet<Info> {
    count: usize,
    map: Option<HashMap<u128, Info>>,
}

/// How many things are going on and, where that is kept, what is known of each.
pub struct ActiveModel<Info> {
    pub count: nat,
    pub known: Option<Map<u128, Info>>,
}

impl<Info> View for ActiveSet<Info> {
    type V = ActiveModel<Info>;

    closed spec fn view(&self) -> ActiveModel<Info> {
        ActiveModel {
            count: self.count as nat,
            known: match self.map {
                Some(m) => Some(m@),
                None => None,
            },
        }
    }
}

/// One thing more is going on.
pub open spec fn begun<Info>(m: ActiveModel<Info>, id: u128, info: Info) -> ActiveModel<Info> {
    ActiveModel {
        count: m.count + 1,
        known: match m.known {
            Some(k) => Some(k.insert(id, info)),
            None => None,
        },
    }
}

/// One thing less is going on.
pub open spec fn ended<Info>(m: ActiveModel<Info>, id: u128) -> ActiveModel<Info> {
    ActiveModel {
        count: (m.count - 1) as nat,
        known: match m.known {
            Some(k) => Some(k.remove(id)),
            None => None,
        },
    }
}

/// What is known of one thing has changed, where something is known of it.
pub open spec fn updated<Info>(m: ActiveModel<Info>, id: u128, info: Info) -> ActiveModel<Info> {
    ActiveModel {
        known: match m.known {
            Some(k) => Some(
                if k.dom().contains(id) {
                    k.insert(id, info)
                } else {
                    k
                },
            ),
            None => None,
        },
        ..m
    }
}

/// What is known of one thing.
pub open spec fn known_of<Info>(m: ActiveModel<Info>, id: u128) -> Option<Info> {
    match m.known {
        Some(k) => if k.dom().contains(id) {
            Some(k[id])
        } else {
            None
        },
        None => None,
    }
}

/// Stands for one thing that is going on.
pub struct ActiveGuard {
    id: u128,
}

impl View for ActiveGuard {
    type V = u128;

    closed spec fn view(&self) -> u128 {
        self.id
    }
}

impl<Info> ActiveSet<Info> {
    /// Only counts.
    pub fn new() -> (r: ActiveSet<Info>)
        ensures
            r@ == (ActiveModel::<Info> { count: 0, known: None }),
    {
        Self::new_with_telemetry(false)
    }

    /// Counts and, where `with_telemetry` holds, keeps what is known of each.
    pub fn new_with_telemetry(with_telemetry: bool) -> (r: ActiveSet<Info>)
        ensures
            r@ == (ActiveModel::<Info> {
                count: 0,
                known: if with_telemetry {
                    Some(Map::empty())
                } else {
                    None
                },
            }),
    {
        ActiveSet { count: 0, map: if with_telemetry { Some(HashMap::new()) } else { None } }
    }

    /// Begins one thing more.
    pub fn insert(&mut self, id: u128, info: Info) -> (r: ActiveGuard)
        requires
            old(self)@.count < usize::MAX,
        ensures
            r@ == id,
            final(self)@ == begun(old(self)@, id, info),
    {
        broadcast use vstd::std_specs::hash::group_hash_axioms;

        self.count += 1;
        if let Some(map) = &mut self.map {
            map.insert(id, info);
        }
        ActiveGuard { id }
    }

    /// Ends what a guard stands for, and says whether nothing is going on any
    /// more.
    pub fn release(&mut self, guard: ActiveGuard) -> (r: bool)
        requires
            old(self)@.count > 0,
        ensures
            final(self)@ == ended(old(self)@, guard@),
            r == (final(self)@.count == 0),
    {
        self.end(guard.id)
    }

    fn end(&mut self, id: u128) -> (r: bool)
        requires
            old(self)@.count > 0,
        ensures
            final(self)@ == ended(old(self)@, id),
            r == (final(self)@.count == 0),
    {
        broadcast use vstd::std_specs::hash::group_hash_axioms;

        if let Some(map) = &mut self.map {
            map.remove(&id);
        }
        self.count -= 1;
        self.count == 0
    }

    pub fn len(&self) -> (r: usize)
        ensures
            r == self@.count,
    {
        self.count
    }

    pub fn is_empty(&self) -> (r: bool)
        ensures
            r == (self@.count == 0),
    {
        self.len() == 0
    }

    /// Whether something is known of `id`.
    pub fn contains(&self, id: u128) -> (r: bool)
        ensures
            r == (known_of(self@, id) is Some),
    {
        broadcast use vstd::std_specs::hash::group_hash_axioms;

        match &self.map {
            Some(map) => map.contains_key(&id),
            None => false,
        }
    }

    /// What is known of `id`.
    pub fn get(&self, id: u128) -> (r: Option<&Info>)
        ensures
            match r {
                Some(info) => known_of(self@, id) == Some(*info),
                None => known_of(self@, id) is None,
            },
    {
        broadcast use vstd::std_specs::hash::group_hash_axioms;

        match &self.map {
            Some(map) => map.get(&id),
            None => None,
        }
    }

    /// Everything that is known, where it is kept.
    pub fn snapshot(&self) -> (r: Option<&HashMap<u128, Info>>)
        ensures
            match r {
                Some(map) => self@.known == Some(map@),
                None => self@.known is None,
            },
    {
        self.map.as_ref()
    }
}

impl ActiveGuard {
    pub fn id(&self) -> (r: u128)
        ensures
            r == self@,
    {
        self.id
    }

    /// Changes what is known of what the guard stands for, where something is.
    pub fn update<Info, F: FnOnce(Info) -> Info>(&self, set: &mut ActiveSet<Info>, f: F)
        requires
            known_of(old(set)@, self@) matches Some(info) ==> call_requires(f, (info,)),
        ensures
            match known_of(old(set)@, self@) {
                Some(info) => known_of(final(set)@, self@) matches Some(changed) && call_ensures(
                    f,
                    (info,),
                    changed,
                ) && final(set)@ == updated(old(set)@, self@, changed),
                None => final(set)@ == old(set)@,
            },
    {
        broadcast use vstd::std_specs::hash::group_hash_axioms;

        if let Some(map) = &mut set.map {
            if let Some(info) = map.remove(&self.id) {
                map.insert(self.id, f(info));
                assert(map@ =~= old(set)@.known->Some_0.insert(self@, map@[self@]));
            } else {
                assert(map@ =~= old(set)@.known->Some_0);
            }
        }
    }

    /// What is known of what the guard stands for.
    pub fn value<'a, Info>(&self, set: &'a ActiveSet<Info>) -> (r: Option<&'a Info>)
        ensures
            match r {
                Some(info) => known_of(set@, self@) == Some(*info),
                None => known_of(set@, self@) is None,
            },
    {
        set.get(self.id)
    }
}

/// A guard that several hold: what it stands for ends when the last of them lets
/// go.
pub struct SharedGuard {
    guard: ActiveGuard,
    holders: usize,
}

/// What a guard that several hold stands for, and how many do.
pub struct SharedModel {
    pub id: u128,
    pub holders: nat,
}

impl View for SharedGuard {
    type V = SharedModel;

    closed spec fn view(&self) -> SharedModel {
        SharedModel { id: self.guard@, holders: self.holders as nat }
    }
}

/// The guard and the set after one of the holders has let go.
pub open spec fn let_go_step<Info>(g: SharedModel, m: ActiveModel<Info>) -> (
    SharedModel,
    ActiveModel<Info>,
) {
    (
        SharedModel { holders: (g.holders - 1) as nat, ..g },
        if g.holders == 1 {
            ended(m, g.id)
        } else {
            m
        },
    )
}

impl SharedGuard {
    /// A guard with one holder.
    pub fn new(guard: ActiveGuard) -> (r: SharedGuard)
        ensures
            r@ == (SharedModel { id: guard@, holders: 1 }),
    {
        SharedGuard { guard, holders: 1 }
    }

    /// One holder more.
    pub fn hold(&mut self)
        requires
            0 < old(self)@.holders < usize::MAX,
        ensures
            final(self)@ == (SharedModel { holders: old(self)@.holders + 1, ..old(self)@ }),
    {
        self.holders += 1;
    }

    /// One holder less. Says whether nothing is going on any more because of that.
    pub fn let_go<Info>(&mut self, set: &mut ActiveSet<Info>) -> (r: bool)
        requires
            old(self)@.holders > 0,
            old(set)@.count > 0,
        ensures
            let_go_step(old(self)@, old(set)@) == (final(self)@, final(set)@),
            r == (final(self)@.holders == 0 && final(set)@.count == 0),
    {
        self.holders -= 1;
        if self.holders == 0 {
            set.end(self.guard.id)
        } else {
            false
        }
    }

    pub fn holders(&self) -> (r: usize)
        ensures
            r == self@.holders,
    {
        self.holders
    }

    /// The guard itself.
    pub fn guard(&self) -> (r: &ActiveGuard)
        ensures
            r@ == self@.id,
    {
        &self.guard
    }
}

// ── Laws ───────────────────────────────────────────────────────────────────

/// Something begins, changes or ends.
pub enum Change<Info> {
    Begin(u128, Info),
    Update(u128, Info),
    End(u128),
}

/// What is going on after a change.
pub open spec fn changed<Info>(m: ActiveModel<Info>, change: Change<Info>) -> ActiveModel<Info> {
    match change {
        Change::Begin(id, info) => begun(m, id, info),
        Change::Update(id, info) => updated(m, id, info),
        Change::End(id) => ended(m, id),
    }
}

/// What is going on after changes.
pub open spec fn after_changes<Info>(m: ActiveModel<Info>, changes: Seq<Change<Info>>) -> ActiveModel<
    Info,
>
    decreases changes.len(),
{
    if changes.len() == 0 {
        m
    } else {
        changed(after_changes(m, changes.drop_last()), changes.last())
    }
}

/// What has begun and not ended, each with what was last said of it.
pub open spec fn live<Info>(changes: Seq<Change<Info>>) -> Map<u128, Info>
    decreases changes.len(),
{
    if changes.len() == 0 {
        Map::empty()
    } else {
        let before = live(changes.drop_last());
        match changes.last() {
            Change::Begin(id, info) => before.insert(id, info),
            Change::Update(id, info) => if before.dom().contains(id) {
                before.insert(id, info)
            } else {
                before
            },
            Change::End(id) => before.remove(id),
        }
    }
}

/// Only what is not live begins, and only what is live ends.
pub open spec fn orderly<Info>(changes: Seq<Change<Info>>) -> bool
    decreases changes.len(),
{
    changes.len() == 0 || orderly(changes.drop_last()) && {
        let before = live(changes.drop_last());
        match changes.last() {
            Change::Begin(id, _) => !before.dom().contains(id),
            Change::Update(_, _) => true,
            Change::End(id) => before.dom().contains(id),
        }
    }
}

/// After whatever has begun, changed and ended, the count is the number of what is
/// live. Where it is kept, exactly what is live is known, with what was last said
/// of it; otherwise nothing is.
pub proof fn law_live<Info>(changes: Seq<Change<Info>>, telemetry: bool)
    requires
        orderly(changes),
    ensures
        ({
            let start = ActiveModel {
                count: 0,
                known: if telemetry {
                    Some(Map::<u128, Info>::empty())
                } else {
                    None
                },
            };
            let m = after_changes(start, changes);
            &&& live(changes).dom().finite()
            &&& m.count == live(changes).dom().len()
            &&& telemetry ==> m.known == Some(live(changes))
            &&& !telemetry ==> m.known is None
        }),
    decreases changes.len(),
{
    if changes.len() > 0 {
        law_live(changes.drop_last(), telemetry);
        let before = live(changes.drop_last());
        match changes.last() {
            Change::Begin(id, info) => {
                assert(before.insert(id, info).dom() =~= before.dom().insert(id));
            },
            Change::Update(id, info) => {
                if before.dom().contains(id) {
                    assert(before.insert(id, info).dom() =~= before.dom());
                }
            },
            Change::End(id) => {
                assert(before.remove(id).dom() =~= before.dom().remove(id));
            },
        }
    }
}

/// How many more things begin than end.
pub open spec fn balance<Info>(changes: Seq<Change<Info>>) -> int
    decreases changes.len(),
{
    if changes.len() == 0 {
        0
    } else {
        balance(changes.drop_last()) + (match changes.last() {
            Change::Begin(_, _) => 1int,
            Change::Update(_, _) => 0int,
            Change::End(_) => -1int,
        })
    }
}

/// Whatever begins and ends, and in whatever order, the count is what has begun
/// and not ended, as long as nothing ends that has not begun. So the count is
/// zero exactly when everything that began has ended.
pub proof fn law_count<Info>(m: ActiveModel<Info>, changes: Seq<Change<Info>>)
    requires
        forall|i: int|
            0 <= i <= changes.len() ==> m.count + balance(#[trigger] changes.take(i)) >= 0,
    ensures
        after_changes(m, changes).count == m.count + balance(changes),
    decreases changes.len(),
{
    if changes.len() > 0 {
        let front = changes.drop_last();
        assert forall|i: int| 0 <= i <= front.len() implies m.count + balance(
            #[trigger] front.take(i),
        ) >= 0 by {
            assert(front.take(i) =~= changes.take(i));
        }
        law_count(m, front);
        assert(changes.take(changes.len() as int) =~= changes);
    }
}

/// The guard and the set after holders have come (`true`) and let go (`false`).
pub open spec fn after_holders<Info>(
    g: SharedModel,
    m: ActiveModel<Info>,
    comes: Seq<bool>,
) -> (SharedModel, ActiveModel<Info>)
    decreases comes.len(),
{
    if comes.len() == 0 {
        (g, m)
    } else {
        let before = after_holders(g, m, comes.drop_last());
        if comes.last() {
            (SharedModel { holders: before.0.holders + 1, ..before.0 }, before.1)
        } else {
            let_go_step(before.0, before.1)
        }
    }
}

/// How many more holders come than let go.
pub open spec fn net(comes: Seq<bool>) -> int
    decreases comes.len(),
{
    if comes.len() == 0 {
        0
    } else {
        net(comes.drop_last()) + (if comes.last() {
            1int
        } else {
            -1int
        })
    }
}

/// What a shared guard stands for ends exactly once. As long as someone holds the
/// guard, whoever came and let go, and in whatever order, the set is as it was;
/// when the last one lets go, the count falls by one and what the guard stood for
/// is forgotten.
pub proof fn law_ends_with_last_holder<Info>(
    g: SharedModel,
    m: ActiveModel<Info>,
    comes: Seq<bool>,
)
    requires
        g.holders > 0,
        m.count > 0,
        forall|i: int| 0 <= i < comes.len() ==> g.holders + net(#[trigger] comes.take(i)) > 0,
        g.holders + net(comes) >= 0,
    ensures
        ({
            let (guard, set) = after_holders(g, m, comes);
            &&& guard.id == g.id
            &&& guard.holders == g.holders + net(comes)
            &&& guard.holders > 0 ==> set == m
            &&& guard.holders == 0 ==> set == ended(m, g.id) && set.count == m.count - 1
                && known_of(set, g.id) is None
        }),
    decreases comes.len(),
{
    if comes.len() > 0 {
        let front = comes.drop_last();
        assert(comes.take(comes.len() - 1) =~= front);
        assert forall|i: int| 0 <= i < front.len() implies g.holders + net(
            #[trigger] front.take(i),
        ) > 0 by {
            assert(front.take(i) =~= comes.take(i));
        }
        assert(g.holders + net(comes.take(comes.len() - 1)) > 0);
        law_ends_with_last_holder(g, m, front);
    }
}

/// What has ended is no longer known, and what else is known stays so.
pub proof fn law_ended_forgotten<Info>(m: ActiveModel<Info>, id: u128, other: u128)
    ensures
        known_of(ended(m, id), id) is None,
        other != id ==> known_of(ended(m, id), other) == known_of(m, other),
{
}

/// What begins is counted and, where that is kept, known; a change is known where
/// the thing was known before and counts for nothing; and neither touches what is
/// known of others.
pub proof fn law_begun_and_updated<Info>(m: ActiveModel<Info>, id: u128, info: Info, other: u128)
    ensures
        begun(m, id, info).count == m.count + 1,
        updated(m, id, info).count == m.count,
        m.count > 0 ==> ended(m, id).count == m.count - 1,
        known_of(begun(m, id, info), id) == (if m.known is Some {
            Some(info)
        } else {
            None
        }),
        known_of(updated(m, id, info), id) == (if known_of(m, id) is Some {
            Some(info)
        } else {
            None
        }),
        other != id ==> known_of(begun(m, id, info), other) == known_of(m, other) && known_of(
            updated(m, id, info),
            other,
        ) == known_of(m, other),
        begun(m, id, info).known is Some <==> m.known is Some,
        updated(m, id, info).known is Some <==> m.known is Some,
        ended(m, id).known is Some <==> m.known is Some,
        m.known matches Some(k) ==> (k.dom().contains(id) ==> known_of(m, id) == Some(k[id])) && (
        !k.dom().contains(id) ==> known_of(m, id) is None),
        m.known is None ==> known_of(m, id) is None,
{
}

} // verus!
