//! The registry of the actors that run on an actor system, and the events
//! that a system publishes.

use vstd::prelude::*;

use crate::actor::path::{
    descends_from, lemma_below_means_extension, lemma_child_descends, lemma_descendant_sorts_after,
    lemma_differing_not_below, lemma_descends_irreflexive, lemma_path_before_irreflexive,
    lemma_path_before_total,
    lemma_path_before_transitive, lemma_split_after_separator, nonempty_pieces, path_before,
    split_pieces, ActorPath,
};
use crate::actor::ActorError;

verus! {

/// Events that an actor system publishes on its bus.
pub trait SystemEvent: Clone + Send + Sync + 'static {
}

/// The paths that stopping the actor at `p` takes away: `p` and every path
/// below it.
pub open spec fn subtree(p: Seq<Seq<char>>) -> Set<Seq<Seq<char>>> {
    Set::new(|k: Seq<Seq<char>>| k == p || descends_from(k, p))
}

/// The path of the top-level actor called `name`: `/user/<name>`.
pub fn top_level_path(name: &str) -> (path: ActorPath)
    ensures
        path@ == seq!["user"@, name@],
{
    let root = ActorPath::from("/user");
    proof {
        reveal_strlit("/user");
        reveal_strlit("user");
        let e = Seq::<char>::empty();
        let user = "user"@;
        assert("/user"@ =~= e + seq!['/'] + user);
        assert(!user.contains('/')) by {
            if user.contains('/') {
                let k = choose|k: int| 0 <= k < user.len() && user[k] == '/';
                assert(user[k] != '/');
            }
        }
        lemma_split_after_separator(e, user);
        assert(split_pieces(e) == seq![e]);
        let pieces = seq![e].push(user);
        assert(pieces.drop_last() =~= seq![e]);
        assert(seq![e].drop_last() =~= Seq::<Seq<char>>::empty());
        assert(seq![e].last().len() == 0);
        assert(nonempty_pieces(Seq::<Seq<char>>::empty()) == Seq::<Seq<char>>::empty());
        assert(nonempty_pieces(seq![e]) =~= Seq::<Seq<char>>::empty());
        assert(nonempty_pieces(pieces) =~= seq![user]);
    }
    let path = root.join(name);
    assert(path@ =~= seq!["user"@, name@]);
    path
}

/// What `register` stores at a free path, `get` finds there, and every other
/// path keeps what it had.
pub proof fn lemma_register_then_get<R>(m: Map<Seq<Seq<char>>, R>, path: Seq<Seq<char>>, entry: R, other: Seq<Seq<char>>)
    requires
        !m.dom().contains(path),
    ensures
        m.insert(path, entry).dom().contains(path),
        m.insert(path, entry)[path] == entry,
        other != path ==> (m.insert(path, entry).dom().contains(other) == m.dom().contains(other)),
        other != path && m.dom().contains(other) ==> m.insert(path, entry)[other] == m[other],
{
}

/// After `stop(p)`, a path is registered exactly when it was before and it
/// is neither `p` nor below `p`; what stays registered keeps its entry.
pub proof fn lemma_stop_keeps_only_others<R>(m: Map<Seq<Seq<char>>, R>, p: Seq<Seq<char>>, k: Seq<Seq<char>>)
    ensures
        m.remove_keys(subtree(p)).dom().contains(k) == (m.dom().contains(k) && k != p && !descends_from(k, p)),
        m.remove_keys(subtree(p)).dom().contains(k) ==> m.remove_keys(subtree(p))[k] == m[k],
{
}

/// Stopping an actor stops its children.
pub proof fn lemma_stop_stops_children<R>(m: Map<Seq<Seq<char>>, R>, p: Seq<Seq<char>>, name: Seq<char>)
    ensures
        !m.remove_keys(subtree(p)).dom().contains(p.push(name)),
{
    lemma_child_descends(p, name);
}

/// Stopping the same actor twice is the same as stopping it once.
pub proof fn lemma_stop_twice<R>(m: Map<Seq<Seq<char>>, R>, p: Seq<Seq<char>>)
    ensures
        m.remove_keys(subtree(p)).remove_keys(subtree(p)) =~= m.remove_keys(subtree(p)),
{
}

/// Once the actor at `p` is stopped, a new actor can be registered at `p`.
pub proof fn lemma_path_free_after_stop<R>(m: Map<Seq<Seq<char>>, R>, p: Seq<Seq<char>>)
    ensures
        !m.remove_keys(subtree(p)).dom().contains(p),
{
}

/// Stopping `p` leaves registered, with its entry, every path that is
/// neither `p` nor starts with `p`'s names: one that differs from `p` in one
/// of `p`'s names, or one no longer than `p` and other than it.
pub proof fn lemma_stop_keeps_unrelated<R>(m: Map<Seq<Seq<char>>, R>, p: Seq<Seq<char>>, k: Seq<Seq<char>>, i: int)
    requires
        m.dom().contains(k),
        (0 <= i < p.len() && i < k.len() && k[i] != p[i]) || (k.len() <= p.len() && k != p),
    ensures
        m.remove_keys(subtree(p)).dom().contains(k),
        m.remove_keys(subtree(p))[k] == m[k],
{
    lemma_differing_not_below(k, p, i);
    if k == p {
        assert(k[i] == p[i]);
    }
}

/// Stopping `p` takes off every registered path that is `p` followed by
/// further names.
pub proof fn lemma_stop_takes_extensions<R>(m: Map<Seq<Seq<char>>, R>, p: Seq<Seq<char>>, r: Seq<Seq<char>>)
    requires
        r.len() > 0,
    ensures
        !m.remove_keys(subtree(p)).dom().contains(p + r),
{
    lemma_below_means_extension(p, r);
}

/// In a stop order, each path comes before every ancestor of it in the
/// order: descendants are stopped first.
pub proof fn lemma_descendants_stopped_first(order: Seq<Seq<Seq<char>>>, i: int, j: int)
    requires
        descending(order),
        0 <= i < order.len(),
        0 <= j < order.len(),
        descends_from(order[i], order[j]),
    ensures
        i < j,
{
    lemma_descendant_sorts_after(order[i], order[j]);
    if j < i {
        assert(path_before(order[i], order[j]));
    }
    if i == j {
        lemma_descends_irreflexive(order[i]);
    }
}

/// The views of the paths in `paths`, in order.
pub open spec fn path_views(paths: Seq<ActorPath>) -> Seq<Seq<Seq<char>>> {
    paths.map_values(|p: ActorPath| p@)
}

/// The views of the paths of `entries`, in order.
pub open spec fn entry_paths<R>(entries: Seq<(ActorPath, R)>) -> Seq<Seq<Seq<char>>> {
    entries.map_values(|e: (ActorPath, R)| e.0@)
}

/// Each path of `order` comes after every path that follows it, so that
/// descendants come before their ancestors.
pub open spec fn descending(order: Seq<Seq<Seq<char>>>) -> bool {
    forall|i: int, j: int| 0 <= i < j < order.len() ==> path_before(#[trigger] order[j], #[trigger] order[i])
}

/// Puts `path` into `order`, which is in descending order and does not hold
/// it yet, where it keeps the order descending.
fn insert_descending(order: &mut Vec<ActorPath>, path: ActorPath)
    requires
        descending(path_views(old(order)@)),
        !path_views(old(order)@).contains(path@),
    ensures
        descending(path_views(final(order)@)),
        path_views(final(order)@).to_set() == path_views(old(order)@).to_set().insert(path@),
{
    let ghost before = path_views(order@);
    let n = order.len();
    let mut pos: usize = 0;
    while pos < n
        invariant
            n == order.len(),
            pos <= n,
            before == path_views(order@),
            !before.contains(path@),
            forall|j: int| 0 <= j < pos ==> path_before(path@, #[trigger] before[j]),
        ensures
            pos <= n,
            before == path_views(order@),
            forall|j: int| 0 <= j < pos ==> path_before(path@, #[trigger] before[j]),
            pos < n ==> path_before(before[pos as int], path@),
        decreases n - pos,
    {
        if order[pos].sorts_before(&path) {
            assert(before[pos as int] == order@[pos as int]@);
            break;
        }
        proof {
            assert(before[pos as int] == order@[pos as int]@);
            assert(before[pos as int] != path@);
            lemma_path_before_total(before[pos as int], path@);
        }
        pos = pos + 1;
    }
    let ghost key = path@;
    order.insert(pos, path);
    proof {
        let after = path_views(order@);
        assert(after =~= before.insert(pos as int, key));
        assert forall|i: int, j: int| 0 <= i < j < after.len() implies path_before(
            #[trigger] after[j],
            #[trigger] after[i],
        ) by {
            let p = pos as int;
            if i < p && j < p {
            } else if i < p && j == p {
            } else if i < p {
                assert(after[j] == before[j - 1]);
            } else if i == p {
                assert(after[j] == before[j - 1]);
                if j - 1 > p {
                    assert(path_before(before[j - 1], before[p]));
                    lemma_path_before_transitive(before[j - 1], before[p], key);
                }
            } else {
                assert(after[j] == before[j - 1]);
                assert(after[i] == before[i - 1]);
            }
        }
        assert(after.to_set() =~= before.to_set().insert(key)) by {
            assert forall|k| after.to_set().contains(k) implies before.to_set().insert(key).contains(k) by {
                let i = choose|i: int| 0 <= i < after.len() && after[i] == k;
                if i < pos {
                    assert(before[i] == k);
                } else if i > pos {
                    assert(before[i - 1] == k);
                }
            }
            assert forall|k| before.to_set().insert(key).contains(k) implies after.to_set().contains(k) by {
                if k == key {
                    assert(after[pos as int] == k);
                } else {
                    let i = choose|i: int| 0 <= i < before.len() && before[i] == k;
                    if i < pos {
                        assert(after[i] == k);
                    } else {
                        assert(after[i + 1] == k);
                    }
                }
            }
        }
    }
}

/// The actors registered on a system, each under its own path. Its view maps
/// each registered path to what is registered there.
pub struct ActorRegistry<R> {
    entries: Vec<(ActorPath, R)>,
}

impl<R> View for ActorRegistry<R> {
    type V = Map<Seq<Seq<char>>, R>;

    closed spec fn view(&self) -> Map<Seq<Seq<char>>, R> {
        Map::new(
            |k: Seq<Seq<char>>| self.has_slot(k),
            |k: Seq<Seq<char>>| self.entries@[self.slot_of(k)].1,
        )
    }
}

impl<R> ActorRegistry<R> {
    /// No path is registered twice.
    #[verifier::type_invariant]
    closed spec fn distinct_paths(self) -> bool {
        forall|i: int, j: int|
            #![trigger self.entries@[i], self.entries@[j]]
            0 <= i < self.entries.len() && 0 <= j < self.entries.len() && i != j
                ==> self.entries@[i].0@ != self.entries@[j].0@
    }

    closed spec fn has_slot(self, k: Seq<Seq<char>>) -> bool {
        exists|i: int| 0 <= i < self.entries.len() && #[trigger] self.entries@[i].0@ == k
    }

    closed spec fn slot_of(self, k: Seq<Seq<char>>) -> int {
        choose|i: int| 0 <= i < self.entries.len() && #[trigger] self.entries@[i].0@ == k
    }

    proof fn lemma_slot(self, i: int)
        requires
            self.distinct_paths(),
            0 <= i < self.entries.len(),
        ensures
            self@.dom().contains(self.entries@[i].0@),
            self@[self.entries@[i].0@] == self.entries@[i].1,
            self.slot_of(self.entries@[i].0@) == i,
    {
        let k = self.entries@[i].0@;
        assert(self.has_slot(k));
        let j = self.slot_of(k);
        assert(self.entries@[j].0@ == k);
    }

    proof fn lemma_view_after_push(old: Self, new: Self, path: Seq<Seq<char>>, entry: R)
        requires
            old.distinct_paths(),
            !old@.dom().contains(path),
            new.entries@.len() == old.entries@.len() + 1,
            forall|i: int| 0 <= i < old.entries.len() ==> new.entries@[i] == old.entries@[i],
            new.entries@[old.entries.len() as int].0@ == path,
            new.entries@[old.entries.len() as int].1 == entry,
        ensures
            new.distinct_paths(),
            new@ =~= old@.insert(path, entry),
    {
        let n = old.entries.len() as int;
        assert forall|i: int, j: int|
            0 <= i < new.entries.len() && 0 <= j < new.entries.len() && i != j
                implies #[trigger] new.entries@[i].0@ != #[trigger] new.entries@[j].0@ by {
            if i < n && j < n {
                assert(old.entries@[i] == new.entries@[i]);
                assert(old.entries@[j] == new.entries@[j]);
            } else if i < n {
                assert(old.entries@[i] == new.entries@[i]);
                assert(old.has_slot(old.entries@[i].0@));
            } else {
                assert(old.entries@[j] == new.entries@[j]);
                assert(old.has_slot(old.entries@[j].0@));
            }
        }
        assert forall|k: Seq<Seq<char>>| #[trigger] new.has_slot(k) == (old.has_slot(k) || k == path) by {
            if new.has_slot(k) {
                let i = new.slot_of(k);
                if i < n {
                    assert(old.entries@[i] == new.entries@[i]);
                }
            }
            if old.has_slot(k) {
                let i = old.slot_of(k);
                assert(old.entries@[i] == new.entries@[i]);
            }
            if k == path {
                assert(new.entries@[n].0@ == k);
            }
        }
        assert forall|k: Seq<Seq<char>>| #[trigger] new@.dom().contains(k) implies new@[k] == old@.insert(path, entry)[k] by {
            let i = new.slot_of(k);
            new.lemma_slot(i);
            if i < n {
                assert(old.entries@[i] == new.entries@[i]);
                old.lemma_slot(i);
            }
        }
    }

    proof fn lemma_view_after_remove(old: Self, new: Self, i: int)
        requires
            old.distinct_paths(),
            0 <= i < old.entries.len(),
            new.entries@ == old.entries@.remove(i),
        ensures
            new.distinct_paths(),
            new@ =~= old@.remove(old.entries@[i].0@),
    {
        let path = old.entries@[i].0@;
        let m = new.entries.len() as int;
        assert forall|a: int, b: int|
            0 <= a < new.entries.len() && 0 <= b < new.entries.len() && a != b
                implies #[trigger] new.entries@[a].0@ != #[trigger] new.entries@[b].0@ by {
            let oa = if a < i { a } else { a + 1 };
            let ob = if b < i { b } else { b + 1 };
            assert(new.entries@[a] == old.entries@[oa]);
            assert(new.entries@[b] == old.entries@[ob]);
        }
        assert forall|k: Seq<Seq<char>>| #[trigger] new.has_slot(k) == (old.has_slot(k) && k != path) by {
            if new.has_slot(k) {
                let a = new.slot_of(k);
                let oa = if a < i { a } else { a + 1 };
                assert(new.entries@[a] == old.entries@[oa]);
                assert(old.entries@[oa].0@ == k);
            }
            if old.has_slot(k) && k != path {
                let b = old.slot_of(k);
                assert(b != i);
                let nb = if b < i { b } else { b - 1 };
                assert(new.entries@[nb] == old.entries@[b]);
            }
        }
        assert forall|k: Seq<Seq<char>>| #[trigger] new@.dom().contains(k) implies new@[k] == old@.remove(path)[k] by {
            let a = new.slot_of(k);
            new.lemma_slot(a);
            let oa = if a < i { a } else { a + 1 };
            assert(new.entries@[a] == old.entries@[oa]);
            old.lemma_slot(oa);
        }
    }

    closed spec fn key_views(self) -> Seq<Seq<Seq<char>>> {
        self.entries@.map_values(|e: (ActorPath, R)| e.0@)
    }

    proof fn lemma_keys(self)
        requires
            self.distinct_paths(),
        ensures
            self.key_views().no_duplicates(),
            self.key_views().to_set() =~= self@.dom(),
            self.key_views().len() == self@.len(),
    {
        let keys = self.key_views();
        assert forall|k: Seq<Seq<char>>| #[trigger] self@.dom().contains(k) implies keys.to_set().contains(k) by {
            let j = self.slot_of(k);
            assert(keys[j] == k);
        }
        assert forall|k: Seq<Seq<char>>| #[trigger] keys.to_set().contains(k) implies self@.dom().contains(k) by {
            let j = choose|j: int| 0 <= j < keys.len() && keys[j] == k;
            self.lemma_slot(j);
        }
        assert forall|i: int, j: int| 0 <= i < keys.len() && 0 <= j < keys.len() && i != j implies keys[i]
            != keys[j] by {
            assert(keys[i] == self.entries@[i].0@);
            assert(keys[j] == self.entries@[j].0@);
        }
        keys.unique_seq_to_set();
    }

    /// The number of registered actors.
    pub fn len(&self) -> (count: usize)
        ensures
            count == self@.len(),
    {
        proof {
            use_type_invariant(self);
            self.lemma_keys();
        }
        self.entries.len()
    }

    /// Whether no actor is registered.
    pub fn is_empty(&self) -> (empty: bool)
        ensures
            empty == (self@.dom() == Set::<Seq<Seq<char>>>::empty()),
    {
        proof {
            use_type_invariant(self);
            self.lemma_keys();
            if self.entries.len() > 0 {
                assert(self.key_views().to_set().contains(self.key_views()[0]));
            } else {
                assert(self.key_views() =~= Seq::<Seq<Seq<char>>>::empty());
                assert(self@.dom() =~= Set::<Seq<Seq<char>>>::empty());
            }
        }
        self.entries.len() == 0
    }

    /// The registered paths, each once.
    pub fn paths(&self) -> (paths: Vec<ActorPath>)
        ensures
            path_views(paths@).no_duplicates(),
            path_views(paths@).to_set() == self@.dom(),
    {
        proof {
            use_type_invariant(self);
            self.lemma_keys();
        }
        let n = self.entries.len();
        let mut paths: Vec<ActorPath> = Vec::new();
        let mut i: usize = 0;
        while i < n
            invariant
                n == self.entries.len(),
                i <= n,
                path_views(paths@) =~= self.key_views().subrange(0, i as int),
            decreases n - i,
        {
            let ghost before = path_views(paths@);
            let copy = self.entries[i].0.clone();
            paths.push(copy);
            proof {
                assert(path_views(paths@) =~= before.push(self.entries@[i as int].0@));
                assert(self.key_views().subrange(0, i as int + 1) =~= self.key_views().subrange(
                    0,
                    i as int,
                ).push(self.key_views()[i as int]));
            }
            i = i + 1;
        }
        proof {
            assert(self.key_views().subrange(0, n as int) =~= self.key_views());
        }
        paths
    }

    /// An empty registry.
    pub fn new() -> (registry: Self)
        ensures
            registry@ == Map::<Seq<Seq<char>>, R>::empty(),
    {
        let registry = ActorRegistry { entries: Vec::new() };
        assert(registry@ =~= Map::<Seq<Seq<char>>, R>::empty());
        registry
    }

    /// Where `path` is registered, if it is.
    fn find(&self, path: &ActorPath) -> (slot: Option<usize>)
        ensures
            match slot {
                Some(i) => i < self.entries.len() && self.entries@[i as int].0@ == path@,
                None => !self@.dom().contains(path@),
            },
    {
        let n = self.entries.len();
        let mut i: usize = 0;
        while i < n
            invariant
                n == self.entries.len(),
                i <= n,
                forall|j: int| 0 <= j < i ==> #[trigger] self.entries@[j].0@ != path@,
            decreases n - i,
        {
            if self.entries[i].0.same_as(path) {
                return Some(i);
            }
            i = i + 1;
        }
        None
    }

    /// Whether an actor is registered at `path`.
    pub fn contains(&self, path: &ActorPath) -> (found: bool)
        ensures
            found == self@.dom().contains(path@),
    {
        proof {
            use_type_invariant(self);
        }
        match self.find(path) {
            Some(i) => {
                proof {
                    self.lemma_slot(i as int);
                }
                true
            },
            None => false,
        }
    }

    /// What is registered at `path`, if anything is.
    pub fn get(&self, path: &ActorPath) -> (entry: Option<&R>)
        ensures
            entry is Some == self@.dom().contains(path@),
            entry is Some ==> *entry->0 == self@[path@],
    {
        proof {
            use_type_invariant(self);
        }
        match self.find(path) {
            Some(i) => {
                proof {
                    self.lemma_slot(i as int);
                }
                Some(&self.entries[i].1)
            },
            None => None,
        }
    }
}

impl<R> ActorRegistry<R> {
    /// Registers `entry` at `path`, unless an actor is registered there
    /// already: then the registry is left as it was and the answer is
    /// `ActorError::Exists` with the path.
    pub fn register(&mut self, path: ActorPath, entry: R) -> (outcome: Result<(), ActorError>)
        ensures
            old(self)@.dom().contains(path@) ==> {
                &&& outcome matches Err(ActorError::Exists(p)) && p@ == path@
                &&& final(self)@ == old(self)@
            },
            !old(self)@.dom().contains(path@) ==> {
                &&& outcome is Ok
                &&& final(self)@ == old(self)@.insert(path@, entry)
            },
    {
        proof {
            use_type_invariant(&*self);
        }
        match self.find(&path) {
            Some(i) => {
                proof {
                    self.lemma_slot(i as int);
                }
                Err(ActorError::Exists(path))
            },
            None => {
                let ghost before = *self;
                let ghost key = path@;
                let mut entries = Vec::new();
                std::mem::swap(&mut entries, &mut self.entries);
                entries.push((path, entry));
                let ghost after = ActorRegistry { entries };
                proof {
                    ActorRegistry::lemma_view_after_push(before, after, key, entry);
                }
                self.entries = entries;
                Ok(())
            },
        }
    }

    /// The registered paths among the first `i` entries that lie below `p`.
    closed spec fn seen_below(self, p: Seq<Seq<char>>, i: int) -> Set<Seq<Seq<char>>> {
        Set::new(
            |k: Seq<Seq<char>>|
                exists|j: int| 0 <= j < i && #[trigger] self.entries@[j].0@ == k && descends_from(k, p),
        )
    }

    proof fn lemma_seen_below_step(self, p: Seq<Seq<char>>, i: int)
        requires
            0 <= i < self.entries.len(),
        ensures
            self.seen_below(p, i + 1) =~= (if descends_from(self.entries@[i].0@, p) {
                self.seen_below(p, i).insert(self.entries@[i].0@)
            } else {
                self.seen_below(p, i)
            }),
    {
        let key = self.entries@[i].0@;
        assert forall|k: Seq<Seq<char>>| #[trigger] self.seen_below(p, i + 1).contains(k) implies (k == key
            && descends_from(key, p)) || self.seen_below(p, i).contains(k) by {
            let j = choose|j: int|
                0 <= j < i + 1 && #[trigger] self.entries@[j].0@ == k && descends_from(k, p);
            if j < i {
                assert(self.seen_below(p, i).contains(k));
            }
        }
        assert forall|k: Seq<Seq<char>>| #[trigger] self.seen_below(p, i).contains(k) implies self.seen_below(
            p,
            i + 1,
        ).contains(k) by {
            let j = choose|j: int| 0 <= j < i && #[trigger] self.entries@[j].0@ == k && descends_from(k, p);
            assert(0 <= j < i + 1 && self.entries@[j].0@ == k);
        }
        if descends_from(key, p) {
            assert(self.seen_below(p, i + 1).contains(key)) by {
                assert(0 <= i < i + 1 && self.entries@[i].0@ == key);
            }
        }
    }

    proof fn lemma_seen_below_all(self, p: Seq<Seq<char>>)
        requires
            self.distinct_paths(),
        ensures
            self.seen_below(p, self.entries.len() as int).insert(p) =~= self@.dom().intersect(
                subtree(p),
            ).insert(p),
    {
        let n = self.entries.len() as int;
        assert forall|k: Seq<Seq<char>>| #[trigger] self@.dom().intersect(subtree(p)).contains(k) && k != p implies self.seen_below(
            p,
            n,
        ).contains(k) by {
            let j = self.slot_of(k);
            assert(self.entries@[j].0@ == k);
        }
        assert forall|k: Seq<Seq<char>>| #[trigger] self.seen_below(p, n).contains(k) implies self@.dom().intersect(
            subtree(p),
        ).contains(k) by {
            let j = choose|j: int| 0 <= j < n && #[trigger] self.entries@[j].0@ == k && descends_from(k, p);
            self.lemma_slot(j);
        }
    }

    /// The paths that stopping the actor at `path` takes away: `path` itself
    /// and every registered path below it, each once, descendants before
    /// their ancestors (in descending order of paths).
    pub fn stop_order(&self, path: &ActorPath) -> (order: Vec<ActorPath>)
        ensures
            descending(path_views(order@)),
            path_views(order@).to_set() == self@.dom().intersect(subtree(path@)).insert(path@),
    {
        proof {
            use_type_invariant(self);
        }
        let mut order: Vec<ActorPath> = Vec::new();
        let first = path.clone();
        proof {
            assert(path_views(order@) =~= Seq::<Seq<Seq<char>>>::empty());
        }
        insert_descending(&mut order, first);
        proof {
            assert(self.seen_below(path@, 0) =~= Set::<Seq<Seq<char>>>::empty());
        }
        let n = self.entries.len();
        let mut i: usize = 0;
        while i < n
            invariant
                n == self.entries.len(),
                i <= n,
                self.distinct_paths(),
                descending(path_views(order@)),
                path_views(order@).to_set() == self.seen_below(path@, i as int).insert(path@),
            decreases n - i,
        {
            proof {
                self.lemma_seen_below_step(path@, i as int);
            }
            if self.entries[i].0.is_descendant_of(path) {
                let ghost key = self.entries@[i as int].0@;
                proof {
                    if path_views(order@).contains(key) {
                        assert(path_views(order@).to_set().contains(key));
                        if key != path@ {
                            let j = choose|j: int|
                                0 <= j < i && #[trigger] self.entries@[j].0@ == key && descends_from(
                                    key,
                                    path@,
                                );
                            assert(self.entries@[j].0@ == self.entries@[i as int].0@);
                        } else {
                            lemma_descends_irreflexive(key);
                        }
                    }
                }
                let next = self.entries[i].0.clone();
                insert_descending(&mut order, next);
                proof {
                    assert(path_views(order@).to_set() =~= self.seen_below(path@, i as int + 1).insert(path@));
                }
            }
            i = i + 1;
        }
        proof {
            self.lemma_seen_below_all(path@);
        }
        order
    }

    /// Takes the actor at `path` and every actor below it off the registry,
    /// descendants before their ancestors, and hands back each path taken
    /// off with its entry, in that order, so that each of those actors can be
    /// told to stop. Every other actor stays registered as it was.
    pub fn stop(&mut self, path: &ActorPath) -> (stopped: Vec<(ActorPath, R)>)
        ensures
            final(self)@ == old(self)@.remove_keys(subtree(path@)),
            descending(entry_paths(stopped@)),
            entry_paths(stopped@).to_set() == old(self)@.dom().intersect(subtree(path@)),
            forall|i: int|
                0 <= i < stopped@.len() ==> (#[trigger] stopped@[i]).1 == old(self)@[stopped@[i].0@],
    {
        let order = self.stop_order(path);
        let ghost start = self@;
        let ghost targets = path_views(order@);
        let n = order.len();
        let mut stopped: Vec<(ActorPath, R)> = Vec::new();
        let mut i: usize = 0;
        proof {
            assert(targets.subrange(0, 0).to_set() =~= Set::<Seq<Seq<char>>>::empty());
            assert(start.remove_keys(Set::<Seq<Seq<char>>>::empty()) =~= start);
            assert(entry_paths(stopped@) =~= Seq::<Seq<Seq<char>>>::empty());
        }
        while i < n
            invariant
                n == order.len(),
                i <= n,
                targets == path_views(order@),
                descending(targets),
                self@ == start.remove_keys(targets.subrange(0, i as int).to_set()),
                descending(entry_paths(stopped@)),
                entry_paths(stopped@).to_set() == targets.subrange(0, i as int).to_set().intersect(
                    start.dom(),
                ),
                forall|m: int|
                    0 <= m < stopped@.len() ==> (#[trigger] stopped@[m]).1 == start[stopped@[m].0@],
            decreases n - i,
        {
            let ghost key = order@[i as int]@;
            let ghost done = targets.subrange(0, i as int);
            proof {
                assert(targets[i as int] == key);
                assert(!done.to_set().contains(key)) by {
                    if done.to_set().contains(key) {
                        let j = choose|j: int| 0 <= j < done.len() && done[j] == key;
                        assert(targets[j] == key);
                        assert(path_before(targets[i as int], targets[j]));
                        lemma_path_before_irreflexive(key);
                    }
                }
            }
            let removed = self.remove(&order[i]);
            let ghost before_push = entry_paths(stopped@);
            match removed {
                Some(entry) => {
                    let copy = order[i].clone();
                    stopped.push((copy, entry));
                    proof {
                        assert(entry_paths(stopped@) =~= before_push.push(key));
                        assert forall|a: int, b: int|
                            0 <= a < b < entry_paths(stopped@).len() implies path_before(
                            #[trigger] entry_paths(stopped@)[b],
                            #[trigger] entry_paths(stopped@)[a],
                        ) by {
                            if b == before_push.len() {
                                let k = before_push[a];
                                assert(before_push.to_set().contains(k));
                                let j = choose|j: int| 0 <= j < done.len() && done[j] == k;
                                assert(targets[j] == k);
                            } else {
                                assert(entry_paths(stopped@)[a] == before_push[a]);
                                assert(entry_paths(stopped@)[b] == before_push[b]);
                            }
                        }
                        before_push.lemma_push_to_set_commute(key);
                    }
                },
                None => {},
            }
            proof {
                assert(targets.subrange(0, i as int + 1) =~= done.push(key));
                done.lemma_push_to_set_commute(key);
                assert(self@ =~= start.remove_keys(targets.subrange(0, i as int + 1).to_set()));
                assert(entry_paths(stopped@).to_set() =~= targets.subrange(0, i as int + 1).to_set().intersect(
                    start.dom(),
                ));
            }
            i = i + 1;
        }
        proof {
            assert(targets.subrange(0, n as int) =~= targets);
            assert(subtree(path@).contains(path@));
            assert(self@ =~= start.remove_keys(subtree(path@)));
            assert(entry_paths(stopped@).to_set() =~= start.dom().intersect(subtree(path@)));
        }
        stopped
    }

    /// Takes the actor registered at `path` out of the registry, and hands
    /// back what was registered there.
    pub fn remove(&mut self, path: &ActorPath) -> (removed: Option<R>)
        ensures
            final(self)@ == old(self)@.remove(path@),
            removed is Some == old(self)@.dom().contains(path@),
            removed is Some ==> removed->0 == old(self)@[path@],
    {
        proof {
            use_type_invariant(&*self);
        }
        match self.find(path) {
            Some(i) => {
                let ghost before = *self;
                proof {
                    self.lemma_slot(i as int);
                }
                let mut entries = Vec::new();
                std::mem::swap(&mut entries, &mut self.entries);
                let (_, entry) = entries.remove(i);
                let ghost after = ActorRegistry { entries };
                proof {
                    ActorRegistry::lemma_view_after_remove(before, after, i as int);
                }
                self.entries = entries;
                Some(entry)
            },
            None => {
                assert(old(self)@.remove(path@) =~= old(self)@);
                None
            },
        }
    }
}

} // verus!
