//! Metadata edits in bulk: a list of set/remove/clear operations, a conditional set,
//! and moving keys under an archive prefix.

use vstd::prelude::*;
use crate::clock::now_millis;
use crate::item::SemanticItem;
use crate::json::{JsonData, JsonValue};
use crate::meta::{meta_get, meta_insert, meta_remove, meta_view, Metadata};
use crate::text::{join2, owned, str_eq};

verus! {

/// One metadata operation by its content: its name, its key and its value.
pub type OpData = (Seq<char>, Seq<char>, Option<JsonData>);

/// The operations by their content.
pub open spec fn ops_view(ops: Seq<(&str, &str, Option<JsonValue>)>) -> Seq<OpData> {
    Seq::new(
        ops.len(),
        |i: int|
            (ops[i].0@, ops[i].1@, match ops[i].2 {
                Some(v) => Some(v@),
                None => None,
            }),
    )
}

/// Runs the operations from the first on: "set" with a value sets the key, "remove"
/// removes a present key, "clear" empties the map and ends the run; each of these
/// counts as applied. Anything else, a "set" without a value and a "remove" of an
/// absent key change nothing. Gives the final map and the count.
pub open spec fn run_ops(m: Map<Seq<char>, JsonData>, applied: nat, ops: Seq<OpData>) -> (Map<
    Seq<char>,
    JsonData,
>, nat)
    decreases ops.len(),
{
    if ops.len() == 0 {
        (m, applied)
    } else {
        let op = ops[0];
        let rest = ops.drop_first();
        if op.0 == "set"@ {
            match op.2 {
                Some(v) => run_ops(m.insert(op.1, v), applied + 1, rest),
                None => run_ops(m, applied, rest),
            }
        } else if op.0 == "remove"@ {
            if m.contains_key(op.1) {
                run_ops(m.remove(op.1), applied + 1, rest)
            } else {
                run_ops(m, applied, rest)
            }
        } else if op.0 == "clear"@ {
            (Map::empty(), applied + 1)
        } else {
            run_ops(m, applied, rest)
        }
    }
}

/// The prefix archived keys get.
pub open spec fn archive_prefix_of(prefix: Option<&str>) -> Seq<char> {
    match prefix {
        Some(p) => p@,
        None => "archived_"@,
    }
}

/// Moves each present key, in order, to the prefixed key; gives the final map and
/// how many keys moved.
pub open spec fn run_archive(m: Map<Seq<char>, JsonData>, moved: nat, prefix: Seq<char>, keys: Seq<Seq<char>>) -> (
    Map<Seq<char>, JsonData>,
    nat,
)
    decreases keys.len(),
{
    if keys.len() == 0 {
        (m, moved)
    } else {
        let k = keys[0];
        if m.contains_key(k) {
            run_archive(m.remove(k).insert(prefix + k, m[k]), moved + 1, prefix, keys.drop_first())
        } else {
            run_archive(m, moved, prefix, keys.drop_first())
        }
    }
}

/// Keys by their characters.
pub open spec fn keys_view(keys: Seq<&str>) -> Seq<Seq<char>> {
    keys.map_values(|k: &str| k@)
}

impl SemanticItem {
    /// Applies the operations in order (see `run_ops`) and gives how many were
    /// applied; the update time is stamped when any was.
    pub fn batch_metadata_operations(&mut self, operations: Vec<(&str, &str, Option<JsonValue>)>) -> (r: usize)
        ensures
            final(self).meta() == run_ops(old(self).meta(), 0, ops_view(operations@)).0,
            r == run_ops(old(self).meta(), 0, ops_view(operations@)).1,
            final(self).same_but_metadata(*old(self)),
            r == 0 ==> final(self).updated_at == old(self).updated_at,
    {
        let ghost ov = ops_view(operations@);
        let ghost goal = run_ops(self.meta(), 0, ov);
        let mut applied: usize = 0;
        let mut i: usize = 0;
        assert(ov.skip(0) =~= ov);
        assert(goal == run_ops(old(self).meta(), 0, ops_view(operations@)));
        while i < operations.len()
            invariant
                ov == ops_view(operations@),
                i <= operations@.len(),
                applied <= i,
                run_ops(self.meta(), applied as nat, ov.skip(i as int)) == goal,
                goal == run_ops(old(self).meta(), 0, ops_view(operations@)),
                self.same_but_metadata(*old(self)),
                self.updated_at == old(self).updated_at,
            decreases operations.len() - i,
        {
            let ghost rest = ov.skip(i as int);
            assert(rest[0] == ov[i as int]);
            assert(rest.drop_first() =~= ov.skip(i + 1));
            let op = operations[i].0;
            let key = operations[i].1;
            let ghost prev = self.meta();
            let ghost pa = applied as nat;
            if str_eq(op, "set") {
                match &operations[i].2 {
                    Some(v) => {
                        meta_insert(&mut self.metadata, owned(key), v.copy());
                        applied = applied + 1;
                    },
                    None => {
                        assert(self.meta() =~= prev);
                    },
                }
                assert(run_ops(prev, pa, rest) == run_ops(self.meta(), applied as nat, ov.skip(i + 1)));
            } else if str_eq(op, "remove") {
                if meta_remove(&mut self.metadata, key).is_some() {
                    applied = applied + 1;
                } else {
                    assert(self.meta() =~= prev);
                }
                assert(run_ops(prev, pa, rest) == run_ops(self.meta(), applied as nat, ov.skip(i + 1)));
            } else if str_eq(op, "clear") {
                let ghost prev = self.meta();
                assert(rest.len() > 0 && rest[0].0 == "clear"@ && rest[0].0 != "set"@ && rest[0].0 != "remove"@);
                assert(run_ops(prev, applied as nat, rest) == (Map::<Seq<char>, JsonData>::empty(), (applied + 1) as nat));
                self.metadata = Vec::new();
                applied = applied + 1;
                assert(self.meta() =~= Map::empty());
                self.updated_at = now_millis();
                return applied;
            } else {
                assert(run_ops(prev, pa, rest) == run_ops(self.meta(), applied as nat, ov.skip(i + 1)));
            }
            i = i + 1;
        }
        assert(ov.skip(i as int) =~= Seq::<OpData>::empty());
        if applied > 0 {
            self.updated_at = now_millis();
        }
        applied
    }

    /// Sets `key` to `new_value` when `condition`, given the key's current value,
    /// says so; then the update time is stamped.
    pub fn conditional_update_metadata<F>(&mut self, key: &str, condition: F, new_value: JsonValue) -> (r: bool) where
        F: Fn(Option<&JsonValue>) -> bool,

        requires
            forall|cur: Option<&JsonValue>| #[trigger] condition.requires((cur,)),
        ensures
            exists|cur: Option<&JsonValue>|
                {
                    &&& match cur {
                        Some(v) => old(self).meta().contains_key(key@) && old(self).meta()[key@] == v@,
                        None => !old(self).meta().contains_key(key@),
                    }
                    &&& #[trigger] condition.ensures((cur,), r)
                },
            r ==> final(self).meta() == old(self).meta().insert(key@, new_value@),
            !r ==> final(self).meta() == old(self).meta() && final(self).updated_at == old(self).updated_at,
            final(self).same_but_metadata(*old(self)),
    {
        let cur = meta_get(&self.metadata, key);
        let ok = condition(cur);
        if ok {
            meta_insert(&mut self.metadata, owned(key), new_value);
            self.updated_at = now_millis();
        }
        ok
    }

    /// Moves each listed key that is present to the key with `archive_prefix` (by
    /// default "archived_") in front; gives how many moved. The update time is
    /// stamped when any did.
    pub fn archive_metadata(&mut self, keys: &[&str], archive_prefix: Option<&str>) -> (r: usize)
        ensures
            final(self).meta() == run_archive(old(self).meta(), 0, archive_prefix_of(archive_prefix), keys_view(keys@)).0,
            r == run_archive(old(self).meta(), 0, archive_prefix_of(archive_prefix), keys_view(keys@)).1,
            final(self).same_but_metadata(*old(self)),
            r == 0 ==> final(self).updated_at == old(self).updated_at,
    {
        let prefix: &str = match archive_prefix {
            Some(p) => p,
            None => "archived_",
        };
        let ghost kv = keys_view(keys@);
        let ghost goal = run_archive(self.meta(), 0, prefix@, kv);
        let mut moved: usize = 0;
        let mut i: usize = 0;
        assert(kv.skip(0) =~= kv);
        while i < keys.len()
            invariant
                kv == keys_view(keys@),
                prefix@ == archive_prefix_of(archive_prefix),
                i <= keys@.len(),
                moved <= i,
                run_archive(self.meta(), moved as nat, prefix@, kv.skip(i as int)) == goal,
                self.same_but_metadata(*old(self)),
                self.updated_at == old(self).updated_at,
            decreases keys.len() - i,
        {
            let ghost rest = kv.skip(i as int);
            assert(rest[0] == keys@[i as int]@);
            assert(rest.drop_first() =~= kv.skip(i + 1));
            let key = keys[i];
            let ghost before = self.meta();
            let ghost moved_before = moved as nat;
            match meta_remove(&mut self.metadata, key) {
                Some(v) => {
                    assert(rest.len() > 0 && rest[0] == key@ && before.contains_key(key@));
                    let archived = join2(prefix, key);
                    meta_insert(&mut self.metadata, archived, v);
                    moved = moved + 1;
                    assert(self.meta() == before.remove(key@).insert(prefix@ + key@, before[key@]));
                    assert(run_archive(before, moved_before, prefix@, rest) == run_archive(
                        before.remove(key@).insert(prefix@ + key@, before[key@]),
                        moved_before + 1,
                        prefix@,
                        rest.drop_first(),
                    ));
                    assert(run_archive(before, moved_before, prefix@, rest) == run_archive(
                        self.meta(),
                        moved as nat,
                        prefix@,
                        kv.skip(i + 1),
                    ));
                },
                None => {
                    assert(self.meta() =~= before);
                    assert(rest.drop_first() == kv.skip(i + 1));
                    assert(run_archive(before, moved_before, prefix@, rest) == run_archive(
                        self.meta(),
                        moved as nat,
                        prefix@,
                        kv.skip(i + 1),
                    ));
                },
            }
            i = i + 1;
        }
        assert(kv.skip(i as int) =~= Seq::<Seq<char>>::empty());
        if moved > 0 {
            self.updated_at = now_millis();
        }
        moved
    }
}


/// The key and value an entry ends up with: the transformer's pair when it gave one,
/// the entry itself otherwise.
pub open spec fn transformed_pair(e: (String, JsonValue), out: Option<(String, JsonValue)>) -> (Seq<char>, JsonData) {
    match out {
        Some(p) => (p.0@, p.1@),
        None => (e.0@, e.1@),
    }
}

/// The map built by setting, in turn, the pairs of the first `n` listed entries.
pub open spec fn transformed_map(
    m: Seq<(String, JsonValue)>,
    pos: Seq<int>,
    outs: Seq<Option<(String, JsonValue)>>,
    n: int,
) -> Map<Seq<char>, JsonData>
    decreases n,
{
    if n <= 0 {
        Map::empty()
    } else {
        let p = transformed_pair(m[pos[n - 1]], outs[n - 1]);
        transformed_map(m, pos, outs, n - 1).insert(p.0, p.1)
    }
}

/// How many of the first `n` outcomes are pairs.
pub open spec fn pairs_given(outs: Seq<Option<(String, JsonValue)>>, n: int) -> nat
    decreases n,
{
    if n <= 0 {
        0
    } else {
        pairs_given(outs, n - 1) + if outs[n - 1] is Some {
            1nat
        } else {
            0nat
        }
    }
}

proof fn lemma_pairs_given_bound(outs: Seq<Option<(String, JsonValue)>>, n: int)
    ensures
        pairs_given(outs, n) <= if n <= 0 { 0 } else { n },
    decreases n,
{
    if n > 0 {
        lemma_pairs_given_bound(outs, n - 1);
    }
}

/// The prefix agrees with the whole on the first `n` outcomes.
proof fn lemma_transformed_prefix(
    m: Seq<(String, JsonValue)>,
    pos: Seq<int>,
    pos2: Seq<int>,
    outs: Seq<Option<(String, JsonValue)>>,
    outs2: Seq<Option<(String, JsonValue)>>,
    n: int,
)
    requires
        n <= pos.len(),
        n <= pos2.len(),
        n <= outs.len(),
        n <= outs2.len(),
        forall|t: int| 0 <= t < n ==> pos[t] == pos2[t] && outs[t] == outs2[t],
    ensures
        transformed_map(m, pos, outs, n) == transformed_map(m, pos2, outs2, n),
        pairs_given(outs, n) == pairs_given(outs2, n),
    decreases n,
{
    if n > 0 {
        lemma_transformed_prefix(m, pos, pos2, outs, outs2, n - 1);
    }
}

impl SemanticItem {
    /// Rebuilds the metadata entry by entry: where `transformer` gives a new key and
    /// value, they are set in place of the entry, otherwise the entry is kept (later
    /// entries win when keys meet). Gives how many entries were transformed; when none
    /// was, the metadata and update time are left alone, otherwise the update time is
    /// stamped.
    pub fn transform_metadata<F>(&mut self, transformer: F) -> (r: usize) where
        F: Fn(&str, &JsonValue) -> Option<(String, JsonValue)>,

        requires
            forall|k: &str, v: &JsonValue| #[trigger] transformer.requires((k, v)),
        ensures
            exists|keys: Seq<&str>, outs: Seq<Option<(String, JsonValue)>>|
                {
                    let pos = crate::meta_stats::live_positions(old(self).metadata@, old(self).metadata@.len() as int);
                    &&& #[trigger] keys.len() == pos.len()
                    &&& #[trigger] outs.len() == pos.len()
                    &&& forall|t: int|
                        0 <= t < pos.len() ==> (#[trigger] keys[t])@ == old(self).metadata@[pos[t]].0@
                            && transformer.ensures((keys[t], &old(self).metadata@[pos[t]].1), outs[t])
                    &&& r == pairs_given(outs, pos.len() as int)
                    &&& r > 0 ==> final(self).meta() == transformed_map(old(self).metadata@, pos, outs, pos.len() as int)
                },
            r == 0 ==> final(self).metadata@ == old(self).metadata@ && final(self).updated_at == old(self).updated_at,
            final(self).same_but_metadata(*old(self)),
    {
        let m = &self.metadata;
        let ghost mv = m@;
        let mut rebuilt: Metadata = Vec::new();
        let mut count: usize = 0;
        let ghost mut keys: Seq<&str> = Seq::empty();
        let ghost mut outs: Seq<Option<(String, JsonValue)>> = Seq::empty();
        let mut i: usize = 0;
        while i < m.len()
            invariant
                i <= m@.len(),
                m@ == mv,
                forall|k: &str, v: &JsonValue| #[trigger] transformer.requires((k, v)),
                keys.len() == crate::meta_stats::live_positions(mv, i as int).len(),
                outs.len() == keys.len(),
                keys.len() <= i,
                forall|t: int| 0 <= t < keys.len() ==> 0 <= #[trigger] crate::meta_stats::live_positions(mv, i as int)[t] < i,
                forall|t: int|
                    0 <= t < keys.len() ==> (#[trigger] keys[t])@ == mv[crate::meta_stats::live_positions(mv, i as int)[t]].0@
                        && transformer.ensures(
                        (keys[t], &mv[crate::meta_stats::live_positions(mv, i as int)[t]].1),
                        outs[t],
                    ),
                count == pairs_given(outs, outs.len() as int),
                count <= outs.len(),
                meta_view(rebuilt@) == transformed_map(mv, crate::meta_stats::live_positions(mv, i as int), outs, outs.len() as int),
            decreases m.len() - i,
        {
            let ghost lp = crate::meta_stats::live_positions(mv, i as int);
            let ghost lp2 = crate::meta_stats::live_positions(mv, i + 1);
            if crate::meta_quality::entry_is_live(m, i) {
                assert(lp2 == lp + seq![i as int]);
                let key = m[i].0.as_str();
                let out = transformer(key, &m[i].1);
                let ghost outs_before = outs;
                proof {
                    keys = keys.push(key);
                    outs = outs.push(out);
                    lemma_transformed_prefix(mv, lp, lp2, outs_before, outs, outs_before.len() as int);
                    lemma_pairs_given_bound(outs_before, outs_before.len() as int);
                }
                match out {
                    Some((k2, v2)) => {
                        meta_insert(&mut rebuilt, k2, v2);
                        count = count + 1;
                    },
                    None => {
                        meta_insert(&mut rebuilt, m[i].0.clone(), m[i].1.copy());
                    },
                }
                assert forall|t: int| 0 <= t < keys.len() implies (#[trigger] keys[t])@ == mv[lp2[t]].0@ && transformer.ensures(
                    (keys[t], &mv[lp2[t]].1),
                    outs[t],
                ) by {
                    if t < keys.len() - 1 {
                        assert(lp2[t] == lp[t]);
                    }
                }
            } else {
                assert(lp2 =~= lp);
            }
            i = i + 1;
        }
        if count > 0 {
            self.metadata = rebuilt;
            self.updated_at = now_millis();
        }
        count
    }
}

} // verus!
