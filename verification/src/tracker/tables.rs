//! The concurrent tables of the `dashmap` crate in which the tracker keeps its jobs and the
//! nodes of each job.
//!
//! The crate lets a table change through a shared reference. Here every change takes a
//! mutable one, so that what a shared reference shows stays as it is.

use dashmap::mapref::one::Ref;
use dashmap::DashMap;
use vstd::prelude::*;

use crate::manifest::texts;
use crate::tracker::job::{Job, JobView};
use crate::tracker::node::{NodeState, NodeView};

verus! {

/// `dashmap::DashMap`.
#[verifier::external_type_specification]
#[verifier::external_body]
#[verifier::reject_recursive_types(K)]
#[verifier::reject_recursive_types(V)]
#[verifier::reject_recursive_types(S)]
pub struct ExDashMap<K, V, S>(DashMap<K, V, S>);

/// `dashmap::mapref::one::Ref`, the guard under which a value of a table is read.
#[verifier::external_type_specification]
#[verifier::external_body]
#[verifier::reject_recursive_types(K)]
#[verifier::reject_recursive_types(V)]
#[verifier::reject_recursive_types(S)]
pub struct ExRef<'a, K, V, S>(Ref<'a, K, V, S>);

/// The nodes in a table, by key.
pub uninterp spec fn node_table(m: DashMap<String, NodeState>) -> Map<Seq<char>, NodeView>;

/// The jobs in a table, by key.
pub uninterp spec fn job_table(m: DashMap<String, Job>) -> Map<Seq<char>, JobView>;

/// The node under a guard.
pub uninterp spec fn guarded_node(r: Ref<'_, String, NodeState>) -> NodeView;

/// The job under a guard.
pub uninterp spec fn guarded_job(r: Ref<'_, String, Job>) -> JobView;

/// `ids` lists a set of keys, each once.
pub open spec fn lists_keys(ids: Seq<Seq<char>>, keys: Set<Seq<char>>) -> bool {
    &&& ids.no_duplicates()
    &&& ids.to_set() == keys
}

/// Calls `DashMap::new`. Trusted: the table is empty.
#[verifier::external_body]
pub(crate) fn no_nodes() -> (r: DashMap<String, NodeState>)
    ensures
        node_table(r).dom() == Set::<Seq<char>>::empty(),
{
    DashMap::new()
}

/// Calls `DashMap::insert`. Trusted: the key has the node from now on, in place of the one
/// it may have had; nothing else changes.
#[verifier::external_body]
pub(crate) fn put_node(m: &mut DashMap<String, NodeState>, key: String, node: NodeState)
    ensures
        node_table(*final(m)) == node_table(*old(m)).insert(key@, node@),
{
    m.insert(key, node);
}

/// Calls `DashMap::get`. Trusted: it finds the node of the key, if there is one.
#[verifier::external_body]
pub(crate) fn find_node<'a>(m: &'a DashMap<String, NodeState>, key: &str) -> (r: Option<
    Ref<'a, String, NodeState>,
>)
    ensures
        match r {
            Some(guard) => node_table(*m).contains_key(key@) && guarded_node(guard) == node_table(
                *m,
            )[key@],
            None => !node_table(*m).contains_key(key@),
        },
{
    m.get(key)
}

/// Calls `Ref::value`. Trusted: it is the node under the guard.
#[verifier::external_body]
pub(crate) fn guarded_node_value<'b>(r: &'b Ref<'_, String, NodeState>) -> (node: &'b NodeState)
    ensures
        node@ == guarded_node(*r),
{
    r.value()
}

/// Calls `DashMap::iter` and takes the key of each entry. Trusted: every key comes once. In
/// which order they come is left open.
#[verifier::external_body]
pub(crate) fn node_keys(m: &DashMap<String, NodeState>) -> (r: Vec<String>)
    ensures
        lists_keys(texts(r@), node_table(*m).dom()),
{
    m.iter().map(|e| e.key().clone()).collect()
}

/// Calls `DashMap::retain`, keeping the nodes that are not stale. Trusted: exactly the
/// entries for which the condition fails are removed; nothing else changes.
#[verifier::external_body]
pub(crate) fn drop_stale_nodes(m: &mut DashMap<String, NodeState>, timeout_secs: u64, now: u64)
    ensures
        node_table(*final(m)) == fresh_nodes(node_table(*old(m)), timeout_secs, now),
{
    m.retain(|_, node| !node.is_stale(timeout_secs, now))
}

/// Calls `DashMap::new`. Trusted: the table is empty.
#[verifier::external_body]
pub(crate) fn no_jobs() -> (r: DashMap<String, Job>)
    ensures
        job_table(r).dom() == Set::<Seq<char>>::empty(),
{
    DashMap::new()
}

/// Calls `DashMap::insert`. Trusted: the key has the job from now on, in place of the one it
/// may have had; nothing else changes.
#[verifier::external_body]
pub(crate) fn put_job(m: &mut DashMap<String, Job>, key: String, job: Job)
    ensures
        job_table(*final(m)) == job_table(*old(m)).insert(key@, job@),
{
    m.insert(key, job);
}

/// Calls `DashMap::get`. Trusted: it finds the job of the key, if there is one.
#[verifier::external_body]
pub(crate) fn find_job<'a>(m: &'a DashMap<String, Job>, key: &str) -> (r: Option<
    Ref<'a, String, Job>,
>)
    ensures
        match r {
            Some(guard) => job_table(*m).contains_key(key@) && guarded_job(guard) == job_table(
                *m,
            )[key@],
            None => !job_table(*m).contains_key(key@),
        },
{
    m.get(key)
}

/// Calls `Ref::value`. Trusted: it is the job under the guard.
#[verifier::external_body]
pub(crate) fn guarded_job_value<'b>(r: &'b Ref<'_, String, Job>) -> (job: &'b Job)
    ensures
        job@ == guarded_job(*r),
{
    r.value()
}

/// Calls `DashMap::remove`. Trusted: the entry of the key is taken out, if there is one;
/// nothing else changes.
#[verifier::external_body]
pub(crate) fn take_job(m: &mut DashMap<String, Job>, key: &str) -> (r: Option<(String, Job)>)
    ensures
        job_table(*final(m)) == job_table(*old(m)).remove(key@),
        match r {
            Some(entry) => job_table(*old(m)).contains_key(key@) && entry.0@ == key@ && entry.1@
                == job_table(*old(m))[key@],
            None => !job_table(*old(m)).contains_key(key@),
        },
{
    m.remove(key)
}

/// Calls `DashMap::iter` and takes the key of each entry. Trusted: every key comes once. In
/// which order they come is left open.
#[verifier::external_body]
pub(crate) fn job_keys(m: &DashMap<String, Job>) -> (r: Vec<String>)
    ensures
        lists_keys(texts(r@), job_table(*m).dom()),
{
    m.iter().map(|e| e.key().clone()).collect()
}

/// The nodes that are not stale.
pub open spec fn fresh_nodes(
    nodes: Map<Seq<char>, NodeView>,
    timeout_secs: u64,
    now: u64,
) -> Map<Seq<char>, NodeView> {
    Map::new(
        |id: Seq<char>| nodes.contains_key(id) && !nodes[id].is_stale(timeout_secs, now),
        |id: Seq<char>| nodes[id],
    )
}

/// How many of the listed keys have a property.
pub open spec fn count_if(ids: Seq<Seq<char>>, p: spec_fn(Seq<char>) -> bool) -> nat
    decreases ids.len(),
{
    if ids.len() == 0 {
        0
    } else {
        count_if(ids.drop_last(), p) + if p(ids.last()) {
            1nat
        } else {
            0nat
        }
    }
}

/// Counting over a list of the keys counts the members of the set.
pub proof fn lemma_count_if(
    ids: Seq<Seq<char>>,
    keys: Set<Seq<char>>,
    p: spec_fn(Seq<char>) -> bool,
)
    requires
        lists_keys(ids, keys),
    ensures
        keys.finite(),
        keys.len() == ids.len(),
        keys.filter(p).finite(),
        keys.filter(p).len() == count_if(ids, p),
    decreases ids.len(),
{
    ids.unique_seq_to_set();
    if ids.len() == 0 {
        assert(keys.filter(p) =~= Set::empty());
    } else {
        let last = ids.last();
        let front = ids.drop_last();
        assert forall|x: Seq<char>| #[trigger] front.to_set().contains(x) <==> keys.remove(
            last,
        ).contains(x) by {
            if front.contains(x) {
                let i = choose|i: int| 0 <= i < front.len() && front[i] == x;
                assert(ids[i] == x);
                assert(ids.to_set().contains(x));
            }
            if keys.contains(x) && x != last {
                assert(ids.contains(x));
                let i = choose|i: int| 0 <= i < ids.len() && ids[i] == x;
                assert(front[i] == x);
            }
        }
        assert(front.to_set() =~= keys.remove(last));
        lemma_count_if(front, keys.remove(last), p);
        assert(ids.to_set().contains(last)) by {
            assert(ids[ids.len() - 1] == last);
        }
        if p(last) {
            assert(keys.filter(p) =~= keys.remove(last).filter(p).insert(last));
        } else {
            assert(keys.filter(p) =~= keys.remove(last).filter(p));
        }
    }
}

} // verus!
