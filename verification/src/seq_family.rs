//! Families of biological query sequences.
//!
//! A family lists the query identifiers it comprises and records, as index
//! membership, which of those queries have had all expected input read.
//! Annotation gathers the hit descriptions of every member query and hands
//! them to the description engine; a family with no descriptions falls
//! back to a configured default label.

use vstd::prelude::*;
use vstd::string::StringExecFns;

verus! {

/// A set of biological sequences, e.g. a gene family produced by sequence
/// similarity clustering.
pub struct SeqFamily {
    /// The identifiers of the queries this family comprises.
    pub query_ids: Vec<String>,
    /// Indices into `query_ids` of the queries whose search result data has
    /// been read completely.
    pub query_ids_with_complete_data: Vec<usize>,
}

/// The position of the first identifier equal to `w` at or after `start`,
/// or -1 when there is none.
pub open spec fn find_word_from(ids: Seq<Seq<char>>, w: Seq<char>, start: int) -> int
    decreases ids.len() - start,
{
    if start < 0 || start >= ids.len() {
        -1
    } else if ids[start] == w {
        start
    } else {
        find_word_from(ids, w, start + 1)
    }
}

/// A search that skips only mismatches finds exactly the first match.
proof fn lemma_find_word_from(ids: Seq<Seq<char>>, w: Seq<char>, start: int, idx: int)
    requires
        0 <= start <= idx < ids.len(),
        forall|t: int| start <= t < idx ==> ids[t] != w,
        ids[idx] == w,
    ensures
        find_word_from(ids, w, start) == idx,
    decreases idx - start,
{
    if start < idx {
        lemma_find_word_from(ids, w, start + 1, idx);
    }
}

/// Whether `v` holds the index `x`.
fn contains_index(v: &Vec<usize>, x: usize) -> (r: bool)
    ensures
        r == v@.contains(x),
{
    let mut k: usize = 0;
    while k < v.len()
        invariant
            k <= v.len(),
            forall|t: int| 0 <= t < k ==> v@[t] != x,
        decreases v.len() - k,
    {
        if v[k] == x {
            return true;
        }
        k = k + 1;
    }
    false
}

impl SeqFamily {
    /// Every member query's index is recorded as complete.
    pub open spec fn all_complete(self) -> bool {
        forall|i: int|
            0 <= i < self.query_ids@.len() ==> #[trigger] self.query_ids_with_complete_data@.contains(
                i as usize,
            )
    }

    /// Creates an empty family.
    pub fn new() -> (r: SeqFamily)
        ensures
            r.query_ids@.len() == 0,
            r.query_ids_with_complete_data@.len() == 0,
    {
        SeqFamily { query_ids: Vec::new(), query_ids_with_complete_data: Vec::new() }
    }

    /// Returns true iff every index of `query_ids` appears in
    /// `query_ids_with_complete_data`.
    pub fn all_query_data_complete(&self) -> (r: bool)
        ensures
            r == self.all_complete(),
    {
        let mut idx: usize = 0;
        while idx < self.query_ids.len()
            invariant
                idx <= self.query_ids@.len(),
                forall|i: int|
                    0 <= i < idx ==> #[trigger] self.query_ids_with_complete_data@.contains(
                        i as usize,
                    ),
            decreases self.query_ids.len() - idx,
        {
            if !contains_index(&self.query_ids_with_complete_data, idx) {
                proof {
                    assert(!self.all_complete()) by {
                        assert(!self.query_ids_with_complete_data@.contains(
                            (idx as int) as usize,
                        ));
                    }
                }
                return false;
            }
            idx = idx + 1;
        }
        true
    }

    /// Records that the query named `query_id` has been read completely, by
    /// appending the position of its first occurrence in `query_ids`.  The
    /// identifier must belong to this family.
    pub fn mark_query_id_with_complete_data(&mut self, query_id: &String)
        requires
            old(self).query_ids.deep_view().contains(query_id@),
        ensures
            final(self).query_ids == old(self).query_ids,
            final(self).query_ids_with_complete_data@ == old(
                self,
            ).query_ids_with_complete_data@.push(
                find_word_from(old(self).query_ids.deep_view(), query_id@, 0) as usize,
            ),
    {
        let ghost ids = self.query_ids.deep_view();
        let mut idx: usize = 0;
        while idx < self.query_ids.len()
            invariant
                idx <= self.query_ids@.len(),
                ids == self.query_ids.deep_view(),
                self.query_ids_with_complete_data == old(self).query_ids_with_complete_data,
                self.query_ids == old(self).query_ids,
                ids.contains(query_id@),
                forall|t: int| 0 <= t < idx ==> ids[t] != query_id@,
            decreases self.query_ids.len() - idx,
        {
            if self.query_ids[idx] == *query_id {
                proof {
                    assert(ids[idx as int] == query_id@);
                    lemma_find_word_from(ids, query_id@, 0, idx as int);
                }
                self.query_ids_with_complete_data.push(idx);
                return ;
            }
            proof {
                assert(ids[idx as int] != query_id@);
            }
            idx = idx + 1;
        }
        proof {
            let t = choose|t: int| 0 <= t < ids.len() && ids[t] == query_id@;
            assert(false);
        }
    }
}

/// The hit descriptions of one query, keyed by the query identifier: the
/// plain-value shape in which the caller hands over its query registry.
pub struct QueryDescriptions {
    pub id: String,
    pub descriptions: Vec<String>,
}

/// The position of the first entry of `queries` whose identifier is `id`
/// at or after `start`, or -1 when there is none.
pub open spec fn find_query_from(queries: Seq<QueryDescriptions>, id: Seq<char>, start: int) -> int
    decreases queries.len() - start,
{
    if start < 0 || start >= queries.len() {
        -1
    } else if queries[start].id@ == id {
        start
    } else {
        find_query_from(queries, id, start + 1)
    }
}

/// A search that skips only mismatches finds exactly the first match.
proof fn lemma_find_query_from(queries: Seq<QueryDescriptions>, id: Seq<char>, start: int, idx: int)
    requires
        0 <= start <= idx < queries.len(),
        forall|t: int| start <= t < idx ==> queries[t].id@ != id,
        queries[idx].id@ == id,
    ensures
        find_query_from(queries, id, start) == idx,
    decreases idx - start,
{
    if start < idx {
        lemma_find_query_from(queries, id, start + 1, idx);
    }
}

/// The descriptions of the first entry of `queries` named `id`, or the
/// empty sequence when no entry is.
pub open spec fn descriptions_for(queries: Seq<QueryDescriptions>, id: Seq<char>) -> Seq<Seq<char>> {
    let k = find_query_from(queries, id, 0);
    if k >= 0 {
        queries[k].descriptions.deep_view()
    } else {
        Seq::empty()
    }
}

/// The hit descriptions of every member query, concatenated in member
/// order; members without an entry in `queries` contribute nothing.
pub open spec fn gathered_descriptions(
    query_ids: Seq<Seq<char>>,
    queries: Seq<QueryDescriptions>,
) -> Seq<Seq<char>>
    decreases query_ids.len(),
{
    if query_ids.len() == 0 {
        Seq::empty()
    } else {
        gathered_descriptions(query_ids.drop_last(), queries) + descriptions_for(
            queries,
            query_ids.last(),
        )
    }
}

/// Gathers the hit descriptions of every query of the family, in member
/// order, from the plain-value query registry.
pub fn gather_descriptions(query_ids: &Vec<String>, queries: &Vec<QueryDescriptions>) -> (r: Vec<
    String,
>)
    ensures
        r.deep_view() == gathered_descriptions(query_ids.deep_view(), queries@),
{
    let ghost ids = query_ids.deep_view();
    let mut out: Vec<String> = Vec::new();
    let mut i: usize = 0;
    while i < query_ids.len()
        invariant
            i <= query_ids@.len(),
            ids == query_ids.deep_view(),
            out.deep_view() == gathered_descriptions(ids.take(i as int), queries@),
        decreases query_ids.len() - i,
    {
        proof {
            assert(ids.take(i + 1).drop_last() =~= ids.take(i as int));
            assert(ids.take(i + 1).last() == ids[i as int]);
            assert(ids[i as int] == query_ids@[i as int]@);
        }
        let qid = &query_ids[i];
        let mut k: usize = 0;
        let mut found = false;
        let mut at: usize = 0;
        while k < queries.len()
            invariant
                k <= queries@.len(),
                !found ==> forall|t: int| 0 <= t < k ==> queries@[t].id@ != qid@,
                found ==> 0 <= at < k <= queries@.len() && queries@[at as int].id@ == qid@
                    && find_query_from(queries@, qid@, 0) == at,
            decreases queries.len() - k,
        {
            if !found && queries[k].id == *qid {
                proof {
                    lemma_find_query_from(queries@, qid@, 0, k as int);
                }
                found = true;
                at = k;
            }
            k = k + 1;
        }
        if found {
            let descs = &queries[at].descriptions;
            let ghost add = descs.deep_view();
            proof {
                assert(descriptions_for(queries@, ids[i as int]) == add);
            }
            let ghost before_out = out.deep_view();
            let mut j: usize = 0;
            while j < descs.len()
                invariant
                    j <= descs@.len(),
                    add == descs.deep_view(),
                    out.deep_view() == before_out + add.take(j as int),
                decreases descs.len() - j,
            {
                let ghost prev = out.deep_view();
                out.push(descs[j].clone());
                proof {
                    assert(out.deep_view() =~= prev.push(add[j as int]));
                    assert(add.take(j + 1).drop_last() =~= add.take(j as int));
                    assert(add.take(j + 1).last() == add[j as int]);
                    assert(prev.push(add[j as int]) =~= before_out + add.take(j + 1));
                }
                j = j + 1;
            }
            proof {
                assert(add.take(descs@.len() as int) =~= add);
            }
        } else {
            proof {
                if find_query_from(queries@, qid@, 0) >= 0 {
                    lemma_find_query_found(queries@, qid@, 0);
                }
                assert(descriptions_for(queries@, ids[i as int]) =~= Seq::<Seq<char>>::empty());
                assert(out.deep_view() + Seq::<Seq<char>>::empty() =~= out.deep_view());
            }
        }
        i = i + 1;
    }
    proof {
        assert(ids.take(query_ids@.len() as int) =~= ids);
    }
    out
}

/// A non-negative find result points at a matching entry.
proof fn lemma_find_query_found(queries: Seq<QueryDescriptions>, id: Seq<char>, start: int)
    requires
        find_query_from(queries, id, start) >= 0,
        0 <= start,
    ensures
        start <= find_query_from(queries, id, start) < queries.len(),
        queries[find_query_from(queries, id, start)].id@ == id,
    decreases queries.len() - start,
{
    if start < queries.len() && queries[start].id@ != id {
        lemma_find_query_found(queries, id, start + 1);
    }
}

/// The engine's answer when it produced one, the configured default
/// "unknown family" label otherwise.
pub fn resolve_description(hrd: Option<String>, default_description: &str) -> (r: String)
    ensures
        hrd matches Some(s) ==> r@ == s@,
        hrd is None ==> r@ == default_description@,
{
    match hrd {
        Some(s) => s,
        None => String::from_str(default_description),
    }
}

} // verus!
