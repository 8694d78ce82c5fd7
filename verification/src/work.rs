//! The work of one run: the candidate paths for which the checkpoint holds no hash
//! yet, each of them once.

use crate::cache::Cache;
use crate::text::{trim, trimmed};
use vstd::hash_map::StringHashMap;
use vstd::prelude::*;

verus! {

/// The paths of a list, as texts.
pub open spec fn paths_of(list: Seq<String>) -> Seq<Seq<char>> {
    list.map_values(|path: String| path@)
}

/// The candidates that are not known yet, each at the place where it first occurs.
pub open spec fn pending(candidates: Seq<Seq<char>>, known: Set<Seq<char>>) -> Seq<Seq<char>>
    decreases candidates.len(),
{
    if candidates.len() == 0 {
        Seq::empty()
    } else {
        let earlier = candidates.drop_last();
        let path = candidates.last();
        if known.contains(path) || earlier.contains(path) {
            pending(earlier, known)
        } else {
            pending(earlier, known).push(path)
        }
    }
}

/// A list with one more path holds a path exactly if the shorter list holds it or it
/// is the new one.
pub proof fn lemma_push_contains(list: Seq<Seq<char>>, new: Seq<char>)
    ensures
        forall|path: Seq<char>|
            list.push(new).contains(path) <==> list.contains(path) || path == new,
{
    let longer = list.push(new);
    assert forall|path: Seq<char>| longer.contains(path) <==> list.contains(path) || path
        == new by {
        if longer.contains(path) {
            let i = choose|i: int| 0 <= i < longer.len() && longer[i] == path;
            if i < list.len() {
                assert(list[i] == path);
            }
        }
        if list.contains(path) {
            let i = choose|i: int| 0 <= i < list.len() && list[i] == path;
            assert(longer[i] == path);
        }
        if path == new {
            assert(longer[longer.len() - 1] == path);
        }
    }
}

/// `pending` is the difference of two sets: it holds a path exactly if the path is a
/// candidate and not known, and it holds no path twice.
pub proof fn lemma_pending(candidates: Seq<Seq<char>>, known: Set<Seq<char>>)
    ensures
        pending(candidates, known).no_duplicates(),
        forall|path: Seq<char>|
            pending(candidates, known).contains(path) <==> candidates.contains(path)
                && !known.contains(path),
    decreases candidates.len(),
{
    let result = pending(candidates, known);
    if candidates.len() > 0 {
        let earlier = candidates.drop_last();
        let last = candidates.last();
        let before = pending(earlier, known);
        lemma_pending(earlier, known);
        assert(candidates =~= earlier.push(last));
        lemma_push_contains(earlier, last);
        lemma_push_contains(before, last);
        assert forall|path: Seq<char>| result.contains(path) <==> candidates.contains(path)
            && !known.contains(path) by {
            assert(earlier.push(last).contains(path) <==> earlier.contains(path) || path == last);
            assert(before.push(last).contains(path) <==> before.contains(path) || path == last);
        }
        if !(known.contains(last) || earlier.contains(last)) {
            assert forall|i: int, j: int| 0 <= i < j < result.len() implies result[i]
                != result[j] by {
                if j == result.len() - 1 {
                    assert(before.contains(before[i]));
                }
            }
        }
    }
}

/// The candidate paths that a list of lines names: each line, trimmed, is one path.
pub fn read_input_list(lines: &Vec<String>) -> (paths: Vec<String>)
    ensures
        paths@.len() == lines@.len(),
        forall|i: int| 0 <= i < lines@.len() ==> (#[trigger] paths@[i])@ == trimmed(lines@[i]@),
{
    let mut paths: Vec<String> = Vec::new();
    let mut i: usize = 0;
    while i < lines.len()
        invariant
            i <= lines@.len(),
            paths@.len() == i,
            forall|k: int| 0 <= k < i ==> (#[trigger] paths@[k])@ == trimmed(lines@[k]@),
        decreases lines@.len() - i,
    {
        paths.push(trim(lines[i].as_str()));
        i += 1;
    }
    paths
}

/// The paths to hash in this run: `candidates` without the paths that `cache` holds,
/// and without repetitions.
pub fn work_set(candidates: &Vec<String>, cache: &Cache) -> (work: Vec<String>)
    ensures
        paths_of(work@) == pending(paths_of(candidates@), cache@.dom()),
        paths_of(work@).no_duplicates(),
        forall|path: Seq<char>|
            paths_of(work@).contains(path) <==> paths_of(candidates@).contains(path)
                && !cache@.contains_key(path),
{
    let ghost all = paths_of(candidates@);
    let mut work: Vec<String> = Vec::new();
    let mut seen: StringHashMap<bool> = StringHashMap::new();
    let mut i: usize = 0;
    proof {
        assert(all.take(0) =~= Seq::<Seq<char>>::empty());
        assert(paths_of(work@) =~= Seq::<Seq<char>>::empty());
    }
    while i < candidates.len()
        invariant
            i <= candidates@.len(),
            all == paths_of(candidates@),
            paths_of(work@) == pending(all.take(i as int), cache@.dom()),
            forall|path: Seq<char>|
                seen@.contains_key(path) <==> all.take(i as int).contains(path),
        decreases candidates@.len() - i,
    {
        let path = &candidates[i];
        proof {
            let now = all.take(i + 1);
            assert(now.drop_last() =~= all.take(i as int));
            assert(now.last() == path@);
        }
        if !cache.contains_key(path.as_str()) && !seen.contains_key(path.as_str()) {
            let ghost before = work@;
            work.push(path.clone());
            proof {
                assert(paths_of(work@) =~= paths_of(before).push(path@));
            }
        }
        seen.insert(path.clone(), true);
        proof {
            assert(all.take(i + 1) =~= all.take(i as int).push(path@));
            lemma_push_contains(all.take(i as int), path@);
        }
        i += 1;
    }
    proof {
        assert(all.take(candidates@.len() as int) =~= all);
        lemma_pending(all, cache@.dom());
    }
    work
}

} // verus!
