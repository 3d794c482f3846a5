//! Strategy archive bookkeeping: an append-only index of evaluated strategies, deduplicated by
//! entry id and numbered by append order, with the checks made when an archive is opened.

use vstd::prelude::*;
use vstd::string::*;
use crate::discovery::config::CorpusError;
use crate::framework::text::text_eq;
use crate::io::hash::{content_hash, hex_fixed, spec_fnv1a64};
use crate::io::schema::{ArchiveIndexEntry, IoError};

verus! {

/// Outcome of an append: a new entry, or an entry with the same id already archived.
#[derive(Clone, Debug, PartialEq, Eq)]
pub enum Appended {
    /// A new entry with this id was added.
    New(String),
    /// An entry with this id already existed; the archive is unchanged.
    Duplicate(String),
}

/// An entry's identity: the hex digest of the compact JSON of its key `(game, spec,
/// evaluation_id)`, so that a change to any of them makes a different entry.
pub fn entry_id(key_json: &[u8]) -> (s: String)
    ensures
        s@ == hex_fixed(spec_fnv1a64(key_json@) as nat, 16),
{
    content_hash(key_json)
}

/// The ids of `entries`, in order.
pub open spec fn entry_ids(entries: Seq<ArchiveIndexEntry>) -> Seq<Seq<char>> {
    entries.map_values(|e: ArchiveIndexEntry| e.entry_id@)
}

/// A well-formed index: entries numbered `0, 1, ...` in order, no id twice.
pub open spec fn index_wf(entries: Seq<ArchiveIndexEntry>) -> bool {
    &&& forall|i: int| 0 <= i < entries.len() ==> (#[trigger] entries[i]).sequence == i
    &&& entry_ids(entries).no_duplicates()
}

/// `after` is `before` with `(id, name, kind)` appended: unchanged when `id` is already
/// archived, else one more entry carrying the next sequence number.
pub open spec fn appends(
    before: Seq<ArchiveIndexEntry>,
    after: Seq<ArchiveIndexEntry>,
    id: Seq<char>,
    name: Seq<char>,
    kind: Seq<char>,
) -> bool {
    if entry_ids(before).contains(id) {
        after == before
    } else {
        &&& after.len() == before.len() + 1
        &&& after.take(before.len() as int) == before
        &&& after.last().entry_id@ == id
        &&& after.last().name@ == name
        &&& after.last().kind@ == kind
        &&& after.last().sequence == before.len()
    }
}

/// Position of the first entry with id `id` among the first `n`, if any.
pub open spec fn first_with_id(entries: Seq<ArchiveIndexEntry>, id: Seq<char>, n: int) -> Option<int>
    decreases n,
{
    if n <= 0 {
        None
    } else {
        match first_with_id(entries, id, n - 1) {
            Some(k) => Some(k),
            None => if entries[n - 1].entry_id@ == id {
                Some(n - 1)
            } else {
                None
            },
        }
    }
}

/// Where the first entry with id `id` stands, if any.
proof fn lemma_first_with_id(entries: Seq<ArchiveIndexEntry>, id: Seq<char>, n: int)
    requires
        0 <= n <= entries.len(),
    ensures
        first_with_id(entries, id, n) matches Some(k) ==> 0 <= k < n && entries[k].entry_id@ == id,
        first_with_id(entries, id, n) is None <==> !entry_ids(entries.take(n)).contains(id),
    decreases n,
{
    if n > 0 {
        lemma_first_with_id(entries, id, n - 1);
        let ids = entry_ids(entries.take(n));
        let prev = entry_ids(entries.take(n - 1));
        assert(ids.drop_last() =~= prev);
        assert(ids.last() == entries[n - 1].entry_id@);
        if prev.contains(id) {
            let j = choose|j: int| 0 <= j < prev.len() && prev[j] == id;
            assert(ids[j] == id);
        }
        if ids.contains(id) && !prev.contains(id) {
            let j = choose|j: int| 0 <= j < ids.len() && ids[j] == id;
            if j < n - 1 {
                assert(prev[j] == id);
            }
        }
    } else {
        assert(entry_ids(entries.take(n)) =~= Seq::<Seq<char>>::empty());
    }
}

/// Position of the archived entry with id `id`, if any.
pub fn find_entry(entries: &[ArchiveIndexEntry], id: &str) -> (r: Option<usize>)
    ensures
        r matches Some(k) ==> first_with_id(entries@, id@, entries@.len() as int) == Some(k as int),
        r is None <==> !entry_ids(entries@).contains(id@),
{
    let mut i: usize = 0;
    while i < entries.len()
        invariant
            i <= entries@.len(),
            first_with_id(entries@, id@, i as int) is None,
        decreases entries@.len() - i,
    {
        if text_eq(entries[i].entry_id.as_str(), id) {
            proof {
                lemma_first_with_id(entries@, id@, i as int + 1);
                assert(entries@.take(entries@.len() as int) =~= entries@);
                lemma_first_with_id(entries@, id@, entries@.len() as int);
                lemma_first_with_id_stays(entries@, id@, i as int + 1, entries@.len() as int);
            }
            return Some(i);
        }
        i = i + 1;
    }
    proof {
        assert(entries@.take(entries@.len() as int) =~= entries@);
        lemma_first_with_id(entries@, id@, entries@.len() as int);
    }
    None
}

/// Once found among the first `n`, the first entry with an id is found among more.
proof fn lemma_first_with_id_stays(entries: Seq<ArchiveIndexEntry>, id: Seq<char>, n: int, m: int)
    requires
        0 <= n <= m,
        first_with_id(entries, id, n) is Some,
    ensures
        first_with_id(entries, id, m) == first_with_id(entries, id, n),
    decreases m - n,
{
    if m > n {
        lemma_first_with_id_stays(entries, id, n, m - 1);
    }
}

/// Appends `(id, name, kind)` to the index `entries`: [`Appended::Duplicate`] with nothing
/// changed when an entry with that id is already archived, else [`Appended::New`] with the entry
/// added under the next sequence number.
pub fn append_entry(entries: &mut Vec<ArchiveIndexEntry>, id: String, name: String, kind: String) -> (r: Appended)
    ensures
        appends(old(entries)@, final(entries)@, id@, name@, kind@),
        r == (if entry_ids(old(entries)@).contains(id@) {
            Appended::Duplicate(id)
        } else {
            Appended::New(id)
        }),
{
    match find_entry(entries.as_slice(), id.as_str()) {
        Some(_) => Appended::Duplicate(id),
        None => {
            let sequence = entries.len();
            let ghost before = entries@;
            entries.push(ArchiveIndexEntry { entry_id: id.clone(), name, kind, sequence });
            proof {
                assert(entries@.take(before.len() as int) =~= before);
            }
            Appended::New(id)
        },
    }
}

/// Appending keeps an index well formed.
pub proof fn lemma_append_keeps_wf(
    before: Seq<ArchiveIndexEntry>,
    after: Seq<ArchiveIndexEntry>,
    id: Seq<char>,
    name: Seq<char>,
    kind: Seq<char>,
)
    requires
        index_wf(before),
        appends(before, after, id, name, kind),
    ensures
        index_wf(after),
        entry_ids(after).contains(id),
{
    if !entry_ids(before).contains(id) {
        let n = before.len() as int;
        assert forall|i: int| 0 <= i < after.len() implies (#[trigger] after[i]).sequence == i by {
            if i < n {
                assert(after[i] == after.take(n)[i]);
            }
        }
        let ids = entry_ids(after);
        assert(ids.drop_last() =~= entry_ids(before)) by {
            assert forall|i: int| 0 <= i < n implies ids.drop_last()[i] == entry_ids(before)[i] by {
                assert(after[i] == after.take(n)[i]);
            }
        }
        assert(ids.last() == id);
        assert forall|i: int, j: int| 0 <= i < ids.len() && 0 <= j < ids.len() && i != j implies ids[i]
            != ids[j] by {
            if i < n && j < n {
                assert(ids[i] == entry_ids(before)[i]);
                assert(ids[j] == entry_ids(before)[j]);
            } else if i < n {
                assert(ids[i] == entry_ids(before)[i]);
            } else if j < n {
                assert(ids[j] == entry_ids(before)[j]);
            }
        }
        assert(ids[n] == id);
    }
}

/// Appending an entry whose id was just appended changes nothing: re-running an evaluation
/// against the same archive appends nothing.
pub proof fn lemma_reappend_appends_nothing(
    before: Seq<ArchiveIndexEntry>,
    middle: Seq<ArchiveIndexEntry>,
    after: Seq<ArchiveIndexEntry>,
    id: Seq<char>,
    name: Seq<char>,
    kind: Seq<char>,
    name2: Seq<char>,
    kind2: Seq<char>,
)
    requires
        index_wf(before),
        appends(before, middle, id, name, kind),
        appends(middle, after, id, name2, kind2),
    ensures
        after == middle,
        middle.len() == before.len() || middle.len() == before.len() + 1,
{
    lemma_append_keeps_wf(before, middle, id, name, kind);
}

/// The error for opening an archive that belongs to another game, if it does:
/// ``archive at {dir} belongs to game `{found}`, not `{game}` ``.
pub open spec fn archive_game_error(dir: Seq<char>, found: Seq<char>, game: Seq<char>) -> Option<Seq<char>> {
    if found == game {
        None
    } else {
        Some("archive at "@ + dir + " belongs to game `"@ + found + "`, not `"@ + game + "`"@)
    }
}

/// Checks that the archive at `dir`, whose index names `found`, belongs to `game`.
pub fn check_archive_game(dir: &str, found: &str, game: &str) -> (r: Result<(), CorpusError>)
    ensures
        r is Ok <==> archive_game_error(dir@, found@, game@) is None,
        r matches Err(e) ==> e matches CorpusError::Config(m) && m@ == archive_game_error(
            dir@,
            found@,
            game@,
        )->0,
{
    if text_eq(found, game) {
        Ok(())
    } else {
        proof {
            reveal_strlit("archive at ");
            reveal_strlit(" belongs to game `");
            reveal_strlit("`, not `");
            reveal_strlit("`");
        }
        let mut m = String::from_str("archive at ");
        m.append(dir);
        m.append(" belongs to game `");
        m.append(found);
        m.append("`, not `");
        m.append(game);
        m.append("`");
        Err(CorpusError::Config(m))
    }
}

/// Whether the index and the stored entries, given as `(entry_id, sequence)` pairs, list the
/// same entries in the same order.
pub open spec fn index_agrees(index: Seq<ArchiveIndexEntry>, stored: Seq<(Seq<char>, usize)>) -> bool {
    &&& index.len() == stored.len()
    &&& forall|i: int|
        0 <= i < index.len() ==> (#[trigger] index[i]).entry_id@ == stored[i].0 && index[i].sequence
            == stored[i].1
}

/// Checks that the index at `index_path` agrees with the entries stored at `entries_path`;
/// otherwise ``archive index at {index_path} does not agree with entries at {entries_path}``.
pub fn check_index_agrees(
    index: &[ArchiveIndexEntry],
    stored: &[(String, usize)],
    index_path: &str,
    entries_path: &str,
) -> (r: Result<(), CorpusError>)
    ensures
        r is Ok <==> index_agrees(index@, stored@.map_values(|p: (String, usize)| (p.0@, p.1))),
        r matches Err(e) ==> e matches CorpusError::Io(IoError::Invalid(m)) && m@ == "archive index at "@
            + index_path@ + " does not agree with entries at "@ + entries_path@,
{
    let ghost st = stored@.map_values(|p: (String, usize)| (p.0@, p.1));
    if index.len() != stored.len() {
        return Err(archive_mismatch(index_path, entries_path));
    }
    let mut i: usize = 0;
    while i < index.len()
        invariant
            index@.len() == stored@.len(),
            st == stored@.map_values(|p: (String, usize)| (p.0@, p.1)),
            i <= index@.len(),
            forall|j: int|
                0 <= j < i ==> (#[trigger] index@[j]).entry_id@ == st[j].0 && index@[j].sequence == st[j].1,
        decreases index@.len() - i,
    {
        if !text_eq(index[i].entry_id.as_str(), stored[i].0.as_str()) || index[i].sequence != stored[i].1 {
            proof {
                assert(st[i as int] == (stored@[i as int].0@, stored@[i as int].1));
            }
            return Err(archive_mismatch(index_path, entries_path));
        }
        i = i + 1;
    }
    Ok(())
}

/// ``archive index at {index_path} does not agree with entries at {entries_path}``.
fn archive_mismatch(index_path: &str, entries_path: &str) -> (e: CorpusError)
    ensures
        e matches CorpusError::Io(IoError::Invalid(m)) && m@ == "archive index at "@ + index_path@
            + " does not agree with entries at "@ + entries_path@,
{
    proof {
        reveal_strlit("archive index at ");
        reveal_strlit(" does not agree with entries at ");
    }
    let mut m = String::from_str("archive index at ");
    m.append(index_path);
    m.append(" does not agree with entries at ");
    m.append(entries_path);
    CorpusError::Io(IoError::Invalid(m))
}

} // verus!
