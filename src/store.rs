//! The cache store: which file to retire and which to write on a commit,
//! what a commit does to the cache directory, and reading a catalog back.
use vstd::prelude::*;
use crate::cache_file::{cache_name, game_of, lacks, recorded_seconds, update_time, dated, cache_file_name, locate, lemma_cache_name_parts};
use crate::catalog::{Catalog, EntryView, lookup, last_with_key, unique_keys, lemma_unique_last_is_first};
use crate::codec::{bincode_image, bincode_decoded, encode_catalog, decode_entries, DECODE_LIMIT};

verus! {

/// A cache directory: its files' names and contents, in listing order.
pub type DirView = Seq<(Seq<char>, Seq<u8>)>;

/// Index of the first file of `dir` that is for `game`.
pub open spec fn locate_in(dir: DirView, game: Seq<char>) -> Option<int>
    decreases dir.len(),
{
    if dir.len() == 0 {
        None
    } else if game_of(dir[0].0) == game {
        Some(0)
    } else {
        match locate_in(dir.drop_first(), game) {
            Some(i) => Some(i + 1),
            None => None,
        }
    }
}

/// At most one file of `dir` is for `game`.
pub open spec fn at_most_one_for(dir: DirView, game: Seq<char>) -> bool {
    forall|i: int, j: int|
        0 <= i < dir.len() && 0 <= j < dir.len() && game_of(#[trigger] dir[i].0) == game && game_of(
            #[trigger] dir[j].0,
        ) == game ==> i == j
}

/// The directory after a commit for `game` at `seconds` with file body
/// `body`: the game's file, if any, is removed, then the new one is added.
pub open spec fn after_commit(dir: DirView, game: Seq<char>, seconds: int, body: Seq<u8>) -> DirView {
    let kept = match locate_in(dir, game) {
        Some(i) => dir.remove(i),
        None => dir,
    };
    kept.push((cache_name(game, seconds), body))
}

/// What a commit does: the file to remove, if any, and the file to write.
pub struct CommitPlan {
    /// Index, in the listing given, of the file to remove first.
    pub remove: Option<usize>,
    /// Name of the new file.
    pub file_name: String,
    /// Content of the new file.
    pub body: Vec<u8>,
}

proof fn lemma_locate_in_none(dir: DirView, game: Seq<char>)
    requires
        forall|i: int| 0 <= i < dir.len() ==> game_of(#[trigger] dir[i].0) != game,
    ensures
        locate_in(dir, game) is None,
    decreases dir.len(),
{
    if dir.len() > 0 {
        assert forall|i: int| 0 <= i < dir.len() - 1 implies game_of(
            (#[trigger] dir.drop_first()[i]).0,
        ) != game by {
            assert(dir.drop_first()[i] == dir[i + 1]);
        }
        lemma_locate_in_none(dir.drop_first(), game);
    }
}

proof fn lemma_locate_in_some(dir: DirView, game: Seq<char>, i: int)
    requires
        0 <= i < dir.len(),
        game_of(dir[i].0) == game,
        forall|j: int| 0 <= j < i ==> game_of(#[trigger] dir[j].0) != game,
    ensures
        locate_in(dir, game) == Some(i),
    decreases i,
{
    if i > 0 {
        assert forall|j: int| 0 <= j < i - 1 implies game_of((#[trigger] dir.drop_first()[j]).0)
            != game by {
            assert(dir.drop_first()[j] == dir[j + 1]);
        }
        lemma_locate_in_some(dir.drop_first(), game, i - 1);
    }
}

proof fn lemma_locate_in_found(dir: DirView, game: Seq<char>)
    ensures
        locate_in(dir, game) matches Some(i) ==> 0 <= i < dir.len() && game_of(dir[i].0) == game,
        locate_in(dir, game) is None ==> forall|i: int| 0 <= i < dir.len() ==> game_of(
            #[trigger] dir[i].0,
        ) != game,
    decreases dir.len(),
{
    if dir.len() > 0 {
        lemma_locate_in_found(dir.drop_first(), game);
        if locate_in(dir, game) is None {
            assert forall|i: int| 0 <= i < dir.len() implies game_of(#[trigger] dir[i].0) != game by {
                if i > 0 {
                    assert(dir[i] == dir.drop_first()[i - 1]);
                }
            }
        }
    }
}

/// After a commit to a directory that held at most one file for the game,
/// the directory holds exactly one, the new one, and it is found first.
proof fn lemma_commit_once(dir: DirView, game: Seq<char>, seconds: int, body: Seq<u8>)
    requires
        lacks(game, '_'),
        i64::MIN <= seconds <= i64::MAX,
        at_most_one_for(dir, game),
    ensures
        ({
            let d = after_commit(dir, game, seconds, body);
            &&& at_most_one_for(d, game)
            &&& locate_in(d, game) == Some(d.len() - 1)
            &&& d.last() == (cache_name(game, seconds), body)
        }),
{
    lemma_cache_name_parts(game, seconds);
    lemma_locate_in_found(dir, game);
    let kept = match locate_in(dir, game) {
        Some(i) => dir.remove(i),
        None => dir,
    };
    assert forall|j: int| 0 <= j < kept.len() implies game_of(#[trigger] kept[j].0) != game by {
        match locate_in(dir, game) {
            Some(i) => {
                if j < i {
                    assert(kept[j] == dir[j]);
                } else {
                    assert(kept[j] == dir[j + 1]);
                }
            },
            None => {},
        }
    }
    let d = after_commit(dir, game, seconds, body);
    assert(d == kept.push((cache_name(game, seconds), body)));
    assert forall|j: int| 0 <= j < d.len() - 1 implies game_of(#[trigger] d[j].0) != game by {
        assert(d[j] == kept[j]);
    }
    lemma_locate_in_some(d, game, d.len() - 1);
}

/// Two commits in a row for one game: after committing at `first` and then
/// at `second`, the directory holds exactly one file for the game; it is the
/// one found, it records `second` (read back as the update time when chrono
/// has a date for it), and it holds the second body. This holds
/// for a game whose name has no `_`, starting from a directory with at most
/// one file for it.
pub proof fn lemma_commit_twice(
    dir: DirView,
    game: Seq<char>,
    first: int,
    first_body: Seq<u8>,
    second: int,
    second_body: Seq<u8>,
)
    requires
        lacks(game, '_'),
        i64::MIN <= first <= i64::MAX,
        i64::MIN <= second <= i64::MAX,
        at_most_one_for(dir, game),
    ensures
        ({
            let d = after_commit(after_commit(dir, game, first, first_body), game, second, second_body);
            &&& at_most_one_for(d, game)
            &&& locate_in(d, game) matches Some(i) && recorded_seconds(d[i].0) == Some(second)
                && d[i].1 == second_body && (dated(second) ==> update_time(d[i].0) == Some(second))
        }),
{
    lemma_commit_once(dir, game, first, first_body);
    let d1 = after_commit(dir, game, first, first_body);
    lemma_commit_once(d1, game, second, second_body);
    lemma_cache_name_parts(game, second);
}

/// Decides a commit of `catalog` for `game` at Unix time `seconds`, given
/// the names in the cache directory in listing order: remove the file that
/// `locate` finds, then write the new file with the catalog's encoding.
pub fn plan_commit(game: &str, file_names: &Vec<String>, seconds: i64, catalog: &Catalog) -> (p:
    CommitPlan)
    ensures
        p.file_name@ == cache_name(game@, seconds as int),
        p.body@ == bincode_image(catalog@),
        unique_keys(catalog@),
        p.remove is None ==> forall|i: int|
            0 <= i < file_names@.len() ==> game_of(#[trigger] file_names@[i]@) != game@,
        p.remove matches Some(i) ==> i < file_names@.len() && game_of(file_names@[i as int]@)
            == game@ && forall|j: int| 0 <= j < i ==> game_of(#[trigger] file_names@[j]@) != game@,
{
    let body = encode_catalog(catalog);
    let remove = locate(game, file_names);
    let file_name = cache_file_name(game, seconds);
    CommitPlan { remove, file_name, body }
}

/// The catalog held in a cache file body: the decoded entries indexed by
/// package, or the empty catalog when the body does not decode. A body
/// written for a catalog, no longer than a 144th of [`DECODE_LIMIT`], gives
/// back a catalog with the same entry for every package.
pub fn load_catalog(bytes: &[u8]) -> (r: Catalog)
    ensures
        unique_keys(r@),
        bincode_decoded(bytes@) is None ==> r@ == Seq::<EntryView>::empty(),
        bincode_decoded(bytes@) matches Some(v) ==> forall|k: (Seq<char>, Seq<char>)| #[trigger]
            lookup(r@, k) == last_with_key(v, k),
        forall|v: Seq<EntryView>| #![trigger bincode_image(v)]
            bytes@ == bincode_image(v) && 144 * bytes@.len() <= DECODE_LIMIT && unique_keys(v)
                ==> forall|k: (Seq<char>, Seq<char>)| #[trigger] lookup(r@, k) == lookup(v, k),
{
    match decode_entries(bytes) {
        Some(entries) => {
            let r = Catalog::from_entries(entries);
            assert forall|v: Seq<EntryView>| #![trigger bincode_image(v)]
                bytes@ == bincode_image(v) && 144 * bytes@.len() <= DECODE_LIMIT && unique_keys(v)
                    implies forall|k: (Seq<char>, Seq<char>)| #[trigger] lookup(r@, k) == lookup(v, k) by {
                assert forall|k: (Seq<char>, Seq<char>)| #[trigger] lookup(r@, k) == lookup(v, k) by {
                    lemma_unique_last_is_first(v, k);
                }
            }
            r
        },
        None => Catalog::new(),
    }
}

} // verus!
