//! Which of the files of the log directory is the current log.
//!
//! The application starts a new log file on every run and puts the time of
//! the start into the file's name, so the current log is the one whose name
//! comes last in the order of the dictionary.

use crate::text::{has_at, literal_at, to_chars};
use vstd::prelude::*;
use vstd::string::StringExecFns;

verus! {

/// Where the application keeps its logs, below the home directory.
pub open spec fn log_dir_below_home() -> Seq<char> {
    "/.steam/steam/steamapps/compatdata/438100/pfx/drive_c/users/steamuser/AppData/LocalLow/VRChat/VRChat"@
}

/// The directory of the logs of the user whose home directory is `home`.
pub fn get_vrc_log_file_dir(home: &str) -> (dir: String)
    ensures
        dir@ == home@ + log_dir_below_home(),
{
    let mut dir = String::from_str(home);
    dir.append(
        "/.steam/steam/steamapps/compatdata/438100/pfx/drive_c/users/steamuser/AppData/LocalLow/VRChat/VRChat",
    );
    dir
}

/// The name of a log file: `output_log_`, anything, `.txt`.
pub open spec fn is_log_file_name(name: Seq<char>) -> bool {
    has_at(name, 0, "output_log_"@) && has_at(name, name.len() - 4, ".txt"@)
}

/// `a` comes before `b` in the order of the dictionary: the two agree up to a
/// place where `a` ends and `b` goes on, or where `a` has the lesser
/// character.
pub open spec fn comes_before(a: Seq<char>, b: Seq<char>) -> bool {
    exists|k: int|
        #![trigger a.take(k)]
        0 <= k <= a.len() && k < b.len() && a.take(k) == b.take(k) && (k == a.len() || a[k]
            < b[k])
}

/// `best` is the place of the latest log file among `names`: no log file's
/// name comes after it, and it is the first of that name.
pub open spec fn is_latest_log_file(names: Seq<Seq<char>>, best: int) -> bool {
    &&& 0 <= best < names.len()
    &&& is_log_file_name(names[best])
    &&& forall|i: int|
        0 <= i < names.len() && is_log_file_name(#[trigger] names[i]) ==> !comes_before(
            names[best],
            names[i],
        )
    &&& forall|i: int| 0 <= i < best ==> #[trigger] names[i] != names[best]
}

/// The order of the dictionary is transitive.
pub proof fn lemma_comes_before_transitive(a: Seq<char>, b: Seq<char>, c: Seq<char>)
    requires
        comes_before(a, b),
        comes_before(b, c),
    ensures
        comes_before(a, c),
{
    let k1 = choose|k: int|
        #![trigger a.take(k)]
        0 <= k <= a.len() && k < b.len() && a.take(k) == b.take(k) && (k == a.len() || a[k]
            < b[k]);
    let k2 = choose|k: int|
        #![trigger b.take(k)]
        0 <= k <= b.len() && k < c.len() && b.take(k) == c.take(k) && (k == b.len() || b[k]
            < c[k]);
    let k = if k1 <= k2 {
        k1
    } else {
        k2
    };
    assert(a.take(k) =~= c.take(k)) by {
        assert forall|j: int| 0 <= j < k implies a[j] == c[j] by {
            assert(a.take(k1)[j] == b.take(k1)[j]);
            assert(b.take(k2)[j] == c.take(k2)[j]);
        }
    }
    if k1 < k2 {
        assert(b.take(k2)[k1] == c.take(k2)[k1]);
    } else if k2 < k1 {
        assert(a.take(k1)[k2] == b.take(k1)[k2]);
    }
    assert(0 <= k <= a.len() && k < c.len() && a.take(k) == c.take(k) && (k == a.len() || a[k]
        < c[k]));
}

/// Tests whether `a` comes before `b` in the order of the dictionary.
pub fn name_before(a: &[char], b: &[char]) -> (r: bool)
    ensures
        r == comes_before(a@, b@),
{
    let mut i: usize = 0;
    while i < a.len() && i < b.len() && a[i] == b[i]
        invariant
            i <= a@.len(),
            i <= b@.len(),
            a@.take(i as int) == b@.take(i as int),
        decreases a@.len() - i,
    {
        proof {
            assert(a@.take(i + 1) =~= a@.take(i as int).push(a@[i as int]));
            assert(b@.take(i + 1) =~= b@.take(i as int).push(b@[i as int]));
        }
        i += 1;
    }
    let r = i < b.len() && (i == a.len() || a[i] < b[i]);
    proof {
        if !r {
            assert forall|k: int|
                #![trigger a@.take(k)]
                0 <= k <= a@.len() && k < b@.len() && a@.take(k) == b@.take(k) implies !(k
                == a@.len() || a@[k] < b@[k]) by {
                if k < i {
                    assert(a@.take(i as int)[k] == b@.take(i as int)[k]);
                } else if k > i {
                    assert(a@.take(k)[i as int] == b@.take(k)[i as int]);
                }
            }
        }
    }
    r
}

/// Tests whether `name` is the name of a log file.
pub fn is_log_file(name: &[char]) -> (r: bool)
    ensures
        r == is_log_file_name(name@),
{
    proof {
        reveal_strlit(".txt");
    }
    name.len() >= 4 && literal_at(name, 0, "output_log_") && literal_at(
        name,
        name.len() - 4,
        ".txt",
    )
}

/// The latest log file among the first names stays the latest when the next
/// name is no log file's, or does not come after it.
proof fn lemma_latest_stays(all: Seq<Seq<char>>, i: int, best: int)
    requires
        0 <= i < all.len(),
        is_latest_log_file(all.take(i), best),
        !is_log_file_name(all[i]) || !comes_before(all[best], all[i]),
    ensures
        is_latest_log_file(all.take(i + 1), best),
{
    assert(all.take(i)[best] == all.take(i + 1)[best]);
    assert forall|j: int|
        0 <= j < i + 1 && is_log_file_name(#[trigger] all.take(i + 1)[j]) implies !comes_before(
        all.take(i + 1)[best],
        all.take(i + 1)[j],
    ) by {
        if j < i {
            assert(all.take(i)[j] == all[j]);
        }
    }
    assert forall|j: int| 0 <= j < best implies #[trigger] all.take(i + 1)[j] != all.take(
        i + 1,
    )[best] by {
        assert(all.take(i)[j] == all[j]);
    }
}

/// A log file whose name comes after that of the latest among the names
/// before it is the latest among the names up to it.
proof fn lemma_latest_moves(all: Seq<Seq<char>>, i: int, best: int)
    requires
        0 <= i < all.len(),
        is_latest_log_file(all.take(i), best),
        is_log_file_name(all[i]),
        comes_before(all[best], all[i]),
    ensures
        is_latest_log_file(all.take(i + 1), i),
{
    assert(all.take(i)[best] == all[best]);
    assert forall|j: int|
        0 <= j < i + 1 && is_log_file_name(#[trigger] all.take(i + 1)[j]) implies !comes_before(
        all.take(i + 1)[i],
        all.take(i + 1)[j],
    ) by {
        if j < i {
            assert(all.take(i)[j] == all[j]);
            if comes_before(all[i], all[j]) {
                lemma_comes_before_transitive(all[best], all[i], all[j]);
            }
        }
    }
    assert forall|j: int| 0 <= j < i implies #[trigger] all.take(i + 1)[j] != all.take(i + 1)[i] by {
        assert(all.take(i)[j] == all[j]);
    }
}

/// Picks the latest log file among the names of a directory's files: its
/// place in `names`, or nothing where no name is that of a log file.
pub fn get_latest_vrc_log_file(names: &Vec<String>) -> (r: Option<usize>)
    ensures
        match r {
            Some(best) => is_latest_log_file(names.deep_view(), best as int),
            None => forall|i: int|
                0 <= i < names@.len() ==> !is_log_file_name(#[trigger] names.deep_view()[i]),
        },
{
    let ghost all = names.deep_view();
    let mut latest: Option<usize> = None;
    let mut latest_name: Vec<char> = Vec::new();
    let mut i: usize = 0;
    while i < names.len()
        invariant
            i <= names@.len(),
            all == names.deep_view(),
            all.len() == names@.len(),
            match latest {
                None => forall|j: int| 0 <= j < i ==> !is_log_file_name(#[trigger] all[j]),
                Some(best) => {
                    &&& best < i
                    &&& latest_name@ == all[best as int]
                    &&& is_latest_log_file(all.take(i as int), best as int)
                },
            },
        decreases names@.len() - i,
    {
        let name = to_chars(names[i].as_str());
        proof {
            assert(name@ == all[i as int]);
        }
        let newer = is_log_file(name.as_slice()) && (latest.is_none() || name_before(
            latest_name.as_slice(),
            name.as_slice(),
        ));
        if newer {
            proof {
                if latest is Some {
                    lemma_latest_moves(all, i as int, latest->0 as int);
                } else {
                    assert(is_latest_log_file(all.take(i + 1), i as int));
                }
            }
            latest = Some(i);
            latest_name = name;
        } else {
            proof {
                if latest is Some {
                    lemma_latest_stays(all, i as int, latest->0 as int);
                }
            }
        }
        i += 1;
    }
    proof {
        assert(all.take(i as int) =~= all);
    }
    latest
}

} // verus!
