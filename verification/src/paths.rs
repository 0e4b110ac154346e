//! Where files are kept.

use vstd::prelude::*;

use crate::text::{chars_of, finishes_with, opt_view, string_of, take};

verus! {

/// A path seen from another one: one that begins at the root is taken as it is,
/// any other stands below the first.
pub open spec fn joined(base: Seq<char>, below: Seq<char>) -> Seq<char> {
    if below.len() > 0 && below[0] == '/' {
        below
    } else if base.len() == 0 || base.last() == '/' {
        base + below
    } else {
        base + seq!['/'] + below
    }
}

/// The directory for logs in a home directory; without one, in `/tmp`.
pub open spec fn base_dir(home: Option<Seq<char>>) -> Seq<char> {
    joined(
        match home {
            Some(h) => h,
            None => "/tmp"@,
        },
        ".local/share/vnstat-dashboard"@,
    )
}

/// The file name of the log of a day.
pub open spec fn log_file_name(date: Seq<char>) -> Seq<char> {
    "net_apps_"@ + date + ".json"@
}

/// Where the log of a day is kept.
pub open spec fn log_path(base: Seq<char>, date: Seq<char>) -> Seq<char> {
    joined(base, log_file_name(date))
}

/// Where a log is written before it takes the place of the former one: the
/// log's path with `tmp` for its extension. A file name that is nothing but
/// `.json` has no extension, and gets one.
pub open spec fn temporary_path(base: Seq<char>, date: Seq<char>) -> Seq<char> {
    let path = log_path(base, date);
    if "/.json"@.is_suffix_of(path) {
        path + ".tmp"@
    } else {
        path.take(path.len() - 5) + ".tmp"@
    }
}

/// A path from the root stays as it is, wherever it is seen from; any other
/// stands below the first, with one slash between them.
pub proof fn paths_stand_below_each_other(base: Seq<char>, below: Seq<char>)
    ensures
        joined(base, seq!['/'] + below) == seq!['/'] + below,
        below.len() == 0 || below[0] != '/' ==> joined(Seq::empty(), below) == below,
        below.len() == 0 || below[0] != '/' ==> joined(base + seq!['/'], below) == base + seq!['/']
            + below,
        (below.len() == 0 || below[0] != '/') && base.len() > 0 && base.last() != '/' ==> joined(
            base,
            below,
        ) == base + seq!['/'] + below,
{
    assert((seq!['/'] + below)[0] == '/');
    assert((base + seq!['/']).last() == '/');
    assert(Seq::<char>::empty() + below =~= below);
}

/// Logs are kept in a directory below the home directory, or below `/tmp`, each
/// in a file that its day names. A log is written first to a file of the same
/// name with another extension; where the day ends with a slash, the file has
/// no name before its extension, and the other one is added.
pub proof fn logs_are_kept_by_day(home: Seq<char>, base: Seq<char>, date: Seq<char>)
    requires
        home.len() > 0 && home.last() != '/',
        base.len() > 0 && base.last() != '/',
    ensures
        base_dir(Some(home)) == home + "/.local/share/vnstat-dashboard"@,
        base_dir(None) == "/tmp/.local/share/vnstat-dashboard"@,
        log_path(base, date) == base + "/net_apps_"@ + date + ".json"@,
        date.len() == 0 || date.last() != '/' ==> temporary_path(base, date) == base
            + "/net_apps_"@ + date + ".tmp"@,
        date.len() > 0 && date.last() == '/' ==> temporary_path(base, date) == base
            + "/net_apps_"@ + date + ".json.tmp"@,
{
    reveal_strlit("/tmp");
    reveal_strlit(".local/share/vnstat-dashboard");
    reveal_strlit("/.local/share/vnstat-dashboard");
    reveal_strlit("/tmp/.local/share/vnstat-dashboard");
    reveal_strlit("net_apps_");
    reveal_strlit("/net_apps_");
    reveal_strlit(".json");
    reveal_strlit("/.json");
    reveal_strlit(".tmp");
    reveal_strlit(".json.tmp");
    assert(base_dir(Some(home)) =~= home + "/.local/share/vnstat-dashboard"@);
    assert(base_dir(None) =~= "/tmp/.local/share/vnstat-dashboard"@);
    let path = base + "/net_apps_"@ + date + ".json"@;
    assert(log_file_name(date)[0] == 'n');
    assert(log_path(base, date) =~= path);
    let n = path.len() as int;
    if date.len() > 0 && date.last() == '/' {
        assert("/.json"@ =~= path.subrange(n - 6, n));
        assert(temporary_path(base, date) =~= base + "/net_apps_"@ + date + ".json.tmp"@);
    } else {
        if "/.json"@.is_suffix_of(path) {
            assert(path.subrange(n - 6, n)[0] == path[n - 6]);
        }
        assert(temporary_path(base, date) =~= base + "/net_apps_"@ + date + ".tmp"@);
    }
}

/// Logs of different days are kept in different files.
pub proof fn log_paths_differ(base: Seq<char>, date1: Seq<char>, date2: Seq<char>)
    requires
        log_path(base, date1) == log_path(base, date2),
    ensures
        date1 == date2,
{
    reveal_strlit("net_apps_");
    reveal_strlit(".json");
    let a = log_path(base, date1);
    let b = log_path(base, date2);
    assert(log_file_name(date1)[0] == 'n' && log_file_name(date2)[0] == 'n');
    let n = (if base.len() == 0 || base.last() == '/' {
        base.len()
    } else {
        base.len() + 1
    }) + 9;
    assert(a.len() == n + date1.len() + 5);
    assert(b.len() == n + date2.len() + 5);
    assert(a.subrange(n as int, a.len() - 5) =~= date1);
    assert(b.subrange(n as int, b.len() - 5) =~= date2);
}

/// A log is never written where one is kept, of its own day or of another.
pub proof fn temporary_path_is_another(base: Seq<char>, date: Seq<char>, other: Seq<char>)
    ensures
        temporary_path(base, date) != log_path(base, date),
        temporary_path(base, date) != log_path(base, other),
{
    reveal_strlit(".json");
    reveal_strlit(".tmp");
    assert(log_path(base, date).last() == 'n');
    assert(log_path(base, other).last() == 'n');
    assert(temporary_path(base, date).last() == 'p');
}

/// The path `below` as seen from `base`.
pub fn join_path(base: &str, below: &str) -> (r: String)
    ensures
        r@ == joined(base@, below@),
{
    let c = chars_of(below);
    if c.len() > 0 && c[0] == '/' {
        return String::from_str(below);
    }
    let b = chars_of(base);
    let n: usize = b.len();
    let mut r = String::from_str(base);
    if n > 0 && b[n - 1] != '/' {
        r.push('/');
        assert(r@ =~= base@ + seq!['/']);
    }
    r.append(below);
    r
}

/// The directory for logs in the home directory `home`.
pub fn get_base_dir(home: Option<&str>) -> (r: String)
    ensures
        r@ == base_dir(opt_view(home)),
{
    match home {
        Some(h) => join_path(h, ".local/share/vnstat-dashboard"),
        None => join_path("/tmp", ".local/share/vnstat-dashboard"),
    }
}

/// Where the log of a day is kept.
pub fn app_log_path(base: &str, date: &str) -> (r: String)
    ensures
        r@ == log_path(base@, date@),
{
    let mut name = String::from_str("net_apps_");
    name.append(date);
    name.append(".json");
    join_path(base, name.as_str())
}

/// Where the log of a day is written first.
pub fn app_log_temporary_path(base: &str, date: &str) -> (r: String)
    ensures
        r@ == temporary_path(base@, date@),
{
    let path = app_log_path(base, date);
    let p = chars_of(path.as_str());
    let s = p.as_slice();
    if finishes_with(s, "/.json") {
        path.concat(".tmp")
    } else {
        proof {
            reveal_strlit(".json");
        }
        string_of(take(s, s.len() - 5)).concat(".tmp")
    }
}

} // verus!
