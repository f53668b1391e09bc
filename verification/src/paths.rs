//! Syntactic path helpers: the basename of a directory path (the implicit
//! shortcut name of an add), and the resolution of the backing file's
//! location from the platform directories.
//!
//! Paths are treated purely as character strings here; nothing is checked
//! against the filesystem. A component is whatever stands between `/`
//! separators, so `.` and `..` components are handed back as they are.

use vstd::prelude::*;

use crate::text::last_at;
use crate::text::lemma_last_at_is;
use crate::text::lemma_last_at_props;

verus! {

/// `p` with its trailing `/` characters removed.
pub open spec fn trim_trailing_slashes(p: Seq<char>) -> Seq<char>
    decreases p.len(),
{
    if p.len() > 0 && p.last() == '/' {
        trim_trailing_slashes(p.drop_last())
    } else {
        p
    }
}

/// The last path component of `p`: trailing slashes are ignored, and the
/// part after the last remaining slash is the basename; `None` when
/// nothing remains (the root `/`, or an empty path).
pub open spec fn basename_s(p: Seq<char>) -> Option<Seq<char>> {
    let q = trim_trailing_slashes(p);
    if q.len() == 0 {
        None
    } else {
        Some(q.subrange(last_at(q, '/') + 1, q.len() as int))
    }
}

/// The end of `p` once trailing slashes before `end` are dropped.
fn trim_end(p: &str, end: usize) -> (r: usize)
    requires
        end <= p@.len(),
        trim_trailing_slashes(p@) == trim_trailing_slashes(p@.take(end as int)),
    ensures
        r <= end,
        p@.take(r as int) == trim_trailing_slashes(p@),
    decreases end,
{
    if end > 0 {
        if p.get_char(end - 1) == '/' {
            proof {
                assert(p@.take(end as int).drop_last() =~= p@.take(end as int - 1));
            }
            return trim_end(p, end - 1);
        }
    }
    proof {
        if end > 0 {
            assert(p@.take(end as int).last() == p@[end as int - 1]);
        }
    }
    end
}

/// The start of the last `/`-separated component of `p@.take(end)`, given
/// that no slash stands at or after `i`.
fn comp_start(p: &str, i: usize, end: usize) -> (r: usize)
    requires
        i <= end <= p@.len(),
        forall|j: int| i <= j < end ==> p@[j] != '/',
    ensures
        r <= end,
        last_at(p@.take(end as int), '/') == r as int - 1,
    decreases i,
{
    let ghost q = p@.take(end as int);
    if i == 0 {
        proof {
            assert(forall|j: int| -1 < j < q.len() ==> q[j] == p@[j] && p@[j] != '/');
            lemma_last_at_is(q, '/', -1);
        }
        0
    } else if p.get_char(i - 1) == '/' {
        proof {
            assert(forall|j: int| i - 1 < j < q.len() ==> q[j] == p@[j] && p@[j] != '/');
            assert(q[i as int - 1] == p@[i as int - 1]);
            lemma_last_at_is(q, '/', i as int - 1);
        }
        i
    } else {
        comp_start(p, i - 1, end)
    }
}

/// The basename of `p`, or `None` when `p` has none (it is empty or all
/// slashes, such as the filesystem root).
pub fn basename(p: &str) -> (r: Option<String>)
    ensures
        match r {
            Some(s) => basename_s(p@) == Some(s@),
            None => basename_s(p@) is None,
        },
{
    let n = p.unicode_len();
    proof {
        assert(p@.take(n as int) =~= p@);
    }
    let end = trim_end(p, n);
    if end == 0 {
        proof {
            assert(trim_trailing_slashes(p@).len() == 0);
        }
        None
    } else {
        let start = comp_start(p, end, end);
        let ghost q = p@.take(end as int);
        proof {
            lemma_last_at_props(q, '/');
        }
        let sub = p.substring_char(start, end);
        proof {
            assert(q.subrange(start as int, end as int) =~= p@.subrange(
                start as int,
                end as int,
            ));
        }
        Some(String::from_str(sub))
    }
}

/// The backing file's location: `<config_dir>/goto/gotorc` when a platform
/// configuration directory is known, else `<home_dir>/.gotorc`, else
/// nothing.
pub fn config_file_path(config_dir: Option<String>, home_dir: Option<String>) -> (r: Option<
    String,
>)
    ensures
        match config_dir {
            Some(c) => r matches Some(p) && p@ == c@ + "/goto/gotorc"@,
            None => match home_dir {
                Some(h) => r matches Some(p) && p@ == h@ + "/.gotorc"@,
                None => r is None,
            },
        },
{
    match config_dir {
        Some(c) => Some(c.concat("/goto/gotorc")),
        None => match home_dir {
            Some(h) => Some(h.concat("/.gotorc")),
            None => None,
        },
    }
}

} // verus!
