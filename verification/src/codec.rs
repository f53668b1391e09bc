//! The record codec: the on-disk line format of the shortcut store and its
//! parse/serialize contract.
//!
//! A backing file is a sequence of `name:path` lines. Decoding splits the
//! text into lines, ignores empty lines, and splits each remaining line at
//! the first `:`; a line with no `:` makes the whole text unparseable
//! (fail-fast, no partial mapping). Duplicate names are folded last-wins:
//! the entry keeps the position of its first line and the path of its last.
//! Encoding emits one `name:path` line per entry, in entry order, so that
//! the same mapping always serializes to the same text.

use vstd::prelude::*;

use crate::store::entries_view;
use crate::store::Entry;
use crate::store::Store;
use crate::text::find_char;
use crate::text::first_at;
use crate::text::lemma_first_at_is;
use crate::text::lemma_first_at_props;

verus! {

/// Failure of [`decode`](crate::codec::decode): some non-empty line of the
/// text has no `:` separator.
#[derive(Debug, Clone, Copy, PartialEq, Eq, Structural)]
pub enum ParseError {
    MalformedLine,
}

/// A name can be stored and re-read faithfully when it contains neither the
/// separator nor a newline.
pub open spec fn valid_name(n: Seq<char>) -> bool {
    forall|i: int| 0 <= i < n.len() ==> n[i] != ':' && n[i] != '\n'
}

/// A path can be stored and re-read faithfully when it contains no newline.
pub open spec fn valid_path(p: Seq<char>) -> bool {
    forall|i: int| 0 <= i < p.len() ==> p[i] != '\n'
}

/// All entries of the sequence have storable names and paths.
pub open spec fn valid_entries(es: Seq<(Seq<char>, Seq<char>)>) -> bool {
    forall|i: int| 0 <= i < es.len() ==> valid_name(#[trigger] es[i].0) && valid_path(es[i].1)
}

/// No two entries of the sequence share a name.
pub open spec fn unique_names(es: Seq<(Seq<char>, Seq<char>)>) -> bool {
    forall|i: int, j: int|
        0 <= i < j < es.len() ==> (#[trigger] es[i]).0 != (#[trigger] es[j]).0
}

/// The one-line serialization of a single entry.
pub open spec fn encode_entry_s(n: Seq<char>, p: Seq<char>) -> Seq<char> {
    n + seq![':'] + p + seq!['\n']
}

/// The serialization of an entry sequence: one line per entry, in order.
pub open spec fn encode_s(es: Seq<(Seq<char>, Seq<char>)>) -> Seq<char>
    decreases es.len(),
{
    if es.len() == 0 {
        Seq::empty()
    } else {
        encode_entry_s(es[0].0, es[0].1) + encode_s(es.drop_first())
    }
}

/// The raw parse of a text: the `(name, path)` pair of each non-empty line
/// in file order, duplicates not yet folded; `None` when some non-empty
/// line has no separator.
pub open spec fn parse_s(t: Seq<char>) -> Option<Seq<(Seq<char>, Seq<char>)>>
    decreases t.len(),
    via parse_s_decreases
{
    if t.len() == 0 {
        Some(Seq::empty())
    } else {
        let e = first_at(t, '\n', 0);
        let rest = if e < t.len() {
            t.subrange(e + 1, t.len() as int)
        } else {
            Seq::empty()
        };
        if e == 0 {
            parse_s(rest)
        } else {
            let line = t.subrange(0, e);
            let s = first_at(line, ':', 0);
            if s >= line.len() {
                None
            } else {
                match parse_s(rest) {
                    Some(r) => Some(
                        seq![(line.subrange(0, s), line.subrange(s + 1, line.len() as int))] + r,
                    ),
                    None => None,
                }
            }
        }
    }
}

#[via_fn]
proof fn parse_s_decreases(t: Seq<char>) {
    if t.len() > 0 {
        lemma_first_at_props(t, '\n', 0);
    }
}

/// Index of the entry named `n`, or `-1` if no entry carries that name.
pub open spec fn index_of_name(es: Seq<(Seq<char>, Seq<char>)>, n: Seq<char>) -> int
    decreases es.len(),
{
    if es.len() == 0 {
        -1
    } else if es[0].0 == n {
        0
    } else {
        let r = index_of_name(es.drop_first(), n);
        if r < 0 {
            -1
        } else {
            r + 1
        }
    }
}

/// `index_of_name` is `-1` exactly when the name is absent; otherwise it is
/// the first index carrying the name.
pub proof fn lemma_index_of_name(es: Seq<(Seq<char>, Seq<char>)>, n: Seq<char>)
    ensures
        -1 <= index_of_name(es, n) < es.len(),
        index_of_name(es, n) == -1 ==> forall|i: int| 0 <= i < es.len() ==> (#[trigger] es[i]).0 != n,
        index_of_name(es, n) >= 0 ==> es[index_of_name(es, n)].0 == n,
        forall|j: int| 0 <= j < index_of_name(es, n) ==> (#[trigger] es[j]).0 != n,
    decreases es.len(),
{
    if es.len() > 0 && es[0].0 != n {
        lemma_index_of_name(es.drop_first(), n);
        let d = es.drop_first();
        if index_of_name(es, n) == -1 {
            assert forall|i: int| 0 <= i < es.len() implies (#[trigger] es[i]).0 != n by {
                if i > 0 {
                    assert(d[i - 1] == es[i]);
                }
            }
        }
        assert forall|j: int| 0 <= j < index_of_name(es, n) implies (#[trigger] es[j]).0 != n by {
            if j > 0 {
                assert(d[j - 1] == es[j]);
            }
        }
    }
}

/// Binding `n` to `p` in an entry sequence: an entry named `n` keeps its
/// position and takes the new path; otherwise a new entry is appended.
pub open spec fn upsert_s(
    es: Seq<(Seq<char>, Seq<char>)>,
    n: Seq<char>,
    p: Seq<char>,
) -> Seq<(Seq<char>, Seq<char>)> {
    let k = index_of_name(es, n);
    if k < 0 {
        es.push((n, p))
    } else {
        es.update(k, (n, p))
    }
}

/// Folding raw parsed lines into a deduplicated entry sequence, in file
/// order: a later line for the same name overwrites the earlier path
/// (last-wins) while keeping the earlier position.
pub open spec fn fold_s(raw: Seq<(Seq<char>, Seq<char>)>) -> Seq<(Seq<char>, Seq<char>)>
    decreases raw.len(),
{
    if raw.len() == 0 {
        Seq::empty()
    } else {
        upsert_s(fold_s(raw.drop_last()), raw.last().0, raw.last().1)
    }
}

/// The mapping an entry sequence denotes; a later entry for a name
/// overrides an earlier one.
pub open spec fn map_of(es: Seq<(Seq<char>, Seq<char>)>) -> Map<Seq<char>, Seq<char>>
    decreases es.len(),
{
    if es.len() == 0 {
        Map::empty()
    } else {
        map_of(es.drop_last()).insert(es.last().0, es.last().1)
    }
}

/// The full decode: raw parse, then last-wins folding. `None` exactly when
/// some non-empty line has no separator.
pub open spec fn decode_s(t: Seq<char>) -> Option<Seq<(Seq<char>, Seq<char>)>> {
    match parse_s(t) {
        Some(raw) => Some(fold_s(raw)),
        None => None,
    }
}

/// Removing the entry named `n`, if any; other entries keep their order.
pub open spec fn remove_name_s(
    es: Seq<(Seq<char>, Seq<char>)>,
    n: Seq<char>,
) -> Seq<(Seq<char>, Seq<char>)> {
    let k = index_of_name(es, n);
    if k < 0 {
        es
    } else {
        es.remove(k)
    }
}

/// Appending one entry extends the mapping by that binding.
pub proof fn lemma_map_of_push(es: Seq<(Seq<char>, Seq<char>)>, n: Seq<char>, p: Seq<char>)
    ensures
        map_of(es.push((n, p))) == map_of(es).insert(n, p),
{
    assert(es.push((n, p)).drop_last() =~= es);
    assert(es.push((n, p)).last() == (n, p));
}

/// A name is in the mapping exactly when some entry carries it.
pub proof fn lemma_map_of_contains(es: Seq<(Seq<char>, Seq<char>)>, n: Seq<char>)
    ensures
        map_of(es).contains_key(n) <==> exists|i: int|
            0 <= i < es.len() && (#[trigger] es[i]).0 == n,
    decreases es.len(),
{
    if es.len() > 0 {
        lemma_map_of_contains(es.drop_last(), n);
        if map_of(es).contains_key(n) {
            if es.last().0 == n {
                assert(es[es.len() - 1].0 == n);
            } else {
                let i = choose|i: int|
                    0 <= i < es.drop_last().len() && (#[trigger] es.drop_last()[i]).0 == n;
                assert(es[i].0 == n);
            }
        }
        if exists|i: int| 0 <= i < es.len() && (#[trigger] es[i]).0 == n {
            let i = choose|i: int| 0 <= i < es.len() && (#[trigger] es[i]).0 == n;
            if i < es.len() - 1 {
                assert(es.drop_last()[i].0 == n);
            }
        }
    }
}

/// Updating the entry that carries `n` overwrites its binding in the
/// mapping, whatever its position.
proof fn lemma_map_of_update(es: Seq<(Seq<char>, Seq<char>)>, k: int, n: Seq<char>, p: Seq<char>)
    requires
        unique_names(es),
        0 <= k < es.len(),
        es[k].0 == n,
    ensures
        map_of(es.update(k, (n, p))) == map_of(es).insert(n, p),
    decreases es.len(),
{
    let u = es.update(k, (n, p));
    if k == es.len() - 1 {
        assert(u.drop_last() =~= es.drop_last());
        assert(u.last() == (n, p));
        assert(map_of(es.drop_last()).insert(es.last().0, es.last().1).insert(n, p)
            =~= map_of(es.drop_last()).insert(n, p));
    } else {
        assert(u.drop_last() =~= es.drop_last().update(k, (n, p)));
        assert(unique_names(es.drop_last()));
        assert(es.drop_last()[k] == es[k]);
        lemma_map_of_update(es.drop_last(), k, n, p);
        assert(u.last() == es.last());
        assert(es.last().0 != n);
        assert(map_of(es.drop_last()).insert(n, p).insert(es.last().0, es.last().1)
            =~= map_of(es.drop_last()).insert(es.last().0, es.last().1).insert(n, p));
    }
}

/// Upserting a binding keeps names unique and validity intact, and changes
/// the mapping by exactly that binding.
pub proof fn lemma_upsert(es: Seq<(Seq<char>, Seq<char>)>, n: Seq<char>, p: Seq<char>)
    requires
        unique_names(es),
    ensures
        unique_names(upsert_s(es, n, p)),
        valid_entries(es) && valid_name(n) && valid_path(p) ==> valid_entries(upsert_s(es, n, p)),
        map_of(upsert_s(es, n, p)) == map_of(es).insert(n, p),
{
    lemma_index_of_name(es, n);
    let k = index_of_name(es, n);
    let u = upsert_s(es, n, p);
    if k < 0 {
        assert forall|i: int, j: int| 0 <= i < j < u.len() implies (#[trigger] u[i]).0
            != (#[trigger] u[j]).0 by {
            if j < es.len() {
                assert(u[i] == es[i] && u[j] == es[j]);
            } else {
                assert(u[i] == es[i] && u[j] == (n, p));
            }
        }
        lemma_map_of_push(es, n, p);
        if valid_entries(es) && valid_name(n) && valid_path(p) {
            assert forall|i: int| 0 <= i < u.len() implies valid_name(#[trigger] u[i].0)
                && valid_path(u[i].1) by {
                if i < es.len() {
                    assert(u[i] == es[i]);
                }
            }
        }
    } else {
        assert forall|i: int| 0 <= i < u.len() implies (#[trigger] u[i]).0 == es[i].0 by {
            if i != k {
                assert(u[i] == es[i]);
            }
        }
        lemma_map_of_update(es, k, n, p);
        if valid_entries(es) && valid_name(n) && valid_path(p) {
            assert forall|i: int| 0 <= i < u.len() implies valid_name(#[trigger] u[i].0)
                && valid_path(u[i].1) by {
                if i != k {
                    assert(u[i] == es[i]);
                }
            }
        }
    }
}

/// The fold of any raw line sequence has unique names, inherits validity,
/// and denotes the same (last-wins) mapping as the raw lines.
pub proof fn lemma_fold_s(raw: Seq<(Seq<char>, Seq<char>)>)
    ensures
        unique_names(fold_s(raw)),
        valid_entries(raw) ==> valid_entries(fold_s(raw)),
        map_of(fold_s(raw)) == map_of(raw),
    decreases raw.len(),
{
    if raw.len() > 0 {
        let d = raw.drop_last();
        lemma_fold_s(d);
        if valid_entries(raw) {
            assert forall|i: int| 0 <= i < d.len() implies valid_name(#[trigger] d[i].0)
                && valid_path(d[i].1) by {
                assert(d[i] == raw[i]);
            }
            assert(valid_name(raw.last().0) && valid_path(raw.last().1));
        }
        lemma_upsert(fold_s(d), raw.last().0, raw.last().1);
    }
}

/// Folding a sequence whose names are already unique changes nothing.
pub proof fn lemma_fold_identity(es: Seq<(Seq<char>, Seq<char>)>)
    requires
        unique_names(es),
    ensures
        fold_s(es) == es,
    decreases es.len(),
{
    if es.len() > 0 {
        let d = es.drop_last();
        assert(unique_names(d));
        lemma_fold_identity(d);
        lemma_index_of_name(d, es.last().0);
        let k = index_of_name(d, es.last().0);
        if k >= 0 {
            assert(es[k].0 == es.last().0);
            assert(es[k].0 != es[es.len() - 1].0);
            assert(false);
        }
        assert(d.push(es.last()) =~= es);
    }
}

/// Removing the entry at `k` removes its name's binding from the mapping.
proof fn lemma_map_of_remove_at(es: Seq<(Seq<char>, Seq<char>)>, k: int)
    requires
        unique_names(es),
        0 <= k < es.len(),
    ensures
        map_of(es.remove(k)) == map_of(es).remove(es[k].0),
    decreases es.len(),
{
    let n = es[k].0;
    es.remove_ensures(k);
    if k == es.len() - 1 {
        assert(es.remove(k) =~= es.drop_last());
        lemma_map_of_contains(es.drop_last(), n);
        assert forall|i: int| 0 <= i < es.drop_last().len() implies (#[trigger] es.drop_last()[
            i]).0 != n by {
            assert(es.drop_last()[i] == es[i]);
            assert(es[i].0 != es[es.len() - 1].0);
        }
        assert(map_of(es.drop_last()).insert(n, es.last().1).remove(n)
            =~= map_of(es.drop_last()));
    } else {
        assert(es.remove(k).drop_last() =~= es.drop_last().remove(k));
        assert(unique_names(es.drop_last()));
        assert(es.drop_last()[k] == es[k]);
        lemma_map_of_remove_at(es.drop_last(), k);
        assert(es.remove(k).last() == es.last());
        assert(es.last().0 != n);
        assert(map_of(es.drop_last()).remove(n).insert(es.last().0, es.last().1)
            =~= map_of(es.drop_last()).insert(es.last().0, es.last().1).remove(n));
    }
}

/// Removing a name keeps the other entries (unique, valid, in order) and
/// removes exactly that binding from the mapping.
pub proof fn lemma_remove_name(es: Seq<(Seq<char>, Seq<char>)>, n: Seq<char>)
    requires
        unique_names(es),
    ensures
        unique_names(remove_name_s(es, n)),
        valid_entries(es) ==> valid_entries(remove_name_s(es, n)),
        map_of(remove_name_s(es, n)) == map_of(es).remove(n),
        index_of_name(es, n) >= 0 ==> remove_name_s(es, n).len() == es.len() - 1,
        index_of_name(es, n) < 0 ==> remove_name_s(es, n) == es,
{
    lemma_index_of_name(es, n);
    let k = index_of_name(es, n);
    if k < 0 {
        lemma_map_of_contains(es, n);
        assert(map_of(es).remove(n) =~= map_of(es));
    } else {
        let r = es.remove(k);
        es.remove_ensures(k);
        lemma_map_of_remove_at(es, k);
        assert forall|i: int, j: int| 0 <= i < j < r.len() implies (#[trigger] r[i]).0
            != (#[trigger] r[j]).0 by {
            let i0: int = if i < k { i } else { i + 1 };
            let j0: int = if j < k { j } else { j + 1 };
            assert(r[i] == es[i0] && r[j] == es[j0]);
        }
        if valid_entries(es) {
            assert forall|i: int| 0 <= i < r.len() implies valid_name(#[trigger] r[i].0)
                && valid_path(r[i].1) by {
                let i0: int = if i < k { i } else { i + 1 };
                assert(r[i] == es[i0]);
            }
        }
    }
}

/// Under unique names, the mapping sends each entry's name to its path.
pub proof fn lemma_map_of_index(es: Seq<(Seq<char>, Seq<char>)>, i: int)
    requires
        unique_names(es),
        0 <= i < es.len(),
    ensures
        map_of(es).contains_key(es[i].0),
        map_of(es)[es[i].0] == es[i].1,
    decreases es.len(),
{
    if i < es.len() - 1 {
        assert(unique_names(es.drop_last()));
        lemma_map_of_index(es.drop_last(), i);
        assert(es[i].0 != es.last().0);
    }
}

/// Whatever a raw parse yields has separator-free, newline-free names and
/// newline-free paths: the parsed pairs are always storable again.
pub proof fn lemma_parse_valid(t: Seq<char>)
    ensures
        parse_s(t) matches Some(raw) ==> valid_entries(raw),
    decreases t.len(),
{
    if t.len() > 0 {
        lemma_first_at_props(t, '\n', 0);
        let e = first_at(t, '\n', 0);
        let rest = if e < t.len() {
            t.subrange(e + 1, t.len() as int)
        } else {
            Seq::<char>::empty()
        };
        lemma_parse_valid(rest);
        if e > 0 {
            let line = t.subrange(0, e);
            lemma_first_at_props(line, ':', 0);
            let s = first_at(line, ':', 0);
            if s < line.len() && parse_s(rest) is Some {
                let name = line.subrange(0, s);
                let path = line.subrange(s + 1, line.len() as int);
                assert forall|j: int| 0 <= j < name.len() implies name[j] != ':' && name[j]
                    != '\n' by {
                    assert(name[j] == line[j]);
                    assert(line[j] == t[j]);
                }
                assert forall|j: int| 0 <= j < path.len() implies path[j] != '\n' by {
                    assert(path[j] == line[s + 1 + j]);
                    assert(line[s + 1 + j] == t[s + 1 + j]);
                }
                let r = parse_s(rest)->0;
                let raw = parse_s(t)->0;
                assert(raw == seq![(name, path)] + r);
                assert forall|i: int| 0 <= i < raw.len() implies valid_name(
                    #[trigger] raw[i].0,
                ) && valid_path(raw[i].1) by {
                    if i > 0 {
                        assert(raw[i] == r[i - 1]);
                    }
                }
            }
        }
    }
}

/// Parsing the encoding of storable entries recovers exactly those
/// entries, in order.
pub proof fn lemma_parse_encode(es: Seq<(Seq<char>, Seq<char>)>)
    requires
        valid_entries(es),
    ensures
        parse_s(encode_s(es)) == Some(es),
    decreases es.len(),
{
    if es.len() == 0 {
        assert(encode_s(es).len() == 0);
        assert(parse_s(encode_s(es)) == Some(Seq::<(Seq<char>, Seq<char>)>::empty()));
        assert(Seq::<(Seq<char>, Seq<char>)>::empty() =~= es);
    } else {
        let n0 = es[0].0;
        let p0 = es[0].1;
        assert(valid_name(n0) && valid_path(p0));
        let head = encode_entry_s(n0, p0);
        let tail = encode_s(es.drop_first());
        let t = head + tail;
        assert(encode_s(es) == t);
        let e: int = n0.len() as int + 1 + p0.len() as int;
        assert(head.len() == e + 1);
        assert(head[e] == '\n');
        assert(t[e] == '\n');
        assert forall|j: int| 0 <= j < e implies t[j] != '\n' by {
            assert(t[j] == head[j]);
            if j < n0.len() {
                assert(head[j] == n0[j]);
            } else if j == n0.len() {
                assert(head[j] == ':');
            } else {
                assert(head[j] == p0[j - n0.len() - 1]);
            }
        }
        lemma_first_at_is(t, '\n', 0, e);
        let line = t.subrange(0, e);
        assert(line =~= n0 + seq![':'] + p0);
        assert(line[n0.len() as int] == ':');
        assert forall|j: int| 0 <= j < n0.len() implies line[j] != ':' by {
            assert(line[j] == n0[j]);
        }
        lemma_first_at_is(line, ':', 0, n0.len() as int);
        let s = n0.len() as int;
        assert(line.subrange(0, s) =~= n0);
        assert(line.subrange(s + 1, line.len() as int) =~= p0);
        let rest = t.subrange(e + 1, t.len() as int);
        assert(rest =~= tail);
        assert forall|i: int| 0 <= i < es.drop_first().len() implies valid_name(
            #[trigger] es.drop_first()[i].0,
        ) && valid_path(es.drop_first()[i].1) by {
            assert(es.drop_first()[i] == es[i + 1]);
        }
        lemma_parse_encode(es.drop_first());
        assert(parse_s(t) == Some(seq![(n0, p0)] + es.drop_first()));
        assert(seq![(n0, p0)] + es.drop_first() =~= es);
    }
}

/// Parsing a concatenation whose first part is newline-terminated and
/// parseable splits into the parses of the parts.
pub proof fn lemma_parse_concat(a: Seq<char>, b: Seq<char>)
    requires
        a.len() == 0 || a.last() == '\n',
        parse_s(a) is Some,
    ensures
        parse_s(a + b) == match parse_s(b) {
            Some(r) => Some(parse_s(a)->0 + r),
            None => None::<Seq<(Seq<char>, Seq<char>)>>,
        },
    decreases a.len(),
{
    if a.len() == 0 {
        assert(a + b =~= b);
        if parse_s(b) is Some {
            assert(parse_s(a)->0 + parse_s(b)->0 =~= parse_s(b)->0);
        }
    } else {
        let t = a + b;
        lemma_first_at_props(a, '\n', 0);
        let e = first_at(a, '\n', 0);
        assert(e < a.len()) by {
            if e == a.len() {
                assert(a[a.len() - 1] != '\n');
            }
        }
        assert(t[e] == a[e]);
        assert forall|j: int| 0 <= j < e implies t[j] != '\n' by {
            assert(t[j] == a[j]);
        }
        lemma_first_at_is(t, '\n', 0, e);
        let arest = a.subrange(e + 1, a.len() as int);
        let trest = t.subrange(e + 1, t.len() as int);
        assert(trest =~= arest + b);
        assert(arest.len() == 0 || arest.last() == '\n') by {
            if arest.len() > 0 {
                assert(arest.last() == a.last());
            }
        }
        if e == 0 {
            assert(parse_s(a) == parse_s(arest));
            lemma_parse_concat(arest, b);
        } else {
            let line_a = a.subrange(0, e);
            let line_t = t.subrange(0, e);
            assert(line_t =~= line_a);
            let s = first_at(line_a, ':', 0);
            assert(s < line_a.len() && parse_s(arest) is Some) by {
                if s >= line_a.len() {
                    assert(parse_s(a) is None);
                }
            }
            lemma_parse_concat(arest, b);
            let h = (line_a.subrange(0, s), line_a.subrange(s + 1, line_a.len() as int));
            let ra = parse_s(arest)->0;
            assert(parse_s(a)->0 == seq![h] + ra);
            match parse_s(b) {
                Some(r) => {
                    assert(parse_s(trest)->0 == ra + r);
                    assert(seq![h] + (ra + r) =~= (seq![h] + ra) + r);
                },
                None => {},
            }
        }
    }
}

/// Round-trip law: a mapping whose (unique) names are separator-free and
/// newline-free and whose paths are newline-free decodes from its own
/// encoding unchanged, entry for entry.
pub proof fn lemma_round_trip(es: Seq<(Seq<char>, Seq<char>)>)
    requires
        unique_names(es),
        valid_entries(es),
    ensures
        decode_s(encode_s(es)) == Some(es),
{
    lemma_parse_encode(es);
    lemma_fold_identity(es);
}

/// Append-then-load-shadows law: appending a line binding `n` to `p1` and
/// then one binding `n` to `p2` to a decodable, newline-terminated text
/// leaves both lines physically in the text, yet the decoded mapping binds
/// `n` to `p2` and is otherwise unchanged (last-wins).
pub proof fn lemma_append_shadows(t: Seq<char>, n: Seq<char>, p1: Seq<char>, p2: Seq<char>)
    requires
        decode_s(t) is Some,
        t.len() == 0 || t.last() == '\n',
        valid_name(n),
        valid_path(p1),
        valid_path(p2),
    ensures
        ({
            let t2 = t + encode_entry_s(n, p1) + encode_entry_s(n, p2);
            &&& decode_s(t2) is Some
            &&& map_of(decode_s(t2)->0) == map_of(decode_s(t)->0).insert(n, p2)
        }),
{
    let e1 = encode_entry_s(n, p1);
    let e2 = encode_entry_s(n, p2);
    let t2 = t + e1 + e2;
    let es2 = seq![(n, p1), (n, p2)];
    assert(valid_entries(es2)) by {
        assert(es2[0] == (n, p1) && es2[1] == (n, p2));
    }
    lemma_parse_encode(es2);
    assert(encode_s(es2) =~= e1 + e2) by {
        assert(es2.drop_first() =~= seq![(n, p2)]);
        assert(seq![(n, p2)].drop_first() =~= Seq::<(Seq<char>, Seq<char>)>::empty());
        assert(encode_s(Seq::<(Seq<char>, Seq<char>)>::empty()) =~= Seq::<char>::empty());
        assert(encode_s(seq![(n, p2)]) =~= e2);
        assert(es2[0] == (n, p1));
    }
    lemma_parse_concat(t, e1 + e2);
    assert(t + (e1 + e2) =~= t2);
    let raw_t = parse_s(t)->0;
    let raw2 = parse_s(t2)->0;
    assert(raw2 == raw_t + es2);
    lemma_fold_s(raw2);
    assert(raw_t + es2 =~= raw_t.push((n, p1)).push((n, p2)));
    lemma_map_of_push(raw_t, n, p1);
    lemma_map_of_push(raw_t.push((n, p1)), n, p2);
    assert(map_of(raw_t).insert(n, p1).insert(n, p2) =~= map_of(raw_t).insert(n, p2));
    lemma_fold_s(raw_t);
}

/// Remove-heals-duplicates law: however many duplicate lines the backing
/// text holds for a name, removing any (present) name from the decoded
/// store and rewriting the file yields a text whose next decode is exactly
/// the rewritten store: one line per name, the removed binding gone and no
/// other binding changed.
pub proof fn lemma_remove_heals(t: Seq<char>, m: Seq<char>)
    requires
        decode_s(t) is Some,
    ensures
        ({
            let es = decode_s(t)->0;
            let es2 = remove_name_s(es, m);
            &&& unique_names(es2)
            &&& decode_s(encode_s(es2)) == Some(es2)
            &&& map_of(es2) == map_of(es).remove(m)
        }),
{
    let raw = parse_s(t)->0;
    lemma_parse_valid(t);
    lemma_fold_s(raw);
    let es = fold_s(raw);
    lemma_remove_name(es, m);
    lemma_round_trip(remove_name_s(es, m));
}

/// Serialization distributes over concatenation of entry sequences.
pub proof fn lemma_encode_concat(a: Seq<(Seq<char>, Seq<char>)>, b: Seq<(Seq<char>, Seq<char>)>)
    ensures
        encode_s(a + b) == encode_s(a) + encode_s(b),
    decreases a.len(),
{
    if a.len() == 0 {
        assert(a + b =~= b);
        assert(encode_s(a) + encode_s(b) =~= encode_s(b));
    } else {
        assert((a + b).drop_first() =~= a.drop_first() + b);
        assert((a + b)[0] == a[0]);
        lemma_encode_concat(a.drop_first(), b);
        assert(encode_entry_s(a[0].0, a[0].1) + (encode_s(a.drop_first()) + encode_s(b)) =~= (
        encode_entry_s(a[0].0, a[0].1) + encode_s(a.drop_first())) + encode_s(b));
    }
}

/// The raw parse of each non-empty line of `t`, as owned entries; fails
/// exactly when some non-empty line has no separator.
fn parse_lines(t: &str) -> (r: Result<Vec<Entry>, ParseError>)
    ensures
        match r {
            Ok(v) => parse_s(t@) == Some(entries_view(v@)),
            Err(e) => parse_s(t@) is None && e == ParseError::MalformedLine,
        },
    decreases t@.len(),
{
    let n = t.unicode_len();
    if n == 0 {
        let v: Vec<Entry> = Vec::new();
        proof {
            assert(entries_view(v@) =~= Seq::<(Seq<char>, Seq<char>)>::empty());
        }
        return Ok(v);
    }
    let e = find_char(t, 0, '\n');
    proof {
        lemma_first_at_props(t@, '\n', 0);
    }
    let rest: &str = if e < n {
        t.substring_char(e + 1, n)
    } else {
        t.substring_char(n, n)
    };
    proof {
        if e < n {
            assert(rest@ =~= t@.subrange(e as int + 1, t@.len() as int));
        } else {
            assert(rest@ =~= Seq::<char>::empty());
        }
    }
    if e == 0 {
        parse_lines(rest)
    } else {
        let line = t.substring_char(0, e);
        proof {
            assert(line@ =~= t@.subrange(0, e as int));
        }
        let s = find_char(line, 0, ':');
        proof {
            lemma_first_at_props(line@, ':', 0);
        }
        if s >= e {
            Err(ParseError::MalformedLine)
        } else {
            let name = String::from_str(line.substring_char(0, s));
            let path = String::from_str(line.substring_char(s + 1, e));
            let ghost gn = name@;
            let ghost gp = path@;
            match parse_lines(rest) {
                Err(er) => Err(er),
                Ok(mut v) => {
                    let ghost ov = v@;
                    v.insert(0, Entry { name, path });
                    proof {
                        ov.insert_ensures(0, v@[0]);
                        assert(entries_view(v@) =~= seq![(gn, gp)] + entries_view(ov));
                        assert(gn =~= line@.subrange(0, s as int));
                        assert(gp =~= line@.subrange(s as int + 1, line@.len() as int));
                    }
                    Ok(v)
                },
            }
        }
    }
}

/// Decode a backing file's full text into a well-formed store.
///
/// Succeeds exactly when every non-empty line of the text splits at a `:`;
/// otherwise the whole decode fails with `MalformedLine` and no partial
/// store is produced. Duplicate names fold last-wins.
pub fn decode(text: &str) -> (r: Result<Store, ParseError>)
    ensures
        match r {
            Ok(st) => st.wf() && valid_entries(st@) && decode_s(text@) == Some(st@),
            Err(e) => decode_s(text@) is None && e == ParseError::MalformedLine,
        },
{
    proof {
        lemma_parse_valid(text@);
        if parse_s(text@) is Some {
            lemma_fold_s(parse_s(text@)->0);
        }
    }
    match parse_lines(text) {
        Err(e) => Err(e),
        Ok(raw) => {
            let mut st = Store::empty();
            let n = raw.len();
            let mut i: usize = 0;
            proof {
                assert(entries_view(raw@).take(0) =~= Seq::<(Seq<char>, Seq<char>)>::empty());
            }
            while i < n
                invariant
                    0 <= i <= n,
                    n == raw@.len(),
                    st.wf(),
                    st@ == fold_s(entries_view(raw@).take(i as int)),
                decreases n - i,
            {
                let name = raw[i].name.clone();
                let path = raw[i].path.clone();
                st.upsert(name, path);
                proof {
                    let rv = entries_view(raw@);
                    assert(rv.take(i as int + 1).drop_last() =~= rv.take(i as int));
                    assert(rv.take(i as int + 1).last() == rv[i as int]);
                }
                i += 1;
            }
            proof {
                assert(entries_view(raw@).take(n as int) =~= entries_view(raw@));
            }
            Ok(st)
        },
    }
}

/// Serialize a store back to the backing file's full text: one
/// `name:path` line per entry, in stable store order.
pub fn encode(st: &Store) -> (r: String)
    ensures
        r@ == encode_s(st@),
{
    let entries = st.list();
    let mut out = String::new();
    let n = entries.len();
    let mut i: usize = 0;
    proof {
        assert(st@.take(0) =~= Seq::<(Seq<char>, Seq<char>)>::empty());
    }
    while i < n
        invariant
            0 <= i <= n,
            n == entries@.len(),
            entries_view(entries@) == st@,
            out@ == encode_s(st@.take(i as int)),
        decreases n - i,
    {
        out.append(entries[i].name.as_str());
        out.append(":");
        out.append(entries[i].path.as_str());
        out.append("\n");
        proof {
            reveal_strlit(":");
            reveal_strlit("\n");
            let ii = i as int;
            assert(st@.take(ii + 1) =~= st@.take(ii) + seq![st@[ii]]);
            lemma_encode_concat(st@.take(ii), seq![st@[ii]]);
            assert(seq![st@[ii]].drop_first() =~= Seq::<(Seq<char>, Seq<char>)>::empty());
            assert(encode_s(Seq::<(Seq<char>, Seq<char>)>::empty()) =~= Seq::<char>::empty());
            assert(encode_s(seq![st@[ii]]) =~= encode_entry_s(st@[ii].0, st@[ii].1));
            assert(st@[ii] == entries@[ii]@);
            assert(out@ =~= encode_s(st@.take(ii)) + encode_entry_s(st@[ii].0, st@[ii].1));
        }
        i += 1;
    }
    proof {
        assert(st@.take(n as int) =~= st@);
    }
    out
}

/// The single `name:path` line that an add appends to the backing file.
pub fn encode_line(name: &str, path: &str) -> (r: String)
    ensures
        r@ == encode_entry_s(name@, path@),
{
    let mut out = String::from_str(name);
    out.append(":");
    out.append(path);
    out.append("\n");
    proof {
        reveal_strlit(":");
        reveal_strlit("\n");
        assert(out@ =~= encode_entry_s(name@, path@));
    }
    out
}

} // verus!
