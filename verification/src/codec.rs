//! The on-disk text format: one entry per line, `name` and `path` joined by
//! the two-character delimiter `::`, lines separated by `\n`.
//!
//! [`spec_serialize`] and [`parse_lines`] are the mathematical definitions of
//! the format; [`serialize_entries`] and [`parse_content`] are the verified
//! executable codec.

use vstd::assert_seqs_equal;
use vstd::prelude::*;
use vstd::string::StrSliceExecFns;
use vstd::string::StringExecFns;

use crate::entry::{
    delim_at, entry_ok, find_index_upto, has_delim, models, names_unique, Entry, EntryModel,
};
use crate::errors::ParseError;

verus! {

/// The delimiter occurs in `line` at `i` and nowhere else.
pub open spec fn sole_delim_at(line: Seq<char>, i: int) -> bool {
    delim_at(line, i) && (forall|j: int| delim_at(line, j) ==> j == i)
}

/// `line` splits into a non-empty name and a non-empty path around a single
/// delimiter occurrence at `i`.
pub open spec fn line_split_at(line: Seq<char>, i: int) -> bool {
    sole_delim_at(line, i) && 0 < i && i + 2 < line.len()
}

/// A non-blank line is well-formed: exactly one delimiter occurrence, with
/// both sides non-empty.
pub open spec fn valid_line(line: Seq<char>) -> bool {
    exists|i: int| line_split_at(line, i)
}

/// The position of the delimiter of a well-formed line.
pub open spec fn line_delim_pos(line: Seq<char>) -> int {
    choose|i: int| line_split_at(line, i)
}

/// The entry a well-formed line denotes.
pub open spec fn line_entry(line: Seq<char>) -> EntryModel {
    EntryModel {
        name: line.subrange(0, line_delim_pos(line)),
        path: line.subrange(line_delim_pos(line) + 2, line.len() as int),
    }
}

/// Length of the first line of `s`: the index of the first `\n`, or the
/// length of `s` if there is none.
pub open spec fn line_len(s: Seq<char>) -> int
    decreases s.len(),
{
    if s.len() == 0 {
        0
    } else if s[0] == '\n' {
        0
    } else {
        1 + line_len(s.skip(1))
    }
}

/// `line_len(s)` is a position within `s`, no `\n` precedes it, and it lands
/// on a `\n` unless it is the end of `s`.
pub proof fn lemma_line_len_bounds(s: Seq<char>)
    ensures
        0 <= line_len(s) <= s.len(),
        forall|j: int| 0 <= j < line_len(s) ==> s[j] != '\n',
        line_len(s) < s.len() ==> s[line_len(s)] == '\n',
    decreases s.len(),
{
    if s.len() == 0 {
    } else if s[0] == '\n' {
    } else {
        lemma_line_len_bounds(s.skip(1));
        assert forall|j: int| 0 <= j < line_len(s) implies s[j] != '\n' by {
            if j > 0 {
                assert(s.skip(1)[j - 1] == s[j]);
            }
        }
        if line_len(s) < s.len() {
            assert(s.skip(1)[line_len(s) - 1] == s[line_len(s)]);
        }
    }
}

/// Any position `k` with no `\n` before it that lands on a `\n` (or on the
/// end of `s`) is `line_len(s)`.
pub proof fn lemma_line_len_at(s: Seq<char>, k: int)
    requires
        0 <= k <= s.len(),
        forall|j: int| 0 <= j < k ==> s[j] != '\n',
        k < s.len() ==> s[k] == '\n',
    ensures
        line_len(s) == k,
    decreases s.len(),
{
    if s.len() == 0 {
    } else if s[0] == '\n' {
        assert(k == 0);
    } else {
        assert(k > 0);
        assert forall|j: int| 0 <= j < k - 1 implies s.skip(1)[j] != '\n' by {
            assert(s.skip(1)[j] == s[j + 1]);
        }
        if k - 1 < s.skip(1).len() {
            assert(s.skip(1)[k - 1] == s[k]);
        }
        lemma_line_len_at(s.skip(1), k - 1);
    }
}

/// Parse the whole content into entries, line by line: blank lines are
/// skipped, any malformed line fails the whole parse. This is the meaning of
/// the persisted bytes; duplicate names are rejected separately, by
/// [`crate::entry::names_unique`].
pub open spec fn parse_lines(s: Seq<char>) -> Option<Seq<EntryModel>>
    decreases s.len(),
    via parse_lines_decreases
{
    if s.len() == 0 {
        Some(Seq::empty())
    } else {
        let k = line_len(s);
        let line = s.subrange(0, k);
        let rest = if k < s.len() {
            s.subrange(k + 1, s.len() as int)
        } else {
            Seq::<char>::empty()
        };
        let tail = parse_lines(rest);
        if line.len() == 0 {
            tail
        } else if valid_line(line) {
            match tail {
                Some(es) => Some(seq![line_entry(line)] + es),
                None => None,
            }
        } else {
            None
        }
    }
}

#[via_fn]
proof fn parse_lines_decreases(s: Seq<char>) {
    lemma_line_len_bounds(s);
}

/// The serialized form of one entry, without the trailing newline.
pub open spec fn entry_line(e: EntryModel) -> Seq<char> {
    e.name + seq![':', ':'] + e.path
}

/// The serialized form of a sequence of entries: one line per entry, each
/// terminated by `\n`, in sequence order.
pub open spec fn spec_serialize(es: Seq<EntryModel>) -> Seq<char>
    decreases es.len(),
{
    if es.len() == 0 {
        Seq::empty()
    } else {
        entry_line(es[0]) + seq!['\n'] + spec_serialize(es.skip(1))
    }
}

/// Serialization distributes over appending one entry at the end.
pub proof fn lemma_serialize_snoc(es: Seq<EntryModel>, e: EntryModel)
    ensures
        spec_serialize(es.push(e)) == spec_serialize(es) + entry_line(e) + seq!['\n'],
    decreases es.len(),
{
    let p = es.push(e);
    if es.len() == 0 {
        assert(p[0] == e);
        assert(p.skip(1) =~= Seq::<EntryModel>::empty());
        assert(p.len() == 1);
        assert(spec_serialize(p.skip(1)) == Seq::<char>::empty());
        assert(spec_serialize(p) == entry_line(e) + seq!['\n'] + spec_serialize(p.skip(1)));
        assert(spec_serialize(es) == Seq::<char>::empty());
        assert_seqs_equal!(spec_serialize(p) == spec_serialize(es) + entry_line(e) + seq!['\n']);
    } else {
        assert(p[0] == es[0]);
        assert(p.skip(1) =~= es.skip(1).push(e));
        lemma_serialize_snoc(es.skip(1), e);
        assert(spec_serialize(p) == entry_line(es[0]) + seq!['\n'] + spec_serialize(
            es.skip(1).push(e),
        ));
        assert(spec_serialize(es) == entry_line(es[0]) + seq!['\n'] + spec_serialize(es.skip(1)));
        assert_seqs_equal!(spec_serialize(p) == spec_serialize(es) + entry_line(e) + seq!['\n']);
    }
}

/// An entry that survives the round trip through the text form: non-empty
/// fields free of the delimiter and of newlines, with no stray `:` abutting
/// the delimiter (a name ending in `:`, or a path starting with `:`, would
/// put a second overlapping delimiter occurrence on the line).
pub open spec fn round_trippable(e: EntryModel) -> bool {
    &&& e.name.len() > 0
    &&& e.path.len() > 0
    &&& !has_delim(e.name)
    &&& !has_delim(e.path)
    &&& !e.name.contains('\n')
    &&& !e.path.contains('\n')
    &&& e.name[e.name.len() - 1] != ':'
    &&& e.path[0] != ':'
}

/// ROUND TRIP: parsing serialized entries reproduces exactly the same
/// entries in the same order. Together with [`spec_serialize`] being what
/// the store writes and [`parse_lines`] being what a load accepts, a store
/// of round-trippable entries with unique names reloads unchanged.
pub proof fn lemma_round_trip(es: Seq<EntryModel>)
    requires
        forall|i: int| 0 <= i < es.len() ==> round_trippable(#[trigger] es[i]),
    ensures
        parse_lines(spec_serialize(es)) == Some(es),
    decreases es.len(),
{
    if es.len() == 0 {
    } else {
        let e = es[0];
        let line = entry_line(e);
        let s = spec_serialize(es);
        let rest = spec_serialize(es.skip(1));
        let nl = e.name.len() as int;
        assert(round_trippable(e));
        assert(s == line + seq!['\n'] + rest);
        assert(line.len() == nl + 2 + e.path.len());
        assert forall|x: int| 0 <= x < nl implies line[x] == e.name[x] by {}
        assert(line[nl] == ':' && line[nl + 1] == ':');
        assert forall|x: int| nl + 2 <= x < line.len() implies line[x] == e.path[x - nl - 2] by {}
        assert forall|x: int| 0 <= x < line.len() implies line[x] != '\n' by {
            if x < nl {
                if e.name[x] == '\n' {
                    assert(e.name.contains('\n'));
                }
            } else if x >= nl + 2 {
                if e.path[x - nl - 2] == '\n' {
                    assert(e.path.contains('\n'));
                }
            }
        }
        assert forall|j: int| 0 <= j < line.len() implies s[j] == line[j] by {}
        assert(s[line.len() as int] == '\n');
        lemma_line_len_at(s, line.len() as int);
        assert(s.subrange(0, line.len() as int) =~= line);
        assert(s.subrange(line.len() as int + 1, s.len() as int) =~= rest);
        assert(delim_at(line, nl));
        assert forall|j: int| delim_at(line, j) implies j == nl by {
            if j + 2 <= nl {
                assert(line[j] == e.name[j] && line[j + 1] == e.name[j + 1]);
                assert(delim_at(e.name, j));
                assert(has_delim(e.name));
            } else if j == nl - 1 {
                assert(line[j] == e.name[nl - 1]);
            } else if j == nl + 1 {
                assert(line[j + 1] == e.path[0]);
            } else if j >= nl + 2 {
                assert(line[j] == e.path[j - nl - 2] && line[j + 1] == e.path[j - nl - 1]);
                assert(delim_at(e.path, j - nl - 2));
                assert(has_delim(e.path));
            }
        }
        assert(line_split_at(line, nl));
        assert(valid_line(line));
        let dp = line_delim_pos(line);
        assert(line_split_at(line, dp));
        assert(dp == nl);
        assert(line_entry(line).name =~= e.name);
        assert(line_entry(line).path =~= e.path);
        assert(line_entry(line) == e);
        assert forall|i: int|
            0 <= i < es.skip(1).len() implies round_trippable(#[trigger] es.skip(1)[i]) by {
            assert(es.skip(1)[i] == es[i + 1]);
        }
        lemma_round_trip(es.skip(1));
        assert(parse_lines(s) == Some(seq![e] + es.skip(1)));
        assert(seq![e] + es.skip(1) =~= es);
    }
}

/// PURGE: an emptied store serializes to zero-length content, so truncating
/// the backing file to zero length is exactly the rewrite of a purged store.
pub proof fn lemma_serialize_empty()
    ensures
        spec_serialize(Seq::<EntryModel>::empty()) == Seq::<char>::empty(),
{
}

/// Serialize the entries to the persisted text form: one `name::path` line
/// per entry, each terminated by `\n`, in sequence order.
pub fn serialize_entries(entries: &Vec<Entry>) -> (r: String)
    ensures
        r@ == spec_serialize(models(entries@)),
{
    let mut out: String = String::new();
    let mut i: usize = 0;
    proof {
        assert(models(entries@).take(0) =~= Seq::<EntryModel>::empty());
    }
    while i < entries.len()
        invariant
            i <= entries@.len(),
            out@ == spec_serialize(models(entries@).take(i as int)),
        decreases entries@.len() - i,
    {
        let e = &entries[i];
        out.append(e.name.as_str());
        out.append("::");
        out.append(e.path.as_str());
        out.append("\n");
        proof {
            reveal_strlit("::");
            reveal_strlit("\n");
            assert("::"@ =~= seq![':', ':']);
            assert("\n"@ =~= seq!['\n']);
            let m = models(entries@);
            lemma_serialize_snoc(m.take(i as int), m[i as int]);
            assert(m.take(i as int + 1) =~= m.take(i as int).push(m[i as int]));
            assert_seqs_equal!(out@ == spec_serialize(m.take(i as int + 1)));
        }
        i = i + 1;
    }
    proof {
        assert(models(entries@).take(entries@.len() as int) =~= models(entries@));
    }
    out
}

/// Position of the end of the line starting at `pos`: the first `\n` at or
/// after `pos`, or the end of the content.
fn next_line_end(content: &str, pos: usize) -> (k: usize)
    requires
        pos <= content@.len(),
    ensures
        pos <= k <= content@.len(),
        line_len(content@.skip(pos as int)) == k - pos,
        forall|j: int| pos <= j < k ==> content@[j] != '\n',
        k < content@.len() ==> content@[k as int] == '\n',
{
    let n = content.unicode_len();
    let mut k: usize = pos;
    while k < n && content.get_char(k) != '\n'
        invariant
            pos <= k <= n,
            forall|j: int| pos <= j < k ==> content@[j] != '\n',
        decreases n - k,
    {
        k = k + 1;
    }
    proof {
        let rem = content@.skip(pos as int);
        assert forall|j: int| 0 <= j < k - pos implies rem[j] != '\n' by {
            assert(rem[j] == content@[pos + j]);
        }
        if k < n {
            assert(rem[k - pos as int] == content@[k as int]);
        }
        lemma_line_len_at(rem, k - pos as int);
    }
    k
}

/// Scan `content[pos..k]` for occurrences of the delimiter: returns the
/// first two occurrence positions (absolute), if present.
fn scan_delims(content: &str, pos: usize, k: usize) -> (r: (Option<usize>, Option<usize>))
    requires
        pos <= k <= content@.len(),
    ensures
        ({
            let line = content@.subrange(pos as int, k as int);
            &&& (r.0 is None ==> r.1 is None && !has_delim(line))
            &&& (r.0 is Some ==> pos <= r.0.unwrap() && r.0.unwrap() + 2 <= k && delim_at(
                line,
                r.0.unwrap() - pos,
            ))
            &&& (r.0 is Some && r.1 is None ==> sole_delim_at(line, r.0.unwrap() - pos))
            &&& (r.1 is Some ==> r.0 is Some && r.0.unwrap() != r.1.unwrap() && delim_at(
                line,
                r.1.unwrap() - pos,
            ))
        }),
{
    let ghost line = content@.subrange(pos as int, k as int);
    let mut first: Option<usize> = None;
    let mut second: Option<usize> = None;
    if k - pos >= 2 {
        let mut idx: usize = pos;
        while idx < k - 1
            invariant
                pos + 2 <= k <= content@.len(),
                pos <= idx <= k - 1,
                line == content@.subrange(pos as int, k as int),
                first is None ==> second is None && forall|d: int|
                    0 <= d < idx - pos ==> !delim_at(line, d),
                first is Some ==> {
                    &&& pos <= first.unwrap()
                    &&& first.unwrap() < idx
                    &&& first.unwrap() + 2 <= k
                    &&& delim_at(line, first.unwrap() - pos)
                    &&& forall|d: int| 0 <= d < first.unwrap() - pos ==> !delim_at(line, d)
                },
                first is Some && second is None ==> forall|d: int|
                    first.unwrap() - pos < d < idx - pos ==> !delim_at(line, d),
                second is Some ==> {
                    &&& first is Some
                    &&& first.unwrap() < second.unwrap()
                    &&& second.unwrap() + 2 <= k
                    &&& delim_at(line, second.unwrap() - pos)
                },
            decreases k - idx,
        {
            let hit = content.get_char(idx) == ':' && content.get_char(idx + 1) == ':';
            proof {
                assert(line[idx - pos] == content@[idx as int]);
                assert(line[idx + 1 - pos as int] == content@[idx as int + 1]);
                assert(hit == delim_at(line, idx - pos));
            }
            if hit {
                if first.is_none() {
                    first = Some(idx);
                } else if second.is_none() {
                    second = Some(idx);
                }
            }
            idx = idx + 1;
        }
    }
    proof {
        if first is None {
            assert forall|d: int| !delim_at(line, d) by {
                if 0 <= d && d + 2 <= line.len() {
                    assert(!delim_at(line, d));
                }
            }
        }
        if first is Some && second is None {
            let f = first.unwrap() - pos;
            assert forall|d: int| delim_at(line, d) implies d == f by {
                if d < f {
                    assert(!delim_at(line, d));
                } else if d > f {
                    assert(d + 2 <= line.len());
                    assert(d < (k - 1 - pos));
                    assert(!delim_at(line, d));
                }
            }
        }
    }
    (first, second)
}

/// Every entry a successful parse returns has delimiter-free fields: a line
/// with exactly one delimiter occurrence cannot hide one inside either side.
pub proof fn lemma_parse_entries_ok(s: Seq<char>)
    requires
        parse_lines(s) is Some,
    ensures
        forall|i: int|
            0 <= i < parse_lines(s).unwrap().len() ==> entry_ok(
                #[trigger] parse_lines(s).unwrap()[i],
            ),
    decreases s.len(),
{
    if s.len() == 0 {
    } else {
        lemma_line_len_bounds(s);
        let k = line_len(s);
        let line = s.subrange(0, k);
        let rest = if k < s.len() {
            s.subrange(k + 1, s.len() as int)
        } else {
            Seq::<char>::empty()
        };
        assert(parse_lines(rest) is Some);
        lemma_parse_entries_ok(rest);
        let tail = parse_lines(rest).unwrap();
        if line.len() == 0 {
        } else {
            let dp = line_delim_pos(line);
            assert(line_split_at(line, dp));
            let e = line_entry(line);
            assert(!has_delim(e.name)) by {
                if has_delim(e.name) {
                    let d = choose|d: int| delim_at(e.name, d);
                    assert(e.name[d] == line[d]);
                    assert(e.name[d + 1] == line[d + 1]);
                    assert(delim_at(line, d));
                    assert(d == dp);
                }
            }
            assert(!has_delim(e.path)) by {
                if has_delim(e.path) {
                    let d = choose|d: int| delim_at(e.path, d);
                    assert(e.path[d] == line[dp + 2 + d]);
                    assert(e.path[d + 1] == line[dp + 2 + d + 1]);
                    assert(delim_at(line, dp + 2 + d));
                    assert(dp + 2 + d == dp);
                }
            }
            let whole = parse_lines(s).unwrap();
            assert(whole == seq![e] + tail);
            assert forall|i: int| 0 <= i < whole.len() implies entry_ok(#[trigger] whole[i]) by {
                if i == 0 {
                    assert(whole[0] == e);
                } else {
                    assert(whole[i] == tail[i - 1]);
                }
            }
        }
    }
}

/// Whether `s` contains the delimiter anywhere.
pub fn contains_delim(s: &String) -> (r: bool)
    ensures
        r == has_delim(s@),
{
    let n = s.as_str().unicode_len();
    let (first, _) = scan_delims(s.as_str(), 0, n);
    proof {
        assert(s@.subrange(0, n as int) =~= s@);
    }
    match first {
        Some(f) => {
            proof {
                assert(delim_at(s@, f as int));
            }
            true
        },
        None => false,
    }
}

/// `content[a..b]` is a whole line of `content`: bounded by `\n` (or by an
/// end of the content) on both sides, with no `\n` inside.
pub open spec fn is_line_of(content: Seq<char>, a: int, b: int) -> bool {
    &&& 0 <= a <= b <= content.len()
    &&& (a == 0 || content[a - 1] == '\n')
    &&& (b == content.len() || content[b] == '\n')
    &&& forall|j: int| a <= j < b ==> content[j] != '\n'
}

/// How an already-parsed prefix combines with the parse of the remaining
/// content.
spec fn opt_prepend(pre: Seq<EntryModel>, t: Option<Seq<EntryModel>>) -> Option<
    Seq<EntryModel>,
> {
    match t {
        Some(es) => Some(pre + es),
        None => None,
    }
}

/// Parse the content line by line, without checking names for uniqueness.
/// On failure returns the offending line.
#[verifier::rlimit(50)]
fn parse_entries(content: &str) -> (r: Result<Vec<Entry>, String>)
    ensures
        match r {
            Ok(es) => parse_lines(content@) == Some(models(es@)),
            Err(line) => {
                &&& parse_lines(content@) is None
                &&& !valid_line(line@)
                &&& line@.len() > 0
                &&& exists|a: int, b: int|
                    is_line_of(content@, a, b) && line@ == content@.subrange(a, b)
            },
        },
{
    let n = content.unicode_len();
    let mut out: Vec<Entry> = Vec::new();
    let mut pos: usize = 0;
    proof {
        assert(content@.skip(0) =~= content@);
        assert(models(out@) =~= Seq::<EntryModel>::empty());
        match parse_lines(content@) {
            Some(es) => {
                assert(Seq::<EntryModel>::empty() + es =~= es);
            },
            None => {},
        }
    }
    while pos < n
        invariant
            pos <= n,
            n == content@.len(),
            pos == n || pos == 0 || content@[pos as int - 1] == '\n',
            parse_lines(content@) == opt_prepend(
                models(out@),
                parse_lines(content@.skip(pos as int)),
            ),
        decreases n - pos,
    {
        let k = next_line_end(content, pos);
        let new_pos = if k < n {
            k + 1
        } else {
            k
        };
        let ghost rem = content@.skip(pos as int);
        let ghost line = content@.subrange(pos as int, k as int);
        let ghost rest = content@.skip(new_pos as int);
        proof {
            assert(rem.subrange(0, k - pos as int) =~= line);
            if k < n {
                assert(rem.subrange(k - pos as int + 1, rem.len() as int) =~= rest);
            } else {
                assert(rest =~= Seq::<char>::empty());
            }
        }
        if k == pos {
            // blank line: skipped
            proof {
                assert(line.len() == 0);
                assert(parse_lines(rem) == parse_lines(rest));
            }
            pos = new_pos;
        } else {
            let (first, second) = scan_delims(content, pos, k);
            let valid_at: Option<usize> = match (first, second) {
                (Some(f), None) => if pos < f && f + 2 < k {
                    Some(f)
                } else {
                    None
                },
                _ => None,
            };
            if let Some(f) = valid_at {
                let name = String::from_str(content.substring_char(pos, f));
                let path = String::from_str(content.substring_char(f + 2, k));
                let ghost out0 = out@;
                proof {
                    assert(line_split_at(line, f - pos));
                    assert(valid_line(line));
                    let dp = line_delim_pos(line);
                    assert(line_split_at(line, dp));
                    assert(dp == f - pos);
                    assert(name@ =~= line.subrange(0, dp));
                    assert(path@ =~= line.subrange(dp + 2, line.len() as int));
                    assert(line_entry(line) == EntryModel { name: name@, path: path@ });
                }
                out.push(Entry { name, path });
                proof {
                    let e1 = line_entry(line);
                    assert(models(out@) =~= models(out0).push(e1));
                    assert(parse_lines(rem) == match parse_lines(rest) {
                        Some(es) => Some(seq![e1] + es),
                        None => None::<Seq<EntryModel>>,
                    });
                    match parse_lines(rest) {
                        Some(t) => {
                            assert(models(out0) + (seq![e1] + t) =~= models(out0).push(e1) + t);
                        },
                        None => {},
                    }
                }
                pos = new_pos;
            } else {
                proof {
                    assert(!valid_line(line)) by {
                        if valid_line(line) {
                            let i = choose|i: int| line_split_at(line, i);
                            match (first, second) {
                                (None, _) => {
                                    assert(delim_at(line, i));
                                    assert(has_delim(line));
                                },
                                (Some(f), Some(g)) => {
                                    assert(f - pos == i);
                                    assert(g - pos == i);
                                },
                                (Some(f), None) => {
                                    assert(i == f - pos);
                                },
                            }
                        }
                    }
                    assert(parse_lines(rem) is None);
                    assert(is_line_of(content@, pos as int, k as int));
                }
                let line_str = String::from_str(content.substring_char(pos, k));
                proof {
                    assert(line_str@ == content@.subrange(pos as int, k as int));
                }
                return Err(line_str);
            }
        }
    }
    proof {
        assert(content@.skip(n as int) =~= Seq::<char>::empty());
        assert(models(out@) + Seq::<EntryModel>::empty() =~= models(out@));
    }
    Ok(out)
}

/// Parse the full persisted content into entries.
///
/// Succeeds exactly when every non-blank line is a well-formed `name::path`
/// line and no name occurs twice; blank lines are skipped and a trailing
/// newline is optional. On success the entries come back in file order.
pub fn parse_content(content: &str) -> (r: Result<Vec<Entry>, ParseError>)
    ensures
        ({
            let parsed = parse_lines(content@);
            match r {
                Ok(es) => {
                    &&& parsed == Some(models(es@))
                    &&& names_unique(models(es@))
                },
                Err(ParseError::MalformedLine(line)) => {
                    &&& parsed is None
                    &&& !valid_line(line@)
                    &&& line@.len() > 0
                    &&& exists|a: int, b: int|
                        is_line_of(content@, a, b) && line@ == content@.subrange(a, b)
                },
                Err(ParseError::DuplicateName(name)) => {
                    &&& parsed is Some
                    &&& !names_unique(parsed.unwrap())
                    &&& exists|a: int, b: int|
                        0 <= a < b < parsed.unwrap().len() && parsed.unwrap()[a].name == name@
                            && parsed.unwrap()[b].name == name@
                },
            }
        }),
{
    let entries = match parse_entries(content) {
        Ok(es) => es,
        Err(line) => {
            return Err(ParseError::MalformedLine(line));
        },
    };
    let mut i: usize = 0;
    while i < entries.len()
        invariant
            i <= entries@.len(),
            parse_lines(content@) == Some(models(entries@)),
            names_unique(models(entries@).take(i as int)),
        decreases entries@.len() - i,
    {
        if let Some(j) = find_index_upto(&entries, &entries[i].name, i) {
            let dup = entries[i].name.clone();
            proof {
                let m = models(entries@);
                let parsed = parse_lines(content@).unwrap();
                assert(parsed == m);
                assert(m[j as int] == entries@[j as int]@);
                assert(m[i as int] == entries@[i as int]@);
                assert(dup@ == entries@[i as int]@.name);
                assert(m[j as int].name == dup@ && m[i as int].name == dup@);
                assert(0 <= j < i < m.len());
                assert(!names_unique(m));
                assert(parsed[j as int].name == dup@ && parsed[i as int].name == dup@);
            }
            return Err(ParseError::DuplicateName(dup));
        }
        proof {
            let m = models(entries@);
            let t = m.take(i as int + 1);
            assert forall|a: int, b: int|
                0 <= a < b < t.len() implies (#[trigger] t[a]).name != (#[trigger] t[b]).name by {
                assert(t[a] == m[a]);
                assert(t[b] == m[b]);
                if b < i {
                    assert(m.take(i as int)[a] == m[a]);
                    assert(m.take(i as int)[b] == m[b]);
                    assert(m.take(i as int)[a].name != m.take(i as int)[b].name);
                } else {
                    assert(m[a] == entries@[a]@);
                    assert(m[i as int] == entries@[i as int]@);
                }
            }
            assert(names_unique(t));
        }
        i = i + 1;
    }
    proof {
        assert(models(entries@).take(entries@.len() as int) =~= models(entries@));
    }
    Ok(entries)
}

} // verus!
