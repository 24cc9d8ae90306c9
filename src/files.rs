use vstd::prelude::*;
use vstd::multiset::Multiset;
use vstd::slice::slice_subrange;
use vstd::string::{StringExecFns, StringSliceAdditionalSpecFns};
use vstd::utf8::{
    encode_utf8, is_char_boundary, is_char_boundary_iff_not_is_continuation_byte,
    is_char_boundary_start_end_of_seq, valid_utf8,
};
use core::cmp::Ordering;

use crate::errors::Error;
use crate::keys::{compare_keys, lemma_lex_asymmetric, lemma_lex_transitive, lex_lt};

verus! {

broadcast use vstd::seq_lib::group_to_multiset_ensures;

/// The UTF-8 bytes of a path.
pub open spec fn path_bytes(p: String) -> Seq<u8> {
    encode_utf8(p@)
}

/// The position of the last byte `c` in `s`, or -1.
pub open spec fn last_pos(s: Seq<u8>, c: u8) -> int
    decreases s.len(),
{
    if s.len() == 0 {
        -1
    } else if s.last() == c {
        s.len() - 1
    } else {
        last_pos(s.drop_last(), c)
    }
}

/// The last component of a path: what follows its last `/`.
pub open spec fn file_name(p: Seq<u8>) -> Seq<u8> {
    p.skip(last_pos(p, 47u8) + 1)
}

/// Whether the file name of `p` has extension `ext`: it holds a `.` past its
/// first byte, and `ext` is what follows the last `.`.
pub open spec fn has_ext(p: Seq<u8>, ext: Seq<u8>) -> bool {
    let name = file_name(p);
    let d = last_pos(name, 46u8);
    d > 0 && name.skip(d + 1) == ext
}

proof fn lemma_last_pos_prefix(s: Seq<u8>, c: u8, i: int)
    requires
        0 <= i <= s.len(),
        forall|j: int| i <= j < s.len() ==> s[j] != c,
    ensures
        last_pos(s, c) == last_pos(s.subrange(0, i), c),
        -1 <= last_pos(s, c) < s.len(),
        last_pos(s, c) >= 0 ==> s[last_pos(s, c)] == c,
    decreases s.len(),
{
    if i == s.len() {
        assert(s.subrange(0, i) =~= s);
        if s.len() > 0 && s.last() != c {
            lemma_last_pos_prefix(s.drop_last(), c, s.len() - 1);
        }
    } else {
        assert(s.drop_last().subrange(0, i) =~= s.subrange(0, i));
        lemma_last_pos_prefix(s.drop_last(), c, i);
    }
}

/// The position of the last byte `c` in `s`.
fn last_position(s: &[u8], c: u8) -> (r: Option<usize>)
    ensures
        match r {
            Some(i) => last_pos(s@, c) == i && i < s@.len() && s@[i as int] == c,
            None => last_pos(s@, c) == -1,
        },
{
    let mut i: usize = s.len();
    while i > 0
        invariant
            0 <= i <= s@.len(),
            forall|j: int| i <= j < s@.len() ==> s@[j] != c,
        decreases i,
    {
        if s[i - 1] == c {
            proof {
                lemma_last_pos_prefix(s@, c, i as int);
                assert(s@.subrange(0, i as int).last() == c);
            }
            return Some(i - 1);
        }
        i -= 1;
    }
    proof {
        lemma_last_pos_prefix(s@, c, 0);
    }
    None
}

/// Whether the file name of `path` has extension `ext`.
pub fn has_extension(path: &str, ext: &str) -> (r: bool)
    ensures
        r == has_ext(encode_utf8(path@), encode_utf8(ext@)),
{
    let p = path.as_bytes();
    let e = ext.as_bytes();
    let start: usize = match last_position(p, 47u8) {
        Some(i) => {
            assert(i < p.len());
            i + 1
        },
        None => 0,
    };
    let name = slice_subrange(p, start, p.len());
    assert(name@ =~= file_name(p@));
    match last_position(name, 46u8) {
        Some(d) => {
            if d == 0 {
                return false;
            }
            let tail = slice_subrange(name, d + 1, name.len());
            assert(tail@ =~= name@.skip(d + 1));
            match compare_keys(tail, e) {
                Ordering::Equal => true,
                _ => false,
            }
        },
        None => false,
    }
}

/// Whether `a` goes before `b`: by ascending name, or by descending name when
/// `descending` holds.
pub open spec fn goes_before(a: Seq<u8>, b: Seq<u8>, descending: bool) -> bool {
    if descending {
        lex_lt(b, a)
    } else {
        lex_lt(a, b)
    }
}

/// Paths in the order that `descending` names: no path goes before one that
/// precedes it.
pub open spec fn sorted_paths(s: Seq<String>, descending: bool) -> bool {
    forall|i: int, j: int| 0 <= i < j < s.len() ==> !goes_before(path_bytes(#[trigger] s[j]), path_bytes(#[trigger] s[i]), descending)
}

proof fn lemma_goes_before_order(a: Seq<u8>, b: Seq<u8>, c: Seq<u8>, descending: bool)
    ensures
        goes_before(a, b, descending) ==> !goes_before(b, a, descending),
        goes_before(a, b, descending) && goes_before(b, c, descending) ==> goes_before(a, c, descending),
{
    if descending {
        if lex_lt(b, a) {
            lemma_lex_asymmetric(b, a);
        }
        if lex_lt(b, a) && lex_lt(c, b) {
            lemma_lex_transitive(c, b, a);
        }
    } else {
        if lex_lt(a, b) {
            lemma_lex_asymmetric(a, b);
        }
        if lex_lt(a, b) && lex_lt(b, c) {
            lemma_lex_transitive(a, b, c);
        }
    }
}

/// Whether path `a` goes before path `b`.
fn precedes(a: &String, b: &String, descending: bool) -> (r: bool)
    ensures
        r == goes_before(path_bytes(*a), path_bytes(*b), descending),
{
    match compare_keys(a.as_str().as_bytes(), b.as_str().as_bytes()) {
        Ordering::Less => !descending,
        Ordering::Greater => descending,
        Ordering::Equal => false,
    }
}

/// Sorts paths by name, ascending or descending. File names are decimal
/// microsecond timestamps, so ascending order is the order of creation.
pub fn sort_paths(paths: Vec<String>, descending: bool) -> (r: Vec<String>)
    ensures
        sorted_paths(r@, descending),
        r@.to_multiset() == paths@.to_multiset(),
{
    let mut out: Vec<String> = Vec::new();
    let mut rest = paths;
    let ghost all = rest@;
    while rest.len() > 0
        invariant
            sorted_paths(out@, descending),
            out@.to_multiset().add(rest@.to_multiset()) == all.to_multiset(),
        decreases rest@.len(),
    {
        let ghost before_rest = rest@;
        let x = rest.pop().unwrap();
        assert(before_rest =~= rest@.push(x));
        let mut pos: usize = 0;
        while pos < out.len() && !precedes(&x, &out[pos], descending)
            invariant
                0 <= pos <= out@.len(),
                forall|k: int| 0 <= k < pos ==> !goes_before(path_bytes(x), path_bytes(#[trigger] out@[k]), descending),
            decreases out@.len() - pos,
        {
            pos += 1;
        }
        let ghost old_out = out@;
        out.insert(pos, x);
        proof {
            let t = out@;
            assert forall|i: int, j: int| 0 <= i < j < t.len() implies !goes_before(path_bytes(#[trigger] t[j]), path_bytes(#[trigger] t[i]), descending) by {
                if j < pos {
                    assert(t[i] == old_out[i] && t[j] == old_out[j]);
                } else if j == pos {
                    assert(t[i] == old_out[i]);
                } else if i < pos {
                    assert(t[i] == old_out[i] && t[j] == old_out[j - 1]);
                } else if i == pos {
                    assert(t[j] == old_out[j - 1]);
                    let head = path_bytes(old_out[pos as int]);
                    lemma_goes_before_order(path_bytes(x), head, path_bytes(t[j]), descending);
                    lemma_goes_before_order(path_bytes(t[j]), path_bytes(x), head, descending);
                } else {
                    assert(t[i] == old_out[i - 1] && t[j] == old_out[j - 1]);
                }
            }
            assert(out@.to_multiset().add(rest@.to_multiset()) =~= all.to_multiset());
        }
    }
    assert(rest@.to_multiset() =~= Multiset::<String>::empty());
    assert(out@.to_multiset().add(Multiset::<String>::empty()) =~= out@.to_multiset());
    out
}

/// The paths of `s` whose file name has extension `ext`, in order.
pub open spec fn paths_with_ext(s: Seq<String>, ext: Seq<u8>) -> Seq<String>
    decreases s.len(),
{
    if s.len() == 0 {
        Seq::empty()
    } else {
        (if has_ext(path_bytes(s[0]), ext) {
            seq![s[0]]
        } else {
            Seq::empty()
        }) + paths_with_ext(s.drop_first(), ext)
    }
}

/// The paths of a directory listing of (path, size in bytes) whose file name
/// has extension `ext` and whose size is below `size`, in order.
pub open spec fn small_paths_with_ext(s: Seq<(String, u64)>, ext: Seq<u8>, size: u64) -> Seq<String>
    decreases s.len(),
{
    if s.len() == 0 {
        Seq::empty()
    } else {
        (if has_ext(path_bytes(s[0].0), ext) && s[0].1 < size {
            seq![s[0].0]
        } else {
            Seq::empty()
        }) + small_paths_with_ext(s.drop_first(), ext, size)
    }
}

/// The paths of a directory listing whose file name has extension `ext`.
pub fn get_files_with_ext(paths: Vec<String>, ext: &str) -> (r: Vec<String>)
    ensures
        r@ == paths_with_ext(paths@, encode_utf8(ext@)),
{
    let ghost all = paths@;
    let ghost e = encode_utf8(ext@);
    let mut rest = paths;
    let mut out: Vec<String> = Vec::new();
    assert(all.skip(all.len() as int) =~= Seq::<String>::empty());
    while rest.len() > 0
        invariant
            e == encode_utf8(ext@),
            rest@ == all.subrange(0, rest@.len() as int),
            rest@.len() <= all.len(),
            out@ == paths_with_ext(all.skip(rest@.len() as int), e),
        decreases rest@.len(),
    {
        let ghost k = rest@.len() - 1;
        let x = rest.pop().unwrap();
        assert(x == all[k]);
        assert(all.skip(k).drop_first() =~= all.skip(k + 1));
        assert(rest@ =~= all.subrange(0, k));
        assert(all.skip(k)[0] == all[k]);
        assert(paths_with_ext(all.skip(k), e) == (if has_ext(path_bytes(all[k]), e) {
            seq![all[k]]
        } else {
            Seq::empty()
        }) + paths_with_ext(all.skip(k + 1), e));
        let keep = has_extension(x.as_str(), ext);
        if keep {
            out.insert(0, x);
            assert(out@ =~= seq![all[k]] + paths_with_ext(all.skip(k + 1), e));
            assert(out@ == paths_with_ext(all.skip(k), e));
        } else {
            assert(out@ =~= Seq::<String>::empty() + paths_with_ext(all.skip(k + 1), e));
            assert(out@ == paths_with_ext(all.skip(k), e));
        }
    }
    assert(all.skip(0) =~= all);
    out
}

/// The paths of a directory listing of (path, size in bytes) whose file name
/// has extension `ext` and whose size is below `size`.
pub fn get_files_with_ext_and_size(listing: Vec<(String, u64)>, ext: &str, size: u64) -> (r: Vec<String>)
    ensures
        r@ == small_paths_with_ext(listing@, encode_utf8(ext@), size),
{
    let ghost all = listing@;
    let ghost e = encode_utf8(ext@);
    let mut rest = listing;
    let mut out: Vec<String> = Vec::new();
    assert(all.skip(all.len() as int) =~= Seq::<(String, u64)>::empty());
    while rest.len() > 0
        invariant
            e == encode_utf8(ext@),
            rest@ == all.subrange(0, rest@.len() as int),
            rest@.len() <= all.len(),
            out@ == small_paths_with_ext(all.skip(rest@.len() as int), e, size),
        decreases rest@.len(),
    {
        let ghost k = rest@.len() - 1;
        let x = rest.pop().unwrap();
        assert(x == all[k]);
        assert(all.skip(k).drop_first() =~= all.skip(k + 1));
        assert(rest@ =~= all.subrange(0, k));
        assert(all.skip(k)[0] == all[k]);
        assert(small_paths_with_ext(all.skip(k), e, size) == (if has_ext(path_bytes(all[k].0), e) && all[k].1 < size {
            seq![all[k].0]
        } else {
            Seq::empty()
        }) + small_paths_with_ext(all.skip(k + 1), e, size));
        let (path, len) = x;
        if has_extension(path.as_str(), ext) && len < size {
            out.insert(0, path);
            assert(out@ =~= seq![all[k].0] + small_paths_with_ext(all.skip(k + 1), e, size));
        } else {
            assert(out@ =~= Seq::<String>::empty() + small_paths_with_ext(all.skip(k + 1), e, size));
        }
    }
    assert(all.skip(0) =~= all);
    out
}

/// A path with its trailing separators and trailing `/.` components removed,
/// the way std's `Path` reads a path's last component; a lone `/` stays.
pub open spec fn trim_end(p: Seq<u8>) -> Seq<u8>
    decreases p.len(),
{
    if p.len() > 1 && p.last() == 47u8 {
        trim_end(p.drop_last())
    } else if p.len() >= 2 && p.last() == 46u8 && p[p.len() - 2] == 47u8 {
        trim_end(p.drop_last())
    } else {
        p
    }
}

/// Whether a path names a file: its last component, read as std's `Path`
/// reads it, is neither empty nor `.` nor `..`.
pub open spec fn names_file(p: Seq<u8>) -> bool {
    let name = file_name(trim_end(p));
    name.len() > 0 && name != seq![46u8] && name != seq![46u8, 46u8]
}

/// The directory part of a path as std's `Path::parent` gives it, joined with
/// the path's file name: `dir/name`, `/name` or `name`.
pub open spec fn rejoined_path(p: Seq<u8>) -> Seq<u8> {
    let t = trim_end(p);
    let s = last_pos(t, 47u8);
    let name = t.skip(s + 1);
    let parent = trim_end(t.subrange(0, s + 1));
    if parent.len() == 0 {
        name
    } else if parent.last() == 47u8 {
        parent + name
    } else {
        parent + seq![47u8] + name
    }
}

proof fn lemma_trim_end_prefix(p: Seq<u8>)
    ensures
        trim_end(p).len() <= p.len(),
        trim_end(p) == p.subrange(0, trim_end(p).len() as int),
        p.len() > 0 ==> trim_end(p).len() > 0,
        trim_end(p).len() > 1 ==> trim_end(p).last() != 47u8,
    decreases p.len(),
{
    if p.len() > 1 && p.last() == 47u8 {
        lemma_trim_end_prefix(p.drop_last());
        assert(p.drop_last().subrange(0, trim_end(p).len() as int) =~= p.subrange(0, trim_end(p).len() as int));
    } else if p.len() >= 2 && p.last() == 46u8 && p[p.len() - 2] == 47u8 {
        lemma_trim_end_prefix(p.drop_last());
        assert(p.drop_last().subrange(0, trim_end(p).len() as int) =~= p.subrange(0, trim_end(p).len() as int));
    } else {
        assert(p.subrange(0, p.len() as int) =~= p);
    }
}

/// The length of `trim_end` of the first `end` bytes of `p`; the bytes cut
/// off are all `/` or `.`.
fn trimmed_len(p: &[u8], end: usize) -> (r: usize)
    requires
        end <= p@.len(),
    ensures
        r <= end,
        p@.subrange(0, r as int) == trim_end(p@.subrange(0, end as int)),
        forall|j: int| r <= j < end ==> p@[j] == 47u8 || p@[j] == 46u8,
{
    let mut i = end;
    while i > 1 && (p[i - 1] == 47u8 || (p[i - 1] == 46u8 && p[i - 2] == 47u8))
        invariant
            i <= end <= p@.len(),
            trim_end(p@.subrange(0, end as int)) == trim_end(p@.subrange(0, i as int)),
            forall|j: int| i <= j < end ==> p@[j] == 47u8 || p@[j] == 46u8,
        decreases i,
    {
        assert(p@.subrange(0, i as int).drop_last() =~= p@.subrange(0, i - 1));
        i -= 1;
    }
    i
}

pub proof fn lemma_encode_utf8_concat(a: Seq<char>, b: Seq<char>)
    ensures
        encode_utf8(a + b) == encode_utf8(a) + encode_utf8(b),
    decreases a.len(),
{
    if a.len() == 0 {
        assert(a + b =~= b);
        assert(encode_utf8(a) + encode_utf8(b) =~= encode_utf8(b));
    } else {
        assert((a + b).drop_first() =~= a.drop_first() + b);
        lemma_encode_utf8_concat(a.drop_first(), b);
        assert((a + b)[0] == a[0]);
        assert(encode_utf8(a + b) =~= encode_utf8(a) + encode_utf8(b));
    }
}

/// A byte that is `/` or `.` starts a character.
proof fn lemma_ascii_boundary(bytes: Seq<u8>, i: int)
    requires
        valid_utf8(bytes),
        0 <= i <= bytes.len(),
        i < bytes.len() ==> (bytes[i] == 47u8 || bytes[i] == 46u8),
    ensures
        is_char_boundary(bytes, i),
{
    if i < bytes.len() {
        is_char_boundary_iff_not_is_continuation_byte(bytes, i);
    } else {
        is_char_boundary_start_end_of_seq(bytes);
    }
}

/// The characters of `path` whose bytes run from `from` to `to`.
fn substring(path: &str, from: usize, to: usize) -> (r: String)
    requires
        from <= to <= encode_utf8(path@).len(),
        0 < from < encode_utf8(path@).len() ==> (encode_utf8(path@)[from as int] == 47u8 || encode_utf8(path@)[from as int] == 46u8),
        to < encode_utf8(path@).len() ==> (encode_utf8(path@)[to as int] == 47u8 || encode_utf8(path@)[to as int] == 46u8),
    ensures
        encode_utf8(r@) == encode_utf8(path@).subrange(from as int, to as int),
{
    broadcast use vstd::utf8::encode_utf8_valid_utf8;

    let ghost b = encode_utf8(path@);
    proof {
        if from == 0 {
            is_char_boundary_start_end_of_seq(b);
        } else {
            lemma_ascii_boundary(b, from as int);
        }
    }
    let (_, rest) = path.split_at(from);
    proof {
        assert(rest.spec_bytes() =~= b.subrange(from as int, b.len() as int));
        lemma_ascii_boundary(rest.spec_bytes(), to - from);
    }
    let (piece, _) = rest.split_at(to - from);
    assert(piece.spec_bytes() =~= b.subrange(from as int, to as int));
    piece.to_string()
}

/// The path of the index file of the SSTable data file at `db_path`, beside
/// it: the data file's directory joined with its file name followed by
/// `.idx`. A path with no file name (`""`, `/`, `.`, `..`, `x/..`) gives
/// `InvalidPath`.
pub fn get_index_path(db_path: &str) -> (r: Result<String, Error>)
    ensures
        names_file(encode_utf8(db_path@)) ==> (r matches Ok(q) && encode_utf8(q@) == rejoined_path(encode_utf8(db_path@)) + encode_utf8(".idx"@)),
        !names_file(encode_utf8(db_path@)) ==> (r matches Err(Error::InvalidPath(q)) && q@ == db_path@),
{
    let p = db_path.as_bytes();
    let ghost b = p@;
    assert(b == encode_utf8(db_path@));
    let t_len = trimmed_len(p, p.len());
    assert(b.subrange(0, b.len() as int) =~= b);
    let t = slice_subrange(p, 0, t_len);
    let slash = last_position(t, 47u8);
    let start: usize = match slash {
        Some(i) => i + 1,
        None => 0,
    };
    let name = slice_subrange(t, start, t_len);
    assert(name@ =~= file_name(t@));
    let dot: [u8; 1] = [46u8];
    let dots: [u8; 2] = [46u8, 46u8];
    assert(dot@ =~= seq![46u8]);
    assert(dots@ =~= seq![46u8, 46u8]);
    let is_cur = match compare_keys(name, dot.as_slice()) {
        Ordering::Equal => true,
        _ => false,
    };
    let is_parent = match compare_keys(name, dots.as_slice()) {
        Ordering::Equal => true,
        _ => false,
    };
    if name.len() == 0 || is_cur || is_parent {
        return Err(Error::InvalidPath(db_path.to_string()));
    }
    let mut out = match slash {
        None => {
            assert(t@.skip(0) =~= t@);
            assert(t@.subrange(0, 0) =~= Seq::<u8>::empty());
            assert(trim_end(Seq::<u8>::empty()) == Seq::<u8>::empty());
            assert(rejoined_path(b) == t@);
            substring(db_path, 0, t_len)
        },
        Some(s) => {
            let parent_len = trimmed_len(p, s + 1);
            assert(t@.subrange(0, s + 1) =~= b.subrange(0, s + 1));
            assert(b.subrange(s as int, t_len as int) =~= seq![47u8] + name@);
            if parent_len == 1 && p[0] == 47u8 {
                assert(b.subrange(0, 1) =~= seq![47u8]);
                let r = substring(db_path, s, t_len);
                assert(seq![47u8] + name@ =~= b.subrange(0, 1) + name@);
                assert(rejoined_path(b) == b.subrange(0, 1) + name@);
                r
            } else {
                proof {
                    let head = b.subrange(0, s + 1);
                    if s == 0 {
                        assert(head =~= seq![47u8]);
                        assert(trim_end(head) == head);
                    }
                    assert(head.drop_last() =~= b.subrange(0, s as int));
                    assert(trim_end(head) == trim_end(b.subrange(0, s as int)));
                    lemma_trim_end_prefix(b.subrange(0, s as int));
                    assert(parent_len <= s);
                }
                let mut joined = substring(db_path, 0, parent_len);
                let tail = substring(db_path, s, t_len);
                let ghost jv = joined@;
                joined.append(tail.as_str());
                proof {
                    lemma_encode_utf8_concat(jv, tail@);
                    assert(b.subrange(0, parent_len as int) == trim_end(b.subrange(0, s + 1)));
                    assert(encode_utf8(joined@) =~= b.subrange(0, parent_len as int) + seq![47u8] + name@);
                    let parent = b.subrange(0, parent_len as int);
                    lemma_trim_end_prefix(b.subrange(0, s + 1));
                    assert(parent.len() == 1 ==> parent.last() == p@[0]);
                    assert(rejoined_path(b) == parent + seq![47u8] + name@);
                }
                joined
            }
        },
    };
    let ghost before = out@;
    out.append(".idx");
    proof {
        lemma_encode_utf8_concat(before, ".idx"@);
    }
    Ok(out)
}

} // verus!
